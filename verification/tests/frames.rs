use qaul::collector::Collector;
use qaul::frame::{join_frames, Frame, Recipient, SeqBuilder, SeqData};
use qaul::identity::Identity;

#[test]
fn join_frame_simple() {
    let sender = Identity::random();
    let resp = Identity::random();
    let seqid = Identity::random();

    let mut seq = SeqBuilder::new(sender, Recipient::User(resp), seqid)
        .add((0..10).into_iter().collect())
        .add((10..20).into_iter().collect())
        .add((20..30).into_iter().collect())
        .build();

    // The function expects a filling buffer
    let mut buf = vec![];

    assert!(join_frames(&mut buf, seq.remove(0)) == None);
    assert!(join_frames(&mut buf, seq.remove(1)) == None); // Insert out of order
    assert!(join_frames(&mut buf, seq.remove(0)).is_some());
}

#[test]
fn join_frames_in_order_async() {
    let (sender, recipient, seqid) = (Identity::random(), Identity::random(), Identity::random());
    let seq = SeqBuilder::new(sender, Recipient::User(recipient), seqid)
        .add(vec![0, 1, 2, 3])
        .add(vec![4, 5, 6, 7])
        .add(vec![8, 9, 10, 11])
        .add(vec![12, 13, 14, 15])
        .build();

    let mut collector = Collector::new();
    for frame in seq {
        collector.queue(frame);
    }
    assert_eq!(collector.in_progress(), 4);

    collector.finish_ingestion();
    assert_eq!(collector.in_progress(), 0);

    assert!(collector.has_completed_messages());
}

fn frame(num: u32, next: Option<u32>, seqid: Identity, payload: Vec<u8>) -> Frame {
    Frame {
        seq: SeqData { num, seqid, next },
        sender: Identity::from_u128(1),
        recipient: Recipient::Flood,
        payload,
    }
}

#[test]
fn build_numbers_and_links_frames() {
    let seqid = Identity::from_u128(7);
    let frames = SeqBuilder::new(Identity::from_u128(1), Recipient::Flood, seqid)
        .add(vec![1])
        .add(vec![2, 3])
        .add(vec![])
        .build();
    assert_eq!(frames.len(), 3);
    assert_eq!(frames[0].seq, SeqData { num: 0, seqid, next: Some(1) });
    assert_eq!(frames[1].seq, SeqData { num: 1, seqid, next: Some(2) });
    assert_eq!(frames[2].seq, SeqData { num: 2, seqid, next: None });
    assert_eq!(frames[1].payload, vec![2, 3]);
    assert_eq!(SeqBuilder::restore(&frames), vec![1, 2, 3]);
}

#[test]
fn join_reassembles_payload_in_number_order() {
    let seqid = Identity::from_u128(9);
    let mut buf = vec![];
    assert!(join_frames(&mut buf, frame(2, None, seqid, vec![5, 6])).is_none());
    assert!(join_frames(&mut buf, frame(0, Some(1), seqid, vec![1, 2])).is_none());
    let m = join_frames(&mut buf, frame(1, Some(2), seqid, vec![3, 4])).unwrap();
    assert_eq!(m.id, seqid);
    assert_eq!(m.sender, Identity::from_u128(1));
    assert_eq!(m.recipient, Recipient::Flood);
    assert_eq!(m.payload, vec![1, 2, 3, 4, 5, 6]);
    assert!(m.signature.is_empty());
    let nums: Vec<u32> = buf.iter().map(|f| f.seq.num).collect();
    assert_eq!(nums, vec![0, 1, 2]);
}

#[test]
fn join_waits_for_a_last_frame() {
    let seqid = Identity::from_u128(3);
    let mut buf = vec![];
    // frame 0 points to a successor, so the sequence is not complete
    assert!(join_frames(&mut buf, frame(0, Some(1), seqid, vec![1])).is_none());
}

#[test]
fn join_rejects_a_gap() {
    let seqid = Identity::from_u128(3);
    let mut buf = vec![];
    assert!(join_frames(&mut buf, frame(0, Some(1), seqid, vec![1])).is_none());
    // the last frame arrived, but frame 1 is missing
    assert!(join_frames(&mut buf, frame(2, None, seqid, vec![3])).is_none());
    assert_eq!(buf.len(), 2);
}

#[test]
fn join_sorts_stably() {
    let seqid = Identity::from_u128(3);
    let mut buf = vec![frame(1, Some(2), seqid, vec![9]), frame(0, Some(1), seqid, vec![8])];
    assert!(join_frames(&mut buf, frame(1, None, seqid, vec![7])).is_none());
    let payloads: Vec<Vec<u8>> = buf.iter().map(|f| f.payload.clone()).collect();
    assert_eq!(payloads, vec![vec![8], vec![9], vec![7]]);
}

#[test]
fn collector_delivers_interleaved_sequences() {
    let a = Identity::from_u128(100);
    let b = Identity::from_u128(200);
    let fa = SeqBuilder::new(Identity::from_u128(1), Recipient::Flood, a)
        .add(vec![1])
        .add(vec![2])
        .build();
    let fb = SeqBuilder::new(Identity::from_u128(2), Recipient::User(a), b)
        .add(vec![7])
        .build();
    let mut c = Collector::new();
    let mut fa = fa.into_iter();
    let second = fa.next().unwrap();
    let first = fa.next().unwrap();
    c.queue(first);
    c.queue(fb.into_iter().next().unwrap());
    c.queue(second);
    assert_eq!(c.queued(), 3);
    assert!(!c.has_completed_messages());

    assert!(c.step());
    assert!(!c.has_completed_messages());
    assert!(c.step());
    assert!(c.has_completed_messages());
    assert!(c.step());
    assert!(!c.step());

    let m1 = c.completed().unwrap();
    assert_eq!(m1.id, b);
    assert_eq!(m1.payload, vec![7]);
    let m2 = c.completed().unwrap();
    assert_eq!(m2.id, a);
    assert_eq!(m2.payload, vec![1, 2]);
    assert!(c.completed().is_none());
}
