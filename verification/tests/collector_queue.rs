use qaul::collector::Collector;
use qaul::frame::{Frame, Recipient, SeqBuilder};
use qaul::identity::Identity;

#[test]
fn queue_one() {
    let (sender, recipient, id) = (Identity::random(), Identity::random(), Identity::random());
    // a payload that fits into one frame
    let mut seq = SeqBuilder::new(sender, Recipient::User(recipient), id)
        .add(vec![0, 1, 2, 3, 1, 3, 1, 2, 1, 3, 3, 7])
        .build();

    assert_eq!(seq.len(), 1);
    let frame = seq.remove(0);
    let seqid = id;

    let mut c = Collector::new();

    // There is one queued frame
    c.queue(frame);
    assert!(c.num_queued() == 1);

    // After we handle it, the sequence is done
    assert!(c.step());
    assert!(!c.step());

    // Now get the finished message
    assert!(c.completed().unwrap().id == seqid);
}

#[test]
fn queue_many() {
    let (sender, recipient, id) = (Identity::random(), Identity::random(), Identity::random());
    // the same payload cut into frames of at most 8 bytes
    let seq = SeqBuilder::new(sender, Recipient::User(recipient), id)
        .add(vec![0, 1, 2, 3, 1, 3, 1, 2])
        .add(vec![1, 3, 3, 7])
        .build();

    let seqid = id;
    let len = seq.len();
    assert_eq!(len, 2);

    let mut c = Collector::new();
    for f in seq {
        c.queue(f);
    }

    // There is n queued frames
    assert!(c.num_queued() == 2);

    // The first round leaves the sequence open, the second completes it
    assert!(c.step());
    assert!(c.num_completed() == 0);
    assert!(c.step());
    assert!(c.num_completed() == 1);

    // Now get the finished message
    let m = c.completed().unwrap();
    assert!(m.id == seqid);
    assert_eq!(m.payload, vec![0, 1, 2, 3, 1, 3, 1, 2, 1, 3, 3, 7]);
}

/// Queues `num` one-frame sequences, each under a fresh sequence id.
fn queue_test(num: usize) -> Collector {
    let (sender, recipient) = (Identity::random(), Identity::random());
    let mut col = Collector::new();
    for _ in 0..num {
        let seqid = Identity::random();
        let frame: Frame = SeqBuilder::new(sender, Recipient::User(recipient), seqid)
            .add(vec![1, 3, 1, 2])
            .build()
            .remove(0);
        col.queue(frame);
    }

    assert!(col.num_queued() == num);

    // Return the collector to be re-used
    col
}

#[test]
fn queue_1000() {
    queue_test(1000);
}

#[test]
fn queue_10000() {
    queue_test(10000);
}

fn queue_and_collect_test(num: usize) {
    let mut col = queue_test(num);
    col.finish_ingestion();
    assert_eq!(col.num_completed(), num);

    let mut vec = vec![];
    for _ in 0..num {
        vec.push(col.completed().unwrap());
    }

    assert!(vec.len() == num);
    assert!(col.completed().is_none());
}

#[test]
fn queue_and_collect_1000() {
    queue_and_collect_test(1000);
}

#[test]
fn queue_and_collect_10000() {
    queue_and_collect_test(10000);
}

#[test]
fn queue_and_collect_100000() {
    queue_and_collect_test(100000);
}
