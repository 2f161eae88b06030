use qaul::addrs::{AddrTable, IpAddr};
use qaul::drivers::DriverMap;
use qaul::identity::Identity;
use qaul::utils::{be_bytes, random, VecUtils};

#[test]
fn addr_table_set_then_lookup() {
    let mut t = AddrTable::new();
    let a = IpAddr::V4(0x7f000001);
    let b = IpAddr::V6(1);
    assert_eq!(t.set(a), 1);
    assert_eq!(t.set(b), 2);
    assert_eq!(t.id(&a), Some(1));
    assert_eq!(t.id(&b), Some(2));
    assert_eq!(t.ip(1), Some(a));
    assert_eq!(t.ip(2), Some(b));
    assert_eq!(t.ip(3), None);
    assert_eq!(t.id(&IpAddr::V4(1)), None);
    assert_eq!(t.all(), vec![a, b]);
}

#[test]
fn addr_table_only_grows() {
    let mut t = AddrTable::new();
    let a = IpAddr::V4(10);
    assert_eq!(t.set(a), 1);
    assert_eq!(t.set(a), 2);
    assert_eq!(t.id(&a), Some(2));
    assert_eq!(t.ip(1), Some(a));
    assert_eq!(t.all(), vec![a, a]);
}

#[test]
fn driver_map_add_get_remove() {
    let mut m: DriverMap<&str> = DriverMap::new();
    assert_eq!(m.len(), 0);
    m.add("udp");
    m.add("tcp");
    m.add("udp");
    assert_eq!(m.len(), 3);
    assert_eq!(m.get(1), Some(&"tcp"));
    assert_eq!(m.remove(0), Some("udp"));
    assert_eq!(m.len(), 2);
    assert_eq!(m.get(0), Some(&"tcp"));
    assert_eq!(m.remove(5), None);
    assert_eq!(m.len(), 2);
    if let Some(e) = m.get_mut(1) {
        *e = "lo";
    }
    assert_eq!(m.get(1), Some(&"lo"));
    assert!(m.get_mut(2).is_none());
    assert_eq!(m.get(2), None);
}

#[test]
fn driver_map_add_then_remove_last() {
    let mut m: DriverMap<u32> = DriverMap::new();
    m.add(1);
    m.add(2);
    assert_eq!(m.remove(m.len() - 1), Some(2));
    assert_eq!(m.len(), 1);
    assert_eq!(m.get(0), Some(&1));
}

#[test]
fn be_bytes_is_big_endian() {
    assert_eq!(be_bytes(&vec![0x0102030405060708, 0xff]), vec![1, 2, 3, 4, 5, 6, 7, 8, 0, 0, 0, 0, 0, 0, 0, 0xff]);
    assert_eq!(be_bytes(&vec![]), Vec::<u8>::new());
}

#[test]
fn random_has_eight_bytes_per_word() {
    assert_eq!(random(0).len(), 0);
    assert_eq!(random(2).len(), 16);
    // two draws of 32 random bytes are equal only by a vanishing chance
    assert_ne!(random(4), random(4));
}

#[test]
fn vec_utils_strip_and_add() {
    let v = vec![1, 2, 1, 3];
    assert_eq!(v.strip(&1), vec![2, 3]);
    let v = vec![1, 2];
    assert_eq!(v.add(3), vec![1, 2, 3]);
    assert_eq!(Vec::<u8>::new().strip(&0), Vec::<u8>::new());
}

#[test]
fn identities() {
    assert_eq!(Identity::from_u128(5).id, 5);
    assert_ne!(Identity::random(), Identity::random());
}
