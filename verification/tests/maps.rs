use ssh_agent_mux::byte_map::ByteMap;
use ssh_agent_mux::known_keys::KnownPubKeys;
use ssh_agent_mux::proto::Identity;

fn id(key: &[u8]) -> Identity {
    Identity {
        pubkey: key.to_vec(),
        comment: String::new(),
    }
}

#[test]
fn byte_map_operations() {
    let mut m: ByteMap<u32> = ByteMap::new();
    assert!(!m.contains_key(b"a"));
    assert_eq!(m.get(b"a"), None);
    m.insert(b"a".to_vec(), 1);
    m.insert(b"b".to_vec(), 2);
    m.insert(b"c".to_vec(), 3);
    m.insert(b"b".to_vec(), 20);
    assert_eq!(m.get(b"a"), Some(&1));
    assert_eq!(m.get(b"b"), Some(&20));
    assert_eq!(m.remove(b"a"), Some(1));
    assert_eq!(m.remove(b"a"), None);
    assert_eq!(m.get(b"b"), Some(&20));
    assert_eq!(m.get(b"c"), Some(&3));
    *m.get_mut(b"c").unwrap() += 1;
    assert!(m.get_mut(b"a").is_none());
    assert_eq!(m.get(b"c"), Some(&4));
    m.clear();
    assert!(!m.contains_key(b"b"));
}

#[test]
fn known_keys_follow_the_last_record() {
    let mut known = KnownPubKeys::new();
    assert!(!known.contains_key(b"k1"));
    known.record(b"/a", &vec![id(b"k1"), id(b"k2"), id(b"k1")]);
    known.record(b"/b", &vec![id(b"k2"), id(b"k3")]);
    assert_eq!(known.get(b"k1"), Some(b"/a".to_vec()));
    assert_eq!(known.get(b"k2"), Some(b"/b".to_vec()));
    assert_eq!(known.get(b"k3"), Some(b"/b".to_vec()));
    assert_eq!(known.get(b"k4"), None);
    known.clear();
    assert_eq!(known.get(b"k1"), None);
}
