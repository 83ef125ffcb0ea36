use zenoh_rx::config::{
    client, empty, peer, str_key_to_zn_key, Properties, ZN_ADD_TIMESTAMP_KEY, ZN_MODE_KEY,
    ZN_PEER_KEY,
};
use zenoh_rx::ext::{QoSType, ZExtBody};
use zenoh_rx::oam::Oam;

fn entry(p: &Properties, i: usize) -> (&str, &str) {
    (p.entries[i].0.as_str(), p.entries[i].1.as_str())
}

#[test]
fn empty_config_has_no_entries() {
    assert!(empty().entries.is_empty());
}

#[test]
fn peer_config_sets_mode() {
    let p = peer();
    assert_eq!(p.entries.len(), 1);
    assert_eq!(entry(&p, 0), ("mode", "peer"));
}

#[test]
fn default_config_is_peer() {
    let p = zenoh_rx::config::default();
    assert_eq!(p.entries.len(), 1);
    assert_eq!(entry(&p, 0), ("mode", "peer"));
}

#[test]
fn client_config_with_and_without_peer() {
    let c = client(Some("tcp/10.0.0.1:7447".to_owned()));
    assert_eq!(c.entries.len(), 2);
    assert_eq!(entry(&c, 0), ("mode", "client"));
    assert_eq!(entry(&c, 1), ("peer", "tcp/10.0.0.1:7447"));
    let c2 = client(None);
    assert_eq!(c2.entries.len(), 1);
    assert_eq!(entry(&c2, 0), ("mode", "client"));
}

#[test]
fn key_codes_match_case_insensitively() {
    assert_eq!(str_key_to_zn_key("mode"), Some(ZN_MODE_KEY));
    assert_eq!(str_key_to_zn_key("MODE"), Some(ZN_MODE_KEY));
    assert_eq!(str_key_to_zn_key("Peer"), Some(ZN_PEER_KEY));
    assert_eq!(str_key_to_zn_key("add_timestamp"), Some(ZN_ADD_TIMESTAMP_KEY));
    assert_eq!(str_key_to_zn_key("no_such_key"), None);
    assert_eq!(str_key_to_zn_key(""), None);
}

#[test]
fn zn_properties_split_values_and_drop_unknown_keys() {
    let mut p = empty();
    p.insert("peer".to_owned(), "tcp/a:1,tcp/b:2".to_owned());
    p.insert("riddle".to_owned(), "ignored".to_owned());
    p.insert("mode".to_owned(), "client".to_owned());
    let zn = p.to_zn_properties();
    assert_eq!(zn.len(), 3);
    assert_eq!(zn[0], (ZN_PEER_KEY, b"tcp/a:1".to_vec()));
    assert_eq!(zn[1], (ZN_PEER_KEY, b"tcp/b:2".to_vec()));
    assert_eq!(zn[2], (ZN_MODE_KEY, b"client".to_vec()));
}

#[test]
fn oam_can_be_built_and_drawn_at_random() {
    let o = Oam {
        id: 3,
        body: ZExtBody::Z64(17),
        ext_qos: QoSType { inner: 0 },
        ext_tstamp: None,
    };
    assert_eq!(o.id, 3);
    assert_eq!(o.body, ZExtBody::Z64(17));
    // The random constructor returns some message; its shape is one of
    // the three body kinds.
    let r = Oam::rand();
    match r.body {
        ZExtBody::Unit => {}
        ZExtBody::Z64(_) => {}
        ZExtBody::ZBuf(b) => assert!(b.len() < 8),
    }
}
