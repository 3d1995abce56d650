use tellus::addr::{IpAddr, SocketAddr};
use tellus::cluster::transport::{
    frame_len, identity_of, parse_identity, writes, SubjectName, TransportError, Writes,
    ASSEMBLED_WRITE_LIMIT,
};
use tellus::ids::{ActorId, NodeId, Nonce};

#[test]
fn an_identity_parses_dns_and_ip_sans() {
    let key = rcgen::KeyPair::generate().expect("key");
    let params = rcgen::CertificateParams::new(vec![
        "tellus".to_string(),
        "127.0.0.1".to_string(),
        "::1".to_string(),
    ])
    .expect("certificate parameters");
    let cert = params.self_signed(&key).expect("certificate");

    let identity = parse_identity(&vec![cert.der().to_vec()]);

    assert_eq!(identity.dns_names, vec!["tellus".to_string()]);
    assert_eq!(
        identity.ip_addresses,
        vec![IpAddr::V4(0x7F00_0001), IpAddr::V6(1)]
    );
}

#[test]
fn an_identity_without_ip_sans_is_empty_of_addresses() {
    let key = rcgen::KeyPair::generate().expect("key");
    let params = rcgen::CertificateParams::new(vec!["tellus".to_string()]).expect("parameters");
    let cert = params.self_signed(&key).expect("certificate");

    let identity = parse_identity(&vec![cert.der().to_vec()]);

    assert_eq!(identity.dns_names, vec!["tellus".to_string()]);
    assert!(identity.ip_addresses.is_empty());
}

#[test]
fn a_broken_chain_yields_an_empty_identity() {
    let identity = parse_identity(&vec![]);
    assert!(identity.dns_names.is_empty());
    assert!(identity.ip_addresses.is_empty());

    let identity = parse_identity(&vec![vec![0xff; 16]]);
    assert!(identity.dns_names.is_empty());
    assert!(identity.ip_addresses.is_empty());
}

#[test]
fn only_the_leaf_certificate_names_its_holder() {
    let key = rcgen::KeyPair::generate().expect("key");
    let cert = |name: &str| {
        rcgen::CertificateParams::new(vec![name.to_string()])
            .expect("parameters")
            .self_signed(&key)
            .expect("certificate")
            .der()
            .to_vec()
    };
    let identity = parse_identity(&vec![cert("leaf"), cert("issuer")]);
    assert_eq!(identity.dns_names, vec!["leaf".to_string()]);
}

#[test]
fn addresses_of_an_odd_length_are_left_out() {
    let identity = identity_of(&vec![
        SubjectName::Ip(vec![10, 0, 0, 1]),
        SubjectName::Ip(vec![1, 2, 3]),
        SubjectName::Dns("node".to_string()),
        SubjectName::Other,
        SubjectName::Ip(vec![0; 16]),
    ]);
    assert_eq!(
        identity.ip_addresses,
        vec![IpAddr::V4(0x0A00_0001), IpAddr::V6(0)]
    );
    assert_eq!(identity.dns_names, vec!["node".to_string()]);
}

#[test]
fn small_frames_are_written_at_once() {
    let small = vec![7; 3];
    match writes(&small) {
        Ok(Writes::Assembled(bytes)) => assert_eq!(bytes, [0, 0, 0, 3, 7, 7, 7]),
        other => panic!("not assembled: {other:?}"),
    }
    let large = vec![7; ASSEMBLED_WRITE_LIMIT + 1];
    match writes(&large) {
        Ok(Writes::Split(header)) => assert_eq!(header, [0, 0, 16, 1]),
        other => panic!("not split: {other:?}"),
    }
}

#[test]
fn a_frame_beyond_the_limit_is_refused() {
    assert_eq!(frame_len(&[0, 0, 1, 0], 256), Ok(256));
    assert_eq!(
        frame_len(&[0, 0, 1, 1], 256),
        Err(TransportError::FrameTooLarge { len: 257, max: 256 })
    );
}

#[test]
fn identities_are_fresh_and_incarnations_ascend() {
    let ids = (0..100).map(|_| ActorId::new()).collect::<Vec<_>>();
    for (at, id) in ids.iter().enumerate() {
        assert!(!ids[..at].contains(id));
    }
    let addr = SocketAddr::v4(127, 0, 0, 1, 1);
    let mut last = NodeId::new(addr);
    for _ in 0..100 {
        let next = NodeId::new(addr);
        assert!(last.incarnation().older_than(next.incarnation()));
        assert!(next.covers(last));
        assert!(!last.covers(next));
        last = next;
    }
    let elsewhere = NodeId::new(SocketAddr::v6(1, 1));
    assert!(!elsewhere.covers(last));
    assert_eq!(elsewhere.addr().ip(), IpAddr::V6(1));

    let mut next = u64::MAX;
    assert_eq!(Nonce::mint(&mut next), Nonce(u64::MAX));
    assert_eq!(Nonce::mint(&mut next), Nonce::first());
    assert_eq!(next, 1);
    assert_eq!(Nonce(9).as_u64(), 9);
}
