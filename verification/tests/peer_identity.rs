use mysticeti::{make_test_committee, AuthorityIndex, PeerIdentity};

#[test]
fn register_then_resolve() {
    let (committee, _) = make_test_committee();
    let mut ids = PeerIdentity::new(committee);
    assert_eq!(ids.authority_index(&[1u8; 32]), None);
    ids.register(&[1u8; 32], AuthorityIndex(3));
    ids.register(&[2u8; 32], AuthorityIndex(0));
    assert_eq!(ids.authority_index(&[1u8; 32]), Some(AuthorityIndex(3)));
    assert_eq!(ids.authority_index(&[2u8; 32]), Some(AuthorityIndex(0)));
    ids.register(&[1u8; 32], AuthorityIndex(2));
    assert_eq!(ids.authority_index(&[1u8; 32]), Some(AuthorityIndex(2)));
    assert_eq!(ids.authority_index(&[3u8; 32]), None);
}
