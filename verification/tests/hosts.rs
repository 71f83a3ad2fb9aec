use autohost::hosts::{extract_preamble, reconcile_content};

#[test]
fn update_example() {
    let content = b"1.2.3.4 other\n".to_vec();
    let fqdn = b"node1.local".to_vec();
    let ipv4 = b"10.0.0.5".to_vec();
    let out = reconcile_content(&content, &fqdn, &ipv4);
    assert_eq!(
        out,
        b"1.2.3.4 other\n# the following is generated by miniond\n10.0.0.5 node1.local\n".to_vec()
    );
}

#[test]
fn fresh_file_creation() {
    let content = Vec::new();
    let fqdn = b"node1.local".to_vec();
    let ipv4 = b"10.0.0.5".to_vec();
    let out = reconcile_content(&content, &fqdn, &ipv4);
    assert_eq!(
        out,
        b"# the following is generated by miniond\n10.0.0.5 node1.local\n".to_vec()
    );
}

#[test]
fn idempotent_with_same_identity() {
    let content = b"alpha\nbeta\n".to_vec();
    let fqdn = b"host.example.org".to_vec();
    let ipv4 = b"192.168.1.20".to_vec();
    let once = reconcile_content(&content, &fqdn, &ipv4);
    let twice = reconcile_content(&once, &fqdn, &ipv4);
    assert_eq!(twice, once);
}

#[test]
fn replaces_existing_managed_block() {
    let content =
        b"127.0.0.1 localhost\n# the following is generated by miniond\n9.9.9.9 old.name\n"
            .to_vec();
    let fqdn = b"new.name".to_vec();
    let ipv4 = b"10.1.2.3".to_vec();
    let out = reconcile_content(&content, &fqdn, &ipv4);
    assert_eq!(
        out,
        b"127.0.0.1 localhost\n# the following is generated by miniond\n10.1.2.3 new.name\n"
            .to_vec()
    );
}

#[test]
fn reconciling_with_new_identity_never_accumulates() {
    let content = b"127.0.0.1 localhost\n".to_vec();
    let first = reconcile_content(&content, &b"a.example".to_vec(), &b"10.0.0.1".to_vec());
    let second = reconcile_content(&first, &b"b.example".to_vec(), &b"10.0.0.2".to_vec());
    assert_eq!(
        second,
        b"127.0.0.1 localhost\n# the following is generated by miniond\n10.0.0.2 b.example\n"
            .to_vec()
    );
}

#[test]
fn preserves_multiline_preamble() {
    let content = b"# local names\n127.0.0.1 localhost\n::1 localhost\n".to_vec();
    let fqdn = b"n.example".to_vec();
    let ipv4 = b"10.0.0.9".to_vec();
    let out = reconcile_content(&content, &fqdn, &ipv4);
    assert_eq!(
        out,
        b"# local names\n127.0.0.1 localhost\n::1 localhost\n# the following is generated by miniond\n10.0.0.9 n.example\n"
            .to_vec()
    );
}

#[test]
fn unterminated_preamble_line_gains_newline() {
    let content = b"1.2.3.4 other".to_vec();
    let fqdn = b"node1.local".to_vec();
    let ipv4 = b"10.0.0.5".to_vec();
    let out = reconcile_content(&content, &fqdn, &ipv4);
    assert_eq!(
        out,
        b"1.2.3.4 other\n# the following is generated by miniond\n10.0.0.5 node1.local\n".to_vec()
    );
}

#[test]
fn marker_token_anywhere_in_a_line_ends_the_preamble() {
    let content = b"a b\nnote about miniond here\nc d\n".to_vec();
    let fqdn = b"x.example".to_vec();
    let ipv4 = b"10.0.0.7".to_vec();
    let out = reconcile_content(&content, &fqdn, &ipv4);
    assert_eq!(
        out,
        b"a b\n# the following is generated by miniond\n10.0.0.7 x.example\n".to_vec()
    );
}

#[test]
fn content_after_the_marker_is_discarded() {
    let content =
        b"kept\n# the following is generated by miniond\n1.1.1.1 stale\nalso stale\n".to_vec();
    let fqdn = b"fresh.example".to_vec();
    let ipv4 = b"10.0.0.8".to_vec();
    let out = reconcile_content(&content, &fqdn, &ipv4);
    assert_eq!(
        out,
        b"kept\n# the following is generated by miniond\n10.0.0.8 fresh.example\n".to_vec()
    );
}

#[test]
fn extract_preamble_without_marker_takes_everything() {
    let content = b"one\ntwo\n".to_vec();
    assert_eq!(extract_preamble(&content), b"one\ntwo\n".to_vec());
}

#[test]
fn extract_preamble_of_empty_content_is_empty() {
    let content = Vec::new();
    assert_eq!(extract_preamble(&content), Vec::<u8>::new());
}

#[test]
fn extract_preamble_stops_before_marker_line() {
    let content = b"one\n# the following is generated by miniond\n1.2.3.4 x\n".to_vec();
    assert_eq!(extract_preamble(&content), b"one\n".to_vec());
}

#[test]
fn extract_preamble_with_marker_on_first_line_is_empty() {
    let content = b"# the following is generated by miniond\n1.2.3.4 x\n".to_vec();
    assert_eq!(extract_preamble(&content), Vec::<u8>::new());
}
