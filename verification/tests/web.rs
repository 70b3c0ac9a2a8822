use rustracker::web::{clients_by_peer_count, content_type_for, has_suffix, top_limit};

#[test]
fn asset_content_types_follow_the_suffix() {
    assert_eq!(content_type_for(b"index-3f2a.js"), "application/javascript; charset=utf-8");
    assert_eq!(content_type_for(b"style.css"), "text/css; charset=utf-8");
    assert_eq!(content_type_for(b"font.woff2"), "font/woff2");
    assert_eq!(content_type_for(b"logo.png"), "image/png");
    assert_eq!(content_type_for(b"icon.svg"), "image/svg+xml");
    assert_eq!(content_type_for(b"data.bin"), "application/octet-stream");
    assert_eq!(content_type_for(b"js"), "application/octet-stream");
    assert_eq!(content_type_for(b""), "application/octet-stream");
}

#[test]
fn suffix_test_compares_the_tail() {
    assert!(has_suffix(b"abc.js", b".js"));
    assert!(has_suffix(b".js", b".js"));
    assert!(has_suffix(b"abc", b""));
    assert!(!has_suffix(b"abc.jsx", b".js"));
    assert!(!has_suffix(b"s", b".js"));
}

#[test]
fn top_limit_defaults_to_100_and_caps_at_500() {
    assert_eq!(top_limit(None), 100);
    assert_eq!(top_limit(Some(0)), 0);
    assert_eq!(top_limit(Some(42)), 42);
    assert_eq!(top_limit(Some(500)), 500);
    assert_eq!(top_limit(Some(501)), 500);
    assert_eq!(top_limit(Some(usize::MAX)), 500);
}

#[test]
fn client_list_is_sorted_by_peer_count() {
    let clients = [(1u8, 5u64), (2, 50), (3, 0), (4, 7)];
    let sorted = clients_by_peer_count(&clients);
    assert_eq!(sorted, vec![(2, 50), (4, 7), (1, 5), (3, 0)]);
    assert!(clients_by_peer_count(&[]).is_empty());
    let mut ties = clients_by_peer_count(&[(9, 3), (8, 3)]);
    ties.sort();
    assert_eq!(ties, vec![(8, 3), (9, 3)]);
}
