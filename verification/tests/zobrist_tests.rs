use xiangqi::zobrist::hash_keys;

#[test]
fn hash_keys_has_fifteen_rows_with_an_empty_row_seven() {
    let k = hash_keys();
    assert_eq!(k.len(), 1350);
    for pos in 0..90 {
        assert_eq!(k[7 * 90 + pos], 0);
    }
    assert!(k[..630].iter().any(|&x| x != 0));
    assert!(k[720..].iter().any(|&x| x != 0));
}

#[test]
fn hash_keys_are_the_same_each_time() {
    assert_eq!(hash_keys(), hash_keys());
}
