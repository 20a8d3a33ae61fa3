use raytracer::tokens::{find_next_token, get_v_index, is_keyword};

#[test]
fn next_token_skips_empty_ones() {
    let tokens = vec!["v", "", "", "1.0", "2.0"];
    assert_eq!(find_next_token(&tokens), 3);
    assert_eq!(find_next_token(&tokens[3..]), 1);
}

#[test]
fn next_token_at_end() {
    let tokens = vec!["f", "", ""];
    assert_eq!(find_next_token(&tokens), 3);
    let one = vec!["f"];
    assert_eq!(find_next_token(&one), 1);
    let none: Vec<&str> = Vec::new();
    assert_eq!(find_next_token(&none), 1);
}

#[test]
fn keywords_of_obj() {
    assert!(is_keyword("v"));
    assert!(is_keyword("f"));
    assert!(is_keyword("o"));
    assert!(!is_keyword("vn"));
    assert!(!is_keyword("usemtl"));
    assert!(!is_keyword(""));
    assert!(!is_keyword("x"));
}

#[test]
fn vertex_index_of_corner() {
    assert_eq!(get_v_index("12"), Some(12));
    assert_eq!(get_v_index("3/4/5"), Some(3));
    assert_eq!(get_v_index("7//2"), Some(7));
    assert_eq!(get_v_index("+8/1"), Some(8));
    assert_eq!(get_v_index("0"), Some(0));
}

#[test]
fn vertex_index_rejects_bad_text() {
    assert_eq!(get_v_index(""), None);
    assert_eq!(get_v_index("/3"), None);
    assert_eq!(get_v_index("a/3"), None);
    assert_eq!(get_v_index("-1"), None);
    assert_eq!(get_v_index("+"), None);
    assert_eq!(get_v_index("1x"), None);
    assert_eq!(get_v_index("99999999999999999999999"), None);
    assert_eq!(get_v_index("18446744073709551615"), Some(18446744073709551615usize));
    assert_eq!(get_v_index("18446744073709551616"), None);
}
