use cronet_receiver::text::truncate_tag;

#[test]
fn short_tag_is_shown_whole() {
    assert_eq!(truncate_tag("app1|/api", 50), "app1|/api");
    assert_eq!(truncate_tag("abcde", 5), "abcde");
}

#[test]
fn long_tag_is_cut_with_dots() {
    assert_eq!(truncate_tag("abcdefgh", 3), "abc...");
    assert_eq!(truncate_tag("abc", 0), "...");
}

#[test]
fn cut_counts_bytes() {
    assert_eq!(truncate_tag("é键x", 2), "é...");
    assert_eq!(truncate_tag("é键x", 5), "é键...");
}
