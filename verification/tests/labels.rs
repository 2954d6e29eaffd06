use refgraph::label::base_name_start;

#[test]
fn base_name_begins_after_the_last_separator() {
    assert_eq!(base_name_start("dir/File.qst"), 4);
    assert_eq!(&"dir/File.qst"[base_name_start("dir/File.qst")..], "File.qst");
    assert_eq!(base_name_start("a/b/c/d.json"), 6);
    assert_eq!(base_name_start("/root"), 1);
}

#[test]
fn base_name_of_a_plain_or_empty_name() {
    assert_eq!(base_name_start("noslash"), 0);
    assert_eq!(base_name_start(""), 0);
    assert_eq!(base_name_start("trailing/"), 9);
    assert_eq!(&"trailing/"[base_name_start("trailing/")..], "");
}

#[test]
fn base_name_with_wide_characters() {
    let name = "d\u{e9}p\u{f4}t/\u{e9}t\u{e9}.json";
    assert_eq!(&name[base_name_start(name)..], "\u{e9}t\u{e9}.json");
}
