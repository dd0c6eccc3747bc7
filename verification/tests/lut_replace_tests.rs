use markup_escape::lut_replace;

#[test]
fn empty() {
    let inp = "";
    assert!(lut_replace(inp).is_none());
}

#[test]
fn no_change_test() {
    let inp = "abcdefgh";
    assert!(lut_replace(inp).is_none());
}

#[test]
fn middle() {
    assert_eq!(
        "abcd&amp;&gt;&lt;&#39;&#34;efgh",
        lut_replace("abcd&><'\"efgh").unwrap()
    );
}

#[test]
fn begin() {
    assert_eq!(
        "&amp;&gt;&lt;&#39;&#34;efgh",
        lut_replace("&><'\"efgh").unwrap()
    );
}

#[test]
fn end() {
    assert_eq!(
        "abcd&amp;&gt;&lt;&#39;&#34;",
        lut_replace("abcd&><'\"").unwrap()
    );
}

#[test]
fn no_change_large() {
    let inp = "abcdefgh".repeat(1024);
    assert!(lut_replace(inp.as_str()).is_none());
}

#[test]
fn middle_large() {
    assert_eq!(
        "abcd&amp;&gt;&lt;&#39;&#34;efgh".repeat(1024).as_str(),
        lut_replace("abcd&><'\"efgh".repeat(1024).as_str()).unwrap()
    );
}

#[test]
fn begin_large() {
    assert_eq!(
        "&amp;&gt;&lt;&#39;&#34;efgh".repeat(1024).as_str(),
        lut_replace("&><'\"efgh".repeat(1024).as_str()).unwrap()
    );
}

#[test]
fn end_large() {
    assert_eq!(
        "abcd&amp;&gt;&lt;&#39;&#34;".repeat(1024).as_str(),
        lut_replace("abcd&><'\"".repeat(1024).as_str()).unwrap()
    );
}
