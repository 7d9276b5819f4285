use simple_xml_builder::escape_str;

#[test]
fn escapes_ampersand() {
    assert_eq!(escape_str("test &"), "test &amp;");
}

#[test]
fn escapes_less_than() {
    assert_eq!(escape_str("test <"), "test &lt;");
}

#[test]
fn escapes_double_quote() {
    assert_eq!(escape_str("test \""), "test &quot;");
}

#[test]
fn escapes_apostrophe_and_greater_than() {
    assert_eq!(escape_str("it's > that"), "it&apos;s &gt; that");
}

#[test]
fn escapes_all_five_in_place() {
    assert_eq!(
        escape_str("&\"'<>"),
        "&amp;&quot;&apos;&lt;&gt;"
    );
    assert_eq!(escape_str("a&b\"c'd<e>f"), "a&amp;b&quot;c&apos;d&lt;e&gt;f");
}

#[test]
fn leaves_other_text_alone() {
    assert_eq!(escape_str(""), "");
    assert_eq!(escape_str("plain text; 1 + 1 = 2"), "plain text; 1 + 1 = 2");
    assert_eq!(escape_str("\u{e9}t\u{e9} \u{1f600}\n\t"), "\u{e9}t\u{e9} \u{1f600}\n\t");
}

#[test]
fn escaped_text_is_escaped_again() {
    assert_eq!(escape_str("&amp;"), "&amp;amp;");
    assert_eq!(escape_str(&escape_str("<")), "&amp;lt;");
}

#[test]
fn entities_are_not_escaped_by_later_steps() {
    assert_eq!(escape_str("&&&"), "&amp;&amp;&amp;");
    assert_eq!(escape_str("<&>"), "&lt;&amp;&gt;");
}

#[test]
fn no_reserved_character_is_left_raw() {
    let inputs = ["& \" ' < >", "<<>>", "a&&b", "\"'\"'", "x<y&&y>z", "&lt;"];
    let entities = ["&amp;", "&quot;", "&apos;", "&lt;", "&gt;"];
    for input in inputs {
        let out = escape_str(input);
        for (i, c) in out.char_indices() {
            assert!(c != '"' && c != '\'' && c != '<' && c != '>');
            if c == '&' {
                assert!(entities.iter().any(|e| out[i..].starts_with(e)));
            }
        }
    }
}
