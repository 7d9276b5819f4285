use simple_xml_builder::XMLElement;

#[test]
fn write_xml() {
    let mut root = XMLElement::new("root");
    let mut child1 = XMLElement::new("child1");
    let inner1 = XMLElement::new("inner");
    child1.add_child(inner1);
    let mut inner2 = XMLElement::new("inner");
    inner2.add_text("Example Text\nNew line");
    child1.add_child(inner2);
    root.add_child(child1);
    let mut child2 = XMLElement::new("child2");
    child2.add_attribute("at1", "test &");
    child2.add_attribute("at2", "test <");
    child2.add_attribute("at3", "test \"");
    let mut inner3 = XMLElement::new("inner");
    inner3.add_attribute("test", "example");
    child2.add_child(inner3);
    root.add_child(child2);
    let mut child3 = XMLElement::new("child3");
    child3.add_text("&< &");
    root.add_child(child3);
    let mut child4 = XMLElement::new("child4");
    child4.add_attribute("non-str-attribute", 5);
    child4.add_text(6);
    root.add_child(child4);

    let expected = r#"<?xml version = "1.0" encoding = "UTF-8"?>
<root>
	<child1>
		<inner />
		<inner>Example Text
New line</inner>
	</child1>
	<child2 at1="test &amp;" at2="test &lt;" at3="test &quot;">
		<inner test="example" />
	</child2>
	<child3>&amp;&lt; &amp;</child3>
	<child4 non-str-attribute="5">6</child4>
</root>
"#;
    assert_eq!(
        root.to_string(),
        expected,
        "Attempt to write XML did not give expected results."
    );
}

#[test]
#[should_panic]
fn add_text_to_parent_element() {
    let mut e = XMLElement::new("test");
    e.add_child(XMLElement::new("test"));
    e.add_text("example text");
}

#[test]
#[should_panic]
fn add_child_to_text_element() {
    let mut e = XMLElement::new("test");
    e.add_text("example text");
    e.add_child(XMLElement::new("test"));
}

#[test]
fn new_element_is_self_closing() {
    let e = XMLElement::new("name");
    assert_eq!(
        e.to_string(),
        "<?xml version = \"1.0\" encoding = \"UTF-8\"?>\n<name />\n"
    );
}

#[test]
fn self_closing_with_attribute() {
    let mut e = XMLElement::new("name");
    e.add_attribute("attr", "v");
    assert_eq!(
        e.to_string(),
        "<?xml version = \"1.0\" encoding = \"UTF-8\"?>\n<name attr=\"v\" />\n"
    );
}

#[test]
fn exact_forms_agree_with_general_forms() {
    let mut a = XMLElement::new("person");
    a.add_attribute("id", "2<3");
    a.add_text("Joe & Co");
    let mut b = XMLElement::with_name("person");
    b.add_attribute_str("id", "2<3");
    b.add_text_str("Joe & Co");
    assert_eq!(a, b);
    assert_eq!(
        b.to_string(),
        "<?xml version = \"1.0\" encoding = \"UTF-8\"?>\n<person id=\"2&lt;3\">Joe &amp; Co</person>\n"
    );
}

#[test]
fn format_from_the_interfaces() {
    let mut root = XMLElement::new("root");
    root.add_attribute("attr", "val");
    let mut child = XMLElement::new("child");
    child.add_text("text");
    root.add_child(child);
    root.add_child(XMLElement::new("empty"));
    assert_eq!(
        root.to_string(),
        "<?xml version = \"1.0\" encoding = \"UTF-8\"?>\n<root attr=\"val\">\n\t<child>text</child>\n\t<empty />\n</root>\n"
    );
}

#[test]
fn person_example() {
    let mut person = XMLElement::new("person");
    person.add_attribute("id", "232");
    let mut name = XMLElement::new("name");
    name.add_text("Joe Schmoe");
    person.add_child(name);
    let mut age = XMLElement::new("age");
    age.add_text(24);
    person.add_child(age);
    let hobbies = XMLElement::new("hobbies");
    person.add_child(hobbies);
    let mut sink: Vec<u8> = Vec::new();
    person.write(&mut sink);
    assert_eq!(
        String::from_utf8(sink).unwrap(),
        "<?xml version = \"1.0\" encoding = \"UTF-8\"?>\n<person id=\"232\">\n\t<name>Joe Schmoe</name>\n\t<age>24</age>\n\t<hobbies />\n</person>\n"
    );
}

#[test]
fn children_accumulate_in_call_order() {
    let mut root = XMLElement::new("r");
    for name in ["a", "b", "c", "d"] {
        assert!(root.accepts_child());
        root.add_child(XMLElement::new(name));
    }
    assert_eq!(
        root.to_string(),
        "<?xml version = \"1.0\" encoding = \"UTF-8\"?>\n<r>\n\t<a />\n\t<b />\n\t<c />\n\t<d />\n</r>\n"
    );
}

#[test]
fn what_an_element_accepts() {
    let mut e = XMLElement::new("e");
    assert!(e.accepts_child());
    assert!(e.accepts_text());
    e.add_attribute("k", "v");
    assert!(e.accepts_child());
    assert!(e.accepts_text());
    let mut with_child = e.clone();
    with_child.add_child(XMLElement::new("c"));
    assert!(with_child.accepts_child());
    assert!(!with_child.accepts_text());
    e.add_text("t");
    assert!(!e.accepts_child());
    assert!(!e.accepts_text());
}

#[test]
fn attributes_keep_insertion_order() {
    let mut e = XMLElement::new("e");
    e.add_attribute("zeta", 1);
    e.add_attribute("alpha", 2);
    e.add_attribute("mid", 3);
    assert_eq!(
        e.to_string(),
        "<?xml version = \"1.0\" encoding = \"UTF-8\"?>\n<e zeta=\"1\" alpha=\"2\" mid=\"3\" />\n"
    );
}

#[test]
fn overwritten_attribute_keeps_its_place() {
    let mut e = XMLElement::new("e");
    e.add_attribute("a", "1");
    e.add_attribute("b", "2");
    e.add_attribute("c", "3");
    e.add_attribute("a", "new & improved");
    e.add_attribute("b", 22);
    assert_eq!(
        e.to_string(),
        "<?xml version = \"1.0\" encoding = \"UTF-8\"?>\n<e a=\"new &amp; improved\" b=\"22\" c=\"3\" />\n"
    );
}

#[test]
fn attribute_names_are_not_escaped() {
    let mut e = XMLElement::new("a&b");
    e.add_attribute("k<", "v<");
    assert_eq!(
        e.to_string(),
        "<?xml version = \"1.0\" encoding = \"UTF-8\"?>\n<a&b k<=\"v&lt;\" />\n"
    );
}

#[test]
fn nesting_adds_one_tab_per_level() {
    let mut level3 = XMLElement::new("l3");
    level3.add_text("deep");
    let mut level2 = XMLElement::new("l2");
    level2.add_child(level3);
    let mut level1 = XMLElement::new("l1");
    level1.add_child(level2);
    let mut root = XMLElement::new("l0");
    root.add_child(level1);
    let text = root.to_string();
    let lines: Vec<&str> = text.lines().collect();
    assert_eq!(
        lines,
        vec![
            "<?xml version = \"1.0\" encoding = \"UTF-8\"?>",
            "<l0>",
            "\t<l1>",
            "\t\t<l2>",
            "\t\t\t<l3>deep</l3>",
            "\t\t</l2>",
            "\t</l1>",
            "</l0>",
        ]
    );
}

#[test]
fn text_is_written_on_one_line_with_its_newlines_kept() {
    let mut e = XMLElement::new("e");
    e.add_text("a\n\tb");
    let mut root = XMLElement::new("r");
    root.add_child(e);
    assert_eq!(
        root.to_string(),
        "<?xml version = \"1.0\" encoding = \"UTF-8\"?>\n<r>\n\t<e>a\n\tb</e>\n</r>\n"
    );
}

#[test]
fn text_with_attributes() {
    let mut e = XMLElement::new("e");
    e.add_attribute("k", "'v'");
    e.add_text("<>");
    assert_eq!(
        e.to_string(),
        "<?xml version = \"1.0\" encoding = \"UTF-8\"?>\n<e k=\"&apos;v&apos;\">&lt;&gt;</e>\n"
    );
}

#[test]
fn write_appends_the_utf8_bytes_of_the_document() {
    let mut e = XMLElement::new("gr\u{fc}\u{df}e");
    e.add_text("\u{4f60}\u{597d} \u{1f600}");
    let mut sink: Vec<u8> = vec![1, 2, 3];
    e.write(&mut sink);
    let text = e.to_string();
    assert_eq!(&sink[..3], &[1, 2, 3]);
    assert_eq!(&sink[3..], text.as_bytes());
    assert_eq!(
        text,
        "<?xml version = \"1.0\" encoding = \"UTF-8\"?>\n<gr\u{fc}\u{df}e>\u{4f60}\u{597d} \u{1f600}</gr\u{fc}\u{df}e>\n"
    );
}

#[test]
fn writing_does_not_change_the_tree() {
    let mut root = XMLElement::new("r");
    root.add_child(XMLElement::new("c"));
    let first = root.to_string();
    let second = root.to_string();
    assert_eq!(first, second);
    let mut sink = Vec::new();
    root.write(&mut sink);
    root.write(&mut sink);
    assert_eq!(sink, [first.as_bytes(), second.as_bytes()].concat());
}

#[test]
fn clone_is_an_equal_and_separate_tree() {
    let mut child = XMLElement::new("c");
    child.add_attribute("k", "v");
    child.add_text("t");
    let mut root = XMLElement::new("r");
    root.add_attribute("a", "1");
    root.add_attribute("b", "2");
    root.add_child(child);
    let mut copy = root.clone();
    assert_eq!(copy, root);
    assert_eq!(copy.to_string(), root.to_string());
    copy.add_attribute("a", "changed");
    copy.add_child(XMLElement::new("d"));
    assert_ne!(copy, root);
    assert_eq!(
        root.to_string(),
        "<?xml version = \"1.0\" encoding = \"UTF-8\"?>\n<r a=\"1\" b=\"2\">\n\t<c k=\"v\">t</c>\n</r>\n"
    );
    assert_eq!(
        copy.to_string(),
        "<?xml version = \"1.0\" encoding = \"UTF-8\"?>\n<r a=\"changed\" b=\"2\">\n\t<c k=\"v\">t</c>\n\t<d />\n</r>\n"
    );
}
