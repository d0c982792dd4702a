use xml_check::scanner::{determine_xml, escapes_valid};

const NOTE_PROLOG: &str = "<?xml version=\"1.0\" encoding=\"UTF-8\"?>";

fn note(body: &str) -> String {
    format!("{}{}", NOTE_PROLOG, body)
}

#[test]
fn normal_case() {
    assert_eq!(true, determine_xml("<Design><Code>hello world</Code></Design>"));
}

#[test]
fn no_closing_tag() {
    assert_eq!(false, determine_xml("<Design><Code>hello world</Code></Design><People>"));
}

#[test]
fn non_corresponding_tags() {
    assert_eq!(
        false,
        determine_xml("<People><Design><Code>hello world</People></Code></Design>")
    );
}

#[test]
fn attribute_is_not_supported() {
    assert_eq!(false, determine_xml("<People age=\u{201d}1\u{201d}>hello world</People>"));
}

#[test]
fn w3c_example_1() {
    let input = note("<note><to>Tove</to><from>Jani</from> <heading>Reminder</heading><body>Don't forget me this weekend!</body></note>");
    assert_eq!(true, determine_xml(&input));
}

#[test]
fn w3c_example_2() {
    let input = note("<note><to>Tove</to><from>Jani</from><heading>Reminder</pheading><body>Don't forget me this weekend!</body></note>");
    assert_eq!(false, determine_xml(&input));
}

#[test]
fn w3c_example_3() {
    assert_eq!(false, determine_xml(NOTE_PROLOG));
}

#[test]
fn w3c_example_4() {
    assert_eq!(false, determine_xml("<p>This is a paragraph.</p><br />"));
}

#[test]
fn w3c_example_5() {
    assert_eq!(false, determine_xml("<b><i>This text is bold and italic</b></i>"));
}

#[test]
fn w3c_example_6() {
    assert_eq!(true, determine_xml("<b><i>This text is bold and italic</i></b>"));
}

#[test]
fn w3c_example_7() {
    assert_eq!(false, determine_xml("<message>salary < 1000</message>"));
}

#[test]
fn w3c_example_7a() {
    assert_eq!(true, determine_xml("<message>salary > 1000</message>"));
}

#[test]
fn w3c_example_8() {
    assert_eq!(true, determine_xml("<message>salary &lt; 1000</message>"));
}

#[test]
fn w3c_example_8a() {
    assert_eq!(false, determine_xml("<message>salary & 1000</message>"));
}

#[test]
fn w3c_example_8b() {
    assert_eq!(true, determine_xml("<message>salary ' \"  1000</message>"));
}

#[test]
fn w3c_example_8c() {
    assert_eq!(false, determine_xml("<message>salary &lt; & 1000</message>"));
}

#[test]
fn w3c_example_1_with_comment() {
    let input = note("<note><to>To<!-- czxc & < -->ve</to><from>Jani</from> <heading>Reminder</heading><body>Don't forget me this weekend!</body></note>");
    assert_eq!(true, determine_xml(&input));
}

#[test]
fn w3c_example_1_with_wrong_comment() {
    let input = note("<note<!-- czxc & < -->><to>Tove</to><from>Jani</from> <heading>Reminder</heading><body>Don't forget me this weekend!</body></note>");
    assert_eq!(false, determine_xml(&input));
}

#[test]
fn w3c_example_1_with_leading_spaces() {
    let input = format!("    {}", note("<note><to>Tove</to><from>Jani</from> <heading>Reminder</heading><body>Don't forget me this weekend!</body></note>"));
    assert_eq!(true, determine_xml(&input));
}

#[test]
fn w3c_example_1_with_trailing_spaces() {
    let input = format!("{}    ", note("<note><to>Tove</to><from>Jani</from> <heading>Reminder</heading><body>Don't forget me this weekend!</body></note>"));
    assert_eq!(true, determine_xml(&input));
}

#[test]
fn w3c_example_1_with_spaces_in_front_of_first_tag() {
    let input = note("    <note><to>Tove</to><from>Jani</from> <heading>Reminder</heading><body>Don't forget me this weekend!</body></note>");
    assert_eq!(true, determine_xml(&input));
}

#[test]
fn empty_string() {
    assert_eq!(false, determine_xml(""));
}

#[test]
fn same_characters_same_verdict() {
    let a = String::from("<a>x</a>");
    let b: String = ['<', 'a', '>', 'x', '<', '/', 'a', '>'].iter().collect();
    assert_eq!(determine_xml(&a), determine_xml(&b));
    assert_eq!(determine_xml(&a), determine_xml(&a));
}

#[test]
fn closing_order_must_mirror_opening_order() {
    assert_eq!(false, determine_xml("<a><b></a></b>"));
    assert_eq!(true, determine_xml("<a><b></b></a>"));
}

#[test]
fn every_open_tag_needs_its_close() {
    assert_eq!(false, determine_xml("<a><b></b>"));
    assert_eq!(false, determine_xml("</a>"));
    assert_eq!(false, determine_xml("<a></a></a>"));
    assert_eq!(false, determine_xml("<a></A>"));
    assert_eq!(false, determine_xml("<a></a >"));
}

#[test]
fn comment_body_is_not_scanned() {
    assert_eq!(true, determine_xml("<a><!-- <b & --></a>"));
    assert_eq!(true, determine_xml("<a><!-- &bogus; <<< --></a>"));
    assert_eq!(true, determine_xml("<a><!----></a>"));
}

#[test]
fn comment_with_gt_in_body_ends_the_tag_early() {
    // The first `>` ends the tag `<!-- <b>`; the scan then resumes after the
    // `-->`, but that tag still holds a `<` and is rejected.
    assert_eq!(false, determine_xml("<a><!-- <b> & --></a>"));
}

#[test]
fn comment_split_at_gt_still_pushes_its_text() {
    // `<!-- x>` is not a whole comment: the scan skips to after `-->` and the
    // tag's text is pushed as an open name, which nothing closes.
    assert_eq!(false, determine_xml("<a><!-- x> y --></a>"));
}

#[test]
fn unterminated_comment() {
    assert_eq!(false, determine_xml("<a><!-- x> y</a>"));
}

#[test]
fn design_code_scenarios() {
    assert_eq!(true, determine_xml("<Design><Code>hello world</Code></Design>"));
    assert_eq!(false, determine_xml("<Design><Code>hello world</Code></Design><People>"));
    assert_eq!(
        false,
        determine_xml("<People><Design><Code>hello world</People></Code></Design>")
    );
}

#[test]
fn salary_scenarios() {
    assert_eq!(false, determine_xml("<message>salary < 1000</message>"));
    assert_eq!(true, determine_xml("<message>salary &lt; 1000</message>"));
}

#[test]
fn leading_whitespace_before_prolog_is_tolerated() {
    assert_eq!(true, determine_xml("   <?xml version=\"1.0\"?><a></a>"));
}

#[test]
fn leading_whitespace_without_prolog_is_rejected() {
    assert_eq!(false, determine_xml(" <a></a>"));
    assert_eq!(false, determine_xml("x<a></a>"));
}

#[test]
fn trailing_text_without_prolog_is_rejected() {
    assert_eq!(false, determine_xml("<a></a> "));
    assert_eq!(false, determine_xml("<a></a>x"));
}

#[test]
fn prolog_trim_uses_unicode_whitespace() {
    assert_eq!(true, determine_xml("<?xml?>\u{3000}\n<a></a>\u{a0}"));
    assert_eq!(false, determine_xml("<?xml?> \t\n "));
}

#[test]
fn prolog_only_first() {
    assert_eq!(false, determine_xml("<a><?xml?></a>"));
    assert_eq!(false, determine_xml("<?xml?><?xml?><a></a>"));
}

#[test]
fn prolog_shape_needs_question_marks_apart() {
    // `<?>` is no prolog: it becomes the first element tag and stays open.
    assert_eq!(false, determine_xml("<?><a></a>"));
    assert_eq!(true, determine_xml("<??><a></a>"));
}

#[test]
fn text_without_tags_is_invalid() {
    assert_eq!(false, determine_xml("hello"));
    assert_eq!(false, determine_xml("<a"));
}

#[test]
fn multibyte_names_and_text() {
    assert_eq!(true, determine_xml("<\u{e9}t\u{e9}>caf\u{e9} &amp; th\u{e9}</\u{e9}t\u{e9}>"));
    assert_eq!(false, determine_xml("<\u{e9}></e>"));
}

#[test]
fn empty_names_pair_up() {
    assert_eq!(true, determine_xml("<></>"));
}

#[test]
fn escapes_all_five_accepted() {
    assert!(escapes_valid("&lt;&gt;&amp;&apos;&quot;"));
    assert!(escapes_valid("a &lt; b &amp;&amp; c &quot;d&quot;"));
    assert!(escapes_valid(""));
    assert!(escapes_valid("no references here"));
}

#[test]
fn escapes_bare_ampersand_rejected() {
    assert!(!escapes_valid("a & b"));
    assert!(!escapes_valid("&"));
    assert!(!escapes_valid("&;"));
}

#[test]
fn escapes_unknown_and_numeric_rejected() {
    assert!(!escapes_valid("&nbsp;"));
    assert!(!escapes_valid("&#60;"));
    assert!(!escapes_valid("&#x3c;"));
    assert!(!escapes_valid("&LT;"));
}

#[test]
fn escapes_unterminated_rejected() {
    assert!(!escapes_valid("&lt"));
    assert!(!escapes_valid("&lt b"));
    assert!(!escapes_valid("&amp&lt;"));
}

#[test]
fn escapes_in_document_text() {
    assert_eq!(true, determine_xml("<a>&apos;&quot;&gt;</a>"));
    assert_eq!(false, determine_xml("<a>&#38;</a>"));
    assert_eq!(false, determine_xml("<a>&copy;</a>"));
}
