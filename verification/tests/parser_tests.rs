use alloy_mcp::sections::parse_sections;

fn s(b: &[u8]) -> String {
    String::from_utf8(b.to_vec()).unwrap()
}

#[test]
fn no_headings_yields_single_intro_section() {
    let sections = parse_sections(b"u://d", b"Doc", b"hello\nworld");
    assert_eq!(sections.len(), 1);
    assert_eq!(s(&sections[0].heading), "(intro)");
    assert_eq!(s(&sections[0].content), "hello\nworld");
    assert_eq!(s(&sections[0].uri), "u://d");
    assert_eq!(s(&sections[0].resource_name), "Doc");
}

#[test]
fn empty_document_yields_no_sections() {
    let sections = parse_sections(b"u", b"n", b"");
    assert_eq!(sections.len(), 0);
}

#[test]
fn whitespace_only_document_yields_no_sections() {
    let sections = parse_sections(b"u", b"n", b"  \n\t\n   \n");
    assert_eq!(sections.len(), 0);
}

#[test]
fn heading_line_belongs_to_its_own_section() {
    let sections = parse_sections(b"u", b"n", b"intro text\n## Head\nbody text");
    assert_eq!(sections.len(), 2);
    assert_eq!(s(&sections[0].heading), "(intro)");
    assert_eq!(s(&sections[0].content), "intro text");
    assert_eq!(s(&sections[1].heading), "## Head");
    assert_eq!(s(&sections[1].content), "## Head\nbody text");
}

#[test]
fn consecutive_headings_keep_heading_only_sections() {
    let sections = parse_sections(b"u", b"n", b"## A\n## B");
    assert_eq!(sections.len(), 2);
    assert_eq!(s(&sections[0].heading), "## A");
    assert_eq!(s(&sections[0].content), "## A");
    assert_eq!(s(&sections[1].heading), "## B");
    assert_eq!(s(&sections[1].content), "## B");
}

#[test]
fn blank_section_between_headings_is_discarded() {
    // The intro group before the first heading is whitespace only and is
    // dropped; the two heading groups stay.
    let sections = parse_sections(b"u", b"n", b"   \n\n## A\ncontent a\n\n## B\ncontent b\n");
    assert_eq!(sections.len(), 2);
    assert_eq!(s(&sections[0].heading), "## A");
    assert_eq!(s(&sections[0].content), "## A\ncontent a");
    assert_eq!(s(&sections[1].heading), "## B");
    assert_eq!(s(&sections[1].content), "## B\ncontent b");
}

#[test]
fn deeper_or_shallower_headings_do_not_split() {
    let sections = parse_sections(b"u", b"n", b"# Title\n### Sub\ntext\n##not-a-heading");
    assert_eq!(sections.len(), 1);
    assert_eq!(s(&sections[0].heading), "(intro)");
}

#[test]
fn bodies_reconstruct_document_without_blank_groups() {
    // With no discarded groups and no surrounding whitespace to trim, the
    // section bodies joined with line feeds give back the document.
    let text = b"alpha\n## B\ngamma";
    let sections = parse_sections(b"u", b"n", text);
    let bodies: Vec<String> = sections.iter().map(|x| s(&x.content)).collect();
    assert_eq!(bodies.join("\n"), String::from_utf8(text.to_vec()).unwrap());
}

#[test]
fn crlf_line_endings_are_normalized() {
    let sections = parse_sections(b"u", b"n", b"line one\r\n## H\r\nline two\r\n");
    assert_eq!(sections.len(), 2);
    assert_eq!(s(&sections[0].content), "line one");
    assert_eq!(s(&sections[1].content), "## H\nline two");
}
