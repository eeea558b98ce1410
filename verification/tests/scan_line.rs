use traversal_core::scan::{scan_line, scan_line_bytes, LineTag, TagKind};

fn only(mut tags: Vec<LineTag>) -> LineTag {
    assert_eq!(tags.len(), 1);
    tags.remove(0)
}

#[test]
fn target_tag_is_found() {
    let t = only(scan_line("// [traverse-tgt: foo]\n"));
    assert_eq!(t.kind, TagKind::Target);
    assert_eq!(t.id, "foo");
    assert_eq!((t.start, t.end), (18, 21));
}

#[test]
fn link_tag_is_found() {
    let t = only(scan_line("x [traverse-lnk:bar ] y"));
    assert_eq!(t.kind, TagKind::Link);
    assert_eq!(t.id, "bar");
    assert_eq!((t.start, t.end), (16, 19));
}

#[test]
fn line_without_tag_has_none() {
    assert!(scan_line("fn main() {}\n").is_empty());
    assert!(scan_line("[traverse-xyz: foo]").is_empty());
    assert!(scan_line("[traverse-tgt: foo").is_empty());
    assert!(scan_line("").is_empty());
}

#[test]
fn every_tag_of_a_line_is_found_in_order() {
    let ts = scan_line("[traverse-lnk: a] [traverse-tgt: b]\n");
    assert_eq!(ts.len(), 2);
    assert_eq!((ts[0].kind, ts[0].id.as_str(), ts[0].start, ts[0].end), (TagKind::Link, "a", 15, 16));
    assert_eq!((ts[1].kind, ts[1].id.as_str(), ts[1].start, ts[1].end), (TagKind::Target, "b", 33, 34));
}

#[test]
fn the_search_resumes_after_the_closing_bracket() {
    let ts = scan_line("[traverse-tgt: a][traverse-lnk: b] [traverse-tgt:c]");
    let ids: Vec<&str> = ts.iter().map(|t| t.id.as_str()).collect();
    assert_eq!(ids, vec!["a", "b", "c"]);
    assert_eq!(ts[1].kind, TagKind::Link);
    let ts = scan_line("[traverse-tgt: a] x [traverse-tgt: a]");
    assert_eq!(ts.len(), 2);
    assert_eq!((ts[0].start, ts[1].start), (15, 35));
}

#[test]
fn an_unclosed_opening_is_passed_over() {
    let t = only(scan_line("[traverse-tgt: a b [traverse-lnk: c]"));
    assert_eq!(t.kind, TagKind::Link);
    assert_eq!(t.id, "c");
    assert_eq!((t.start, t.end), (34, 35));
}

#[test]
fn empty_id_is_a_tag() {
    let t = only(scan_line("[traverse-tgt:]"));
    assert_eq!(t.id, "");
    assert_eq!((t.start, t.end), (14, 14));
    let t = only(scan_line("[traverse-tgt:   ]"));
    assert_eq!(t.id, "");
    assert_eq!((t.start, t.end), (17, 17));
}

#[test]
fn id_runs_to_the_last_bracket_of_its_word() {
    let t = only(scan_line("[traverse-tgt: a]b]c"));
    assert_eq!(t.id, "a]b");
    let t = only(scan_line("[traverse-tgt: a]b] ]"));
    assert_eq!(t.id, "a]b]");
}

#[test]
fn whitespace_may_surround_the_id() {
    let t = only(scan_line("[traverse-tgt:\t\tfoo \t ]"));
    assert_eq!(t.id, "foo");
    assert_eq!((t.start, t.end), (16, 19));
}

#[test]
fn unicode_whitespace_counts_as_whitespace() {
    // U+3000 IDEOGRAPHIC SPACE and U+00A0 NO-BREAK SPACE
    let line = "[traverse-lnk:\u{3000}foo\u{a0}]";
    let t = only(scan_line(line));
    assert_eq!(t.id, "foo");
    assert_eq!((t.start, t.end), (17, 20));
}

#[test]
fn non_whitespace_unicode_belongs_to_the_id() {
    // U+200B ZERO WIDTH SPACE is not White_Space
    let line = "[traverse-tgt: é\u{200b}x]";
    let t = only(scan_line(line));
    assert_eq!(t.id, "é\u{200b}x");
    assert_eq!((t.start, t.end), (15, 15 + "é\u{200b}x".len()));
    assert_eq!(&line[t.start..t.end], t.id);
}

#[test]
fn invalid_utf8_has_no_tag() {
    let mut bytes = b"[traverse-tgt: foo]".to_vec();
    bytes.push(0xff);
    assert!(scan_line_bytes(&bytes).is_empty());
}

#[test]
fn bytes_of_valid_utf8_are_scanned() {
    let t = only(scan_line_bytes(b"  [traverse-tgt: abc]\n"));
    assert_eq!(t.kind, TagKind::Target);
    assert_eq!(t.id, "abc");
    assert_eq!((t.start, t.end), (17, 20));
}

#[test]
fn written_tag_law_example() {
    // pre without '[', one space after the colon, printable id, rest starting with a space
    let line = "x = 1; // [traverse-lnk: my-id.2] trailing";
    let t = only(scan_line(line));
    assert_eq!(t.kind, TagKind::Link);
    assert_eq!(t.id, "my-id.2");
    assert_eq!(t.start, "x = 1; // ".len() + 15);
}
