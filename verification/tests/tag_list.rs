use traversal_core::tags::TagList;

fn empty() -> TagList {
    TagList { target_tags: Vec::new(), link_tags: Vec::new() }
}

#[test]
fn target_line_is_recorded_as_target() {
    let mut list = empty();
    list.record_matched_line("/w/a.rs", Some(7), b"// [traverse-tgt: foo]\n");
    assert_eq!(list.target_tags.len(), 1);
    assert!(list.link_tags.is_empty());
    let t = &list.target_tags[0];
    assert_eq!(t.id, "foo");
    assert_eq!(t.file_path, "/w/a.rs");
    assert_eq!(t.line_number, 7);
    assert_eq!(t.range, 18..21);
}

#[test]
fn link_line_is_recorded_as_link() {
    let mut list = empty();
    list.record_matched_line("b.md", Some(2), b"see [traverse-lnk: foo]");
    assert!(list.target_tags.is_empty());
    assert_eq!(list.link_tags.len(), 1);
    assert_eq!(list.link_tags[0].id, "foo");
    assert_eq!(list.link_tags[0].range, 19..22);
}

#[test]
fn every_tag_of_a_line_is_recorded() {
    let mut list = empty();
    list.record_matched_line("/w/a.txt", Some(3), b"[traverse-lnk: a] [traverse-tgt: b]\n");
    assert_eq!(list.link_tags.len(), 1);
    assert_eq!(list.target_tags.len(), 1);
    let l = &list.link_tags[0];
    assert_eq!((l.id.as_str(), l.file_path.as_str(), l.line_number, l.range.clone()), ("a", "/w/a.txt", 3, 15..16));
    let t = &list.target_tags[0];
    assert_eq!((t.id.as_str(), t.file_path.as_str(), t.line_number, t.range.clone()), ("b", "/w/a.txt", 3, 33..34));
    list.record_matched_line("/w/a.txt", Some(4), b"[traverse-tgt: c] [traverse-tgt: d]");
    let ids: Vec<&str> = list.target_tags.iter().map(|t| t.id.as_str()).collect();
    assert_eq!(ids, vec!["b", "c", "d"]);
}

#[test]
fn missing_line_number_is_zero() {
    let mut list = empty();
    list.record_matched_line("c", None, b"[traverse-tgt: x]");
    assert_eq!(list.target_tags[0].line_number, 0);
}

#[test]
fn line_without_tag_changes_nothing() {
    let mut list = empty();
    list.record_matched_line("c", Some(1), b"nothing here");
    list.record_matched_line("c", Some(2), &[0xff, 0xfe]);
    assert!(list.target_tags.is_empty());
    assert!(list.link_tags.is_empty());
}

#[test]
fn tags_are_appended_in_order() {
    let mut list = empty();
    list.record_matched_line("f", Some(1), b"[traverse-tgt: a]");
    list.record_matched_line("f", Some(2), b"[traverse-tgt: b]");
    let ids: Vec<&str> = list.target_tags.iter().map(|t| t.id.as_str()).collect();
    assert_eq!(ids, vec!["a", "b"]);
}

#[test]
fn cloned_tag_is_equal() {
    let mut list = empty();
    list.record_matched_line("f", Some(3), b"[traverse-tgt: a]");
    let c = list.target_tags[0].clone();
    assert_eq!(c.id, "a");
    assert_eq!(c.file_path, "f");
    assert_eq!(c.line_number, 3);
    assert_eq!(c.range, 15..16);
}
