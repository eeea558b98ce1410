use traversal_core::links::{document_links, target_location_text, LinkError};
use traversal_core::lsp::{document_links_with_uris, DocumentLinkError};
use traversal_core::mapping::{aggregate_tags, TagRegistry};
use traversal_core::tags::{CombinedTagList, Tag, TagList};

fn linked_tag(id: &str, path: &str, line: u64, start: usize, end: usize) -> Tag {
    Tag { id: id.to_string(), file_path: path.to_string(), line_number: line, range: start..end }
}

fn registry(targets: Vec<Tag>, links: Vec<Tag>) -> TagRegistry {
    aggregate_tags(&CombinedTagList { tag_lists: vec![TagList { target_tags: targets, link_tags: links }] })
}

#[test]
fn target_location_uses_one_based_line_and_column() {
    let t = linked_tag("foo", "/w/src/a.rs", 12, 18, 21);
    assert_eq!(target_location_text(&t), "file:///w/src/a.rs#L12,19");
    let t = linked_tag("foo", "/w/b.rs", 0, usize::MAX, usize::MAX);
    assert_eq!(target_location_text(&t), format!("file:///w/b.rs#L0,{}", usize::MAX));
}

#[test]
fn link_range_stays_on_the_link_in_the_requested_document() {
    let r = registry(
        vec![linked_tag("foo", "/w/target.go", 73, 20, 23)],
        vec![linked_tag("foo", "/w/file_0007.go", 5, 19, 22)],
    );
    let links = document_links(&r, "/w/file_0007.go").unwrap();
    assert_eq!(links.len(), 1);
    let l = &links[0];
    assert_eq!((l.line, l.start_character, l.end_character), (4, 19, 22));
    assert_eq!(l.target, "file:///w/target.go#L73,21");
}

#[test]
fn each_target_of_each_link_gives_one_link_in_order() {
    let r = registry(
        vec![linked_tag("a", "/t1", 1, 0, 1), linked_tag("b", "/t2", 2, 0, 1), linked_tag("a", "/t3", 3, 0, 1)],
        vec![linked_tag("a", "/d", 10, 5, 6), linked_tag("b", "/d", 11, 7, 8), linked_tag("a", "/other", 12, 0, 1)],
    );
    let links = document_links(&r, "/d").unwrap();
    let got: Vec<(u32, String)> = links.iter().map(|l| (l.line, l.target.clone())).collect();
    assert_eq!(
        got,
        vec![
            (9, "file:///t1#L1,1".to_string()),
            (9, "file:///t3#L3,1".to_string()),
            (10, "file:///t2#L2,1".to_string()),
        ]
    );
}

#[test]
fn dangling_link_gives_nothing() {
    let r = registry(vec![linked_tag("a", "/t", 1, 0, 1)], vec![linked_tag("missing", "/d", 3, 0, 7)]);
    assert!(document_links(&r, "/d").unwrap().is_empty());
}

#[test]
fn unknown_document_gives_nothing() {
    let r = registry(vec![linked_tag("a", "/t", 1, 0, 1)], vec![linked_tag("a", "/d", 3, 0, 1)]);
    assert!(document_links(&r, "/elsewhere").unwrap().is_empty());
}

#[test]
fn document_path_is_matched_by_components() {
    let r = registry(vec![linked_tag("a", "/t", 1, 0, 1)], vec![linked_tag("a", "/w/d.rs", 3, 0, 1)]);
    assert_eq!(document_links(&r, "/w//d.rs").unwrap().len(), 1);
    assert_eq!(document_links(&r, "/w/./d.rs").unwrap().len(), 1);
}

#[test]
fn line_zero_stays_at_zero() {
    let r = registry(vec![linked_tag("a", "/t", 1, 0, 1)], vec![linked_tag("a", "/d", 0, 2, 3)]);
    assert_eq!(document_links(&r, "/d").unwrap()[0].line, 0);
}

#[test]
fn positions_that_do_not_fit_are_errors() {
    let r = registry(vec![linked_tag("a", "/t", 1, 0, 1)], vec![linked_tag("a", "/d", (u32::MAX as u64) + 2, 0, 1)]);
    assert_eq!(document_links(&r, "/d").unwrap_err(), LinkError::LineOutOfRange);
    let r = registry(vec![linked_tag("a", "/t", 1, 0, 1)], vec![linked_tag("a", "/d", (u32::MAX as u64) + 1, 0, 1)]);
    assert_eq!(document_links(&r, "/d").unwrap()[0].line, u32::MAX);
    let r = registry(vec![linked_tag("a", "/t", 1, 0, 1)], vec![linked_tag("a", "/d", 1, 0, (u32::MAX as usize) + 1)]);
    assert_eq!(document_links(&r, "/d").unwrap_err(), LinkError::ColumnOutOfRange);
    // a link without a target is never converted, so it cannot fail
    let r = registry(vec![], vec![linked_tag("a", "/d", u64::MAX, 0, 1)]);
    assert!(document_links(&r, "/d").unwrap().is_empty());
}

#[test]
fn links_carry_their_uri() {
    let r = registry(vec![linked_tag("a", "/w/t.rs", 7, 3, 4)], vec![linked_tag("a", "/w/d.rs", 2, 5, 6)]);
    let v = document_links_with_uris(&r, "/w/d.rs").unwrap();
    assert_eq!(v.len(), 1);
    assert_eq!(v[0].target_uri.as_str(), "file:///w/t.rs#L7,4");
    assert_eq!(v[0].link.line, 1);
}

#[test]
fn target_text_that_is_no_uri_is_an_error() {
    let r = registry(vec![linked_tag("a", "/w/a b.rs", 7, 3, 4)], vec![linked_tag("a", "/w/d.rs", 2, 5, 6)]);
    match document_links_with_uris(&r, "/w/d.rs") {
        Err(DocumentLinkError::InvalidTargetUri(t)) => assert_eq!(t, "file:///w/a b.rs#L7,4"),
        _ => panic!("expected an invalid URI"),
    }
}

#[test]
fn position_errors_come_first() {
    let r = registry(vec![linked_tag("a", "/w/a b.rs", 7, 3, 4)], vec![linked_tag("a", "/w/d.rs", 2, 5, (u32::MAX as usize) + 9)]);
    match document_links_with_uris(&r, "/w/d.rs") {
        Err(DocumentLinkError::Position(e)) => assert_eq!(e, LinkError::ColumnOutOfRange),
        _ => panic!("expected a position error"),
    }
}

#[test]
fn annotation_lines_of_a_document_are_its_link_ranges() {
    // links on the 1-based lines 5, 73, 82 and 92 of one document, each
    // pointing to a target in another file
    let r = registry(
        vec![
            linked_tag("t1", "/w/a.go", 10, 20, 22),
            linked_tag("t2", "/w/b.go", 11, 20, 22),
            linked_tag("t3", "/w/c.go", 12, 20, 22),
            linked_tag("t4", "/w/d.go", 13, 20, 22),
        ],
        vec![
            linked_tag("t1", "/w/file_0007.go", 5, 19, 21),
            linked_tag("t2", "/w/file_0007.go", 73, 19, 21),
            linked_tag("t3", "/w/file_0007.go", 82, 19, 21),
            linked_tag("t4", "/w/file_0007.go", 92, 19, 21),
        ],
    );
    let links = document_links(&r, "/w/file_0007.go").unwrap();
    let lines: Vec<u32> = links.iter().map(|l| l.line).collect();
    assert_eq!(lines, vec![4, 72, 81, 91]);
    assert_eq!(links[1].target, "file:///w/b.go#L11,21");
    for l in &links {
        assert_eq!((l.start_character, l.end_character), (19, 21));
    }
}
