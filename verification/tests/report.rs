use traversal_core::mapping::aggregate_tags;
use traversal_core::report::tag_report_lines;
use traversal_core::tags::{CombinedTagList, Tag, TagList};

fn listed_tag(id: &str, path: &str, line: u64) -> Tag {
    Tag { id: id.to_string(), file_path: path.to_string(), line_number: line, range: 0..1 }
}

#[test]
fn report_lists_targets_then_links() {
    let r = aggregate_tags(&CombinedTagList {
        tag_lists: vec![TagList {
            target_tags: vec![listed_tag("foo", "/w/a.rs", 3), listed_tag("bar", "/w/b.rs", 120)],
            link_tags: vec![listed_tag("foo", "/w/c.md", 0)],
        }],
    });
    assert_eq!(
        tag_report_lines(&r),
        vec![
            "[TGT] [foo]: /w/a.rs:3".to_string(),
            "[TGT] [bar]: /w/b.rs:120".to_string(),
            "[LNK] [foo]: /w/c.md:0".to_string(),
        ]
    );
}
