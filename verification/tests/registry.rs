use traversal_core::mapping::{aggregate_tags, TagRegistry};
use traversal_core::tags::{CombinedTagList, Tag, TagList};

fn sample_tag(id: &str, path: &str, line: u64, start: usize, end: usize) -> Tag {
    Tag { id: id.to_string(), file_path: path.to_string(), line_number: line, range: start..end }
}

fn ids(tags: &[Tag]) -> Vec<&str> {
    tags.iter().map(|t| t.id.as_str()).collect()
}

#[test]
fn new_registry_is_empty() {
    let r = TagRegistry::new();
    assert!(r.target_tags.tags.is_empty());
    assert!(r.link_tags.tags.is_empty());
    assert!(r.target_tags.tag_indices_by_id.is_empty());
    assert!(r.link_tags.tag_indices_by_file.is_empty());
    let d = TagRegistry::default();
    assert!(d.target_tags.tags.is_empty());
    assert!(d.link_tags.tags.is_empty());
}

#[test]
fn aggregation_keeps_list_order_and_indexes() {
    let combined = CombinedTagList {
        tag_lists: vec![
            TagList {
                target_tags: vec![sample_tag("a", "/w/x.rs", 1, 15, 16), sample_tag("b", "/w/x.rs", 2, 15, 16)],
                link_tags: vec![sample_tag("a", "/w/y.rs", 3, 15, 16)],
            },
            TagList {
                target_tags: vec![sample_tag("a", "/w/z.rs", 4, 15, 16)],
                link_tags: vec![sample_tag("b", "/w/y.rs", 5, 15, 16), sample_tag("c", "/w/x.rs", 6, 15, 16)],
            },
        ],
    };
    let r = aggregate_tags(&combined);
    assert_eq!(ids(&r.target_tags.tags), vec!["a", "b", "a"]);
    assert_eq!(ids(&r.link_tags.tags), vec!["a", "b", "c"]);
    assert_eq!(r.target_tags.tag_indices_by_id.get("a"), Some(&vec![0, 2]));
    assert_eq!(r.target_tags.tag_indices_by_id.get("b"), Some(&vec![1]));
    assert_eq!(r.target_tags.tag_indices_by_id.get("c"), None);
    assert_eq!(r.target_tags.tag_indices_by_file.get("/w/x.rs"), Some(&vec![0, 1]));
    assert_eq!(r.target_tags.tag_indices_by_file.get("/w/z.rs"), Some(&vec![2]));
    assert_eq!(r.link_tags.tag_indices_by_file.get("/w/y.rs"), Some(&vec![0, 1]));
    assert_eq!(r.link_tags.tag_indices_by_file.get("/w/x.rs"), Some(&vec![2]));
    assert_eq!(r.target_tags.tag_indices_by_id.len(), 2);
    assert_eq!(r.link_tags.tag_indices_by_id.len(), 3);
}

#[test]
fn files_are_indexed_by_their_components() {
    let combined = CombinedTagList {
        tag_lists: vec![TagList {
            target_tags: vec![sample_tag("a", "/w//x.rs", 1, 0, 1), sample_tag("b", "/w/./x.rs/", 2, 0, 1)],
            link_tags: vec![],
        }],
    };
    let r = aggregate_tags(&combined);
    assert_eq!(r.target_tags.tag_indices_by_file.get("/w/x.rs"), Some(&vec![0, 1]));
    assert_eq!(r.target_tags.tag_indices_by_file.len(), 1);
    // the tags keep their paths as they were found
    assert_eq!(r.target_tags.tags[0].file_path, "/w//x.rs");
}

#[test]
fn empty_combined_list_gives_empty_registry() {
    let r = aggregate_tags(&CombinedTagList { tag_lists: vec![] });
    assert!(r.target_tags.tags.is_empty());
    assert!(r.link_tags.tags.is_empty());
}
