//! Tags as they are found in files, and the per-file lists that collect them.

use std::ops::Range;
use vstd::prelude::*;
use vstd::utf8::*;

use crate::scan::{line_tags, scan_line_bytes, LineTag, TagKind};

verus! {

/// One tag found in a file.
#[derive(Debug)]
pub struct Tag {
    /// The id between the colon and the closing bracket.
    pub id: String,
    /// The file the tag was found in.
    pub file_path: String,
    /// The 1-based number of the line the tag stands on (0 where the searcher
    /// reported none).
    pub line_number: u64,
    /// The byte range of the id within its line.
    pub range: Range<usize>,
}

/// The mathematical value of a [`Tag`].
pub struct TagModel {
    pub id: Seq<char>,
    pub file_path: Seq<char>,
    pub line_number: u64,
    pub start: usize,
    pub end: usize,
}

impl View for Tag {
    type V = TagModel;

    open spec fn view(&self) -> TagModel {
        TagModel {
            id: self.id@,
            file_path: self.file_path@,
            line_number: self.line_number,
            start: self.range.start,
            end: self.range.end,
        }
    }
}

impl Clone for Tag {
    fn clone(&self) -> (r: Self)
        ensures
            r@ == self@,
    {
        Tag {
            id: self.id.clone(),
            file_path: self.file_path.clone(),
            line_number: self.line_number,
            range: Range { start: self.range.start, end: self.range.end },
        }
    }
}

/// The values of a sequence of tags.
pub open spec fn tag_models(tags: Seq<Tag>) -> Seq<TagModel> {
    tags.map_values(|t: Tag| t@)
}

/// The tags found by one searcher: targets and links, each in the order in
/// which their lines were reported.
pub struct TagList {
    pub target_tags: Vec<Tag>,
    pub link_tags: Vec<Tag>,
}

/// The tag lists of all searchers.
pub struct CombinedTagList {
    pub tag_lists: Vec<TagList>,
}

/// The tag that a line holds, as it is recorded: the id cut out of the line,
/// the file, the line number, and the id's byte range in the line.
pub open spec fn recorded_tag(
    path: Seq<char>,
    line_number: u64,
    line: Seq<u8>,
    a: int,
    e: int,
) -> TagModel {
    TagModel {
        id: decode_utf8(line.subrange(a, e)),
        file_path: path,
        line_number,
        start: a as usize,
        end: e as usize,
    }
}

/// The recorded tags of kind `kind` among the tags `found` of a line, in
/// order.
pub open spec fn recorded_of_kind(
    path: Seq<char>,
    line_number: u64,
    line: Seq<u8>,
    found: Seq<(TagKind, int, int)>,
    kind: TagKind,
) -> Seq<TagModel>
    decreases found.len(),
{
    if found.len() == 0 {
        Seq::empty()
    } else {
        let rest = recorded_of_kind(path, line_number, line, found.drop_last(), kind);
        let (k, a, e) = found.last();
        if k == kind {
            rest.push(recorded_tag(path, line_number, line, a, e))
        } else {
            rest
        }
    }
}

impl TagList {
    /// Records the tags of a line that a searcher reported in the file
    /// `path`: every tag of the line, left to right, each target appended to
    /// the targets and each link to the links.  A line without tags (or that
    /// is not valid UTF-8) changes nothing.  A missing line number is recorded
    /// as 0.
    pub fn record_matched_line(&mut self, path: &str, line_number: Option<u64>, line: &[u8])
        ensures
            ({
                let n = match line_number {
                    Some(n) => n,
                    None => 0,
                };
                &&& tag_models(final(self).target_tags@) == tag_models(old(self).target_tags@)
                    + recorded_of_kind(path@, n, line@, line_tags(line@), TagKind::Target)
                &&& tag_models(final(self).link_tags@) == tag_models(old(self).link_tags@)
                    + recorded_of_kind(path@, n, line@, line_tags(line@), TagKind::Link)
            }),
    {
        let n: u64 = match line_number {
            Some(n) => n,
            None => 0,
        };
        let found = scan_line_bytes(line);
        let ghost lt = line_tags(line@);
        let mut i: usize = 0;
        while i < found.len()
            invariant
                found@.len() == lt.len(),
                lt == line_tags(line@),
                forall|j: int|
                    0 <= j < found@.len() ==> {
                        let (k, a, e) = lt[j];
                        &&& (#[trigger] found@[j]).kind == k
                        &&& found@[j].start == a
                        &&& found@[j].end == e
                        &&& found@[j].id@ == decode_utf8(line@.subrange(a, e))
                    },
                i <= found@.len(),
                tag_models(self.target_tags@) == tag_models(old(self).target_tags@)
                    + recorded_of_kind(path@, n, line@, lt.take(i as int), TagKind::Target),
                tag_models(self.link_tags@) == tag_models(old(self).link_tags@) + recorded_of_kind(
                    path@,
                    n,
                    line@,
                    lt.take(i as int),
                    TagKind::Link,
                ),
            decreases found@.len() - i,
        {
            let t: &LineTag = &found[i];
            let tag = Tag {
                id: t.id.clone(),
                file_path: path.to_owned(),
                line_number: n,
                range: Range { start: t.start, end: t.end },
            };
            let ghost tm = tag@;
            let ghost old_targets = tag_models(self.target_tags@);
            let ghost old_links = tag_models(self.link_tags@);
            assert(lt.take(i + 1).drop_last() =~= lt.take(i as int));
            assert(lt.take(i + 1).last() == lt[i as int]);
            assert(tm == recorded_tag(path@, n, line@, lt[i as int].1, lt[i as int].2));
            match t.kind {
                TagKind::Target => {
                    self.target_tags.push(tag);
                    assert(tag_models(self.target_tags@) =~= old_targets.push(tm));
                    assert(tag_models(self.link_tags@) =~= old_links);
                },
                TagKind::Link => {
                    self.link_tags.push(tag);
                    assert(tag_models(self.link_tags@) =~= old_links.push(tm));
                    assert(tag_models(self.target_tags@) =~= old_targets);
                },
            }
            i = i + 1;
        }
        assert(lt.take(lt.len() as int) =~= lt);
    }
}

} // verus!
