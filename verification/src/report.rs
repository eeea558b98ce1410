//! A textual listing of the tags of a registry, one line per tag.

use vstd::prelude::*;

use crate::mapping::TagRegistry;
use crate::tags::{Tag, TagModel};
use crate::text::{append_decimal, decimal};

verus! {

/// The listing line of a tag: `<marker> [<id>]: <file>:<line>`.
pub open spec fn report_line(marker: Seq<char>, t: TagModel) -> Seq<char> {
    marker + " ["@ + t.id + "]: "@ + t.file_path + ":"@ + decimal(t.line_number as nat)
}

/// The listing of a registry: a `[TGT]` line for each target, then a `[LNK]`
/// line for each link, each in registry order.
pub open spec fn report(targets: Seq<TagModel>, links: Seq<TagModel>) -> Seq<Seq<char>> {
    targets.map_values(|t: TagModel| report_line("[TGT]"@, t)) + links.map_values(
        |t: TagModel| report_line("[LNK]"@, t),
    )
}

/// Law of a listing line: it begins with its marker and ends with `:` and the
/// decimal line number of its own tag, and what follows the marker is the same
/// under every marker (a link's line carries the same number as a target's).
pub proof fn lemma_report_line_parts(m1: Seq<char>, m2: Seq<char>, t: TagModel)
    ensures
        m1.is_prefix_of(report_line(m1, t)),
        (":"@ + decimal(t.line_number as nat)).is_suffix_of(report_line(m1, t)),
        report_line(m1, t).skip(m1.len() as int) == report_line(m2, t).skip(m2.len() as int),
{
    let tail = ":"@ + decimal(t.line_number as nat);
    let rest = " ["@ + t.id + "]: "@ + t.file_path + tail;
    let head1 = m1 + " ["@ + t.id + "]: "@ + t.file_path;
    assert(report_line(m1, t) =~= head1 + tail);
    assert(report_line(m1, t) =~= m1 + rest);
    assert(report_line(m2, t) =~= m2 + rest);
    assert(report_line(m1, t).subrange(0, m1.len() as int) =~= m1);
    assert(report_line(m1, t).skip(m1.len() as int) =~= rest);
    assert(report_line(m2, t).skip(m2.len() as int) =~= rest);
    let l = report_line(m1, t).len();
    assert(report_line(m1, t).subrange(l - tail.len(), l as int) =~= tail);
}

/// Law of the listing: one line per tag, the targets' `[TGT]` lines first and
/// then the links' `[LNK]` lines, each in registry order, and each line ends
/// with `:` and the decimal line number of its own tag.
pub proof fn lemma_report_lines(targets: Seq<TagModel>, links: Seq<TagModel>)
    ensures
        report(targets, links).len() == targets.len() + links.len(),
        forall|i: int|
            0 <= i < targets.len() ==> "[TGT]"@.is_prefix_of(report(targets, links)[i]) && (":"@
                + decimal((#[trigger] targets[i]).line_number as nat)).is_suffix_of(
                report(targets, links)[i],
            ),
        forall|i: int|
            0 <= i < links.len() ==> "[LNK]"@.is_prefix_of(report(targets, links)[targets.len() + i])
                && (":"@ + decimal((#[trigger] links[i]).line_number as nat)).is_suffix_of(
                report(targets, links)[targets.len() + i],
            ),
{
    let r = report(targets, links);
    assert forall|i: int| 0 <= i < targets.len() implies "[TGT]"@.is_prefix_of(r[i]) && (":"@
        + decimal((#[trigger] targets[i]).line_number as nat)).is_suffix_of(r[i]) by {
        assert(r[i] == report_line("[TGT]"@, targets[i]));
        lemma_report_line_parts("[TGT]"@, "[TGT]"@, targets[i]);
    }
    assert forall|i: int| 0 <= i < links.len() implies "[LNK]"@.is_prefix_of(
        r[targets.len() + i],
    ) && (":"@ + decimal((#[trigger] links[i]).line_number as nat)).is_suffix_of(
        r[targets.len() + i],
    ) by {
        assert(r[targets.len() + i] == report_line("[LNK]"@, links[i]));
        lemma_report_line_parts("[LNK]"@, "[LNK]"@, links[i]);
    }
}

fn tag_line(marker: &str, t: &Tag) -> (r: String)
    ensures
        r@ == report_line(marker@, t@),
{
    let mut s = marker.to_owned();
    s.append(" [");
    s.append(t.id.as_str());
    s.append("]: ");
    s.append(t.file_path.as_str());
    s.append(":");
    append_decimal(&mut s, t.line_number);
    s
}

fn push_lines(out: &mut Vec<String>, marker: &str, tags: &Vec<Tag>)
    ensures
        final(out)@.map_values(|l: String| l@) == old(out)@.map_values(|l: String| l@)
            + tags@.map_values(|t: Tag| report_line(marker@, t@)),
{
    let mut i: usize = 0;
    while i < tags.len()
        invariant
            i <= tags@.len(),
            out@.map_values(|l: String| l@) == old(out)@.map_values(|l: String| l@)
                + tags@.take(i as int).map_values(|t: Tag| report_line(marker@, t@)),
        decreases tags@.len() - i,
    {
        let line = tag_line(marker, &tags[i]);
        let ghost prev = out@.map_values(|l: String| l@);
        let ghost lv = line@;
        out.push(line);
        assert(out@.map_values(|l: String| l@) =~= prev.push(lv));
        i = i + 1;
        assert(tags@.take(i as int).map_values(|t: Tag| report_line(marker@, t@)) =~= tags@.take(
            i - 1,
        ).map_values(|t: Tag| report_line(marker@, t@)).push(report_line(marker@, tags@[i - 1]@)));
        assert(out@.map_values(|l: String| l@) =~= old(out)@.map_values(|l: String| l@)
            + tags@.take(i as int).map_values(|t: Tag| report_line(marker@, t@)));
    }
    assert(tags@.take(tags@.len() as int) =~= tags@);
}

/// The listing of the tags of a registry, one line per tag.
pub fn tag_report_lines(tags: &TagRegistry) -> (r: Vec<String>)
    ensures
        r@.map_values(|l: String| l@) == report(tags.target_tags@, tags.link_tags@),
{
    let mut out: Vec<String> = Vec::new();
    push_lines(&mut out, "[TGT]", &tags.target_tags.tags);
    push_lines(&mut out, "[LNK]", &tags.link_tags.tags);
    assert(out@.map_values(|l: String| l@) =~= report(tags.target_tags@, tags.link_tags@));
    out
}

} // verus!
