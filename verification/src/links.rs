//! Resolution of the links of a document to the targets that carry the same
//! id.

use vstd::prelude::*;

use crate::mapping::{
    files_of, ids_of, lemma_positions_absent, lemma_positions_exact, positions_of, TagRegistry,
};
use crate::paths::{path_key, path_key_text};
use crate::tags::{Tag, TagModel};
use crate::text::{append_decimal, decimal};

verus! {

/// Why a link could not be turned into a document link: a position does not
/// fit the 32-bit positions of the protocol.
#[derive(Clone, Copy, Debug, PartialEq, Eq)]
pub enum LinkError {
    /// The 0-based line of the link does not fit in a `u32`.
    LineOutOfRange,
    /// A byte column of the link's id does not fit in a `u32`.
    ColumnOutOfRange,
}

/// A link of a document, resolved to one target.  The range is that of the
/// link's id in the document (0-based line, byte columns); the target is a
/// `file://` location of the target tag.
#[derive(Debug)]
pub struct ResolvedLink {
    pub line: u32,
    pub start_character: u32,
    pub end_character: u32,
    pub target: String,
}

/// The mathematical value of a [`ResolvedLink`].
pub struct ResolvedLinkModel {
    pub line: u32,
    pub start_character: u32,
    pub end_character: u32,
    pub target: Seq<char>,
}

impl View for ResolvedLink {
    type V = ResolvedLinkModel;

    open spec fn view(&self) -> ResolvedLinkModel {
        ResolvedLinkModel {
            line: self.line,
            start_character: self.start_character,
            end_character: self.end_character,
            target: self.target@,
        }
    }
}

/// The 1-based column of a 0-based byte offset, saturating at the top.
pub open spec fn one_based_column(start: usize) -> nat {
    if start == usize::MAX {
        start as nat
    } else {
        (start + 1) as nat
    }
}

/// The location of a target tag: `file://<path>#L<line>,<column>`, with the
/// 1-based line and the 1-based byte column of the target's id.
pub open spec fn target_location(target: TagModel) -> Seq<char> {
    "file://"@ + target.file_path + "#L"@ + decimal(target.line_number as nat) + ","@ + decimal(
        one_based_column(target.start),
    )
}

/// The 0-based line of a tag (its line number less one, and 0 for line 0).
pub open spec fn zero_based_line(link: TagModel) -> int {
    if link.line_number == 0 {
        0
    } else {
        link.line_number - 1
    }
}

/// The document link for one link tag and one of its targets.
pub open spec fn resolve_pair(link: TagModel, target: TagModel) -> Result<
    ResolvedLinkModel,
    LinkError,
> {
    if zero_based_line(link) > u32::MAX {
        Err(LinkError::LineOutOfRange)
    } else if link.start > u32::MAX || link.end > u32::MAX {
        Err(LinkError::ColumnOutOfRange)
    } else {
        Ok(
            ResolvedLinkModel {
                line: zero_based_line(link) as u32,
                start_character: link.start as u32,
                end_character: link.end as u32,
                target: target_location(target),
            },
        )
    }
}

/// A link paired with each target that carries its id, in target order.
pub open spec fn targets_of_link(link: TagModel, targets: Seq<TagModel>) -> Seq<
    (TagModel, TagModel),
> {
    positions_of(ids_of(targets), link.id).map_values(|t: usize| (link, targets[t as int]))
}

/// The pairs of the links at positions `idxs`, link after link.
pub open spec fn pairs_for(links: Seq<TagModel>, targets: Seq<TagModel>, idxs: Seq<usize>) -> Seq<
    (TagModel, TagModel),
>
    decreases idxs.len(),
{
    if idxs.len() == 0 {
        Seq::empty()
    } else {
        pairs_for(links, targets, idxs.drop_last()) + targets_of_link(
            links[idxs.last() as int],
            targets,
        )
    }
}

/// Every link of the document `path` (any path with the same components)
/// paired with every target of its id: the
/// links in the order in which they were found, and for each link its targets
/// in the order in which they were found.
pub open spec fn link_pairs(links: Seq<TagModel>, targets: Seq<TagModel>, path: Seq<char>) -> Seq<
    (TagModel, TagModel),
> {
    pairs_for(links, targets, positions_of(files_of(links), path_key(path)))
}

/// The document links of a sequence of pairs, or the error of the first pair
/// that cannot be turned into one.
pub open spec fn resolve_all(pairs: Seq<(TagModel, TagModel)>) -> Result<
    Seq<ResolvedLinkModel>,
    LinkError,
>
    decreases pairs.len(),
{
    if pairs.len() == 0 {
        Ok(Seq::empty())
    } else {
        match resolve_all(pairs.drop_last()) {
            Err(e) => Err(e),
            Ok(done) => match resolve_pair(pairs.last().0, pairs.last().1) {
                Err(e) => Err(e),
                Ok(l) => Ok(done.push(l)),
            },
        }
    }
}

/// The values of a sequence of resolved links.
pub open spec fn link_models(links: Seq<ResolvedLink>) -> Seq<ResolvedLinkModel> {
    links.map_values(|l: ResolvedLink| l@)
}

/// The location text of a target tag.
pub fn target_location_text(target: &Tag) -> (r: String)
    ensures
        r@ == target_location(target@),
{
    let mut s = "file://".to_owned();
    s.append(target.file_path.as_str());
    s.append("#L");
    append_decimal(&mut s, target.line_number);
    s.append(",");
    let column: usize = if target.range.start == usize::MAX {
        target.range.start
    } else {
        target.range.start + 1
    };
    append_decimal(&mut s, column as u64);
    s
}

/// The document link for one link tag and one of its targets.
fn resolve_link(link: &Tag, target: &Tag) -> (r: Result<ResolvedLink, LinkError>)
    ensures
        match resolve_pair(link@, target@) {
            Ok(m) => r matches Ok(l) && l@ == m,
            Err(e) => r == Err::<ResolvedLink, LinkError>(e),
        },
{
    let line: u64 = if link.line_number == 0 {
        0
    } else {
        link.line_number - 1
    };
    if line > 0xffff_ffff {
        return Err(LinkError::LineOutOfRange);
    }
    if link.range.start > 0xffff_ffff || link.range.end > 0xffff_ffff {
        return Err(LinkError::ColumnOutOfRange);
    }
    Ok(
        ResolvedLink {
            line: line as u32,
            start_character: link.range.start as u32,
            end_character: link.range.end as u32,
            target: target_location_text(target),
        },
    )
}

/// Once a prefix fails, so does every extension of it, with the same error.
proof fn lemma_resolve_all_error_extends(s: Seq<(TagModel, TagModel)>, t: Seq<(TagModel, TagModel)>)
    requires
        resolve_all(s) is Err,
    ensures
        resolve_all(s + t) == resolve_all(s),
    decreases t.len(),
{
    if t.len() > 0 {
        lemma_resolve_all_error_extends(s, t.drop_last());
        assert((s + t).drop_last() =~= s + t.drop_last());
    }
}

/// The pairs of a prefix of the positions are a prefix of all pairs.
proof fn lemma_pairs_prefix(
    links: Seq<TagModel>,
    targets: Seq<TagModel>,
    idxs: Seq<usize>,
    n: int,
) -> (rest: Seq<(TagModel, TagModel)>)
    requires
        0 <= n <= idxs.len(),
    ensures
        pairs_for(links, targets, idxs) == pairs_for(links, targets, idxs.take(n)) + rest,
    decreases idxs.len() - n,
{
    if n == idxs.len() {
        assert(idxs.take(n) =~= idxs);
        assert(pairs_for(links, targets, idxs) =~= pairs_for(links, targets, idxs.take(n))
            + Seq::empty());
        Seq::empty()
    } else {
        let rest1 = lemma_pairs_prefix(links, targets, idxs, n + 1);
        assert(idxs.take(n + 1).drop_last() =~= idxs.take(n));
        let tl = targets_of_link(links[idxs[n] as int], targets);
        assert(pairs_for(links, targets, idxs.take(n + 1)) == pairs_for(links, targets, idxs.take(n))
            + tl);
        assert(pairs_for(links, targets, idxs) =~= pairs_for(links, targets, idxs.take(n)) + (tl
            + rest1));
        tl + rest1
    }
}

/// The links of the document `document_path`, each resolved to every target
/// that carries its id: one document link per link and target, the links in
/// the order in which they were found and, for each link, its targets in the
/// order in which they were found.  A link without a target yields nothing.
/// Fails with the error of the first pair whose positions do not fit.
pub fn document_links(tags: &TagRegistry, document_path: &str) -> (r: Result<
    Vec<ResolvedLink>,
    LinkError,
>)
    requires
        tags.wf(),
    ensures
        match resolve_all(link_pairs(tags.link_tags@, tags.target_tags@, document_path@)) {
            Ok(ms) => r matches Ok(v) && link_models(v@) == ms,
            Err(e) => r == Err::<Vec<ResolvedLink>, LinkError>(e),
        },
{
    let links = &tags.link_tags;
    let targets = &tags.target_tags;
    let ghost lm = links@;
    let ghost tm = targets@;
    let document_key = path_key_text(document_path);
    let ghost path = document_key@;
    let mut out: Vec<ResolvedLink> = Vec::new();
    let n_links = links.tags.len();
    let n_targets = targets.tags.len();
    assert(files_of(lm).len() == n_links && ids_of(tm).len() == n_targets);
    proof {
        lemma_positions_exact(files_of(lm), path);
    }
    let link_idxs = match links.tag_indices_by_file.get(document_key.as_str()) {
        Some(v) => v,
        None => {
            proof {
                lemma_positions_absent(files_of(lm), path);
                assert(link_pairs(lm, tm, document_path@) =~= Seq::empty());
                assert(link_models(out@) =~= Seq::empty());
            }
            return Ok(out);
        },
    };
    let ghost idxs = link_idxs@;
    assert(idxs == positions_of(files_of(lm), path));
    assert(idxs.take(0) =~= Seq::<usize>::empty());
    assert(link_models(out@) =~= Seq::empty());
    let mut i: usize = 0;
    while i < link_idxs.len()
        invariant
            tags.wf(),
            links == &tags.link_tags,
            targets == &tags.target_tags,
            lm == links@,
            tm == targets@,
            path == path_key(document_path@),
            ids_of(tm).len() == tm.len() <= usize::MAX,
            idxs == link_idxs@,
            idxs == positions_of(files_of(lm), path),
            forall|m: int| 0 <= m < idxs.len() ==> (#[trigger] idxs[m]) < lm.len(),
            i <= idxs.len(),
            resolve_all(pairs_for(lm, tm, idxs.take(i as int))) == Ok::<
                Seq<ResolvedLinkModel>,
                LinkError,
            >(link_models(out@)),
        decreases idxs.len() - i,
    {
        let li = link_idxs[i];
        let link = &links.tags[li];
        let ghost lk = link@;
        assert(lm[li as int] == lk);
        proof {
            lemma_positions_exact(ids_of(tm), lk.id);
        }
        let ghost prefix = pairs_for(lm, tm, idxs.take(i as int));
        let ghost tl = targets_of_link(lk, tm);
        match targets.tag_indices_by_id.get(link.id.as_str()) {
            None => {
                proof {
                    lemma_positions_absent(ids_of(tm), lk.id);
                    assert(tl =~= Seq::empty());
                }
            },
            Some(target_idxs) => {
                let ghost tidxs = target_idxs@;
                assert(tidxs == positions_of(ids_of(tm), lk.id));
                let mut j: usize = 0;
                while j < target_idxs.len()
                    invariant
                        targets == &tags.target_tags,
                        tm == targets@,
                        i < idxs.len(),
                        idxs == positions_of(files_of(lm), path),
                        lm == tags.link_tags@,
                        tm == tags.target_tags@,
                        path == path_key(document_path@),
                        idxs[i as int] == li,
                        (li as int) < lm.len(),
                        lm[li as int] == lk,
                        prefix == pairs_for(lm, tm, idxs.take(i as int)),
                        tidxs == target_idxs@,
                        tidxs == positions_of(ids_of(tm), lk.id),
                        forall|m: int| 0 <= m < tidxs.len() ==> (#[trigger] tidxs[m]) < tm.len(),
                        tl == targets_of_link(lk, tm),
                        lk == link@,
                        j <= tidxs.len(),
                        resolve_all(prefix + tl.take(j as int)) == Ok::<
                            Seq<ResolvedLinkModel>,
                            LinkError,
                        >(link_models(out@)),
                    decreases tidxs.len() - j,
                {
                    let target = &targets.tags[target_idxs[j]];
                    let ghost before = prefix + tl.take(j as int);
                    assert((prefix + tl.take(j + 1)).drop_last() =~= before);
                    assert(tl[j as int] == (lk, target@));
                    match resolve_link(link, target) {
                        Ok(l) => {
                            let ghost lv = l@;
                            let ghost old_models = link_models(out@);
                            assert((prefix + tl.take(j + 1)).last() == (lk, target@));
                            assert(resolve_pair(lk, target@) == Ok::<ResolvedLinkModel, LinkError>(lv));
                            out.push(l);
                            assert(link_models(out@) =~= old_models.push(lv));
                        },
                        Err(e) => {
                            proof {
                                assert((prefix + tl.take(j + 1)).last() == (lk, target@));
                                let rest = lemma_pairs_prefix(lm, tm, idxs, i + 1);
                                assert(idxs.take(i + 1).drop_last() =~= idxs.take(i as int));
                                assert(pairs_for(lm, tm, idxs.take(i + 1)) == prefix + tl);
                                assert(tl =~= tl.take(j + 1) + tl.skip(j + 1));
                                assert(pairs_for(lm, tm, idxs) =~= (prefix + tl.take(j + 1)) + (
                                tl.skip(j + 1) + rest));
                                assert(resolve_pair(lk, target@) == Err::<ResolvedLinkModel, LinkError>(e));
                                assert(resolve_all(prefix + tl.take(j + 1)) == Err::<Seq<ResolvedLinkModel>, LinkError>(e));
                                lemma_resolve_all_error_extends(
                                    prefix + tl.take(j + 1),
                                    tl.skip(j + 1) + rest,
                                );
                                assert(link_pairs(lm, tm, document_path@) == pairs_for(lm, tm, idxs));
                            }
                            return Err(e);
                        },
                    }
                    j = j + 1;
                }
                assert(tl.take(tidxs.len() as int) =~= tl);
            },
        }
        assert(prefix + tl.take(tl.len() as int) =~= prefix + tl);
        assert(idxs.take(i + 1).drop_last() =~= idxs.take(i as int));
        i = i + 1;
    }
    assert(idxs.take(idxs.len() as int) =~= idxs);
    Ok(out)
}

/// Law of resolution: a link whose id no target carries yields no document
/// link.
pub proof fn lemma_dangling_link(link: TagModel, targets: Seq<TagModel>)
    requires
        forall|t: int| 0 <= t < targets.len() ==> (#[trigger] targets[t]).id != link.id,
    ensures
        targets_of_link(link, targets) == Seq::<(TagModel, TagModel)>::empty(),
{
    let ids = ids_of(targets);
    assert(!ids.contains(link.id)) by {
        if ids.contains(link.id) {
            let t = choose|t: int| 0 <= t < ids.len() && ids[t] == link.id;
            assert(targets[t].id == link.id);
        }
    }
    lemma_positions_absent(ids, link.id);
    assert(targets_of_link(link, targets) =~= Seq::<(TagModel, TagModel)>::empty());
}

/// True when `links[l]` and `targets[t]` are a link and a target of the same
/// id.
pub open spec fn same_id_pair(links: Seq<TagModel>, targets: Seq<TagModel>, l: int, t: int) -> bool {
    &&& 0 <= l < links.len()
    &&& 0 <= t < targets.len()
    &&& targets[t].id == links[l].id
}

proof fn lemma_pairs_for_exact(links: Seq<TagModel>, targets: Seq<TagModel>, idxs: Seq<usize>)
    requires
        targets.len() <= usize::MAX,
        forall|m: int| 0 <= m < idxs.len() ==> (#[trigger] idxs[m]) < links.len(),
    ensures
        forall|x: int|
            0 <= x < pairs_for(links, targets, idxs).len() ==> {
                let (lk, tg) = #[trigger] pairs_for(links, targets, idxs)[x];
                &&& tg.id == lk.id
                &&& targets.contains(tg)
                &&& exists|m: int| 0 <= m < idxs.len() && links[#[trigger] idxs[m] as int] == lk
            },
        forall|m: int, t: int|
            0 <= m < idxs.len() && same_id_pair(links, targets, idxs[m] as int, t)
                ==> #[trigger] pairs_for(links, targets, idxs).contains(
                (links[idxs[m] as int], targets[t]),
            ),
    decreases idxs.len(),
{
    if idxs.len() > 0 {
        let init = idxs.drop_last();
        lemma_pairs_for_exact(links, targets, init);
        let prev = pairs_for(links, targets, init);
        let link = links[idxs.last() as int];
        let ps = positions_of(ids_of(targets), link.id);
        lemma_positions_exact(ids_of(targets), link.id);
        let tl = targets_of_link(link, targets);
        let all = pairs_for(links, targets, idxs);
        assert(all == prev + tl);
        assert forall|x: int| 0 <= x < all.len() implies {
            let (lk, tg) = #[trigger] all[x];
            &&& tg.id == lk.id
            &&& targets.contains(tg)
            &&& exists|m: int| 0 <= m < idxs.len() && links[#[trigger] idxs[m] as int] == lk
        } by {
            if x < prev.len() {
                assert(all[x] == prev[x]);
                let m = choose|m: int| 0 <= m < init.len() && links[#[trigger] init[m] as int] == prev[x].0;
                assert(idxs[m] == init[m]);
            } else {
                let k = x - prev.len();
                assert(all[x] == tl[k]);
                let t = ps[k] as int;
                assert(ids_of(targets)[t] == targets[t].id);
                assert(all[x] == (link, targets[t]));
                assert(idxs[idxs.len() - 1] == idxs.last());
            }
        }
        assert forall|m: int, t: int|
            0 <= m < idxs.len() && same_id_pair(links, targets, idxs[m] as int, t)
                implies #[trigger] all.contains((links[idxs[m] as int], targets[t])) by {
            if m < init.len() {
                assert(init[m] == idxs[m]);
                assert(prev.contains((links[init[m] as int], targets[t])));
                let x = choose|x: int| 0 <= x < prev.len() && prev[x] == (
                    links[init[m] as int],
                    targets[t],
                );
                assert(all[x] == prev[x]);
            } else {
                assert(ids_of(targets)[t] == link.id);
                let k = choose|k: int| 0 <= k < ps.len() && ps[k] == t as usize;
                assert(tl[k] == (link, targets[t]));
                assert(all[prev.len() + k] == tl[k]);
            }
        }
    }
}

/// Law of resolution: the pairs resolved for a document are exactly the
/// pairs of a link of that document (any path with the same components) and
/// a target with the link's id.
pub proof fn lemma_link_pairs_exact(links: Seq<TagModel>, targets: Seq<TagModel>, path: Seq<char>)
    requires
        links.len() <= usize::MAX,
        targets.len() <= usize::MAX,
    ensures
        forall|x: int|
            0 <= x < link_pairs(links, targets, path).len() ==> {
                let (lk, tg) = #[trigger] link_pairs(links, targets, path)[x];
                &&& links.contains(lk)
                &&& targets.contains(tg)
                &&& tg.id == lk.id
                &&& path_key(lk.file_path) == path_key(path)
            },
        forall|l: int, t: int|
            same_id_pair(links, targets, l, t) && path_key(links[l].file_path) == path_key(path)
                ==> #[trigger] link_pairs(links, targets, path).contains((links[l], targets[t])),
{
    let files = files_of(links);
    let idxs = positions_of(files, path_key(path));
    lemma_positions_exact(files, path_key(path));
    lemma_pairs_for_exact(links, targets, idxs);
    let all = link_pairs(links, targets, path);
    assert forall|x: int| 0 <= x < all.len() implies {
        let (lk, tg) = #[trigger] all[x];
        &&& links.contains(lk)
        &&& targets.contains(tg)
        &&& tg.id == lk.id
        &&& path_key(lk.file_path) == path_key(path)
    } by {
        let m = choose|m: int| 0 <= m < idxs.len() && links[#[trigger] idxs[m] as int] == all[x].0;
        assert(files[idxs[m] as int] == path_key(links[idxs[m] as int].file_path));
    }
    assert forall|l: int, t: int|
        same_id_pair(links, targets, l, t) && path_key(links[l].file_path) == path_key(path)
            implies #[trigger] all.contains((links[l], targets[t])) by {
        assert(files[l] == path_key(path));
        let m = choose|m: int| 0 <= m < idxs.len() && idxs[m] == l as usize;
        assert(pairs_for(links, targets, idxs).contains((links[idxs[m] as int], targets[t])));
    }
}

} // verus!
