//! Indexes of tags by id and by file, and the registry of targets and links.

use vstd::hash_map::StringHashMap;
use vstd::prelude::*;

use crate::paths::{path_key, path_key_text};
use crate::tags::{tag_models, CombinedTagList, Tag, TagList, TagModel};

verus! {

broadcast use vstd::seq_lib::group_seq_properties;

/// The positions in `keys` that hold `k`, in increasing order.
pub open spec fn positions_of(keys: Seq<Seq<char>>, k: Seq<char>) -> Seq<usize>
    decreases keys.len(),
{
    if keys.len() == 0 {
        Seq::empty()
    } else if keys.last() == k {
        positions_of(keys.drop_last(), k).push((keys.len() - 1) as usize)
    } else {
        positions_of(keys.drop_last(), k)
    }
}

/// `m` maps each key that occurs in `keys`, and no other, to the positions in
/// `keys` that hold it, in increasing order.
pub open spec fn indexes(m: Map<Seq<char>, Vec<usize>>, keys: Seq<Seq<char>>) -> bool {
    &&& forall|k: Seq<char>| #[trigger] m.contains_key(k) <==> keys.contains(k)
    &&& forall|k: Seq<char>| #[trigger] m.contains_key(k) ==> m[k]@ == positions_of(keys, k)
}

/// The ids of a sequence of tags.
pub open spec fn ids_of(tags: Seq<TagModel>) -> Seq<Seq<char>> {
    tags.map_values(|t: TagModel| t.id)
}

/// The file keys of a sequence of tags: each tag's file under its
/// component key, so that paths naming the same file share one entry.
pub open spec fn files_of(tags: Seq<TagModel>) -> Seq<Seq<char>> {
    tags.map_values(|t: TagModel| path_key(t.file_path))
}

/// A list of tags with two indexes into it: by id, and by file (under the
/// file's component key, see [`crate::paths::path_key`]).
pub struct TagMapping {
    pub tags: Vec<Tag>,
    pub tag_indices_by_id: StringHashMap<Vec<usize>>,
    pub tag_indices_by_file: StringHashMap<Vec<usize>>,
}

impl View for TagMapping {
    type V = Seq<TagModel>;

    open spec fn view(&self) -> Seq<TagModel> {
        tag_models(self.tags@)
    }
}

impl TagMapping {
    /// Both indexes agree with the list of tags.
    pub open spec fn wf(&self) -> bool {
        &&& indexes(self.tag_indices_by_id@, ids_of(self@))
        &&& indexes(self.tag_indices_by_file@, files_of(self@))
    }

    /// An empty mapping.
    pub fn new() -> (r: TagMapping)
        ensures
            r.wf(),
            r@ == Seq::<TagModel>::empty(),
    {
        let r = TagMapping {
            tags: Vec::new(),
            tag_indices_by_id: StringHashMap::new(),
            tag_indices_by_file: StringHashMap::new(),
        };
        assert(r@ =~= Seq::<TagModel>::empty());
        r
    }

    /// Appends a tag and records its position under its id and its file.
    /// Law: the indexes stay exact.
    pub fn add_tag(&mut self, tag: Tag)
        requires
            old(self).wf(),
        ensures
            final(self).wf(),
            final(self)@ == old(self)@.push(tag@),
    {
        let tag_index = self.tags.len();
        let ghost old_ids = ids_of(self@);
        let ghost old_files = files_of(self@);
        let by_id = indices_with_key(&self.tag_indices_by_id, tag.id.as_str(), tag_index);
        let file_key = path_key_text(tag.file_path.as_str());
        let by_file = indices_with_key(&self.tag_indices_by_file, file_key.as_str(), tag_index);
        self.tag_indices_by_id.insert(tag.id.clone(), by_id);
        self.tag_indices_by_file.insert(file_key, by_file);
        let ghost t = tag@;
        self.tags.push(tag);
        proof {
            assert(self@ =~= old(self)@.push(t));
            assert(ids_of(self@) =~= old_ids.push(t.id));
            assert(files_of(self@) =~= old_files.push(path_key(t.file_path)));
            lemma_index_push(old(self).tag_indices_by_id@, self.tag_indices_by_id@, old_ids, t.id);
            lemma_index_push(
                old(self).tag_indices_by_file@,
                self.tag_indices_by_file@,
                old_files,
                path_key(t.file_path),
            );
        }
    }
}

/// The positions recorded under `k`, followed by `next`.
fn indices_with_key(m: &StringHashMap<Vec<usize>>, k: &str, next: usize) -> (r: Vec<usize>)
    ensures
        m@.contains_key(k@) ==> r@ == m@[k@]@.push(next),
        !m@.contains_key(k@) ==> r@ == seq![next],
{
    let mut r: Vec<usize> = Vec::new();
    match m.get(k) {
        Some(v) => {
            let mut i: usize = 0;
            while i < v.len()
                invariant
                    i <= v@.len(),
                    r@ == v@.take(i as int),
                decreases v@.len() - i,
            {
                r.push(v[i]);
                i = i + 1;
                assert(r@ =~= v@.take(i as int));
            }
            assert(v@.take(v@.len() as int) =~= v@);
        },
        None => {},
    }
    r.push(next);
    r
}

/// Law of the indexes: the positions recorded under a key are exactly the
/// positions of the sequence that hold that key, each once, in increasing
/// order.
pub proof fn lemma_positions_exact(keys: Seq<Seq<char>>, k: Seq<char>)
    requires
        keys.len() <= usize::MAX,
    ensures
        forall|m: int|
            0 <= m < positions_of(keys, k).len() ==> {
                &&& (#[trigger] positions_of(keys, k)[m]) < keys.len()
                &&& keys[positions_of(keys, k)[m] as int] == k
            },
        forall|m1: int, m2: int|
            0 <= m1 < m2 < positions_of(keys, k).len() ==> positions_of(keys, k)[m1]
                < positions_of(keys, k)[m2],
        forall|j: int| 0 <= j < keys.len() && keys[j] == k ==> positions_of(keys, k).contains(j as usize),
    decreases keys.len(),
{
    if keys.len() > 0 {
        let init = keys.drop_last();
        lemma_positions_exact(init, k);
        let p0 = positions_of(init, k);
        let p = positions_of(keys, k);
        if keys.last() == k {
            assert(p == p0.push((keys.len() - 1) as usize));
            assert forall|m: int| 0 <= m < p.len() implies (#[trigger] p[m]) < keys.len() && keys[p[m] as int] == k by {
                if m < p0.len() {
                    assert(p[m] == p0[m]);
                }
            }
            assert forall|m1: int, m2: int| 0 <= m1 < m2 < p.len() implies p[m1] < p[m2] by {
                assert(p[m1] == p0[m1]);
                if m2 < p0.len() {
                    assert(p[m2] == p0[m2]);
                }
            }
        }
        assert forall|j: int| 0 <= j < keys.len() && keys[j] == k implies positions_of(
            keys,
            k,
        ).contains(j as usize) by {
            if j < keys.len() - 1 {
                assert(init[j] == k);
                let m = choose|m: int| 0 <= m < p0.len() && p0[m] == j as usize;
                assert(positions_of(keys, k)[m] == j as usize);
            } else {
                assert(positions_of(keys, k)[p0.len() as int] == j as usize);
            }
        }
    }
}

/// A key that does not occur has no positions.
pub proof fn lemma_positions_absent(keys: Seq<Seq<char>>, k: Seq<char>)
    requires
        !keys.contains(k),
    ensures
        positions_of(keys, k) == Seq::<usize>::empty(),
    decreases keys.len(),
{
    if keys.len() > 0 {
        assert(!keys.drop_last().contains(k)) by {
            if keys.drop_last().contains(k) {
                let j = choose|j: int| 0 <= j < keys.drop_last().len() && keys.drop_last()[j] == k;
                assert(keys[j] == k);
            }
        }
        lemma_positions_absent(keys.drop_last(), k);
    }
}

/// Law of the indexes: pushing a key keeps an index exact when the pushed
/// key's list gains the new position and no other list changes.
pub proof fn lemma_index_push(
    old_m: Map<Seq<char>, Vec<usize>>,
    new_m: Map<Seq<char>, Vec<usize>>,
    keys: Seq<Seq<char>>,
    x: Seq<char>,
)
    requires
        indexes(old_m, keys),
        old_m.contains_key(x) ==> new_m[x]@ == old_m[x]@.push(keys.len() as usize),
        !old_m.contains_key(x) ==> new_m[x]@ == seq![keys.len() as usize],
        new_m.dom() == old_m.dom().insert(x),
        forall|k: Seq<char>| k != x && old_m.contains_key(k) ==> new_m[k] == old_m[k],
    ensures
        indexes(new_m, keys.push(x)),
{
    let nk = keys.push(x);
    assert(nk.drop_last() =~= keys);
    assert forall|k: Seq<char>| #[trigger] new_m.contains_key(k) <==> nk.contains(k) by {
        if keys.contains(k) {
            let j = choose|j: int| 0 <= j < keys.len() && keys[j] == k;
            assert(nk[j] == k);
        }
        if nk.contains(k) && k != x {
            let j = choose|j: int| 0 <= j < nk.len() && nk[j] == k;
            assert(keys[j] == k);
        }
        assert(nk[keys.len() as int] == x);
    }
    assert forall|k: Seq<char>| #[trigger] new_m.contains_key(k) implies new_m[k]@ == positions_of(
        nk,
        k,
    ) by {
        if k == x && !old_m.contains_key(x) {
            lemma_positions_absent(keys, x);
        }
    }
}

/// The tags of a search, split into targets and links, each with its indexes.
pub struct TagRegistry {
    pub target_tags: TagMapping,
    pub link_tags: TagMapping,
}

impl TagRegistry {
    /// Both mappings are consistent.
    pub open spec fn wf(&self) -> bool {
        self.target_tags.wf() && self.link_tags.wf()
    }

    /// An empty registry.
    pub fn new() -> (r: TagRegistry)
        ensures
            r.wf(),
            r.target_tags@ == Seq::<TagModel>::empty(),
            r.link_tags@ == Seq::<TagModel>::empty(),
    {
        TagRegistry { target_tags: TagMapping::new(), link_tags: TagMapping::new() }
    }
}

impl Default for TagRegistry {
    fn default() -> (r: TagRegistry)
        ensures
            r.wf(),
            r.target_tags@ == Seq::<TagModel>::empty(),
            r.link_tags@ == Seq::<TagModel>::empty(),
    {
        TagRegistry::new()
    }
}

/// The targets of all lists, list after list.
pub open spec fn all_targets(lists: Seq<TagList>) -> Seq<TagModel>
    decreases lists.len(),
{
    if lists.len() == 0 {
        Seq::empty()
    } else {
        all_targets(lists.drop_last()) + tag_models(lists.last().target_tags@)
    }
}

/// The links of all lists, list after list.
pub open spec fn all_links(lists: Seq<TagList>) -> Seq<TagModel>
    decreases lists.len(),
{
    if lists.len() == 0 {
        Seq::empty()
    } else {
        all_links(lists.drop_last()) + tag_models(lists.last().link_tags@)
    }
}

/// Appends copies of `tags` to `mapping`.
fn add_all(mapping: &mut TagMapping, tags: &Vec<Tag>)
    requires
        old(mapping).wf(),
    ensures
        final(mapping).wf(),
        final(mapping)@ == old(mapping)@ + tag_models(tags@),
{
    let mut j: usize = 0;
    while j < tags.len()
        invariant
            j <= tags@.len(),
            mapping.wf(),
            mapping@ == old(mapping)@ + tag_models(tags@.take(j as int)),
        decreases tags@.len() - j,
    {
        mapping.add_tag(tags[j].clone());
        j = j + 1;
        assert(tag_models(tags@.take(j as int)) =~= tag_models(tags@.take(j - 1)).push(
            tags@[j - 1]@,
        ));
        assert(mapping@ =~= old(mapping)@ + tag_models(tags@.take(j as int)));
    }
    assert(tags@.take(tags@.len() as int) =~= tags@);
}

/// Gathers the tags of all lists into one registry: the targets of every list
/// in order, then likewise the links, each indexed by id and by file.
pub fn aggregate_tags(tags: &CombinedTagList) -> (r: TagRegistry)
    ensures
        r.wf(),
        r.target_tags@ == all_targets(tags.tag_lists@),
        r.link_tags@ == all_links(tags.tag_lists@),
{
    let mut tag_registry = TagRegistry::new();
    let lists = &tags.tag_lists;
    let mut i: usize = 0;
    while i < lists.len()
        invariant
            i <= lists@.len(),
            tag_registry.wf(),
            tag_registry.target_tags@ == all_targets(lists@.take(i as int)),
            tag_registry.link_tags@ == all_links(lists@.take(i as int)),
        decreases lists@.len() - i,
    {
        let tag_list = &lists[i];
        add_all(&mut tag_registry.target_tags, &tag_list.target_tags);
        add_all(&mut tag_registry.link_tags, &tag_list.link_tags);
        i = i + 1;
        assert(lists@.take(i as int).drop_last() =~= lists@.take(i - 1));
    }
    assert(lists@.take(lists@.len() as int) =~= lists@);
    tag_registry
}

impl TagMapping {
    /// Law of the indexes of a mapping: the id `id` is recorded exactly when
    /// some tag carries it, and then the positions recorded under it are
    /// exactly those of the tags that carry it; likewise for files, under
    /// their component keys.
    pub proof fn lemma_lookup(&self, id: Seq<char>, file_key: Seq<char>)
        requires
            self.wf(),
        ensures
            self.tag_indices_by_id@.contains_key(id) <==> exists|j: int|
                0 <= j < self@.len() && (#[trigger] self@[j]).id == id,
            self.tag_indices_by_id@.contains_key(id) ==> forall|j: int|
                0 <= j < self@.len() ==> (self.tag_indices_by_id@[id]@.contains(j as usize) <==> (
                #[trigger] self@[j]).id == id),
            self.tag_indices_by_file@.contains_key(file_key) <==> exists|j: int|
                0 <= j < self@.len() && path_key((#[trigger] self@[j]).file_path) == file_key,
            self.tag_indices_by_file@.contains_key(file_key) ==> forall|j: int|
                0 <= j < self@.len() ==> (self.tag_indices_by_file@[file_key]@.contains(j as usize)
                <==> path_key((#[trigger] self@[j]).file_path) == file_key),
    {
        let ids = ids_of(self@);
        let files = files_of(self@);
        assert(self.tags@.len() == self.tags.len());
        lemma_positions_exact(ids, id);
        lemma_positions_exact(files, file_key);
        assert(ids.contains(id) <==> exists|j: int| 0 <= j < self@.len() && (#[trigger] self@[j]).id == id) by {
            if ids.contains(id) {
                let j = choose|j: int| 0 <= j < ids.len() && ids[j] == id;
                assert(self@[j].id == id);
            }
            if exists|j: int| 0 <= j < self@.len() && (#[trigger] self@[j]).id == id {
                let j = choose|j: int| 0 <= j < self@.len() && (#[trigger] self@[j]).id == id;
                assert(ids[j] == id);
            }
        }
        assert(files.contains(file_key) <==> exists|j: int|
            0 <= j < self@.len() && path_key((#[trigger] self@[j]).file_path) == file_key) by {
            if files.contains(file_key) {
                let j = choose|j: int| 0 <= j < files.len() && files[j] == file_key;
                assert(path_key(self@[j].file_path) == file_key);
            }
            if exists|j: int| 0 <= j < self@.len() && path_key((#[trigger] self@[j]).file_path) == file_key {
                let j = choose|j: int| 0 <= j < self@.len() && path_key((#[trigger] self@[j]).file_path) == file_key;
                assert(files[j] == file_key);
            }
        }
        assert forall|j: int| 0 <= j < self@.len() && self.tag_indices_by_id@.contains_key(id)
            implies (self.tag_indices_by_id@[id]@.contains(j as usize) <==> (#[trigger] self@[j]).id == id) by {
            assert(ids[j] == self@[j].id);
            if self.tag_indices_by_id@[id]@.contains(j as usize) {
                let m = choose|m: int| 0 <= m < positions_of(ids, id).len() && positions_of(ids, id)[m] == j as usize;
                assert(ids[positions_of(ids, id)[m] as int] == id);
            }
        }
        assert forall|j: int| 0 <= j < self@.len() && self.tag_indices_by_file@.contains_key(file_key)
            implies (self.tag_indices_by_file@[file_key]@.contains(j as usize) <==> path_key((#[trigger] self@[j]).file_path) == file_key) by {
            assert(files[j] == path_key(self@[j].file_path));
            if self.tag_indices_by_file@[file_key]@.contains(j as usize) {
                let m = choose|m: int| 0 <= m < positions_of(files, file_key).len() && positions_of(files, file_key)[m] == j as usize;
                assert(files[positions_of(files, file_key)[m] as int] == file_key);
            }
        }
    }
}

/// Law of gathering: the gathered targets (and links) are those of the lists
/// before a list followed by every target (and link) of that list, whatever
/// else the list holds; so every tag of every list is gathered.
pub proof fn lemma_every_tag_is_gathered(lists: Seq<TagList>)
    ensures
        all_targets(Seq::<TagList>::empty()) == Seq::<TagModel>::empty(),
        all_links(Seq::<TagList>::empty()) == Seq::<TagModel>::empty(),
        forall|i: int|
            0 <= i < lists.len() ==> all_targets(#[trigger] lists.take(i + 1)) == all_targets(
                lists.take(i),
            ) + tag_models(lists[i].target_tags@),
        forall|i: int|
            0 <= i < lists.len() ==> all_links(#[trigger] lists.take(i + 1)) == all_links(
                lists.take(i),
            ) + tag_models(lists[i].link_tags@),
        forall|i: int, j: int|
            0 <= i < lists.len() && 0 <= j < lists[i].target_tags@.len() ==> all_targets(
                lists,
            ).contains(#[trigger] lists[i].target_tags@[j]@),
        forall|i: int, j: int|
            0 <= i < lists.len() && 0 <= j < lists[i].link_tags@.len() ==> all_links(
                lists,
            ).contains(#[trigger] lists[i].link_tags@[j]@),
    decreases lists.len(),
{
    assert forall|i: int| 0 <= i < lists.len() implies all_targets(#[trigger] lists.take(i + 1))
        == all_targets(lists.take(i)) + tag_models(lists[i].target_tags@) by {
        assert(lists.take(i + 1).drop_last() =~= lists.take(i));
        assert(lists.take(i + 1).last() == lists[i]);
    }
    assert forall|i: int| 0 <= i < lists.len() implies all_links(#[trigger] lists.take(i + 1))
        == all_links(lists.take(i)) + tag_models(lists[i].link_tags@) by {
        assert(lists.take(i + 1).drop_last() =~= lists.take(i));
        assert(lists.take(i + 1).last() == lists[i]);
    }
    if lists.len() > 0 {
        let init = lists.drop_last();
        lemma_every_tag_is_gathered(init);
        let last = lists.last();
        assert forall|i: int, j: int|
            0 <= i < lists.len() && 0 <= j < lists[i].target_tags@.len() implies all_targets(
            lists,
        ).contains(#[trigger] lists[i].target_tags@[j]@) by {
            let whole = all_targets(lists);
            if i < lists.len() - 1 {
                assert(init[i] == lists[i]);
                assert(init[i].target_tags@[j]@ == lists[i].target_tags@[j]@);
                let before = all_targets(init);
                assert(before.contains(init[i].target_tags@[j]@));
                let k = choose|k: int| 0 <= k < before.len() && before[k] == init[i].target_tags@[j]@;
                assert(whole[k] == before[k]);
            } else {
                let before = all_targets(init);
                assert(whole[before.len() + j] == tag_models(last.target_tags@)[j]);
            }
        }
        assert forall|i: int, j: int|
            0 <= i < lists.len() && 0 <= j < lists[i].link_tags@.len() implies all_links(
            lists,
        ).contains(#[trigger] lists[i].link_tags@[j]@) by {
            let whole = all_links(lists);
            if i < lists.len() - 1 {
                assert(init[i] == lists[i]);
                assert(init[i].link_tags@[j]@ == lists[i].link_tags@[j]@);
                let before = all_links(init);
                assert(before.contains(init[i].link_tags@[j]@));
                let k = choose|k: int| 0 <= k < before.len() && before[k] == init[i].link_tags@[j]@;
                assert(whole[k] == before[k]);
            } else {
                let before = all_links(init);
                assert(whole[before.len() + j] == tag_models(last.link_tags@)[j]);
            }
        }
    }
}

} // verus!
