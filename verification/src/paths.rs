//! File paths compared the way `std::path::Path` compares them on Unix: by
//! their components.  Repeated separators and a trailing separator do not
//! count, `.` components count only at the very start, and a leading `/`
//! makes the path rooted.  Each path is given a key text such that two paths
//! have the same components exactly when they have the same key: the key is
//! built from the components, and `lemma_path_key_injective` proves that the
//! components can be read back from it.

use vstd::prelude::*;

use crate::text::{chars_of, push_char};

verus! {

/// The position of the last `/` in `p`, or -1 where there is none.
pub open spec fn last_slash(p: Seq<char>) -> int
    decreases p.len(),
{
    if p.len() == 0 {
        -1
    } else if p.last() == '/' {
        p.len() - 1
    } else {
        last_slash(p.drop_last())
    }
}

/// `last_slash` finds the last slash.
pub proof fn lemma_last_slash(p: Seq<char>)
    ensures
        -1 <= last_slash(p) < p.len(),
        last_slash(p) >= 0 ==> p[last_slash(p)] == '/',
        forall|j: int| last_slash(p) < j < p.len() ==> p[j] != '/',
    decreases p.len(),
{
    if p.len() > 0 && p.last() != '/' {
        lemma_last_slash(p.drop_last());
        assert forall|j: int| last_slash(p) < j < p.len() implies p[j] != '/' by {
            if j < p.len() - 1 {
                assert(p.drop_last()[j] == p[j]);
            }
        }
    }
}

/// The parts of `p` between its slashes, in order (a path without a slash is
/// one part; an empty part stands between two adjacent slashes).
pub open spec fn path_segments(p: Seq<char>) -> Seq<Seq<char>>
    decreases p.len(),
{
    let k = last_slash(p);
    if k < 0 {
        seq![p]
    } else {
        proof {
            lemma_last_slash(p);
        }
        path_segments(p.take(k)).push(p.skip(k + 1))
    }
}

/// True for a part that names a component: neither empty nor `.`.
pub open spec fn is_normal_part(s: Seq<char>) -> bool {
    s.len() > 0 && s != seq!['.']
}

/// The parts that name components, in order.
pub open spec fn normal_parts(segs: Seq<Seq<char>>) -> Seq<Seq<char>>
    decreases segs.len(),
{
    if segs.len() == 0 {
        Seq::empty()
    } else if is_normal_part(segs.last()) {
        normal_parts(segs.drop_last()).push(segs.last())
    } else {
        normal_parts(segs.drop_last())
    }
}

/// The parts joined by single slashes.
pub open spec fn join_parts(parts: Seq<Seq<char>>) -> Seq<char>
    decreases parts.len(),
{
    if parts.len() == 0 {
        Seq::empty()
    } else if parts.len() == 1 {
        parts[0]
    } else {
        join_parts(parts.drop_last()) + seq!['/'] + parts.last()
    }
}

/// How the components of a path begin: `/` for a rooted path, `./` for a path
/// that is `.` or begins with `./`, and nothing otherwise.
pub open spec fn path_lead(p: Seq<char>) -> Seq<char> {
    if p.len() > 0 && p[0] == '/' {
        seq!['/']
    } else if p == seq!['.'] || (p.len() >= 2 && p[0] == '.' && p[1] == '/') {
        seq!['.', '/']
    } else {
        Seq::empty()
    }
}

/// The key of a path: its lead followed by its components joined by single
/// slashes.
pub open spec fn path_key(p: Seq<char>) -> Seq<char> {
    path_lead(p) + join_parts(normal_parts(path_segments(p)))
}

/// The components already taken from the parts that end before `start`.
pub open spec fn parts_before(p: Seq<char>, start: int) -> Seq<Seq<char>> {
    if start == 0 {
        Seq::empty()
    } else {
        normal_parts(path_segments(p.take(start - 1)))
    }
}

/// Cutting `p` after a part that runs from `start` (the start of `p` or just
/// after a slash) to `i` (a slash or the end, with no slash in between).
proof fn lemma_segments_step(p: Seq<char>, start: int, i: int)
    requires
        0 <= start <= i <= p.len(),
        start > 0 ==> p[start - 1] == '/',
        forall|j: int| start <= j < i ==> p[j] != '/',
    ensures
        path_segments(p.take(i)) == (if start == 0 {
            Seq::<Seq<char>>::empty()
        } else {
            path_segments(p.take(start - 1))
        }).push(p.subrange(start, i)),
{
    let q = p.take(i);
    lemma_last_slash(q);
    if start == 0 {
        assert forall|j: int| 0 <= j < q.len() implies q[j] != '/' by {}
        if last_slash(q) >= 0 {
            assert(q[last_slash(q)] == '/');
        }
        assert(q =~= p.subrange(0, i));
        assert(path_segments(q) == seq![q]);
        assert(seq![q] =~= Seq::<Seq<char>>::empty().push(p.subrange(0, i)));
    } else {
        if last_slash(q) < start - 1 {
            assert(q[start - 1] == '/');
        }
        if last_slash(q) > start - 1 {
            assert(q[last_slash(q)] == '/');
        }
        assert(last_slash(q) == start - 1);
        assert(q.take(start - 1) =~= p.take(start - 1));
        assert(q.skip(start) =~= p.subrange(start, i));
    }
}

/// The components taken from the parts before `i`, where a part runs from
/// `start` to the slash or end at `i`.
proof fn lemma_parts_step(ps: Seq<char>, start: int, i: int)
    requires
        0 <= start <= i <= ps.len(),
        start > 0 ==> ps[start - 1] == '/',
        forall|j: int| start <= j < i ==> ps[j] != '/',
    ensures
        normal_parts(path_segments(ps.take(i))) == (if is_normal_part(ps.subrange(start, i)) {
            parts_before(ps, start).push(ps.subrange(start, i))
        } else {
            parts_before(ps, start)
        }),
{
    lemma_segments_step(ps, start, i);
    let segs = path_segments(ps.take(i));
    let prev = if start == 0 {
        Seq::<Seq<char>>::empty()
    } else {
        path_segments(ps.take(start - 1))
    };
    assert(segs.drop_last() =~= prev);
    assert(normal_parts(prev) =~= parts_before(ps, start)) by {
        if start == 0 {
            assert(normal_parts(prev) =~= Seq::<Seq<char>>::empty());
        }
    }
}

/// Joining one more part.
proof fn lemma_join_push(b: Seq<Seq<char>>, x: Seq<char>)
    ensures
        join_parts(b.push(x)) == (if b.len() == 0 {
            x
        } else {
            join_parts(b) + seq!['/'] + x
        }),
{
    assert(b.push(x).drop_last() =~= b);
    if b.len() == 0 {
        assert(b.push(x)[0] == x);
    }
}

/// Appends the part `p[start..end]` to a key when it names a component,
/// behind a slash where `any` part was appended before.
fn append_part(key: &mut String, any: bool, p: &Vec<char>, start: usize, end: usize) -> (now_any:
    bool)
    requires
        start <= end <= p@.len(),
    ensures
        is_normal_part(p@.subrange(start as int, end as int)) ==> final(key)@ == old(key)@ + (if any {
            seq!['/']
        } else {
            Seq::empty()
        }) + p@.subrange(start as int, end as int) && now_any,
        !is_normal_part(p@.subrange(start as int, end as int)) ==> final(key)@ == old(key)@
            && now_any == any,
{
    let ghost seg = p@.subrange(start as int, end as int);
    let normal = end - start > 1 || (end - start == 1 && p[start] != '.');
    assert(normal == is_normal_part(seg)) by {
        assert(seg.len() == end - start);
        if end - start == 1 {
            assert(seg.len() == 1 && seg[0] == p@[start as int]);
            if p@[start as int] == '.' {
                assert(seg =~= seq!['.']);
            }
        }
    }
    if !normal {
        return any;
    }
    if any {
        push_char(key, '/');
    }
    let ghost base = key@;
    let mut k = start;
    while k < end
        invariant
            start <= k <= end <= p@.len(),
            key@ == base + p@.subrange(start as int, k as int),
        decreases end - k,
    {
        push_char(key, p[k]);
        k = k + 1;
        assert(key@ =~= base + p@.subrange(start as int, k as int));
    }
    assert(final(key)@ =~= old(key)@ + (if any {
        seq!['/']
    } else {
        Seq::empty()
    }) + seg);
    true
}

/// The key of a path.
pub fn path_key_text(path: &str) -> (r: String)
    ensures
        r@ == path_key(path@),
{
    let p = chars_of(path);
    let ghost ps = p@;
    let n = p.len();
    let mut key = String::new();
    if n > 0 && p[0] == '/' {
        push_char(&mut key, '/');
    } else if (n == 1 && p[0] == '.') || (n >= 2 && p[0] == '.' && p[1] == '/') {
        push_char(&mut key, '.');
        push_char(&mut key, '/');
    }
    let ghost lead = key@;
    assert(lead =~= path_lead(ps)) by {
        if n == 1 && ps[0] == '.' {
            assert(ps =~= seq!['.']);
        }
    }
    let mut any = false;
    let mut start: usize = 0;
    let mut i: usize = 0;
    assert(key@ =~= lead + join_parts(parts_before(ps, 0)));
    while i < n
        invariant
            ps == p@,
            n == ps.len(),
            lead == path_lead(ps),
            start <= i <= n,
            start > 0 ==> ps[start - 1] == '/',
            forall|j: int| start <= j < i ==> ps[j] != '/',
            key@ == lead + join_parts(parts_before(ps, start as int)),
            any == (parts_before(ps, start as int).len() > 0),
        decreases n - i,
    {
        if p[i] == '/' {
            let ghost before = parts_before(ps, start as int);
            let ghost seg = ps.subrange(start as int, i as int);
            any = append_part(&mut key, any, &p, start, i);
            proof {
                lemma_parts_step(ps, start as int, i as int);
                lemma_join_push(before, seg);
                assert(ps.take(i + 1 - 1) =~= ps.take(i as int));
            }
            start = i + 1;
        }
        i = i + 1;
    }
    let ghost before = parts_before(ps, start as int);
    let ghost seg = ps.subrange(start as int, n as int);
    let _ = append_part(&mut key, any, &p, start, n);
    proof {
        lemma_parts_step(ps, start as int, n as int);
        lemma_join_push(before, seg);
        assert(ps.take(n as int) =~= ps);
    }
    key
}

/// Parts that can stand between slashes of a key: not empty, not `.`, and
/// without a slash.
pub open spec fn proper_parts(parts: Seq<Seq<char>>) -> bool {
    forall|i: int|
        0 <= i < parts.len() ==> (#[trigger] parts[i]).len() > 0 && parts[i] != seq!['.']
            && !parts[i].contains('/')
}

proof fn lemma_segments_have_no_slash(p: Seq<char>)
    ensures
        forall|i: int|
            0 <= i < path_segments(p).len() ==> !(#[trigger] path_segments(p)[i]).contains('/'),
    decreases p.len(),
{
    let k = last_slash(p);
    lemma_last_slash(p);
    if k < 0 {
        assert forall|i: int| 0 <= i < path_segments(p).len() implies !(
        #[trigger] path_segments(p)[i]).contains('/') by {
            if p.contains('/') {
                let j = choose|j: int| 0 <= j < p.len() && p[j] == '/';
                assert(false);
            }
        }
    } else {
        lemma_segments_have_no_slash(p.take(k));
        let last = p.skip(k + 1);
        assert(!last.contains('/')) by {
            if last.contains('/') {
                let j = choose|j: int| 0 <= j < last.len() && last[j] == '/';
                assert(p[k + 1 + j] == '/');
            }
        }
        let segs = path_segments(p);
        assert(segs == path_segments(p.take(k)).push(last));
        assert forall|i: int| 0 <= i < segs.len() implies !(#[trigger] segs[i]).contains('/') by {
            if i < segs.len() - 1 {
                assert(segs[i] == path_segments(p.take(k))[i]);
            }
        }
    }
}

proof fn lemma_normal_parts_proper(segs: Seq<Seq<char>>)
    requires
        forall|i: int| 0 <= i < segs.len() ==> !(#[trigger] segs[i]).contains('/'),
    ensures
        proper_parts(normal_parts(segs)),
    decreases segs.len(),
{
    if segs.len() > 0 {
        let init = segs.drop_last();
        assert forall|i: int| 0 <= i < init.len() implies !(#[trigger] init[i]).contains('/') by {
            assert(init[i] == segs[i]);
        }
        lemma_normal_parts_proper(init);
        let np = normal_parts(segs);
        if is_normal_part(segs.last()) {
            assert forall|i: int| 0 <= i < np.len() implies (#[trigger] np[i]).len() > 0 && np[i]
                != seq!['.'] && !np[i].contains('/') by {
                if i < np.len() - 1 {
                    assert(np[i] == normal_parts(init)[i]);
                }
            }
        }
    }
}

/// The components of a path are proper parts.
proof fn lemma_key_parts_proper(p: Seq<char>)
    ensures
        proper_parts(normal_parts(path_segments(p))),
{
    lemma_segments_have_no_slash(p);
    lemma_normal_parts_proper(path_segments(p));
}

/// The last slash of a sequence is the one at `k` when none follows it.
proof fn lemma_last_slash_at(s: Seq<char>, k: int)
    requires
        -1 <= k < s.len(),
        k >= 0 ==> s[k] == '/',
        forall|j: int| k < j < s.len() ==> s[j] != '/',
    ensures
        last_slash(s) == k,
{
    lemma_last_slash(s);
    let ls = last_slash(s);
    if ls < k {
        assert(s[k] == '/');
    }
    if ls > k {
        assert(s[ls] == '/');
    }
}

/// How a join of proper parts is built: it starts with the first part, and
/// its last slash stands just before the last part.
proof fn lemma_join_shape(parts: Seq<Seq<char>>)
    requires
        proper_parts(parts),
        parts.len() > 0,
    ensures
        join_parts(parts).len() >= parts[0].len() > 0,
        join_parts(parts).take(parts[0].len() as int) == parts[0],
        parts.len() >= 2 ==> join_parts(parts).len() > parts[0].len() && join_parts(parts)[parts[0].len() as int] == '/',
        parts.len() == 1 ==> last_slash(join_parts(parts)) == -1,
        parts.len() >= 2 ==> last_slash(join_parts(parts)) == join_parts(parts.drop_last()).len(),
        join_parts(parts).skip(last_slash(join_parts(parts)) + 1) == parts.last(),
        parts.len() >= 2 ==> join_parts(parts).take(last_slash(join_parts(parts)))
            == join_parts(parts.drop_last()),
    decreases parts.len(),
{
    let j = join_parts(parts);
    let x = parts.last();
    assert(x == parts[parts.len() - 1]);
    assert(!x.contains('/'));
    if parts.len() == 1 {
        assert(j == parts[0]);
        assert forall|i: int| -1 < i < j.len() implies j[i] != '/' by {
            if j[i] == '/' {
                assert(x.contains('/'));
            }
        }
        lemma_last_slash_at(j, -1);
        assert(j.skip(0) =~= j);
        assert(j.take(j.len() as int) =~= j);
    } else {
        let init = parts.drop_last();
        assert forall|i: int| 0 <= i < init.len() implies (#[trigger] init[i]).len() > 0 && init[i]
            != seq!['.'] && !init[i].contains('/') by {
            assert(init[i] == parts[i]);
        }
        lemma_join_shape(init);
        let a = join_parts(init);
        assert(init[0] == parts[0]);
        assert(j == a + seq!['/'] + x);
        assert forall|i: int| a.len() < i < j.len() implies j[i] != '/' by {
            assert(j[i] == x[i - a.len() - 1]);
            if j[i] == '/' {
                assert(x.contains('/'));
            }
        }
        lemma_last_slash_at(j, a.len() as int);
        assert(j.skip(a.len() + 1int) =~= x);
        assert(j.take(a.len() as int) =~= a);
        assert(j.take(parts[0].len() as int) =~= a.take(parts[0].len() as int));
        if init.len() >= 2 {
            assert(j[parts[0].len() as int] == a[parts[0].len() as int]);
        } else {
            assert(a == parts[0]);
        }
    }
}

/// Proper parts are determined by their join.
proof fn lemma_join_injective(p1: Seq<Seq<char>>, p2: Seq<Seq<char>>)
    requires
        proper_parts(p1),
        proper_parts(p2),
        join_parts(p1) == join_parts(p2),
    ensures
        p1 == p2,
    decreases p1.len() + p2.len(),
{
    if p1.len() == 0 || p2.len() == 0 {
        if p1.len() > 0 {
            lemma_join_shape(p1);
        }
        if p2.len() > 0 {
            lemma_join_shape(p2);
        }
        assert(p1 =~= p2);
    } else {
        lemma_join_shape(p1);
        lemma_join_shape(p2);
        if p1.len() == 1 && p2.len() >= 2 {
            assert(false);
        } else if p2.len() == 1 && p1.len() >= 2 {
            assert(false);
        } else if p1.len() == 1 {
            assert(p1 =~= p2);
        } else {
            let i1 = p1.drop_last();
            let i2 = p2.drop_last();
            assert forall|i: int| 0 <= i < i1.len() implies (#[trigger] i1[i]).len() > 0 && i1[i]
                != seq!['.'] && !i1[i].contains('/') by {
                assert(i1[i] == p1[i]);
            }
            assert forall|i: int| 0 <= i < i2.len() implies (#[trigger] i2[i]).len() > 0 && i2[i]
                != seq!['.'] && !i2[i].contains('/') by {
                assert(i2[i] == p2[i]);
            }
            lemma_join_injective(i1, i2);
            assert(p1 =~= i1.push(p1.last()));
            assert(p2 =~= i2.push(p2.last()));
        }
    }
}

/// A join of proper parts does not begin with `/`, nor with `./`.
proof fn lemma_join_start(parts: Seq<Seq<char>>)
    requires
        proper_parts(parts),
    ensures
        parts.len() == 0 ==> join_parts(parts).len() == 0,
        parts.len() > 0 ==> join_parts(parts).len() > 0 && join_parts(parts)[0] != '/',
        parts.len() > 0 && join_parts(parts)[0] == '.' ==> join_parts(parts).len() >= 2
            && join_parts(parts)[1] != '/',
{
    if parts.len() > 0 {
        lemma_join_shape(parts);
        let j = join_parts(parts);
        let x = parts[0];
        assert(j[0] == x[0]);
        assert(x.contains(x[0]));
        if x[0] == '.' {
            if x.len() == 1 {
                assert(x =~= seq!['.']);
            }
            assert(j[1] == x[1]);
            assert(x.contains(x[1]));
        }
    }
}

/// Law of path keys: two paths with the same key have the same components:
/// both are rooted or neither is, both begin with a `.` component or neither
/// does, and their normal components are the same, in the same order.  (The
/// converse holds by the definition of the key.)
pub proof fn lemma_path_key_injective(p: Seq<char>, q: Seq<char>)
    requires
        path_key(p) == path_key(q),
    ensures
        (p.len() > 0 && p[0] == '/') == (q.len() > 0 && q[0] == '/'),
        path_lead(p) == seq!['.', '/'] <==> path_lead(q) == seq!['.', '/'],
        path_lead(p) == path_lead(q),
        normal_parts(path_segments(p)) == normal_parts(path_segments(q)),
{
    let np = normal_parts(path_segments(p));
    let nq = normal_parts(path_segments(q));
    lemma_key_parts_proper(p);
    lemma_key_parts_proper(q);
    let jp = join_parts(np);
    let jq = join_parts(nq);
    let lp = path_lead(p);
    let lq = path_lead(q);
    let k = path_key(p);
    assert(k == lp + jp);
    assert(k == lq + jq);
    lemma_join_start(np);
    lemma_join_start(nq);
    if lp != lq {
        if lp.len() > 0 && lq.len() > 0 {
            assert(k[0] == lp[0]);
            assert(k[0] == lq[0]);
        } else if lp.len() == 0 {
            assert(k == jp);
            assert(k[0] == lq[0]);
            if lq == seq!['.', '/'] {
                assert(k[1] == '/');
            }
        } else {
            assert(k == jq);
            assert(k[0] == lp[0]);
            if lp == seq!['.', '/'] {
                assert(k[1] == '/');
            }
        }
        assert(false);
    }
    assert(jp =~= k.skip(lp.len() as int));
    assert(jq =~= k.skip(lq.len() as int));
    lemma_join_injective(np, nq);
}

/// Law of components: the components of a path are exactly its parts that are
/// neither empty nor `.`, in order.  No other part is dropped: `..` and names
/// that begin with a `.` (such as `.github`) are components like any other.
pub proof fn lemma_components_are_named_parts(segs: Seq<Seq<char>>)
    ensures
        normal_parts(segs) == segs.filter(|s: Seq<char>| s.len() > 0 && s != seq!['.']),
        forall|i: int|
            0 <= i < segs.len() && segs[i].len() > 0 && segs[i] != seq!['.'] ==> normal_parts(
                segs,
            ).contains(#[trigger] segs[i]),
        forall|j: int|
            0 <= j < normal_parts(segs).len() ==> segs.contains(#[trigger] normal_parts(segs)[j])
                && normal_parts(segs)[j].len() > 0 && normal_parts(segs)[j] != seq!['.'],
    decreases segs.len(),
{
    reveal(Seq::filter);
    let named = |s: Seq<char>| s.len() > 0 && s != seq!['.'];
    if segs.len() > 0 {
        let init = segs.drop_last();
        let last = segs.last();
        lemma_components_are_named_parts(init);
        let before = normal_parts(init);
        let now = normal_parts(segs);
        assert(segs.filter(named) == if named(last) {
            init.filter(named).push(last)
        } else {
            init.filter(named)
        });
        assert(now == segs.filter(named));
        assert forall|i: int|
            0 <= i < segs.len() && segs[i].len() > 0 && segs[i] != seq!['.'] implies now.contains(
            #[trigger] segs[i],
        ) by {
            if i < segs.len() - 1 {
                assert(init[i] == segs[i]);
                assert(before.contains(init[i]));
                let k = choose|k: int| 0 <= k < before.len() && before[k] == init[i];
                assert(now[k] == before[k]);
            } else {
                assert(now[now.len() - 1] == last);
            }
        }
        assert forall|j: int| 0 <= j < now.len() implies segs.contains(#[trigger] now[j])
            && now[j].len() > 0 && now[j] != seq!['.'] by {
            if j < before.len() {
                assert(now[j] == before[j]);
                assert(init.contains(before[j]));
                let k = choose|k: int| 0 <= k < init.len() && init[k] == before[j];
                assert(segs[k] == init[k]);
            } else {
                assert(now[j] == last);
                assert(segs[segs.len() - 1] == last);
            }
        }
    } else {
        assert(segs.filter(named) =~= Seq::<Seq<char>>::empty());
    }
}

} // verus!
