//! Recognition of tags inside one line of text.
//!
//! A tag is `[traverse-tgt: <id>]` (a target) or `[traverse-lnk: <id>]` (a
//! link).  Between the colon and the id, and between the id and the closing
//! bracket, any amount of whitespace may stand; the id itself holds no
//! whitespace.  Whitespace is Unicode `White_Space`.  Every tag of a line is
//! found, from left to right: the leftmost tag first, then the leftmost tag
//! that starts after its closing bracket, and so on.  Where the characters
//! after the colon admit several readings, the longest id is taken: the id
//! runs up to the end of the word that follows the colon when that word is
//! closed by `]` (after optional whitespace), and otherwise up to the last `]`
//! inside that word.
//!
//! The specification works on the UTF-8 bytes of the line; the byte offsets of
//! the id are reported as they are in the line.

use vstd::prelude::*;
use vstd::utf8::*;

verus! {

broadcast use vstd::string::group_string_axioms;

/// Which of the two kinds of tag was found.
#[derive(Clone, Copy, Debug, PartialEq, Eq)]
pub enum TagKind {
    /// `[traverse-tgt: ..]`: a place to link to.
    Target,
    /// `[traverse-lnk: ..]`: a place to link from.
    Link,
}

/// True when the 14 bytes at `p` spell `[traverse-tgt:` (for a target) or
/// `[traverse-lnk:` (for a link).
pub open spec fn opening_at(s: Seq<u8>, p: int, kind: TagKind) -> bool {
    &&& 0 <= p
    &&& p + 14 <= s.len()
    &&& s[p] == 0x5b  // [
    &&& s[p + 1] == 0x74  // t
    &&& s[p + 2] == 0x72  // r
    &&& s[p + 3] == 0x61  // a
    &&& s[p + 4] == 0x76  // v
    &&& s[p + 5] == 0x65  // e
    &&& s[p + 6] == 0x72  // r
    &&& s[p + 7] == 0x73  // s
    &&& s[p + 8] == 0x65  // e
    &&& s[p + 9] == 0x2d  // -
    &&& match kind {
        TagKind::Target => s[p + 10] == 0x74 && s[p + 11] == 0x67 && s[p + 12] == 0x74,  // tgt
        TagKind::Link => s[p + 10] == 0x6c && s[p + 11] == 0x6e && s[p + 12] == 0x6b,  // lnk
    }
    &&& s[p + 13] == 0x3a  // :
}

/// The number of bytes of the whitespace character that starts at byte `i`,
/// or 0 where no whitespace character starts there.  The whitespace
/// characters are those of Unicode `White_Space`: U+0009..U+000D, U+0020,
/// U+0085, U+00A0, U+1680, U+2000..U+200A, U+2028, U+2029, U+202F, U+205F and
/// U+3000, in their UTF-8 encodings.
pub open spec fn whitespace_len(s: Seq<u8>, i: int) -> int {
    if !(0 <= i < s.len()) {
        0
    } else if (0x09 <= s[i] && s[i] <= 0x0d) || s[i] == 0x20 {
        1
    } else if s[i] == 0xc2 && i + 1 < s.len() && (s[i + 1] == 0x85 || s[i + 1] == 0xa0) {
        2
    } else if i + 2 < s.len() && (
        (s[i] == 0xe1 && s[i + 1] == 0x9a && s[i + 2] == 0x80)
        || (s[i] == 0xe2 && s[i + 1] == 0x80 && ((0x80 <= s[i + 2] && s[i + 2] <= 0x8a)
            || s[i + 2] == 0xa8 || s[i + 2] == 0xa9 || s[i + 2] == 0xaf))
        || (s[i] == 0xe2 && s[i + 1] == 0x81 && s[i + 2] == 0x9f)
        || (s[i] == 0xe3 && s[i + 1] == 0x80 && s[i + 2] == 0x80)) {
        3
    } else {
        0
    }
}

/// The end of the run of whitespace characters that starts at `i`.
pub open spec fn skip_whitespace(s: Seq<u8>, i: int) -> int
    decreases s.len() - i,
{
    if 0 <= i < s.len() && whitespace_len(s, i) > 0 {
        skip_whitespace(s, i + whitespace_len(s, i))
    } else {
        i
    }
}

/// The end of the run of non-whitespace characters that starts at `i`.
pub open spec fn skip_word(s: Seq<u8>, i: int) -> int
    decreases s.len() - i,
{
    if 0 <= i < s.len() && whitespace_len(s, i) == 0 {
        skip_word(s, i + 1)
    } else {
        i
    }
}

/// The position of the last `]` in `s[a..b]`, or -1 where there is none.
pub open spec fn last_bracket(s: Seq<u8>, a: int, b: int) -> int
    decreases b - a,
{
    if b <= a {
        -1
    } else if s[b - 1] == 0x5d {
        b - 1
    } else {
        last_bracket(s, a, b - 1)
    }
}

/// The byte range of the id of a tag whose colon ends at `q`, where the rest
/// of the tag is well formed, and the end of the tag (just past its `]`).
pub open spec fn id_range_after(s: Seq<u8>, q: int) -> Option<(int, int, int)> {
    let a = skip_whitespace(s, q);
    let b = skip_word(s, a);
    let c = skip_whitespace(s, b);
    if c < s.len() && s[c] == 0x5d {
        Some((a, b, c + 1))
    } else if last_bracket(s, a, b) >= 0 {
        Some((a, last_bracket(s, a, b), last_bracket(s, a, b) + 1))
    } else {
        None
    }
}

/// The tag that starts at byte `p`: its kind, the byte range of its id and
/// the end of the tag.
pub open spec fn tag_at(s: Seq<u8>, p: int) -> Option<(TagKind, int, int, int)> {
    if opening_at(s, p, TagKind::Target) {
        match id_range_after(s, p + 14) {
            Some((a, e, n)) => Some((TagKind::Target, a, e, n)),
            None => None,
        }
    } else if opening_at(s, p, TagKind::Link) {
        match id_range_after(s, p + 14) {
            Some((a, e, n)) => Some((TagKind::Link, a, e, n)),
            None => None,
        }
    } else {
        None
    }
}

/// The leftmost tag that starts at or after byte `p`.
pub open spec fn first_tag_from(s: Seq<u8>, p: int) -> Option<(TagKind, int, int, int)>
    decreases s.len() - p,
{
    if p < 0 || p >= s.len() {
        None
    } else if tag_at(s, p) is Some {
        tag_at(s, p)
    } else {
        first_tag_from(s, p + 1)
    }
}

/// The tags from byte `p` on, left to right: the leftmost tag, then the tags
/// from its end on.  Each is given by its kind and the byte range of its id.
pub open spec fn tags_from(s: Seq<u8>, p: int) -> Seq<(TagKind, int, int)>
    decreases s.len() - p,
{
    match first_tag_from(s, p) {
        None => Seq::empty(),
        Some((k, a, e, n)) => {
            proof {
                lemma_first_tag_end(s, p);
            }
            seq![(k, a, e)] + tags_from(s, n)
        },
    }
}

/// The tags of a line given as bytes: all its tags, left to right, and none
/// where the bytes are not valid UTF-8.
pub open spec fn line_tags(s: Seq<u8>) -> Seq<(TagKind, int, int)> {
    if valid_utf8(s) {
        tags_from(s, 0)
    } else {
        Seq::empty()
    }
}

/// A tag found in a line: its kind, its id, and the byte range of the id
/// within the line.
pub struct LineTag {
    pub kind: TagKind,
    pub id: String,
    pub start: usize,
    pub end: usize,
}

/// Calls `std::str::from_utf8`.  Claimed: the call succeeds exactly when the
/// bytes are valid UTF-8 (no overlong forms, no surrogates, nothing above
/// U+10FFFF, as vstd's `valid_utf8` defines it), and the text it gives back
/// is made of those same bytes.
#[verifier::external_body]
fn str_from_utf8(bytes: &[u8]) -> (r: Option<&str>)
    ensures
        r is Some <==> valid_utf8(bytes@),
        r matches Some(t) ==> encode_utf8(t@) == bytes@,
{
    std::str::from_utf8(bytes).ok()
}

fn whitespace_len_at(s: &[u8], i: usize) -> (n: usize)
    requires
        i < s@.len(),
    ensures
        n == whitespace_len(s@, i as int),
{
    let b0 = s[i];
    if (0x09 <= b0 && b0 <= 0x0d) || b0 == 0x20 {
        1
    } else if b0 == 0xc2 && s.len() - i > 1 && (s[i + 1] == 0x85 || s[i + 1] == 0xa0) {
        2
    } else if s.len() - i > 2 {
        let b1 = s[i + 1];
        let b2 = s[i + 2];
        if (b0 == 0xe1 && b1 == 0x9a && b2 == 0x80)
            || (b0 == 0xe2 && b1 == 0x80 && ((0x80 <= b2 && b2 <= 0x8a) || b2 == 0xa8 || b2 == 0xa9
            || b2 == 0xaf)) || (b0 == 0xe2 && b1 == 0x81 && b2 == 0x9f)
            || (b0 == 0xe3 && b1 == 0x80 && b2 == 0x80) {
            3
        } else {
            0
        }
    } else {
        0
    }
}

fn skip_whitespace_from(s: &[u8], i: usize) -> (r: usize)
    requires
        i <= s@.len(),
    ensures
        r == skip_whitespace(s@, i as int),
        i <= r <= s@.len(),
{
    let mut j = i;
    while j < s.len()
        invariant
            i <= j <= s@.len(),
            skip_whitespace(s@, j as int) == skip_whitespace(s@, i as int),
        decreases s@.len() - j,
    {
        let n = whitespace_len_at(s, j);
        if n == 0 {
            return j;
        }
        j = j + n;
    }
    j
}

fn skip_word_from(s: &[u8], i: usize) -> (r: usize)
    requires
        i <= s@.len(),
    ensures
        r == skip_word(s@, i as int),
        i <= r <= s@.len(),
{
    let mut j = i;
    while j < s.len()
        invariant
            i <= j <= s@.len(),
            skip_word(s@, j as int) == skip_word(s@, i as int),
        decreases s@.len() - j,
    {
        if whitespace_len_at(s, j) != 0 {
            return j;
        }
        j = j + 1;
    }
    j
}

/// The position of the last `]` in `s[a..b]`.
fn find_last_bracket(s: &[u8], a: usize, b: usize) -> (r: Option<usize>)
    requires
        a <= b <= s@.len(),
    ensures
        match r {
            Some(k) => k as int == last_bracket(s@, a as int, b as int),
            None => last_bracket(s@, a as int, b as int) == -1,
        },
{
    let mut j = b;
    while j > a
        invariant
            a <= j <= b <= s@.len(),
            last_bracket(s@, a as int, j as int) == last_bracket(s@, a as int, b as int),
        decreases j - a,
    {
        if s[j - 1] == 0x5d {
            return Some(j - 1);
        }
        j = j - 1;
    }
    None
}

fn id_range_from(s: &[u8], q: usize) -> (r: Option<(usize, usize, usize)>)
    requires
        q <= s@.len(),
    ensures
        r is None <==> id_range_after(s@, q as int) is None,
        r matches Some((a, e, n)) ==> id_range_after(s@, q as int) == Some(
            (a as int, e as int, n as int),
        ) && q <= a <= e < n <= s@.len(),
{
    let a = skip_whitespace_from(s, q);
    let b = skip_word_from(s, a);
    let c = skip_whitespace_from(s, b);
    if c < s.len() && s[c] == 0x5d {
        Some((a, b, c + 1))
    } else {
        match find_last_bracket(s, a, b) {
            Some(k) => {
                proof {
                    lemma_last_bracket_range(s@, a as int, b as int);
                }
                Some((a, k, k + 1))
            },
            None => None,
        }
    }
}

proof fn lemma_last_bracket_range(s: Seq<u8>, a: int, b: int)
    ensures
        last_bracket(s, a, b) == -1 || (a <= last_bracket(s, a, b) < b && s[last_bracket(s, a, b)]
            == 0x5d),
    decreases b - a,
{
    if b > a && s[b - 1] != 0x5d {
        lemma_last_bracket_range(s, a, b - 1);
    }
}

fn opening_matches(s: &[u8], p: usize, kind: TagKind) -> (r: bool)
    requires
        p < s@.len(),
    ensures
        r == opening_at(s@, p as int, kind),
{
    if s.len() - p < 14 {
        return false;
    }
    let common = s[p] == 0x5b && s[p + 1] == 0x74 && s[p + 2] == 0x72 && s[p + 3] == 0x61 && s[p
        + 4] == 0x76 && s[p + 5] == 0x65 && s[p + 6] == 0x72 && s[p + 7] == 0x73 && s[p + 8]
        == 0x65 && s[p + 9] == 0x2d && s[p + 13] == 0x3a;
    let kind_ok = match kind {
        TagKind::Target => s[p + 10] == 0x74 && s[p + 11] == 0x67 && s[p + 12] == 0x74,
        TagKind::Link => s[p + 10] == 0x6c && s[p + 11] == 0x6e && s[p + 12] == 0x6b,
    };
    common && kind_ok
}

fn tag_starting_at(s: &[u8], p: usize) -> (r: Option<(TagKind, usize, usize, usize)>)
    requires
        p < s@.len(),
    ensures
        r is None <==> tag_at(s@, p as int) is None,
        r matches Some((k, a, e, n)) ==> tag_at(s@, p as int) == Some(
            (k, a as int, e as int, n as int),
        ) && p + 14 <= a <= e < n <= s@.len(),
{
    let len = s.len();
    if opening_matches(s, p, TagKind::Target) {
        match id_range_from(s, p + 14) {
            Some((a, e, n)) => Some((TagKind::Target, a, e, n)),
            None => None,
        }
    } else if opening_matches(s, p, TagKind::Link) {
        match id_range_from(s, p + 14) {
            Some((a, e, n)) => Some((TagKind::Link, a, e, n)),
            None => None,
        }
    } else {
        None
    }
}

/// The leftmost tag of the bytes at or after `from`, without regard to UTF-8
/// validity.
fn first_tag(s: &[u8], from: usize) -> (r: Option<(TagKind, usize, usize, usize)>)
    ensures
        r is None <==> first_tag_from(s@, from as int) is None,
        r matches Some((k, a, e, n)) ==> first_tag_from(s@, from as int) == Some(
            (k, a as int, e as int, n as int),
        ) && a <= e < n <= s@.len(),
{
    let mut p: usize = from;
    while p < s.len()
        invariant
            from <= p,
            first_tag_from(s@, p as int) == first_tag_from(s@, from as int),
        decreases s@.len() - p,
    {
        match tag_starting_at(s, p) {
            Some(t) => {
                return Some(t);
            },
            None => {},
        }
        p = p + 1;
    }
    None
}

/// `r` is what a scan of the line bytes `s` reports: for each tag of the
/// line, in order, its kind, its id text and the byte range of its id.
pub open spec fn reports_line_tags(r: Seq<LineTag>, s: Seq<u8>) -> bool {
    &&& r.len() == line_tags(s).len()
    &&& forall|i: int|
        0 <= i < r.len() ==> {
            let (k, a, e) = line_tags(s)[i];
            &&& (#[trigger] r[i]).kind == k
            &&& r[i].start == a
            &&& r[i].end == e
            &&& r[i].id@ == decode_utf8(s.subrange(a, e))
        }
}

/// Stepping over one whole character from a character boundary lands on a
/// character boundary.
proof fn lemma_boundary_step(s: Seq<u8>, i: int)
    requires
        valid_utf8(s),
        0 <= i < s.len(),
        is_char_boundary(s, i),
    ensures
        valid_first_scalar(s.subrange(i, s.len() as int)),
        is_char_boundary(s, i + length_of_first_scalar(s.subrange(i, s.len() as int))),
    decreases s.len(),
{
    if i == 0 {
        assert(s.subrange(0, s.len() as int) =~= s);
        reveal_with_fuel(is_char_boundary, 2);
    } else {
        let k0 = length_of_first_scalar(s);
        let t = pop_first_scalar(s);
        assert(is_char_boundary(t, i - k0));
        lemma_boundary_step(t, i - k0);
        assert(t.subrange(i - k0, t.len() as int) =~= s.subrange(i, s.len() as int));
        let k = length_of_first_scalar(s.subrange(i, s.len() as int));
        assert(is_char_boundary(t, i - k0 + k));
        reveal_with_fuel(is_char_boundary, 2);
        assert(is_char_boundary(s, i + k));
    }
}

/// A byte position inside valid UTF-8 whose byte is not a continuation byte is
/// a character boundary, and so is the end.
proof fn lemma_boundary_if_not_continuation(s: Seq<u8>, i: int)
    requires
        valid_utf8(s),
        0 <= i <= s.len(),
        i < s.len() ==> !is_continuation_byte(s[i]),
    ensures
        is_char_boundary(s, i),
{
    if i == s.len() {
        is_char_boundary_start_end_of_seq(s);
    } else {
        is_char_boundary_iff_not_is_continuation_byte(s, i);
    }
}

proof fn lemma_skip_whitespace_boundary(s: Seq<u8>, i: int)
    requires
        valid_utf8(s),
        0 <= i <= s.len(),
        is_char_boundary(s, i),
    ensures
        i <= skip_whitespace(s, i) <= s.len(),
        is_char_boundary(s, skip_whitespace(s, i)),
    decreases s.len() - i,
{
    if 0 <= i < s.len() && whitespace_len(s, i) > 0 {
        lemma_boundary_step(s, i);
        let k = whitespace_len(s, i);
        assert(length_of_first_scalar(s.subrange(i, s.len() as int)) == k);
        lemma_skip_whitespace_boundary(s, i + k);
    }
}

proof fn lemma_skip_word_end(s: Seq<u8>, i: int)
    requires
        0 <= i <= s.len(),
    ensures
        i <= skip_word(s, i) <= s.len(),
        skip_word(s, i) < s.len() ==> whitespace_len(s, skip_word(s, i)) > 0,
    decreases s.len() - i,
{
    if 0 <= i < s.len() && whitespace_len(s, i) == 0 {
        lemma_skip_word_end(s, i + 1);
    }
}

/// The id range of a tag in valid UTF-8 starts and ends on character
/// boundaries.
proof fn lemma_tag_boundaries(s: Seq<u8>, p: int)
    requires
        valid_utf8(s),
        tag_at(s, p) is Some,
    ensures
        ({
            let (k, a, e, n) = tag_at(s, p)->0;
            0 <= a <= e <= s.len() && is_char_boundary(s, a) && is_char_boundary(s, e)
        }),
{
    let q = p + 14;
    lemma_boundary_if_not_continuation(s, p + 13);
    lemma_boundary_step(s, p + 13);
    assert(length_of_first_scalar(s.subrange(p + 13, s.len() as int)) == 1);
    lemma_skip_whitespace_boundary(s, q);
    let a = skip_whitespace(s, q);
    let b = skip_word(s, a);
    lemma_skip_word_end(s, a);
    lemma_boundary_if_not_continuation(s, b);
    lemma_last_bracket_range(s, a, b);
    let r = last_bracket(s, a, b);
    if r >= 0 {
        lemma_boundary_if_not_continuation(s, r);
    }
}

/// Cuts `line[a..e]` out of a line, where both ends are character boundaries.
fn id_text(line: &str, a: usize, e: usize) -> (id: String)
    requires
        a <= e <= encode_utf8(line@).len(),
        is_char_boundary(encode_utf8(line@), a as int),
        is_char_boundary(encode_utf8(line@), e as int),
    ensures
        id@ == decode_utf8(encode_utf8(line@).subrange(a as int, e as int)),
{
    let ghost s = encode_utf8(line@);
    proof {
        encode_utf8_valid_utf8(line@);
    }
    let (head, _) = line.split_at(e);
    let ghost t = encode_utf8(head@);
    assert(t =~= s.subrange(0, e as int));
    proof {
        valid_utf8_split(s, e as int);
        if (a as int) < (e as int) {
            is_char_boundary_iff_not_is_continuation_byte(s, a as int);
            is_char_boundary_iff_not_is_continuation_byte(t, a as int);
        } else {
            is_char_boundary_start_end_of_seq(t);
        }
    }
    let (_, piece) = head.split_at(a);
    proof {
        assert(encode_utf8(piece@) =~= s.subrange(a as int, e as int));
        encode_utf8_decode_utf8(piece@);
    }
    piece.to_owned()
}

/// The tags of a line of text, left to right.
pub fn scan_line(line: &str) -> (r: Vec<LineTag>)
    ensures
        reports_line_tags(r@, encode_utf8(line@)),
{
    let bytes = line.as_bytes();
    let ghost s = bytes@;
    assert(s == encode_utf8(line@));
    proof {
        encode_utf8_valid_utf8(line@);
    }
    let mut out: Vec<LineTag> = Vec::new();
    let ghost mut done: Seq<(TagKind, int, int)> = Seq::empty();
    let mut p: usize = 0;
    assert(tags_from(s, 0) =~= done + tags_from(s, 0));
    while p <= bytes.len()
        invariant
            s == bytes@,
            s == encode_utf8(line@),
            valid_utf8(s),
            p <= s.len() + 1,
            tags_from(s, 0) == done + tags_from(s, p as int),
            out@.len() == done.len(),
            forall|i: int|
                0 <= i < out@.len() ==> {
                    let (k, a, e) = done[i];
                    &&& (#[trigger] out@[i]).kind == k
                    &&& out@[i].start == a
                    &&& out@[i].end == e
                    &&& out@[i].id@ == decode_utf8(s.subrange(a, e))
                },
        decreases s.len() + 1 - p,
    {
        match first_tag(bytes, p) {
            None => {
                assert(tags_from(s, p as int) =~= Seq::<(TagKind, int, int)>::empty());
                assert(done =~= tags_from(s, 0));
                return out;
            },
            Some((kind, a, e, n)) => {
                proof {
                    lemma_first_tag_position(s, p as int);
                    let x = choose|x: int|
                        p <= x < s.len() && tag_at(s, x) == first_tag_from(s, p as int) && forall|
                            y: int,
                        | p <= y < x ==> tag_at(s, y) is None;
                    lemma_tag_boundaries(s, x);
                    lemma_first_tag_end(s, p as int);
                }
                let id = id_text(line, a, e);
                out.push(LineTag { kind, id, start: a, end: e });
                proof {
                    assert(tags_from(s, p as int) == seq![(kind, a as int, e as int)] + tags_from(
                        s,
                        n as int,
                    ));
                    done = done.push((kind, a as int, e as int));
                    assert(tags_from(s, 0) =~= done + tags_from(s, n as int));
                }
                p = n;
            },
        }
    }
    assert(tags_from(s, p as int) =~= Seq::<(TagKind, int, int)>::empty());
    assert(done =~= tags_from(s, 0));
    out
}

/// The tags of a line given as bytes, left to right; a line that is not valid
/// UTF-8 holds no tag.
pub fn scan_line_bytes(bytes: &[u8]) -> (r: Vec<LineTag>)
    ensures
        reports_line_tags(r@, bytes@),
{
    match str_from_utf8(bytes) {
        None => {
            let r: Vec<LineTag> = Vec::new();
            assert(line_tags(bytes@) =~= Seq::<(TagKind, int, int)>::empty());
            r
        },
        Some(line) => scan_line(line),
    }
}

/// The 14 bytes that open a tag: `[traverse-tgt:` or `[traverse-lnk:`.
pub open spec fn opening_bytes(kind: TagKind) -> Seq<u8> {
    seq![0x5bu8, 0x74, 0x72, 0x61, 0x76, 0x65, 0x72, 0x73, 0x65, 0x2d] + match kind {
        TagKind::Target => seq![0x74u8, 0x67, 0x74],
        TagKind::Link => seq![0x6cu8, 0x6e, 0x6b],
    } + seq![0x3au8]
}

/// True for the bytes of a printable ASCII character other than space.
pub open spec fn is_graphic_ascii(b: u8) -> bool {
    0x21 <= b <= 0x7e
}

/// Bytes below 0x80 are valid UTF-8.
proof fn lemma_ascii_valid_utf8(s: Seq<u8>)
    requires
        forall|i: int| 0 <= i < s.len() ==> s[i] < 0x80,
    ensures
        valid_utf8(s),
    decreases s.len(),
{
    if s.len() > 0 {
        let rest = pop_first_scalar(s);
        assert(rest =~= s.subrange(1, s.len() as int));
        lemma_ascii_valid_utf8(rest);
    }
}

proof fn lemma_skip_word_over(s: Seq<u8>, a: int, b: int)
    requires
        0 <= a <= b <= s.len(),
        forall|j: int| a <= j < b ==> whitespace_len(s, j) == 0,
        b < s.len() ==> whitespace_len(s, b) > 0,
    ensures
        skip_word(s, a) == b,
    decreases b - a,
{
    if a < b {
        lemma_skip_word_over(s, a + 1, b);
    }
}

proof fn lemma_skip_whitespace_range(s: Seq<u8>, i: int)
    requires
        0 <= i <= s.len(),
    ensures
        i <= skip_whitespace(s, i) <= s.len(),
    decreases s.len() - i,
{
    if 0 <= i < s.len() && whitespace_len(s, i) > 0 {
        lemma_skip_whitespace_range(s, i + whitespace_len(s, i));
    }
}

proof fn lemma_no_tag_before(s: Seq<u8>, p: int, x: int)
    requires
        0 <= p <= x < s.len(),
        forall|j: int| p <= j < x ==> s[j] != 0x5b,
    ensures
        first_tag_from(s, p) == first_tag_from(s, x),
    decreases x - p,
{
    if p < x {
        assert(tag_at(s, p) is None);
        lemma_no_tag_before(s, p + 1, x);
    }
}

/// Where the parts of a written tag line stand.
proof fn lemma_written_layout(pre: Seq<u8>, kind: TagKind, id: Seq<u8>, post: Seq<u8>)
    ensures
        ({
            let s = pre + opening_bytes(kind) + seq![0x20u8] + id + seq![0x5du8] + post;
            let n = pre.len() as int;
            let a = n + 15;
            let b = a + id.len() + 1;
            &&& s.len() == b + post.len()
            &&& opening_at(s, n, kind)
            &&& s[n + 14] == 0x20
            &&& forall|j: int| a <= j < b - 1 ==> s[j] == id[j - a]
            &&& s[b - 1] == 0x5d
            &&& forall|j: int| b <= j < s.len() ==> s[j] == post[j - b]
            &&& forall|j: int| 0 <= j < n ==> s[j] == pre[j]
            &&& s.subrange(a, a + id.len()) == id
        }),
{
    let ob = opening_bytes(kind);
    let s = pre + ob + seq![0x20u8] + id + seq![0x5du8] + post;
    let n = pre.len() as int;
    let a = n + 15;
    assert(ob.len() == 14);
    assert forall|k: int| 0 <= k < 14 implies s[n + k] == ob[k] by {}
    assert(s.subrange(a, a + id.len()) =~= id);
}

/// The id of a written tag is read up to its closing bracket.
proof fn lemma_written_id(s: Seq<u8>, q: int, a: int, b: int)
    requires
        0 <= q,
        q + 1 == a,
        a < b <= s.len(),
        s[q] == 0x20,
        forall|j: int| a <= j < b - 1 ==> is_graphic_ascii(s[j]) && s[j] != 0x5d,
        s[b - 1] == 0x5d,
        b < s.len() ==> (0x09 <= s[b] <= 0x0d || s[b] == 0x20),
        forall|j: int| b <= j < s.len() ==> s[j] != 0x5d,
    ensures
        id_range_after(s, q) == Some((a, b - 1, b)),
{
    assert(whitespace_len(s, q) == 1);
    assert(whitespace_len(s, a) == 0);
    assert(skip_whitespace(s, a) == a);
    assert(skip_whitespace(s, q) == a);
    assert forall|j: int| a <= j < b implies whitespace_len(s, j) == 0 by {}
    lemma_skip_word_over(s, a, b);
    lemma_skip_whitespace_range(s, b);
    assert(last_bracket(s, a, b) == b - 1);
}

/// A tag found at `n` with no `[` before it, and no `]` after it, is the only
/// tag of a valid line.
proof fn lemma_found_at(s: Seq<u8>, n: int, kind: TagKind, q: int, a: int, e: int, end: int)
    requires
        valid_utf8(s),
        0 <= n < s.len(),
        q == n + 14,
        opening_at(s, n, kind),
        id_range_after(s, q) == Some((a, e, end)),
        0 <= end <= s.len(),
        forall|j: int| 0 <= j < n ==> s[j] != 0x5b,
        forall|j: int| end <= j < s.len() ==> s[j] != 0x5d,
    ensures
        line_tags(s) == seq![(kind, a, e)],
{
    assert(tag_at(s, n) == Some((kind, a, e, end)));
    lemma_no_tag_before(s, 0, n);
    lemma_no_tag_without_bracket(s, end);
    assert(tags_from(s, end) =~= Seq::<(TagKind, int, int)>::empty());
    assert(tags_from(s, 0) =~= seq![(kind, a, e)] + tags_from(s, end));
}

/// The facts of a written tag line that the search relies on.
proof fn lemma_written_facts(pre: Seq<u8>, kind: TagKind, id: Seq<u8>, post: Seq<u8>, s: Seq<u8>)
    requires
        s == pre + opening_bytes(kind) + seq![0x20u8] + id + seq![0x5du8] + post,
        forall|i: int| 0 <= i < pre.len() ==> pre[i] != 0x5b,
        forall|i: int| 0 <= i < id.len() ==> is_graphic_ascii(id[i]) && id[i] != 0x5d,
        post.len() > 0 ==> (0x09 <= post[0] <= 0x0d || post[0] == 0x20),
        forall|i: int| 0 <= i < post.len() ==> post[i] != 0x5d,
    ensures
        ({
            let n = pre.len() as int;
            let a = n + 15;
            let b = a + id.len() + 1;
            &&& b <= s.len()
            &&& opening_at(s, n, kind)
            &&& s[n + 14] == 0x20
            &&& forall|j: int| a <= j < b - 1 ==> is_graphic_ascii(s[j]) && s[j] != 0x5d
            &&& s[b - 1] == 0x5d
            &&& b < s.len() ==> (0x09 <= s[b] <= 0x0d || s[b] == 0x20)
            &&& forall|j: int| b <= j < s.len() ==> s[j] != 0x5d
            &&& forall|j: int| 0 <= j < n ==> s[j] != 0x5b
            &&& s.subrange(a, a + id.len()) == id
        }),
{
    lemma_written_layout(pre, kind, id, post);
    let n = pre.len() as int;
    let a = n + 15;
    let b = a + id.len() + 1;
    assert forall|j: int| a <= j < b - 1 implies is_graphic_ascii(s[j]) && s[j] != 0x5d by {
        assert(s[j] == id[j - a]);
    }
    if b < s.len() {
        assert(s[b] == post[0]);
    }
    assert forall|j: int| b <= j < s.len() implies s[j] != 0x5d by {
        assert(s[j] == post[j - b]);
    }
    assert forall|j: int| 0 <= j < n implies s[j] != 0x5b by {
        assert(s[j] == pre[j]);
    }
}

/// A written tag line is valid UTF-8 when its text before and after the tag
/// is.
proof fn lemma_written_valid(pre: Seq<u8>, kind: TagKind, id: Seq<u8>, post: Seq<u8>, s: Seq<u8>)
    requires
        s == pre + opening_bytes(kind) + seq![0x20u8] + id + seq![0x5du8] + post,
        valid_utf8(pre),
        valid_utf8(post),
        forall|i: int| 0 <= i < id.len() ==> is_graphic_ascii(id[i]),
    ensures
        valid_utf8(s),
{
    let mid = opening_bytes(kind) + seq![0x20u8] + id + seq![0x5du8];
    assert(s =~= pre + mid + post);
    assert forall|i: int| 0 <= i < mid.len() implies mid[i] < 0x80 by {}
    lemma_ascii_valid_utf8(mid);
    vstd::utf8::valid_utf8_concat(pre, mid);
    vstd::utf8::valid_utf8_concat(pre + mid, post);
}

/// Law of the tag syntax: a tag written as `[traverse-tgt: <id>]` (or with
/// `lnk`), with one space after the colon, is found with its id, provided no
/// `[` comes before it on the line, the id is printable ASCII without `]`,
/// and the rest of the line is empty or starts with ASCII whitespace and holds
/// no `]`; it is then the only tag of the line.
pub proof fn lemma_written_tag_is_found(
    pre: Seq<u8>,
    kind: TagKind,
    id: Seq<u8>,
    post: Seq<u8>,
)
    requires
        valid_utf8(pre),
        valid_utf8(post),
        forall|i: int| 0 <= i < pre.len() ==> pre[i] != 0x5b,
        forall|i: int| 0 <= i < id.len() ==> is_graphic_ascii(id[i]) && id[i] != 0x5d,
        post.len() > 0 ==> (0x09 <= post[0] <= 0x0d || post[0] == 0x20),
        forall|i: int| 0 <= i < post.len() ==> post[i] != 0x5d,
    ensures
        ({
            let s = pre + opening_bytes(kind) + seq![0x20u8] + id + seq![0x5du8] + post;
            let a = pre.len() + 15int;
            &&& line_tags(s) == seq![(kind, a, a + id.len())]
            &&& s.subrange(a, a + id.len()) == id
        }),
{
    let s = pre + opening_bytes(kind) + seq![0x20u8] + id + seq![0x5du8] + post;
    let n = pre.len() as int;
    let a = n + 15;
    let b = a + id.len() + 1;
    lemma_written_valid(pre, kind, id, post, s);
    lemma_written_facts(pre, kind, id, post, s);
    lemma_written_id(s, n + 14, a, b);
    lemma_found_at(s, n, kind, n + 14, a, b - 1, b);
}

proof fn lemma_skip_word_all(s: Seq<u8>, i: int)
    requires
        0 <= i <= s.len(),
    ensures
        forall|j: int| i <= j < skip_word(s, i) ==> whitespace_len(s, j) == 0,
    decreases s.len() - i,
{
    if 0 <= i < s.len() && whitespace_len(s, i) == 0 {
        lemma_skip_word_all(s, i + 1);
    }
}

/// The leftmost tag from `p` on starts at a position before which, from `p`
/// on, no tag starts.
proof fn lemma_first_tag_position(s: Seq<u8>, p: int)
    requires
        0 <= p,
        first_tag_from(s, p) is Some,
    ensures
        exists|x: int|
            p <= x < s.len() && tag_at(s, x) == first_tag_from(s, p) && forall|y: int|
                p <= y < x ==> tag_at(s, y) is None,
    decreases s.len() - p,
{
    if tag_at(s, p) is Some {
        assert(tag_at(s, p) == first_tag_from(s, p));
    } else {
        lemma_first_tag_position(s, p + 1);
        let x = choose|x: int|
            p + 1 <= x < s.len() && tag_at(s, x) == first_tag_from(s, p + 1) && forall|y: int|
                p + 1 <= y < x ==> tag_at(s, y) is None;
        assert(forall|y: int| p <= y < x ==> tag_at(s, y) is None);
    }
}

/// The shape of a tag that starts at `x`.
proof fn lemma_tag_shape(s: Seq<u8>, x: int)
    requires
        tag_at(s, x) is Some,
    ensures
        match tag_at(s, x) {
            Some((k, a, e, n)) => 0 <= x && x + 14 <= a <= e < n <= s.len(),
            None => true,
        },
{
    let q = x + 14;
    lemma_skip_whitespace_range(s, q);
    let a = skip_whitespace(s, q);
    lemma_skip_word_end(s, a);
    let b = skip_word(s, a);
    lemma_skip_whitespace_range(s, b);
    lemma_last_bracket_range(s, a, b);
}

/// The leftmost tag from `p` on ends after `p`, within the line.
pub proof fn lemma_first_tag_end(s: Seq<u8>, p: int)
    ensures
        match first_tag_from(s, p) {
            Some((k, a, e, n)) => 0 <= p < n <= s.len() && p <= a <= e < n,
            None => true,
        },
{
    if first_tag_from(s, p) is Some {
        lemma_first_tag_position(s, p);
        let x = choose|x: int|
            p <= x < s.len() && tag_at(s, x) == first_tag_from(s, p) && forall|y: int|
                p <= y < x ==> tag_at(s, y) is None;
        lemma_tag_shape(s, x);
    }
}

/// Without a `]` from `p` on, no tag starts from `p` on.
proof fn lemma_no_tag_without_bracket(s: Seq<u8>, p: int)
    requires
        0 <= p,
        forall|j: int| p <= j < s.len() ==> s[j] != 0x5d,
    ensures
        first_tag_from(s, p) is None,
    decreases s.len() - p,
{
    if p < s.len() {
        if tag_at(s, p) is Some {
            let q = p + 14;
            lemma_skip_whitespace_range(s, q);
            let a = skip_whitespace(s, q);
            lemma_skip_word_end(s, a);
            let b = skip_word(s, a);
            lemma_skip_whitespace_range(s, b);
            lemma_last_bracket_range(s, a, b);
            assert(false);
        }
        lemma_no_tag_without_bracket(s, p + 1);
    }
}

/// Law of the tag syntax: each tag found is well formed and is the leftmost
/// one from where the search stood.  It starts at an opening `[traverse-tgt:`
/// or `[traverse-lnk:` of its kind; its id begins where the whitespace after
/// the colon ends and holds no whitespace; after the id come whitespace and
/// `]`, where the tag ends; and no tag starts between `p` and it.
pub proof fn lemma_found_tag_is_well_formed(s: Seq<u8>, p: int)
    requires
        first_tag_from(s, p) is Some,
    ensures
        match first_tag_from(s, p) {
            Some((k, a, e, n)) => exists|x: int|
                #![trigger opening_at(s, x, k)]
                p <= x && opening_at(s, x, k) && a == skip_whitespace(s, x + 14) && a <= e && (
                forall|j: int| a <= j < e ==> whitespace_len(s, j) == 0) && n == skip_whitespace(
                    s,
                    e,
                ) + 1 && n <= s.len() && s[n - 1] == 0x5d && (forall|y: int|
                    p <= y < x ==> tag_at(s, y) is None),
            None => true,
        },
{
    let (k, a, e, n) = first_tag_from(s, p)->0;
    lemma_first_tag_position(s, p);
    let x = choose|x: int|
        p <= x < s.len() && tag_at(s, x) == first_tag_from(s, p) && forall|y: int|
            p <= y < x ==> tag_at(s, y) is None;
    let q = x + 14;
    assert(opening_at(s, x, k));
    let b = skip_word(s, a);
    lemma_skip_whitespace_range(s, q);
    lemma_skip_word_end(s, a);
    lemma_skip_word_all(s, a);
    lemma_last_bracket_range(s, a, b);
    lemma_skip_whitespace_range(s, b);
    let c = skip_whitespace(s, b);
    if c < s.len() && s[c] == 0x5d {
        assert(e == b);
    } else {
        assert(e == last_bracket(s, a, b));
        assert(whitespace_len(s, e) == 0);
        assert(skip_whitespace(s, e) == e);
    }
}

/// Law of the search: a tag anywhere from `p` on is not missed, whatever
/// bytes (a `[` that opens nothing among them) come before it.  The search
/// from `p` finds a tag, and the one it finds starts no later than `x` and is
/// the first tag from `p` on.
pub proof fn lemma_search_misses_no_tag(s: Seq<u8>, p: int, x: int)
    requires
        0 <= p <= x,
        tag_at(s, x) is Some,
    ensures
        first_tag_from(s, p) is Some,
        exists|y: int|
            p <= y <= x && tag_at(s, y) == first_tag_from(s, p) && forall|z: int|
                p <= z < y ==> tag_at(s, z) is None,
        tags_from(s, p).len() > 0,
    decreases x - p,
{
    assert(opening_at(s, x, TagKind::Target) || opening_at(s, x, TagKind::Link));
    if tag_at(s, p) is Some {
        assert(first_tag_from(s, p) == tag_at(s, p));
        assert(forall|z: int| p <= z < p ==> tag_at(s, z) is None);
    } else {
        lemma_search_misses_no_tag(s, p + 1, x);
        assert(first_tag_from(s, p) == first_tag_from(s, p + 1));
        let y = choose|y: int|
            p + 1 <= y <= x && tag_at(s, y) == first_tag_from(s, p + 1) && forall|z: int|
                p + 1 <= z < y ==> tag_at(s, z) is None;
        assert(forall|z: int| p <= z < y ==> tag_at(s, z) is None);
    }
    let (k, a, e, n) = first_tag_from(s, p)->0;
    lemma_first_tag_end(s, p);
    assert(tags_from(s, p) == seq![(k, a, e)] + tags_from(s, n));
}

/// Law of the scan: a valid line in which a tag starts anywhere has tags.
pub proof fn lemma_line_with_a_tag_has_tags(s: Seq<u8>, x: int)
    requires
        valid_utf8(s),
        0 <= x,
        tag_at(s, x) is Some,
    ensures
        line_tags(s).len() > 0,
{
    lemma_search_misses_no_tag(s, 0, x);
}

} // verus!
