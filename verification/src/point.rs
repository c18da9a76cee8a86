use vstd::prelude::*;
use vstd::string::StringSliceAdditionalSpecFns;

verus! {

/// One pending cell: a colour, a grid position, and the packed ordering mode
/// that ordered strategies use to compare cells.
#[derive(Debug, Clone, Copy, PartialEq, Eq, Structural)]
pub struct Point {
    pub r: u8,
    pub g: u8,
    pub b: u8,
    pub x: usize,
    pub y: usize,
    pub sort_mode: u16,
}

/// ASCII upper-case letters are folded to lower case; every other byte is kept.
pub open spec fn lower_byte(c: u8) -> u8 {
    if 65 <= c <= 90 {
        (c + 32) as u8
    } else {
        c
    }
}

/// The 3-bit field code of an axis letter; 0 for any byte that names no axis.
pub open spec fn axis_code(c: u8) -> u16 {
    if c == 120 {
        1u16  // x
    } else if c == 121 {
        2u16  // y
    } else if c == 114 {
        3u16  // r
    } else if c == 103 {
        4u16  // g
    } else if c == 98 {
        5u16  // b
    } else {
        0u16
    }
}

pub open spec fn is_axis_letter(c: u8) -> bool {
    axis_code(c) != 0
}

/// The axis letters of `s`, lower-cased, first occurrence only, in input
/// order; `seen` holds the letters that are already taken.
pub open spec fn keep_new_axes(s: Seq<u8>, seen: Seq<u8>) -> Seq<u8>
    decreases s.len(),
{
    if s.len() == 0 {
        Seq::empty()
    } else {
        let c = lower_byte(s[0]);
        if is_axis_letter(c) && !seen.contains(c) {
            seq![c] + keep_new_axes(s.skip(1), seen.push(c))
        } else {
            keep_new_axes(s.skip(1), seen)
        }
    }
}

/// Appends each axis letter that `kept` lacks, scanning the fixed reference
/// order r, g, b, x, y.
pub open spec fn append_missing(kept: Seq<u8>) -> Seq<u8> {
    let s1 = if kept.contains(114u8) {
        kept
    } else {
        kept.push(114u8)
    };
    let s2 = if s1.contains(103u8) {
        s1
    } else {
        s1.push(103u8)
    };
    let s3 = if s2.contains(98u8) {
        s2
    } else {
        s2.push(98u8)
    };
    let s4 = if s3.contains(120u8) {
        s3
    } else {
        s3.push(120u8)
    };
    if s4.contains(121u8) {
        s4
    } else {
        s4.push(121u8)
    }
}

/// The canonical form of an ordering specification: its axis letters
/// lower-cased and deduplicated, then the missing axes appended.
pub open spec fn canonical_axes(s: Seq<u8>) -> Seq<u8> {
    append_missing(keep_new_axes(s, Seq::empty()))
}

/// The 3-bit code stored at position `i` of a packed ordering mode.
/// Position 0 is the most significant comparison axis.
pub open spec fn mode_code(m: u16, i: int) -> u16 {
    if i == 0 {
        m & 7
    } else if i == 1 {
        (m >> 3) & 7
    } else if i == 2 {
        (m >> 6) & 7
    } else if i == 3 {
        (m >> 9) & 7
    } else {
        (m >> 12) & 7
    }
}

pub open spec fn mode_has_code(m: u16, v: u16) -> bool {
    exists|i: int| 0 <= i < 5 && #[trigger] mode_code(m, i) == v
}

/// A mode is complete when every one of the five axes appears in it.
/// Complete modes order cells totally up to full field equality.
pub open spec fn mode_complete(m: u16) -> bool {
    mode_has_code(m, 1) && mode_has_code(m, 2) && mode_has_code(m, 3) && mode_has_code(m, 4)
        && mode_has_code(m, 5)
}

/// The attribute of `p` selected by a 3-bit field code.
pub open spec fn field_value(p: Point, code: u16) -> int {
    if code == 1 {
        p.x as int
    } else if code == 2 {
        p.y as int
    } else if code == 3 {
        p.r as int
    } else if code == 4 {
        p.g as int
    } else if code == 5 {
        p.b as int
    } else {
        0
    }
}

/// The five comparison values of a cell, most significant first.
pub open spec fn sort_key(p: Point) -> Seq<int> {
    seq![
        field_value(p, mode_code(p.sort_mode, 0)),
        field_value(p, mode_code(p.sort_mode, 1)),
        field_value(p, mode_code(p.sort_mode, 2)),
        field_value(p, mode_code(p.sort_mode, 3)),
        field_value(p, mode_code(p.sort_mode, 4)),
    ]
}

/// Lexicographic order on sort keys, most significant axis first.
pub open spec fn key_le(a: Point, b: Point) -> bool {
    let ka = sort_key(a);
    let kb = sort_key(b);
    if ka[0] != kb[0] {
        ka[0] < kb[0]
    } else if ka[1] != kb[1] {
        ka[1] < kb[1]
    } else if ka[2] != kb[2] {
        ka[2] < kb[2]
    } else if ka[3] != kb[3] {
        ka[3] < kb[3]
    } else if ka[4] != kb[4] {
        ka[4] < kb[4]
    } else {
        true
    }
}

pub open spec fn key_eq(a: Point, b: Point) -> bool {
    sort_key(a)[0] == sort_key(b)[0] && sort_key(a)[1] == sort_key(b)[1] && sort_key(a)[2]
        == sort_key(b)[2] && sort_key(a)[3] == sort_key(b)[3] && sort_key(a)[4] == sort_key(b)[4]
}

pub open spec fn key_lt(a: Point, b: Point) -> bool {
    key_le(a, b) && !key_eq(a, b)
}

/// Two cells that share one complete mode and compare equal on every axis
/// occupy the same grid coordinate.
pub proof fn lemma_key_eq_same_coords(a: Point, b: Point)
    requires
        a.sort_mode == b.sort_mode,
        mode_complete(a.sort_mode),
        key_eq(a, b),
    ensures
        a.x == b.x,
        a.y == b.y,
{
    let m = a.sort_mode;
    let ix = choose|i: int| 0 <= i < 5 && #[trigger] mode_code(m, i) == 1;
    assert(sort_key(a)[ix] == a.x as int);
    assert(sort_key(b)[ix] == b.x as int);
    let iy = choose|i: int| 0 <= i < 5 && #[trigger] mode_code(m, i) == 2;
    assert(sort_key(a)[iy] == a.y as int);
    assert(sort_key(b)[iy] == b.y as int);
}

/// The 3-bit field code of one axis letter, as a packable integer.
fn code_of_letter(c: u8) -> (v: u16)
    ensures
        v == axis_code(c),
{
    if c == 120 {
        1
    } else if c == 121 {
        2
    } else if c == 114 {
        3
    } else if c == 103 {
        4
    } else if c == 98 {
        5
    } else {
        0
    }
}

impl Point {
    /// Packs an ordering specification into a comparison mode: position `i`
    /// of the canonical axis list lands in bits `3*i..3*i+3`, so the first
    /// canonical letter is the most significant comparison axis. Axes the
    /// caller omits are appended at the end of the canonical list and thus
    /// become the least significant tie-breaks, never dominating the axes
    /// the caller named.
    ///
    /// The specification must name axes only: every byte lower-cases to one
    /// of the five letters. An unknown letter is a caller error, rejected up
    /// front rather than silently folded into the ordering. Bit 15 of the
    /// result is always clear, so the five fields fix the whole value.
    pub fn get_sort_mode(mode: &str) -> (m: u16)
        requires
            forall|i: int|
                0 <= i < mode.spec_bytes().len() ==> is_axis_letter(
                    lower_byte(#[trigger] mode.spec_bytes()[i]),
                ),
        ensures
            forall|i: int| 0 <= i < 5 ==> #[trigger] mode_code(m, i) == axis_code(
                canonical_axes(mode.spec_bytes())[i],
            ),
            m < 0x8000,
            mode_complete(m),
    {
        let bytes = mode.as_bytes();
        let letters = canonicalize(bytes);
        proof {
            lemma_canonical_axes_complete(bytes@);
        }
        let c0 = code_of_letter(letters[0]);
        let c1 = code_of_letter(letters[1]);
        let c2 = code_of_letter(letters[2]);
        let c3 = code_of_letter(letters[3]);
        let c4 = code_of_letter(letters[4]);
        let m: u16 = c0 + c1 * 8 + c2 * 64 + c3 * 512 + c4 * 4096;
        proof {
            assert((m & 7) == c0 && ((m >> 3) & 7) == c1 && ((m >> 6) & 7) == c2 && ((m >> 9) & 7)
                == c3 && ((m >> 12) & 7) == c4) by (bit_vector)
                requires
                    m == c0 + c1 * 8 + c2 * 64 + c3 * 512 + c4 * 4096,
                    c0 < 8,
                    c1 < 8,
                    c2 < 8,
                    c3 < 8,
                    c4 < 8,
            ;
            // each field code is at most 5, so the sum stays below bit 15
            assert(c0 <= 5 && c1 <= 5 && c2 <= 5 && c3 <= 5 && c4 <= 5);
            assert(m < 0x8000);
            let k = canonical_axes(bytes@);
            assert forall|v: u16| 1 <= v <= 5 implies mode_has_code(m, v) by {
                let c: u8 = if v == 1 {
                    120
                } else if v == 2 {
                    121
                } else if v == 3 {
                    114
                } else if v == 4 {
                    103
                } else {
                    98
                };
                assert(is_axis_letter(c));
                assert(k.contains(c));
                let i = choose|i: int| 0 <= i < k.len() && k[i] == c;
                assert(mode_code(m, i) == axis_code(c));
                assert(axis_code(c) == v);
            }
        }
        m
    }

    /// The attribute selected by the low three bits of `field`:
    /// 1 is x, 2 is y, 3 is r, 4 is g, 5 is b, anything else reads as 0.
    pub fn get_field(&self, field: u16) -> (v: usize)
        ensures
            v as int == field_value(*self, field & 7),
    {
        let code = field & 0b111;
        if code == 1 {
            self.x
        } else if code == 2 {
            self.y
        } else if code == 3 {
            self.r as usize
        } else if code == 4 {
            self.g as usize
        } else if code == 5 {
            self.b as usize
        } else {
            0
        }
    }

    /// The five comparison values of this cell, most significant first,
    /// read from the packed sort mode.
    pub fn as_tuple(&self) -> (t: (usize, usize, usize, usize, usize))
        ensures
            t.0 as int == sort_key(*self)[0],
            t.1 as int == sort_key(*self)[1],
            t.2 as int == sort_key(*self)[2],
            t.3 as int == sort_key(*self)[3],
            t.4 as int == sort_key(*self)[4],
    {
        (
            self.get_field(self.sort_mode),
            self.get_field(self.sort_mode >> 3),
            self.get_field(self.sort_mode >> 6),
            self.get_field(self.sort_mode >> 9),
            self.get_field(self.sort_mode >> 12),
        )
    }

    /// Decides `key_le`: the lexicographic comparison of the two sort keys.
    pub fn le_by_key(&self, other: &Point) -> (r: bool)
        ensures
            r == key_le(*self, *other),
    {
        let ta = self.as_tuple();
        let tb = other.as_tuple();
        if ta.0 != tb.0 {
            ta.0 < tb.0
        } else if ta.1 != tb.1 {
            ta.1 < tb.1
        } else if ta.2 != tb.2 {
            ta.2 < tb.2
        } else if ta.3 != tb.3 {
            ta.3 < tb.3
        } else if ta.4 != tb.4 {
            ta.4 < tb.4
        } else {
            true
        }
    }

    /// Decides `key_lt`: strictly smaller on the first differing axis.
    pub fn lt_by_key(&self, other: &Point) -> (r: bool)
        ensures
            r == key_lt(*self, *other),
    {
        let ta = self.as_tuple();
        let tb = other.as_tuple();
        if ta.0 != tb.0 {
            ta.0 < tb.0
        } else if ta.1 != tb.1 {
            ta.1 < tb.1
        } else if ta.2 != tb.2 {
            ta.2 < tb.2
        } else if ta.3 != tb.3 {
            ta.3 < tb.3
        } else if ta.4 != tb.4 {
            ta.4 < tb.4
        } else {
            false
        }
    }
}

/// Decides `mode_complete`: whether all five axes appear among the packed
/// 3-bit fields. Modes from `get_sort_mode` always pass; a caller holding a
/// mode from elsewhere can test it before growing a grid with it.
#[verifier::loop_isolation(false)]
pub fn is_complete_mode(m: u16) -> (r: bool)
    ensures
        r == mode_complete(m),
{
    let c0 = m & 7;
    let c1 = (m >> 3) & 7;
    let c2 = (m >> 6) & 7;
    let c3 = (m >> 9) & 7;
    let c4 = (m >> 12) & 7;
    let mut ok = true;
    let mut v: u16 = 1;
    while v <= 5
        invariant
            1 <= v <= 6,
            ok == forall|u: u16| 1 <= u < v ==> mode_has_code(m, u),
        decreases 6 - v,
    {
        let hit = c0 == v || c1 == v || c2 == v || c3 == v || c4 == v;
        proof {
            if hit {
                if c0 == v {
                    assert(mode_code(m, 0) == v);
                } else if c1 == v {
                    assert(mode_code(m, 1) == v);
                } else if c2 == v {
                    assert(mode_code(m, 2) == v);
                } else if c3 == v {
                    assert(mode_code(m, 3) == v);
                } else {
                    assert(mode_code(m, 4) == v);
                }
            } else {
                if mode_has_code(m, v) {
                    let i = choose|i: int| 0 <= i < 5 && #[trigger] mode_code(m, i) == v;
                }
            }
        }
        ok = ok && hit;
        v += 1;
    }
    proof {
        if ok {
            assert(mode_has_code(m, 1) && mode_has_code(m, 2) && mode_has_code(m, 3)
                && mode_has_code(m, 4) && mode_has_code(m, 5));
        }
    }
    ok
}

/// True when `v` holds the byte `c`.
fn vec_contains_byte(v: &Vec<u8>, c: u8) -> (r: bool)
    ensures
        r == v@.contains(c),
{
    let mut i: usize = 0;
    while i < v.len()
        invariant
            i <= v@.len(),
            forall|j: int| 0 <= j < i ==> v@[j] != c,
        decreases v@.len() - i,
    {
        if v[i] == c {
            assert(v@.contains(c));
            return true;
        }
        i += 1;
    }
    assert(!v@.contains(c));
    false
}

/// Builds the canonical axis-letter list of an ordering specification:
/// known letters are lower-cased and kept once, in input order, and any of
/// the five axes still missing are appended in the order r, g, b, x, y.
pub fn canonicalize(bytes: &[u8]) -> (out: Vec<u8>)
    ensures
        out@ == canonical_axes(bytes@),
{
    let mut out: Vec<u8> = Vec::new();
    let mut i: usize = 0;
    proof {
        assert(bytes@.skip(0) =~= bytes@);
    }
    while i < bytes.len()
        invariant
            i <= bytes@.len(),
            keep_new_axes(bytes@, Seq::empty()) == out@ + keep_new_axes(
                bytes@.skip(i as int),
                out@,
            ),
        decreases bytes@.len() - i,
    {
        let c0 = bytes[i];
        let c = if 65 <= c0 && c0 <= 90 {
            c0 + 32
        } else {
            c0
        };
        assert(c == lower_byte(bytes@[i as int]));
        let is_axis = c == 120 || c == 121 || c == 114 || c == 103 || c == 98;
        assert(is_axis == is_axis_letter(c));
        let ghost prev = out@;
        proof {
            assert(bytes@.skip(i as int)[0] == bytes@[i as int]);
            assert(bytes@.skip(i as int).skip(1) =~= bytes@.skip(i as int + 1));
        }
        if is_axis && !vec_contains_byte(&out, c) {
            out.push(c);
            proof {
                assert(prev + (seq![c] + keep_new_axes(bytes@.skip(i as int + 1), prev.push(c)))
                    =~= out@ + keep_new_axes(bytes@.skip(i as int + 1), out@));
                assert(out@ =~= prev.push(c));
            }
        }
        i += 1;
    }
    proof {
        assert(bytes@.skip(bytes@.len() as int) =~= Seq::<u8>::empty());
        assert(keep_new_axes(bytes@, Seq::empty()) =~= out@);
    }
    if !vec_contains_byte(&out, 114) {
        out.push(114);
    }
    if !vec_contains_byte(&out, 103) {
        out.push(103);
    }
    if !vec_contains_byte(&out, 98) {
        out.push(98);
    }
    if !vec_contains_byte(&out, 120) {
        out.push(120);
    }
    if !vec_contains_byte(&out, 121) {
        out.push(121);
    }
    assert(out@ == canonical_axes(bytes@));
    out
}

/// Membership in a sequence extended by one element.
proof fn lemma_push_contains(s: Seq<u8>, c: u8, x: u8)
    ensures
        s.push(c).contains(x) <==> (s.contains(x) || x == c),
{
    assert(s.push(c)[s.len() as int] == c);
    if s.push(c).contains(x) {
        let i = choose|i: int| 0 <= i < s.push(c).len() && s.push(c)[i] == x;
        if i < s.len() {
            assert(s[i] == x);
        }
    }
    if s.contains(x) {
        let i = choose|i: int| 0 <= i < s.len() && s[i] == x;
        assert(s.push(c)[i] == x);
    }
}

/// Pushing an element that a duplicate-free sequence lacks keeps it
/// duplicate-free.
pub(crate) proof fn lemma_push_fresh_no_dup<A>(s: Seq<A>, c: A)
    requires
        s.no_duplicates(),
        !s.contains(c),
    ensures
        s.push(c).no_duplicates(),
{
    assert forall|i: int, j: int| 0 <= i < j < s.push(c).len() implies s.push(c)[i] != s.push(
        c,
    )[j] by {
        if j < s.len() {
            assert(s.push(c)[i] == s[i] && s.push(c)[j] == s[j]);
        } else {
            assert(s.push(c)[i] == s[i] && s.push(c)[j] == c);
            assert(s.contains(s[i]));
        }
    }
}

/// Every element of `keep_new_axes(s, seen)` is an axis letter outside
/// `seen`, and no element repeats.
proof fn lemma_keep_new_axes_props(s: Seq<u8>, seen: Seq<u8>)
    ensures
        forall|i: int|
            0 <= i < keep_new_axes(s, seen).len() ==> is_axis_letter(
                #[trigger] keep_new_axes(s, seen)[i],
            ) && !seen.contains(keep_new_axes(s, seen)[i]),
        keep_new_axes(s, seen).no_duplicates(),
    decreases s.len(),
{
    if s.len() == 0 {
    } else {
        let c = lower_byte(s[0]);
        if is_axis_letter(c) && !seen.contains(c) {
            lemma_keep_new_axes_props(s.skip(1), seen.push(c));
            let tail = keep_new_axes(s.skip(1), seen.push(c));
            assert forall|i: int| 0 <= i < keep_new_axes(s, seen).len() implies is_axis_letter(
                #[trigger] keep_new_axes(s, seen)[i],
            ) && !seen.contains(keep_new_axes(s, seen)[i]) by {
                if i > 0 {
                    assert(keep_new_axes(s, seen)[i] == tail[i - 1]);
                    assert(!seen.push(c).contains(tail[i - 1]));
                    lemma_push_contains(seen, c, tail[i - 1]);
                }
            }
            assert forall|i: int, j: int|
                0 <= i < j < keep_new_axes(s, seen).len() implies keep_new_axes(s, seen)[i]
                != keep_new_axes(s, seen)[j] by {
                if i == 0 {
                    assert(keep_new_axes(s, seen)[j] == tail[j - 1]);
                    assert(!seen.push(c).contains(tail[j - 1]));
                    assert(seen.push(c)[seen.len() as int] == c);
                    assert(seen.push(c).contains(c));
                } else {
                    assert(keep_new_axes(s, seen)[i] == tail[i - 1]);
                    assert(keep_new_axes(s, seen)[j] == tail[j - 1]);
                }
            }
        } else {
            lemma_keep_new_axes_props(s.skip(1), seen);
        }
    }
}

/// When the lower-cased input consists of pairwise distinct axis letters,
/// none already in `seen`, the scan keeps all of it unchanged.
proof fn lemma_keep_new_axes_identity(s: Seq<u8>, seen: Seq<u8>)
    requires
        forall|i: int| 0 <= i < s.len() ==> is_axis_letter(lower_byte(#[trigger] s[i])),
        forall|i: int, j: int| 0 <= i < j < s.len() ==> lower_byte(s[i]) != lower_byte(s[j]),
        forall|i: int| 0 <= i < s.len() ==> !seen.contains(lower_byte(#[trigger] s[i])),
    ensures
        keep_new_axes(s, seen) == s.map_values(|c: u8| lower_byte(c)),
    decreases s.len(),
{
    let mapped = s.map_values(|c: u8| lower_byte(c));
    if s.len() == 0 {
        assert(keep_new_axes(s, seen) =~= mapped);
    } else {
        let c = lower_byte(s[0]);
        let tail = s.skip(1);
        assert forall|i: int| 0 <= i < tail.len() implies !seen.push(c).contains(
            lower_byte(#[trigger] tail[i]),
        ) by {
            assert(tail[i] == s[i + 1]);
            assert(lower_byte(s[i + 1]) != lower_byte(s[0]));
            assert(!seen.contains(lower_byte(s[i + 1])));
            assert(forall|k: int|
                0 <= k < seen.push(c).len() ==> #[trigger] seen.push(c)[k] == (if k < seen.len() {
                    seen[k]
                } else {
                    c
                }));
        }
        assert(forall|i: int| 0 <= i < tail.len() ==> #[trigger] tail[i] == s[i + 1]);
        lemma_keep_new_axes_identity(tail, seen.push(c));
        assert(keep_new_axes(s, seen) =~= mapped);
    }
}

/// Appending the missing axes yields a duplicate-free list of axis letters
/// that holds all five; a list that already held them all is untouched.
proof fn lemma_append_missing_props(kept: Seq<u8>)
    requires
        kept.no_duplicates(),
        forall|i: int| 0 <= i < kept.len() ==> is_axis_letter(#[trigger] kept[i]),
    ensures
        append_missing(kept).no_duplicates(),
        forall|i: int| 0 <= i < append_missing(kept).len() ==> is_axis_letter(
            #[trigger] append_missing(kept)[i],
        ),
        append_missing(kept).contains(114u8),
        append_missing(kept).contains(103u8),
        append_missing(kept).contains(98u8),
        append_missing(kept).contains(120u8),
        append_missing(kept).contains(121u8),
        kept.contains(114u8) && kept.contains(103u8) && kept.contains(98u8) && kept.contains(
            120u8,
        ) && kept.contains(121u8) ==> append_missing(kept) == kept,
{
    let s1 = if kept.contains(114u8) {
        kept
    } else {
        kept.push(114u8)
    };
    let s2 = if s1.contains(103u8) {
        s1
    } else {
        s1.push(103u8)
    };
    let s3 = if s2.contains(98u8) {
        s2
    } else {
        s2.push(98u8)
    };
    let s4 = if s3.contains(120u8) {
        s3
    } else {
        s3.push(120u8)
    };
    let s5 = if s4.contains(121u8) {
        s4
    } else {
        s4.push(121u8)
    };
    if !kept.contains(114u8) {
        lemma_push_fresh_no_dup(kept, 114u8);
        assert(s1[kept.len() as int] == 114u8);
    }
    assert(s1.contains(114u8));
    assert forall|x: u8| kept.contains(x) implies s1.contains(x) by {
        lemma_push_contains(kept, 114u8, x);
    }
    assert(forall|i: int| 0 <= i < s1.len() ==> is_axis_letter(#[trigger] s1[i]));
    if !s1.contains(103u8) {
        lemma_push_fresh_no_dup(s1, 103u8);
        assert(s2[s1.len() as int] == 103u8);
    }
    assert(s2.contains(103u8));
    assert forall|x: u8| s1.contains(x) implies s2.contains(x) by {
        lemma_push_contains(s1, 103u8, x);
    }
    assert(forall|i: int| 0 <= i < s2.len() ==> is_axis_letter(#[trigger] s2[i]));
    if !s2.contains(98u8) {
        lemma_push_fresh_no_dup(s2, 98u8);
        assert(s3[s2.len() as int] == 98u8);
    }
    assert(s3.contains(98u8));
    assert forall|x: u8| s2.contains(x) implies s3.contains(x) by {
        lemma_push_contains(s2, 98u8, x);
    }
    assert(forall|i: int| 0 <= i < s3.len() ==> is_axis_letter(#[trigger] s3[i]));
    if !s3.contains(120u8) {
        lemma_push_fresh_no_dup(s3, 120u8);
        assert(s4[s3.len() as int] == 120u8);
    }
    assert(s4.contains(120u8));
    assert forall|x: u8| s3.contains(x) implies s4.contains(x) by {
        lemma_push_contains(s3, 120u8, x);
    }
    assert(forall|i: int| 0 <= i < s4.len() ==> is_axis_letter(#[trigger] s4[i]));
    if !s4.contains(121u8) {
        lemma_push_fresh_no_dup(s4, 121u8);
        assert(s5[s4.len() as int] == 121u8);
    }
    assert(s5.contains(121u8));
    assert forall|x: u8| s4.contains(x) implies s5.contains(x) by {
        lemma_push_contains(s4, 121u8, x);
    }
    assert(forall|i: int| 0 <= i < s5.len() ==> is_axis_letter(#[trigger] s5[i]));
    assert(append_missing(kept) == s5);
}

/// Canonicalization is total: whatever the input, the canonical list holds
/// each of the five axis letters exactly once.
pub proof fn lemma_canonical_axes_complete(s: Seq<u8>)
    ensures
        canonical_axes(s).len() == 5,
        canonical_axes(s).no_duplicates(),
        forall|c: u8| is_axis_letter(c) ==> canonical_axes(s).contains(c),
        forall|i: int| 0 <= i < canonical_axes(s).len() ==> is_axis_letter(
            #[trigger] canonical_axes(s)[i],
        ),
{
    lemma_keep_new_axes_props(s, Seq::empty());
    lemma_append_missing_props(keep_new_axes(s, Seq::empty()));
    let k = canonical_axes(s);
    assert forall|c: u8| is_axis_letter(c) implies k.contains(c) by {
        assert(c == 114 || c == 103 || c == 98 || c == 120 || c == 121);
    }
    let ir = choose|i: int| 0 <= i < k.len() && k[i] == 114u8;
    let ig = choose|i: int| 0 <= i < k.len() && k[i] == 103u8;
    let ib = choose|i: int| 0 <= i < k.len() && k[i] == 98u8;
    let ix = choose|i: int| 0 <= i < k.len() && k[i] == 120u8;
    let iy = choose|i: int| 0 <= i < k.len() && k[i] == 121u8;
    assert(k.len() >= 5);
    assert(k.len() <= 5) by {
        if k.len() > 5 {
            assert(is_axis_letter(k[0]) && is_axis_letter(k[1]) && is_axis_letter(k[2])
                && is_axis_letter(k[3]) && is_axis_letter(k[4]) && is_axis_letter(k[5]));
        }
    }
}

/// An ordering specification that already lists all five axes, each once,
/// canonicalizes to exactly its lower-cased self.
pub proof fn lemma_canonical_axes_identity(s: Seq<u8>)
    requires
        forall|i: int| 0 <= i < s.len() ==> is_axis_letter(lower_byte(#[trigger] s[i])),
        forall|i: int, j: int| 0 <= i < j < s.len() ==> lower_byte(s[i]) != lower_byte(s[j]),
        forall|c: u8|
            is_axis_letter(c) ==> exists|i: int| 0 <= i < s.len() && lower_byte(#[trigger] s[i])
                == c,
    ensures
        canonical_axes(s) == s.map_values(|c: u8| lower_byte(c)),
{
    let mapped = s.map_values(|c: u8| lower_byte(c));
    lemma_keep_new_axes_identity(s, Seq::empty());
    assert(is_axis_letter(114u8) && is_axis_letter(103u8) && is_axis_letter(98u8)
        && is_axis_letter(120u8) && is_axis_letter(121u8));
    let ir = choose|i: int| 0 <= i < s.len() && lower_byte(#[trigger] s[i]) == 114u8;
    assert(mapped[ir] == 114u8);
    let ig = choose|i: int| 0 <= i < s.len() && lower_byte(#[trigger] s[i]) == 103u8;
    assert(mapped[ig] == 103u8);
    let ib = choose|i: int| 0 <= i < s.len() && lower_byte(#[trigger] s[i]) == 98u8;
    assert(mapped[ib] == 98u8);
    let ix = choose|i: int| 0 <= i < s.len() && lower_byte(#[trigger] s[i]) == 120u8;
    assert(mapped[ix] == 120u8);
    let iy = choose|i: int| 0 <= i < s.len() && lower_byte(#[trigger] s[i]) == 121u8;
    assert(mapped[iy] == 121u8);
    assert(mapped.contains(114u8) && mapped.contains(103u8) && mapped.contains(98u8)
        && mapped.contains(120u8) && mapped.contains(121u8));
    assert(mapped.no_duplicates()) by {
        assert(forall|i: int| 0 <= i < s.len() ==> mapped[i] == lower_byte(#[trigger] s[i]));
    }
    assert(forall|i: int| 0 <= i < mapped.len() ==> is_axis_letter(#[trigger] mapped[i]));
    lemma_append_missing_props(mapped);
}

} // verus!
