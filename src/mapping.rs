use vstd::arithmetic::div_mod::{lemma_div_is_ordered, lemma_div_multiples_vanish};
use vstd::arithmetic::mul::lemma_mul_inequality;
use vstd::prelude::*;

use std::collections::BTreeSet;

use crate::error::Error;
use crate::glyph::{
    accept_spec, accepted_spec, glyphs_have_char, lemma_partition_chars,
    lemma_partition_sources, partition, probes_have_char, rejected_spec, GlyphProbe, RawGlyph,
    SPACE,
};
use crate::prune::{
    keep_in, lemma_prune_keeps_lookups, prune_query, pruned, reachable_chars, reached_by,
};

verus! {

broadcast use {vstd::std_specs::btree::group_btree_axioms, vstd::laws_cmp::group_laws_cmp};

/// The fixed-point value of intensity 1.0; intensity 0.0 is 0.
pub const FULL: u32 = 65535;

/// Cell geometry is measured in this many parts of a pixel.
pub const SUBPIXELS: u32 = 64;

/// One character of a mapping with its normalized coverage, in units of
/// 1/`FULL`.
#[derive(Debug, Clone, Copy, PartialEq, Eq)]
pub struct MapEntry {
    pub chr: char,
    pub val: u32,
}

/// What a `FontData` stands for: its entries, its cell geometry in
/// 1/`SUBPIXELS` of a pixel, and the divisor `d` of its fudge factor `1/d`.
pub struct Mapping {
    pub values: Seq<MapEntry>,
    pub width: nat,
    pub height: nat,
    pub divisor: nat,
}

/// Entries ordered by `val`, nondecreasing.
pub open spec fn sorted_by_val(s: Seq<MapEntry>) -> bool {
    forall|i: int, j: int| 0 <= i <= j < s.len() ==> s[i].val <= s[j].val
}

impl Mapping {
    /// The invariant of every mapping: nonempty, sorted, values in [0, 1],
    /// positive geometry, and a fudge factor `1/d` in (0, 1]. Geometry and
    /// the divisor `d` stay within 32 bits; for `d` that is what lets the
    /// twenty decimals of the saved fudge factor identify it.
    pub open spec fn wf(self) -> bool {
        &&& self.values.len() > 0
        &&& sorted_by_val(self.values)
        &&& forall|i: int| 0 <= i < self.values.len() ==> self.values[i].val <= FULL
        &&& 0 < self.width <= u32::MAX
        &&& 0 < self.height <= u32::MAX
        &&& 0 < self.divisor <= u32::MAX
    }
}

/// Whether entry `e` answers a lookup whose effective key is `key`, keys
/// being measured in units of 1/(`FULL` * `d`).
pub open spec fn reaches(e: MapEntry, d: int, key: int) -> bool {
    e.val * d >= key
}

/// The first index whose entry answers `key`, or the length if none does.
pub open spec fn first_reaching(s: Seq<MapEntry>, d: int, key: int) -> int
    decreases s.len(),
{
    if s.len() == 0 {
        0
    } else if reaches(s[0], d, key) {
        0
    } else {
        1 + first_reaching(s.drop_first(), d, key)
    }
}

/// The index a lookup picks: the first entry that answers the key, clamped
/// to the last entry.
pub open spec fn lookup_index(s: Seq<MapEntry>, d: int, key: int) -> int {
    let i = first_reaching(s, d, key);
    if i < s.len() {
        i
    } else {
        s.len() - 1
    }
}

/// The effective key of intensity `q / FULL` for light text on a dark
/// background: `q - fudge`.
pub open spec fn light_key(m: Mapping, q: int) -> int {
    q * m.divisor - FULL
}

/// The effective key of intensity `q / FULL` for dark text on a light
/// background: `1 - (q + fudge)`.
pub open spec fn dark_key(m: Mapping, q: int) -> int {
    FULL * m.divisor - (q * m.divisor + FULL)
}

/// The character a mapping gives for an effective key.
pub open spec fn char_for_key(m: Mapping, key: int) -> char {
    m.values[lookup_index(m.values, m.divisor as int, key)].chr
}

/// The character for intensity `q / FULL`, light on dark.
pub open spec fn light_char(m: Mapping, q: int) -> char {
    char_for_key(m, light_key(m, q))
}

/// The character for intensity `q / FULL`, dark on light.
pub open spec fn dark_char(m: Mapping, q: int) -> char {
    char_for_key(m, dark_key(m, q))
}

proof fn lemma_first_reaching(s: Seq<MapEntry>, d: int, key: int, i: int)
    requires
        0 <= i <= s.len(),
        forall|j: int| 0 <= j < i ==> !reaches(#[trigger] s[j], d, key),
        i < s.len() ==> reaches(s[i], d, key),
    ensures
        first_reaching(s, d, key) == i,
    decreases i,
{
    if i > 0 {
        let t = s.drop_first();
        assert forall|j: int| 0 <= j < i - 1 implies !reaches(#[trigger] t[j], d, key) by {
            assert(t[j] == s[j + 1]);
        }
        lemma_first_reaching(t, d, key, i - 1);
    }
}

/// Unnormalized glyphs ordered by coverage, nondecreasing.
pub open spec fn sorted_by_cov(s: Seq<RawGlyph>) -> bool {
    forall|i: int, j: int| 0 <= i <= j < s.len() ==> s[i].cov <= s[j].cov
}

/// Where a glyph of coverage `c` goes in a run sorted by coverage: before
/// the first glyph of larger coverage, so that equal coverages keep their
/// order of arrival.
pub open spec fn insert_pos(s: Seq<RawGlyph>, c: u64) -> int
    decreases s.len(),
{
    if s.len() == 0 {
        0
    } else if s[0].cov > c {
        0
    } else {
        1 + insert_pos(s.drop_first(), c)
    }
}

/// The glyphs ordered by coverage, by insertion; equal coverages keep their
/// order.
pub open spec fn sort_by_cov(s: Seq<RawGlyph>) -> Seq<RawGlyph>
    decreases s.len(),
{
    if s.len() == 0 {
        s
    } else {
        let t = sort_by_cov(s.drop_last());
        t.insert(insert_pos(t, s.last().cov), s.last())
    }
}

/// The largest advance of the glyphs, 0 for none.
pub open spec fn max_adv(s: Seq<RawGlyph>) -> nat
    decreases s.len(),
{
    if s.len() == 0 {
        0
    } else {
        let m = max_adv(s.drop_last());
        if s.last().adv > m {
            s.last().adv as nat
        } else {
            m
        }
    }
}

/// A glyph with its coverage divided by `max_cov`, in units of 1/`FULL`.
pub open spec fn normalize(g: RawGlyph, max_cov: int) -> MapEntry {
    MapEntry { chr: g.chr, val: ((g.cov * FULL) / max_cov) as u32 }
}

/// Why a build from these probes fails, if it does.
pub open spec fn build_error(ps: Seq<GlyphProbe>, replacement: u16, height: u32) -> Option<Error> {
    let a = accepted_spec(ps, replacement);
    if a.len() == 0 || (a.len() == 1 && a[0].chr == SPACE) {
        Some(Error::NoUseableGlyphs)
    } else if max_adv(a) == 0 || sort_by_cov(a).last().cov == 0 {
        Some(Error::NoUseableGlyphs)
    } else if height == 0 {
        Some(Error::InvalidFontData)
    } else {
        None
    }
}

/// The mapping built from these probes, where the build succeeds.
pub open spec fn built_mapping(ps: Seq<GlyphProbe>, replacement: u16, height: u32) -> Mapping {
    let a = accepted_spec(ps, replacement);
    let s = sort_by_cov(a);
    let m = s.last().cov as int;
    Mapping {
        values: s.map_values(|g: RawGlyph| normalize(g, m)),
        width: max_adv(a),
        height: height as nat,
        divisor: s.len(),
    }
}

proof fn lemma_insert_pos(s: Seq<RawGlyph>, c: u64)
    ensures
        0 <= insert_pos(s, c) <= s.len(),
        forall|k: int| 0 <= k < insert_pos(s, c) ==> (#[trigger] s[k]).cov <= c,
        insert_pos(s, c) < s.len() ==> s[insert_pos(s, c)].cov > c,
    decreases s.len(),
{
    if s.len() > 0 && s[0].cov <= c {
        let t = s.drop_first();
        lemma_insert_pos(t, c);
        assert forall|k: int| 0 <= k < insert_pos(s, c) implies (#[trigger] s[k]).cov <= c by {
            if k > 0 {
                assert(s[k] == t[k - 1]);
            }
        }
    }
}

proof fn lemma_insert_pos_at(s: Seq<RawGlyph>, c: u64, i: int)
    requires
        0 <= i <= s.len(),
        forall|k: int| 0 <= k < i ==> (#[trigger] s[k]).cov <= c,
        i < s.len() ==> s[i].cov > c,
    ensures
        insert_pos(s, c) == i,
    decreases i,
{
    if i > 0 {
        let t = s.drop_first();
        assert forall|k: int| 0 <= k < i - 1 implies (#[trigger] t[k]).cov <= c by {
            assert(t[k] == s[k + 1]);
        }
        lemma_insert_pos_at(t, c, i - 1);
    }
}

/// Sorting by coverage gives a run sorted by coverage, of the same length
/// and with the same glyphs.
proof fn lemma_sort_by_cov(s: Seq<RawGlyph>)
    ensures
        sort_by_cov(s).len() == s.len(),
        sorted_by_cov(sort_by_cov(s)),
        forall|c: char| #[trigger] glyphs_have_char(sort_by_cov(s), c) <==> glyphs_have_char(s, c),
    decreases s.len(),
{
    if s.len() > 0 {
        let q = s.drop_last();
        let g = s.last();
        lemma_sort_by_cov(q);
        let t = sort_by_cov(q);
        let p = insert_pos(t, g.cov);
        lemma_insert_pos(t, g.cov);
        let r = t.insert(p, g);
        assert(r == sort_by_cov(s));
        assert forall|i: int, j: int| 0 <= i <= j < r.len() implies r[i].cov <= r[j].cov by {
            if j < p {
                assert(r[i] == t[i] && r[j] == t[j]);
            } else if j == p {
                if i < p {
                    assert(r[i] == t[i]);
                }
            } else {
                assert(r[j] == t[j - 1]);
                assert(t[p].cov <= t[j - 1].cov);
                if i < p {
                    assert(r[i] == t[i]);
                } else if i > p {
                    assert(r[i] == t[i - 1]);
                }
            }
        }
        assert forall|c: char| #[trigger] glyphs_have_char(r, c) <==> glyphs_have_char(s, c) by {
            if glyphs_have_char(r, c) {
                let i = choose|i: int| 0 <= i < r.len() && (#[trigger] r[i]).chr == c;
                if i == p {
                    assert(s[s.len() - 1] == g);
                } else {
                    let k = if i < p { i } else { i - 1 };
                    assert(r[i] == t[k]);
                    assert(glyphs_have_char(t, c));
                    assert(glyphs_have_char(q, c));
                    let m = choose|m: int| 0 <= m < q.len() && (#[trigger] q[m]).chr == c;
                    assert(s[m] == q[m]);
                }
            }
            if glyphs_have_char(s, c) {
                let i = choose|i: int| 0 <= i < s.len() && (#[trigger] s[i]).chr == c;
                if i == s.len() - 1 {
                    assert(r[p] == g);
                } else {
                    assert(q[i] == s[i]);
                    assert(glyphs_have_char(q, c));
                    assert(glyphs_have_char(t, c));
                    let m = choose|m: int| 0 <= m < t.len() && (#[trigger] t[m]).chr == c;
                    if m < p {
                        assert(r[m] == t[m]);
                    } else {
                        assert(r[m + 1] == t[m]);
                    }
                }
            }
        }
    }
}

/// Dividing by the largest coverage keeps the order and lands in [0, 1].
proof fn lemma_normalize_order(a: int, b: int, m: int)
    requires
        0 <= a <= b <= m,
        m > 0,
    ensures
        (a * FULL) / m <= (b * FULL) / m,
        0 <= (b * FULL) / m <= FULL,
        (m * FULL) / m == FULL,
{
    lemma_mul_inequality(a, b, FULL as int);
    lemma_mul_inequality(b, m, FULL as int);
    lemma_div_is_ordered(a * FULL, b * FULL, m);
    lemma_div_is_ordered(b * FULL, m * FULL, m);
    lemma_div_is_ordered(0, b * FULL, m);
    lemma_div_multiples_vanish(FULL as int, m);
    assert(m * FULL == FULL * m) by (nonlinear_arith);
}

/// A built mapping is well formed, sorted by value, its values lie in
/// [0, 1] with the last one exactly 1, its fudge factor is 1 / its length,
/// and its characters with the rejected ones are exactly those probed.
pub proof fn lemma_built_mapping(ps: Seq<GlyphProbe>, replacement: u16, height: u32)
    requires
        build_error(ps, replacement, height) is None,
        ps.len() <= u32::MAX,
    ensures
        built_mapping(ps, replacement, height).wf(),
        built_mapping(ps, replacement, height).values.last().val == FULL,
        built_mapping(ps, replacement, height).divisor
            == built_mapping(ps, replacement, height).values.len(),
        forall|c: char|
            has_char(built_mapping(ps, replacement, height).values, c) || rejected_spec(
                ps,
                replacement,
            ).contains(c) <==> #[trigger] probes_have_char(ps, c),
{
    let a = accepted_spec(ps, replacement);
    let s = sort_by_cov(a);
    lemma_sort_by_cov(a);
    lemma_partition_chars(ps, replacement);
    lemma_accepted_len(ps, replacement);
    lemma_max_adv_bound(a);
    let mc = s.last().cov as int;
    let mm = built_mapping(ps, replacement, height);
    let v = mm.values;
    assert forall|i: int, j: int| 0 <= i <= j < v.len() implies v[i].val <= v[j].val by {
        lemma_normalize_order(s[i].cov as int, s[j].cov as int, mc);
    }
    assert forall|i: int| 0 <= i < v.len() implies v[i].val <= FULL by {
        lemma_normalize_order(s[i].cov as int, s[i].cov as int, mc);
    }
    lemma_normalize_order(mc, mc, mc);
    assert forall|c: char| #[trigger] has_char(v, c) <==> glyphs_have_char(s, c) by {
        if has_char(v, c) {
            let i = choose|i: int| 0 <= i < v.len() && (#[trigger] v[i]).chr == c;
            assert(s[i].chr == c);
        }
        if glyphs_have_char(s, c) {
            let i = choose|i: int| 0 <= i < s.len() && (#[trigger] s[i]).chr == c;
            assert(v[i].chr == c);
        }
    }
    assert forall|c: char|
        has_char(v, c) || rejected_spec(ps, replacement).contains(c) <==> #[trigger] probes_have_char(
            ps,
            c,
        ) by {
        assert(has_char(v, c) <==> glyphs_have_char(s, c));
        assert(glyphs_have_char(s, c) <==> glyphs_have_char(a, c));
    }
}

proof fn lemma_accepted_len(ps: Seq<GlyphProbe>, replacement: u16)
    ensures
        accepted_spec(ps, replacement).len() <= ps.len(),
    decreases ps.len(),
{
    if ps.len() > 0 {
        lemma_accepted_len(ps.drop_last(), replacement);
    }
}

proof fn lemma_max_adv_bound(s: Seq<RawGlyph>)
    ensures
        max_adv(s) <= u32::MAX,
    decreases s.len(),
{
    if s.len() > 0 {
        lemma_max_adv_bound(s.drop_last());
    }
}

/// Where the font answers alike for equal characters, no character is both
/// in a built mapping and among the rejected ones.
pub proof fn lemma_built_disjoint(ps: Seq<GlyphProbe>, replacement: u16, height: u32)
    requires
        build_error(ps, replacement, height) is None,
        forall|i: int, j: int|
            0 <= i < ps.len() && 0 <= j < ps.len() && ps[i].chr == ps[j].chr ==> (#[trigger] accept_spec(
                ps[i],
                replacement,
            ) is None) == (#[trigger] accept_spec(ps[j], replacement) is None),
    ensures
        forall|c: char|
            !(#[trigger] has_char(built_mapping(ps, replacement, height).values, c) && rejected_spec(
                ps,
                replacement,
            ).contains(c)),
{
    let a = accepted_spec(ps, replacement);
    let s = sort_by_cov(a);
    let v = built_mapping(ps, replacement, height).values;
    lemma_sort_by_cov(a);
    lemma_partition_sources(ps, replacement);
    assert forall|c: char|
        !(#[trigger] has_char(v, c) && rejected_spec(ps, replacement).contains(c)) by {
        if has_char(v, c) && rejected_spec(ps, replacement).contains(c) {
            let k = choose|k: int| 0 <= k < v.len() && (#[trigger] v[k]).chr == c;
            assert(s[k].chr == c);
            assert(glyphs_have_char(s, c));
            assert(glyphs_have_char(a, c));
            let i = choose|i: int|
                0 <= i < ps.len() && ps[i].chr == c && #[trigger] accept_spec(ps[i], replacement) is Some;
            let j = choose|j: int|
                0 <= j < ps.len() && ps[j].chr == c && #[trigger] accept_spec(ps[j], replacement) is None;
            assert(ps[i].chr == ps[j].chr);
        }
    }
}

/// Some entry of the run is for character `c`.
pub open spec fn has_char(s: Seq<MapEntry>, c: char) -> bool {
    exists|i: int| 0 <= i < s.len() && (#[trigger] s[i]).chr == c
}

/// Index at which a glyph of coverage `c` is inserted into `s`.
fn find_insert_pos(s: &Vec<RawGlyph>, c: u64) -> (r: usize)
    ensures
        r == insert_pos(s@, c),
{
    let mut j: usize = 0;
    while j < s.len() && s[j].cov <= c
        invariant
            j <= s@.len(),
            forall|k: int| 0 <= k < j ==> (#[trigger] s@[k]).cov <= c,
        decreases s@.len() - j,
    {
        j = j + 1;
    }
    proof {
        lemma_insert_pos_at(s@, c, j as int);
    }
    j
}

/// The glyphs ordered by coverage; equal coverages keep their order.
fn sort_glyphs(a: &Vec<RawGlyph>) -> (r: Vec<RawGlyph>)
    ensures
        r@ == sort_by_cov(a@),
{
    let mut out: Vec<RawGlyph> = Vec::new();
    let mut i: usize = 0;
    while i < a.len()
        invariant
            i <= a@.len(),
            out@ == sort_by_cov(a@.take(i as int)),
        decreases a@.len() - i,
    {
        assert(a@.take(i + 1).drop_last() =~= a@.take(i as int));
        let g = a[i];
        proof {
            lemma_sort_by_cov(a@.take(i as int));
            lemma_insert_pos(out@, g.cov);
        }
        let p = find_insert_pos(&out, g.cov);
        out.insert(p, g);
        i = i + 1;
    }
    assert(a@.take(i as int) =~= a@);
    out
}

/// The largest advance of the glyphs.
fn widest(a: &Vec<RawGlyph>) -> (r: u32)
    ensures
        r == max_adv(a@),
{
    let mut w: u32 = 0;
    let mut i: usize = 0;
    while i < a.len()
        invariant
            i <= a@.len(),
            w == max_adv(a@.take(i as int)),
        decreases a@.len() - i,
    {
        assert(a@.take(i + 1).drop_last() =~= a@.take(i as int));
        if a[i].adv > w {
            w = a[i].adv;
        }
        i = i + 1;
    }
    assert(a@.take(i as int) =~= a@);
    w
}

/// The intensity-to-character table of a font at one size, with the size
/// of a character cell.
#[derive(Debug)]
pub struct FontData {
    values: Vec<MapEntry>,
    width: u32,
    height: u32,
    fudge_divisor: usize,
}

impl View for FontData {
    type V = Mapping;

    closed spec fn view(&self) -> Mapping {
        Mapping {
            values: self.values@,
            width: self.width as nat,
            height: self.height as nat,
            divisor: self.fudge_divisor as nat,
        }
    }
}

impl Clone for FontData {
    fn clone(&self) -> (r: Self)
        ensures
            r@ == self@,
    {
        proof {
            use_type_invariant(self);
        }
        let values = self.values.clone();
        assert(values@ =~= self.values@);
        FontData {
            values,
            width: self.width,
            height: self.height,
            fudge_divisor: self.fudge_divisor,
        }
    }
}

impl FontData {
    #[verifier::type_invariant]
    spec fn inv(self) -> bool {
        self@.wf()
    }

    /// Every `FontData` is well formed.
    pub fn lemma_wf(&self)
        ensures
            self@.wf(),
    {
        proof {
            use_type_invariant(self);
        }
    }

    /// Index of the entry that answers `key` (in units of
    /// 1/(`FULL` * divisor)), by binary search.
    fn find(&self, key: i128) -> (r: usize)
        ensures
            r as int == lookup_index(self@.values, self@.divisor as int, key as int),
            r < self@.values.len(),
    {
        proof {
            use_type_invariant(self);
        }
        let ghost s = self@.values;
        let ghost d = self@.divisor as int;
        let d128 = self.fudge_divisor as i128;
        let mut lo: usize = 0;
        let mut hi: usize = self.values.len();
        while lo < hi
            invariant
                self@.wf(),
                s == self@.values,
                d == self@.divisor,
                d128 == d,
                0 <= lo <= hi <= s.len(),
                forall|j: int| 0 <= j < lo ==> !reaches(#[trigger] s[j], d, key as int),
                forall|j: int| hi <= j < s.len() ==> reaches(#[trigger] s[j], d, key as int),
            decreases hi - lo,
        {
            let mid = lo + (hi - lo) / 2;
            let v = self.values[mid].val as i128;
            assert(0 <= v * d128 <= (FULL as int) * 0x1_0000_0000_0000_0000) by (nonlinear_arith)
                requires
                    0 <= v <= FULL,
                    0 <= d128 < 0x1_0000_0000_0000_0000,
            ;
            if v * d128 >= key {
                assert forall|j: int| mid <= j < s.len() implies reaches(#[trigger] s[j], d, key as int) by {
                    lemma_mul_inequality(s[mid as int].val as int, s[j].val as int, d);
                }
                hi = mid;
            } else {
                assert forall|j: int| 0 <= j <= mid implies !reaches(#[trigger] s[j], d, key as int) by {
                    lemma_mul_inequality(s[j].val as int, s[mid as int].val as int, d);
                }
                lo = mid + 1;
            }
        }
        proof {
            lemma_first_reaching(s, d, key as int, lo as int);
        }
        if lo < self.values.len() {
            lo
        } else {
            self.values.len() - 1
        }
    }

    /// The character for a pixel of intensity `val / FULL`, for light text
    /// on a dark background: that of the first entry whose value is at
    /// least `val / FULL` minus the fudge factor, or of the last entry if
    /// none is. Intensities below 0 give the character of least coverage,
    /// those above 1 plus the fudge factor that of the last entry.
    pub fn pixel(&self, val: i32) -> (r: char)
        ensures
            r == light_char(self@, val as int),
    {
        proof {
            use_type_invariant(self);
        }
        let d = self.fudge_divisor as i128;
        assert(-0x8000_0000 * 0x1_0000_0000_0000_0000 <= (val as i128) * d <= 0x8000_0000
            * 0x1_0000_0000_0000_0000) by (nonlinear_arith)
            requires
                -0x8000_0000 <= val < 0x8000_0000,
                0 <= d < 0x1_0000_0000_0000_0000,
        ;
        let key = (val as i128) * d - FULL as i128;
        let i = self.find(key);
        self.values[i].chr
    }

    /// The character for a pixel of intensity `val / FULL`, for dark text
    /// on a light background: the lookup of `pixel` with the effective key
    /// `1 - (val / FULL + fudge)`.
    pub fn pixel_inv(&self, val: i32) -> (r: char)
        ensures
            r == dark_char(self@, val as int),
    {
        proof {
            use_type_invariant(self);
        }
        let d = self.fudge_divisor as i128;
        assert(-0x8000_0000 * 0x1_0000_0000_0000_0000 <= (val as i128) * d <= 0x8000_0000
            * 0x1_0000_0000_0000_0000) by (nonlinear_arith)
            requires
                -0x8000_0000 <= val < 0x8000_0000,
                0 <= d < 0x1_0000_0000_0000_0000,
        ;
        assert(0 <= (FULL as i128) * d <= (FULL as int) * 0x1_0000_0000_0000_0000) by (nonlinear_arith)
            requires
                0 <= d < 0x1_0000_0000_0000_0000,
        ;
        let key = (FULL as i128) * d - ((val as i128) * d + FULL as i128);
        let i = self.find(key);
        self.values[i].chr
    }

    /// Build the table of a font from one probe per candidate character.
    ///
    /// A character is rejected when its glyph is the font's replacement
    /// glyph, or when it has no outline and is not the space. The build
    /// fails with `NoUseableGlyphs` when nothing is accepted, when only the
    /// space is, when every advance or every coverage is zero, and with
    /// `InvalidFontData` when the font's line height `height` is zero.
    /// Otherwise the accepted glyphs are ordered by coverage, each coverage
    /// is divided by the largest, the cell is as wide as the widest advance
    /// and `height` high, and the fudge factor is 1 / the number of entries.
    /// The inner result is `Err` with the rejected characters, in order,
    /// when there are any.
    /// At most `u32::MAX` probes: the fudge factor's divisor is held in 32
    /// bits.
    pub fn from_glyphs(probes: &[GlyphProbe], replacement: u16, height: u32) -> (r: Result<
        Result<FontData, (FontData, Vec<char>)>,
        Error,
    >)
        requires
            probes@.len() <= u32::MAX,
        ensures
            match r {
                Err(e) => build_error(probes@, replacement, height) == Some(e),
                Ok(Ok(fd)) => {
                    &&& build_error(probes@, replacement, height) is None
                    &&& fd@ == built_mapping(probes@, replacement, height)
                    &&& rejected_spec(probes@, replacement).len() == 0
                },
                Ok(Err((fd, bad))) => {
                    &&& build_error(probes@, replacement, height) is None
                    &&& fd@ == built_mapping(probes@, replacement, height)
                    &&& bad@ == rejected_spec(probes@, replacement)
                    &&& bad@.len() > 0
                },
            },
    {
        let (good, bad) = partition(probes, replacement);
        if good.len() == 0 || (good.len() == 1 && good[0].chr == SPACE) {
            return Err(Error::NoUseableGlyphs);
        }
        let sorted = sort_glyphs(&good);
        proof {
            lemma_sort_by_cov(good@);
        }
        let max_cov = sorted[sorted.len() - 1].cov;
        let width = widest(&good);
        if width == 0 || max_cov == 0 {
            return Err(Error::NoUseableGlyphs);
        }
        if height == 0 {
            return Err(Error::InvalidFontData);
        }
        proof {
            lemma_built_mapping(probes@, replacement, height);
        }
        let ghost target = built_mapping(probes@, replacement, height);
        let mut values: Vec<MapEntry> = Vec::new();
        let mut i: usize = 0;
        while i < sorted.len()
            invariant
                sorted@ == sort_by_cov(good@),
                good@ == accepted_spec(probes@, replacement),
                sorted_by_cov(sorted@),
                max_cov == sorted@.last().cov,
                max_cov > 0,
                target == built_mapping(probes@, replacement, height),
                i <= sorted@.len(),
                values@.len() == i,
                forall|k: int| 0 <= k < i ==> values@[k] == target.values[k],
            decreases sorted@.len() - i,
        {
            let g = sorted[i];
            proof {
                lemma_normalize_order(g.cov as int, max_cov as int, max_cov as int);
            }
            let val = ((g.cov as u128) * (FULL as u128) / (max_cov as u128)) as u32;
            values.push(MapEntry { chr: g.chr, val });
            i = i + 1;
        }
        assert(values@ =~= target.values);
        let fd = FontData { values, width, height, fudge_divisor: sorted.len() };
        if bad.len() == 0 {
            Ok(Ok(fd))
        } else {
            Ok(Err((fd, bad)))
        }
    }

    /// Drop the entries that none of the `n` equally spaced intensities
    /// `k / n`, `0 <= k < n`, reaches (light on dark). Entries whose
    /// character some such intensity gives stay, in order; geometry and
    /// fudge factor are unchanged.
    pub fn prune_for_n_intensities(&mut self, n: usize)
        requires
            n > 0,
        ensures
            final(self)@ == pruned(old(self)@, n as nat),
    {
        proof {
            use_type_invariant(&*self);
        }
        let ghost m = self@;
        let mut keep: BTreeSet<u32> = BTreeSet::new();
        let mut k: usize = 0;
        while k < n
            invariant
                self@ == m,
                m.wf(),
                k <= n,
                forall|c: char| #[trigger] reached_by(m, n as nat, k as int, c) <==> keep@.contains(
                    c as u32,
                ),
            decreases n - k,
        {
            proof {
                lemma_mul_inequality(k as int, n as int, FULL as int);
                lemma_div_is_ordered(0, k * FULL, n as int);
                lemma_div_is_ordered(k * FULL, n * FULL, n as int);
                lemma_div_multiples_vanish(FULL as int, n as int);
                assert(n * FULL == FULL * n) by (nonlinear_arith);
            }
            let q = ((k as u128) * (FULL as u128) / (n as u128)) as i32;
            assert(q == prune_query(k as int, n as int));
            let c = self.pixel(q);
            let ghost before = keep@;
            keep.insert(c as u32);
            assert forall|c2: char| #[trigger] reached_by(m, n as nat, k + 1, c2) <==> keep@.contains(
                c2 as u32,
            ) by {
                if c2 as u32 == c as u32 {
                    vstd::utf8::char_u32_cast(c, c as u32);
                    vstd::utf8::char_u32_cast(c2, c as u32);
                }
                if keep@.contains(c2 as u32) {
                    if c2 != c {
                        assert(before.contains(c2 as u32));
                        assert(reached_by(m, n as nat, k as int, c2));
                        let j = choose|j: int|
                            0 <= j < k && #[trigger] light_char(m, prune_query(j, n as int)) == c2;
                    } else {
                        assert(light_char(m, prune_query(k as int, n as int)) == c2);
                    }
                }
                if reached_by(m, n as nat, k + 1, c2) {
                    let j = choose|j: int|
                        0 <= j < k + 1 && #[trigger] light_char(m, prune_query(j, n as int)) == c2;
                    if j < k {
                        assert(reached_by(m, n as nat, k as int, c2));
                    }
                }
            }
            k = k + 1;
        }
        let ghost cs = reachable_chars(m, n as nat);
        let mut values: Vec<MapEntry> = Vec::new();
        let mut i: usize = 0;
        while i < self.values.len()
            invariant
                self@ == m,
                i <= m.values.len(),
                forall|c: char| #[trigger] cs.contains(c) <==> keep@.contains(c as u32),
                values@ == keep_in(m.values.take(i as int), cs),
            decreases m.values.len() - i,
        {
            assert(m.values.take(i + 1).drop_last() =~= m.values.take(i as int));
            let e = self.values[i];
            if keep.contains(&(e.chr as u32)) {
                values.push(e);
            }
            i = i + 1;
        }
        assert(m.values.take(i as int) =~= m.values);
        proof {
            lemma_prune_keeps_lookups(m, n as nat);
        }
        *self = FontData {
            values,
            width: self.width,
            height: self.height,
            fudge_divisor: self.fudge_divisor,
        };
    }

    /// A mapping from its parts: entries, cell width and height (in
    /// 1/`SUBPIXELS` of a pixel) and the divisor `d` of the fudge factor
    /// `1/d`; `None` unless they form a well-formed mapping.
    pub fn from_parts(values: Vec<MapEntry>, width: u32, height: u32, fudge_divisor: usize) -> (r:
        Option<FontData>)
        ensures
            r is Some <==> (Mapping {
                values: values@,
                width: width as nat,
                height: height as nat,
                divisor: fudge_divisor as nat,
            }).wf(),
            r matches Some(fd) ==> fd@ == (Mapping {
                values: values@,
                width: width as nat,
                height: height as nat,
                divisor: fudge_divisor as nat,
            }),
    {
        if values.len() == 0 || width == 0 || height == 0 || fudge_divisor == 0 || fudge_divisor
            > 0xFFFF_FFFF {
            return None;
        }
        let mut i: usize = 0;
        while i < values.len()
            invariant
                0 < values@.len(),
                i <= values@.len(),
                forall|a: int| 0 <= a < i ==> (#[trigger] values@[a]).val <= FULL,
                forall|a: int, b: int| 0 <= a <= b < i ==> values@[a].val <= values@[b].val,
            decreases values@.len() - i,
        {
            if values[i].val > FULL {
                return None;
            }
            if i > 0 && values[i - 1].val > values[i].val {
                assert(!sorted_by_val(values@));
                return None;
            }
            i = i + 1;
        }
        Some(FontData { values, width, height, fudge_divisor })
    }

    /// The entries, ordered by value.
    pub fn values(&self) -> (r: &Vec<MapEntry>)
        ensures
            r@ == self@.values,
    {
        &self.values
    }

    /// The divisor `d` of the fudge factor `1/d`.
    pub fn fudge_divisor(&self) -> (r: usize)
        ensures
            r == self@.divisor,
    {
        self.fudge_divisor
    }

    /// Width and height of one character cell, in 1/`SUBPIXELS` of a pixel.
    pub fn geometry(&self) -> (r: (u32, u32))
        ensures
            r.0 == self@.width,
            r.1 == self@.height,
    {
        (self.width, self.height)
    }
}

} // verus!
