use vstd::prelude::*;

verus! {

/// The code point whose glyph stands for "not covered" in a font.
pub const REPLACEMENT: char = '\u{FFFD}';

/// The space: the one character accepted without an outline.
pub const SPACE: char = ' ';

/// The printable ASCII characters, U+0020 to U+007E, in order.
pub open spec fn printable_ascii_spec() -> Seq<char> {
    Seq::new(95, |i: int| ((0x20 + i) as u8) as char)
}

/// Return the printable ASCII characters, the space included.
///
/// Almost any font made for Latin scripts covers all of them, which makes
/// them a good default alphabet.
pub fn printable_ascii() -> (r: Vec<char>)
    ensures
        r@ == printable_ascii_spec(),
{
    let mut r: Vec<char> = Vec::new();
    let mut n: u8 = 0x20;
    while n < 0x7f
        invariant
            0x20 <= n <= 0x7f,
            r@.len() == n - 0x20,
            forall|i: int| 0 <= i < r@.len() ==> r@[i] == ((0x20 + i) as u8) as char,
        decreases 0x7f - n,
    {
        r.push(n as char);
        n = n + 1;
    }
    assert(r@ =~= printable_ascii_spec());
    r
}

/// What a font reports about one candidate character, measured at a given
/// pixel size.
///
/// `coverage` is the ink of the rasterised outline, summed over the pixels
/// it touches, in any fixed unit; it is `None` when the font draws no
/// outline for the glyph. `advance` is the horizontal advance in
/// 1/`SUBPIXELS` of a pixel.
#[derive(Debug, Clone, Copy, PartialEq, Eq)]
pub struct GlyphProbe {
    pub chr: char,
    pub glyph: u16,
    pub coverage: Option<u64>,
    pub advance: u32,
}

/// A character that the font can render, with its unnormalized coverage
/// and its advance.
#[derive(Debug, Clone, Copy, PartialEq, Eq)]
pub struct RawGlyph {
    pub chr: char,
    pub cov: u64,
    pub adv: u32,
}

/// The glyph a probe stands for, or `None` when its character is rejected:
/// it resolves to the replacement glyph, or it has no outline and is not
/// the space.
pub open spec fn accept_spec(p: GlyphProbe, replacement: u16) -> Option<RawGlyph> {
    if p.glyph == replacement {
        None
    } else {
        match p.coverage {
            Some(c) => Some(RawGlyph { chr: p.chr, cov: c, adv: p.advance }),
            None => if p.chr == SPACE {
                Some(RawGlyph { chr: p.chr, cov: 0, adv: p.advance })
            } else {
                None
            },
        }
    }
}

/// Decide whether the character of a probe can be used.
pub fn accept(p: &GlyphProbe, replacement: u16) -> (r: Option<RawGlyph>)
    ensures
        r == accept_spec(*p, replacement),
{
    if p.glyph == replacement {
        return None;
    }
    match p.coverage {
        Some(c) => Some(RawGlyph { chr: p.chr, cov: c, adv: p.advance }),
        None => if p.chr == SPACE {
            Some(RawGlyph { chr: p.chr, cov: 0, adv: p.advance })
        } else {
            None
        },
    }
}

/// The accepted glyphs of a run of probes, in the probes' order.
pub open spec fn accepted_spec(ps: Seq<GlyphProbe>, replacement: u16) -> Seq<RawGlyph>
    decreases ps.len(),
{
    if ps.len() == 0 {
        Seq::empty()
    } else {
        let rest = accepted_spec(ps.drop_last(), replacement);
        match accept_spec(ps.last(), replacement) {
            Some(g) => rest.push(g),
            None => rest,
        }
    }
}

/// The rejected characters of a run of probes, in the probes' order.
pub open spec fn rejected_spec(ps: Seq<GlyphProbe>, replacement: u16) -> Seq<char>
    decreases ps.len(),
{
    if ps.len() == 0 {
        Seq::empty()
    } else {
        let rest = rejected_spec(ps.drop_last(), replacement);
        match accept_spec(ps.last(), replacement) {
            Some(g) => rest,
            None => rest.push(ps.last().chr),
        }
    }
}

/// Split probes into the glyphs that can be used and the characters that
/// cannot, both in the probes' order.
pub fn partition(probes: &[GlyphProbe], replacement: u16) -> (r: (Vec<RawGlyph>, Vec<char>))
    ensures
        r.0@ == accepted_spec(probes@, replacement),
        r.1@ == rejected_spec(probes@, replacement),
{
    let mut good: Vec<RawGlyph> = Vec::new();
    let mut bad: Vec<char> = Vec::new();
    let mut i: usize = 0;
    while i < probes.len()
        invariant
            i <= probes@.len(),
            good@ == accepted_spec(probes@.take(i as int), replacement),
            bad@ == rejected_spec(probes@.take(i as int), replacement),
        decreases probes@.len() - i,
    {
        assert(probes@.take(i + 1).drop_last() =~= probes@.take(i as int));
        match accept(&probes[i], replacement) {
            Some(g) => good.push(g),
            None => bad.push(probes[i].chr),
        }
        i = i + 1;
    }
    assert(probes@.take(i as int) =~= probes@);
    (good, bad)
}

} // verus!

verus! {

/// Some glyph of the run is for character `c`.
pub open spec fn glyphs_have_char(s: Seq<RawGlyph>, c: char) -> bool {
    exists|i: int| 0 <= i < s.len() && (#[trigger] s[i]).chr == c
}

/// Some probe of the run is for character `c`.
pub open spec fn probes_have_char(ps: Seq<GlyphProbe>, c: char) -> bool {
    exists|i: int| 0 <= i < ps.len() && (#[trigger] ps[i]).chr == c
}

/// Every probed character is accepted or rejected, and nothing else is.
pub proof fn lemma_partition_chars(ps: Seq<GlyphProbe>, replacement: u16)
    ensures
        forall|c: char|
            glyphs_have_char(accepted_spec(ps, replacement), c) || rejected_spec(
                ps,
                replacement,
            ).contains(c) <==> #[trigger] probes_have_char(ps, c),
    decreases ps.len(),
{
    if ps.len() > 0 {
        let q = ps.drop_last();
        lemma_partition_chars(q, replacement);
        let a = accepted_spec(ps, replacement);
        let b = rejected_spec(ps, replacement);
        let a0 = accepted_spec(q, replacement);
        let b0 = rejected_spec(q, replacement);
        let last = ps.last();
        assert forall|c: char| glyphs_have_char(a, c) || b.contains(c) <==> #[trigger] probes_have_char(ps, c) by {
            if glyphs_have_char(a, c) || b.contains(c) {
                if glyphs_have_char(a0, c) || b0.contains(c) {
                    assert(probes_have_char(q, c));
                    let i = choose|i: int| 0 <= i < q.len() && (#[trigger] q[i]).chr == c;
                    assert(ps[i] == q[i]);
                } else {
                    assert(last.chr == c) by {
                        match accept_spec(last, replacement) {
                            Some(g) => {
                                let i = choose|i: int| 0 <= i < a.len() && (#[trigger] a[i]).chr == c;
                                if i < a0.len() {
                                    assert(a[i] == a0[i]);
                                }
                            },
                            None => {
                                let i = choose|i: int| 0 <= i < b.len() && b[i] == c;
                                if i < b0.len() {
                                    assert(b[i] == b0[i]);
                                }
                            },
                        }
                    }
                    assert(ps[ps.len() - 1].chr == c);
                }
            }
            if probes_have_char(ps, c) {
                let i = choose|i: int| 0 <= i < ps.len() && (#[trigger] ps[i]).chr == c;
                if i < q.len() {
                    assert(q[i] == ps[i]);
                    assert(probes_have_char(q, c));
                    if glyphs_have_char(a0, c) {
                        let k = choose|k: int| 0 <= k < a0.len() && (#[trigger] a0[k]).chr == c;
                        assert(a[k] == a0[k]);
                    } else {
                        let k = choose|k: int| 0 <= k < b0.len() && b0[k] == c;
                        assert(b[k] == b0[k]);
                    }
                } else {
                    match accept_spec(last, replacement) {
                        Some(g) => {
                            assert(a[a.len() - 1] == g);
                        },
                        None => {
                            assert(b[b.len() - 1] == c);
                        },
                    }
                }
            }
        }
    }
}

} // verus!

verus! {

/// Each accepted glyph comes from a probe that was accepted, and each
/// rejected character from a probe that was rejected.
pub proof fn lemma_partition_sources(ps: Seq<GlyphProbe>, replacement: u16)
    ensures
        forall|c: char|
            #[trigger] glyphs_have_char(accepted_spec(ps, replacement), c) ==> exists|i: int|
                0 <= i < ps.len() && ps[i].chr == c && #[trigger] accept_spec(ps[i], replacement) is Some,
        forall|c: char|
            #[trigger] rejected_spec(ps, replacement).contains(c) ==> exists|i: int|
                0 <= i < ps.len() && ps[i].chr == c && #[trigger] accept_spec(ps[i], replacement) is None,
    decreases ps.len(),
{
    if ps.len() > 0 {
        let q = ps.drop_last();
        lemma_partition_sources(q, replacement);
        let a = accepted_spec(ps, replacement);
        let b = rejected_spec(ps, replacement);
        let a0 = accepted_spec(q, replacement);
        let b0 = rejected_spec(q, replacement);
        let last = ps.last();
        assert forall|c: char| #[trigger] glyphs_have_char(a, c) implies exists|i: int|
            0 <= i < ps.len() && ps[i].chr == c && #[trigger] accept_spec(ps[i], replacement) is Some by {
            let k = choose|k: int| 0 <= k < a.len() && (#[trigger] a[k]).chr == c;
            if k < a0.len() {
                assert(a[k] == a0[k]);
                assert(glyphs_have_char(a0, c));
                let i = choose|i: int|
                    0 <= i < q.len() && q[i].chr == c && #[trigger] accept_spec(q[i], replacement) is Some;
                assert(ps[i] == q[i]);
            } else {
                assert(ps[ps.len() - 1] == last);
            }
        }
        assert forall|c: char| #[trigger] b.contains(c) implies exists|i: int|
            0 <= i < ps.len() && ps[i].chr == c && #[trigger] accept_spec(ps[i], replacement) is None by {
            let k = choose|k: int| 0 <= k < b.len() && b[k] == c;
            if k < b0.len() {
                assert(b[k] == b0[k]);
                assert(b0.contains(c));
                let i = choose|i: int|
                    0 <= i < q.len() && q[i].chr == c && #[trigger] accept_spec(q[i], replacement) is None;
                assert(ps[i] == q[i]);
            } else {
                assert(ps[ps.len() - 1] == last);
            }
        }
    }
}

} // verus!
