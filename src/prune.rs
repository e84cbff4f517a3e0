use vstd::arithmetic::mul::lemma_mul_inequality;
use vstd::prelude::*;

use crate::mapping::{
    char_for_key, dark_char, dark_key, first_reaching, light_char, light_key, lookup_index,
    reaches, sorted_by_val, Mapping, MapEntry, FULL,
};

verus! {

/// Lookups clamp at both ends. Light on dark, an intensity below 0 gives
/// the first entry (least coverage) and one above 1 + fudge the last; dark
/// on light, an intensity above 1 gives the first entry and one below
/// -fudge the last.
pub proof fn lemma_clamping(m: Mapping, q: int)
    requires
        m.wf(),
    ensures
        q < 0 ==> light_char(m, q) == m.values[0].chr,
        q * m.divisor > FULL * m.divisor + FULL ==> light_char(m, q) == m.values.last().chr,
        q > FULL ==> dark_char(m, q) == m.values[0].chr,
        q * m.divisor < -FULL ==> dark_char(m, q) == m.values.last().chr,
{
    let s = m.values;
    let d = m.divisor as int;
    assert(reaches(s[0], d, light_key(m, q)) ==> first_reaching(s, d, light_key(m, q)) == 0);
    if q < 0 {
        assert(q * d <= 0) by (nonlinear_arith)
            requires
                q < 0,
                d > 0,
        ;
        assert(s[0].val * d >= 0) by (nonlinear_arith)
            requires
                d > 0,
        ;
    }
    if q > FULL {
        assert(q * d >= FULL * d) by (nonlinear_arith)
            requires
                q > FULL,
                d > 0,
        ;
        assert(s[0].val * d >= 0) by (nonlinear_arith)
            requires
                d > 0,
        ;
        assert(reaches(s[0], d, dark_key(m, q)));
    }
    assert forall|i: int| 0 <= i < s.len() implies (#[trigger] s[i]).val * d <= FULL * d by {
        lemma_mul_inequality(s[i].val as int, FULL as int, d);
    }
    if q * d > FULL * d + FULL {
        lemma_none_reach(s, d, light_key(m, q));
    }
    if q * d < -FULL {
        lemma_none_reach(s, d, dark_key(m, q));
    }
}

proof fn lemma_none_reach(s: Seq<MapEntry>, d: int, key: int)
    requires
        forall|j: int| 0 <= j < s.len() ==> !reaches(#[trigger] s[j], d, key),
    ensures
        first_reaching(s, d, key) == s.len(),
    decreases s.len(),
{
    if s.len() > 0 {
        let t = s.drop_first();
        assert forall|j: int| 0 <= j < t.len() implies !reaches(#[trigger] t[j], d, key) by {
            assert(t[j] == s[j + 1]);
        }
        lemma_none_reach(t, d, key);
    }
}

/// Dark-on-light lookup of `q` is light-on-dark lookup of `1 - q`, under
/// the same fudge factor.
pub proof fn lemma_dual(m: Mapping, q: int)
    ensures
        dark_char(m, q) == light_char(m, FULL - q),
{
    let d = m.divisor as int;
    assert((FULL - q) * d == FULL * d - q * d) by (nonlinear_arith);
    assert(dark_key(m, q) == light_key(m, FULL - q));
}

/// The intensity `k / n`, in units of 1/`FULL`.
pub open spec fn prune_query(k: int, n: int) -> int {
    (k * FULL) / n
}

/// One of the first `k` of the `n` equally spaced intensities gives `c`.
pub open spec fn reached_by(m: Mapping, n: nat, k: int, c: char) -> bool {
    exists|j: int| 0 <= j < k && #[trigger] light_char(m, prune_query(j, n as int)) == c
}

/// The characters that the intensities `k / n`, `0 <= k < n`, give.
pub open spec fn reachable_chars(m: Mapping, n: nat) -> Set<char> {
    Set::new(|c: char| reached_by(m, n, n as int, c))
}

/// The entries whose character is in `cs`, in order.
pub open spec fn keep_in(s: Seq<MapEntry>, cs: Set<char>) -> Seq<MapEntry>
    decreases s.len(),
{
    if s.len() == 0 {
        s
    } else {
        let r = keep_in(s.drop_last(), cs);
        if cs.contains(s.last().chr) {
            r.push(s.last())
        } else {
            r
        }
    }
}

/// The mapping with only the entries that some intensity `k / n` reaches.
pub open spec fn pruned(m: Mapping, n: nat) -> Mapping {
    Mapping { values: keep_in(m.values, reachable_chars(m, n)), ..m }
}

proof fn lemma_keep_front(s: Seq<MapEntry>, cs: Set<char>)
    requires
        s.len() > 0,
    ensures
        keep_in(s, cs) == if cs.contains(s[0].chr) {
            seq![s[0]] + keep_in(s.drop_first(), cs)
        } else {
            keep_in(s.drop_first(), cs)
        },
    decreases s.len(),
{
    if s.len() > 1 {
        let q = s.drop_last();
        lemma_keep_front(q, cs);
        assert(q.drop_first() =~= s.drop_first().drop_last());
        assert(q[0] == s[0]);
        assert(s.drop_first().last() == s.last());
        if cs.contains(s[0].chr) {
            let t = keep_in(s.drop_first().drop_last(), cs);
            if cs.contains(s.last().chr) {
                assert((seq![s[0]] + t).push(s.last()) =~= seq![s[0]] + t.push(s.last()));
            }
        }
    } else {
        assert(s.drop_last() =~= Seq::<MapEntry>::empty());
        assert(s.drop_first() =~= Seq::<MapEntry>::empty());
        assert(s.last() == s[0]);
    }
}

/// Keeping entries takes a subsequence: no longer, each element from the
/// input, every kept character in `cs`, and sortedness kept.
proof fn lemma_keep_sub(s: Seq<MapEntry>, cs: Set<char>)
    ensures
        keep_in(s, cs).len() <= s.len(),
        forall|j: int|
            0 <= j < keep_in(s, cs).len() ==> exists|i: int|
                0 <= i < s.len() && s[i] == #[trigger] keep_in(s, cs)[j],
        forall|j: int| 0 <= j < keep_in(s, cs).len() ==> cs.contains(#[trigger] keep_in(s, cs)[j].chr),
        sorted_by_val(s) ==> sorted_by_val(keep_in(s, cs)),
    decreases s.len(),
{
    if s.len() > 0 {
        let q = s.drop_last();
        lemma_keep_sub(q, cs);
        let r = keep_in(q, cs);
        let k = keep_in(s, cs);
        assert forall|j: int| 0 <= j < k.len() implies exists|i: int|
            0 <= i < s.len() && s[i] == #[trigger] k[j] by {
            if j < r.len() {
                assert(k[j] == r[j]);
                let i = choose|i: int| 0 <= i < q.len() && q[i] == r[j];
                assert(s[i] == q[i]);
            } else {
                assert(s[s.len() - 1] == k[j]);
            }
        }
        assert forall|j: int| 0 <= j < k.len() implies cs.contains(#[trigger] k[j].chr) by {
            if j < r.len() {
                assert(k[j] == r[j]);
            }
        }
        if sorted_by_val(s) {
            assert(sorted_by_val(q));
            assert forall|a: int, b: int| 0 <= a <= b < k.len() implies k[a].val <= k[b].val by {
                if b < r.len() {
                    assert(k[a] == r[a] && k[b] == r[b]);
                } else if a < r.len() {
                    assert(k[a] == r[a]);
                    let i = choose|i: int| 0 <= i < q.len() && q[i] == r[a];
                    assert(s[i] == q[i]);
                }
            }
        }
    }
}

/// Keeping the entries whose characters are all in `cs` keeps everything.
proof fn lemma_keep_all(s: Seq<MapEntry>, cs: Set<char>)
    requires
        forall|i: int| 0 <= i < s.len() ==> cs.contains(#[trigger] s[i].chr),
    ensures
        keep_in(s, cs) == s,
    decreases s.len(),
{
    if s.len() > 0 {
        let q = s.drop_last();
        assert forall|i: int| 0 <= i < q.len() implies cs.contains(#[trigger] q[i].chr) by {
            assert(q[i] == s[i]);
        }
        lemma_keep_all(q, cs);
        assert(q.push(s.last()) =~= s);
    }
}

pub(crate) proof fn lemma_first_reaching_range(s: Seq<MapEntry>, d: int, key: int)
    ensures
        0 <= first_reaching(s, d, key) <= s.len(),
    decreases s.len(),
{
    if s.len() > 0 {
        lemma_first_reaching_range(s.drop_first(), d, key);
    }
}

/// Where the entry that a lookup picks is kept, the lookup in what is kept
/// picks an entry of the same character.
proof fn lemma_keep_lookup(s: Seq<MapEntry>, cs: Set<char>, d: int, key: int)
    requires
        s.len() > 0,
        cs.contains(s[lookup_index(s, d, key)].chr),
    ensures
        keep_in(s, cs).len() > 0,
        keep_in(s, cs)[lookup_index(keep_in(s, cs), d, key)].chr == s[lookup_index(s, d, key)].chr,
    decreases s.len(),
{
    lemma_first_reaching_range(s, d, key);
    lemma_keep_front(s, cs);
    let t = s.drop_first();
    let k = keep_in(s, cs);
    let kt = keep_in(t, cs);
    if reaches(s[0], d, key) {
        assert(lookup_index(s, d, key) == 0);
        assert(k[0] == s[0]);
        assert(first_reaching(k, d, key) == 0);
    } else if s.len() == 1 {
        assert(lookup_index(s, d, key) == 0);
        assert(t.len() == 0);
        assert(kt.len() == 0);
        assert(k =~= seq![s[0]]);
        assert(first_reaching(k.drop_first(), d, key) == 0);
        assert(first_reaching(k, d, key) == 1);
    } else {
        lemma_first_reaching_range(t, d, key);
        assert(first_reaching(s, d, key) == 1 + first_reaching(t, d, key));
        assert(lookup_index(s, d, key) == 1 + lookup_index(t, d, key));
        assert(s[lookup_index(s, d, key)] == t[lookup_index(t, d, key)]);
        lemma_keep_lookup(t, cs, d, key);
        lemma_first_reaching_range(kt, d, key);
        if cs.contains(s[0].chr) {
            assert(k.drop_first() =~= kt);
            assert(first_reaching(k, d, key) == 1 + first_reaching(kt, d, key));
            assert(k[lookup_index(k, d, key)] == kt[lookup_index(kt, d, key)]);
        }
    }
}

/// Pruning keeps the mapping well formed, makes it no longer, and keeps the
/// character of every intensity `k / n`, `0 <= k < n`.
pub proof fn lemma_prune_keeps_lookups(m: Mapping, n: nat)
    requires
        m.wf(),
        n > 0,
    ensures
        pruned(m, n).wf(),
        pruned(m, n).values.len() <= m.values.len(),
        forall|k: int|
            0 <= k < n ==> #[trigger] light_char(pruned(m, n), prune_query(k, n as int))
                == light_char(m, prune_query(k, n as int)),
{
    let cs = reachable_chars(m, n);
    let p = pruned(m, n);
    lemma_keep_sub(m.values, cs);
    assert forall|k: int| 0 <= k < n implies #[trigger] light_char(p, prune_query(k, n as int))
        == light_char(m, prune_query(k, n as int)) by {
        let key = light_key(m, prune_query(k, n as int));
        assert(reached_by(m, n, n as int, light_char(m, prune_query(k, n as int))));
        lemma_keep_lookup(m.values, cs, m.divisor as int, key);
    }
    let key0 = light_key(m, prune_query(0, n as int));
    assert(reached_by(m, n, n as int, light_char(m, prune_query(0, n as int))));
    lemma_keep_lookup(m.values, cs, m.divisor as int, key0);
    assert forall|i: int| 0 <= i < p.values.len() implies p.values[i].val <= FULL by {
        let j = choose|j: int| 0 <= j < m.values.len() && m.values[j] == #[trigger] p.values[i];
    }
}

/// Pruning twice at the same `n` is pruning once.
pub proof fn lemma_prune_idempotent(m: Mapping, n: nat)
    requires
        m.wf(),
        n > 0,
    ensures
        pruned(pruned(m, n), n) == pruned(m, n),
{
    let p = pruned(m, n);
    lemma_prune_keeps_lookups(m, n);
    let cs = reachable_chars(m, n);
    assert forall|c: char| reached_by(p, n, n as int, c) <==> reached_by(m, n, n as int, c) by {
        if reached_by(p, n, n as int, c) {
            let j = choose|j: int| 0 <= j < n && #[trigger] light_char(p, prune_query(j, n as int)) == c;
            assert(light_char(m, prune_query(j, n as int)) == c);
        }
        if reached_by(m, n, n as int, c) {
            let j = choose|j: int| 0 <= j < n && #[trigger] light_char(m, prune_query(j, n as int)) == c;
            assert(light_char(p, prune_query(j, n as int)) == c);
        }
    }
    assert(reachable_chars(p, n) =~= cs);
    lemma_keep_sub(m.values, cs);
    lemma_keep_all(p.values, cs);
}

} // verus!
