//! Constrained combinatorial enumeration.
//!
//! `unique_selections_from_pairs` lists every multiset selection of a given
//! length from a pool of items, subject to a pairwise-compatibility relation
//! and a per-item repetition cap.  Each selection is reported once, as a
//! non-decreasing sequence of pool indices (the canonical representative of
//! its multiset).  The search is an explicit-stack backtracking walk with a
//! per-depth bitmask of the items still compatible with everything chosen so
//! far.

use vstd::prelude::*;
use vstd::pervasive::VecAdditionalExecFns;

verus! {

use crate::effective_cap;

/// Index of the first occurrence of `x` in `items`, or -1 when absent.
/// Pairs are resolved to pool indices by first occurrence, so a duplicated
/// pool entry is always represented by its earliest index.
pub open spec fn first_pos(items: Seq<u64>, x: u64) -> int
    decreases items.len(),
{
    if items.len() == 0 {
        -1
    } else if items[0] == x {
        0
    } else {
        let r = first_pos(items.drop_first(), x);
        if r < 0 {
            -1
        } else {
            r + 1
        }
    }
}

pub proof fn lemma_first_pos(items: Seq<u64>, x: u64)
    ensures
        first_pos(items, x) == -1 ==> forall|j: int| 0 <= j < items.len() ==> items[j] != x,
        first_pos(items, x) != -1 ==> {
            &&& 0 <= first_pos(items, x) < items.len()
            &&& items[first_pos(items, x)] == x
            &&& forall|j: int| 0 <= j < first_pos(items, x) ==> items[j] != x
        },
    decreases items.len(),
{
    if items.len() > 0 && items[0] != x {
        lemma_first_pos(items.drop_first(), x);
        let r = first_pos(items.drop_first(), x);
        if r == -1 {
            assert forall|j: int| 0 <= j < items.len() implies items[j] != x by {
                if j > 0 {
                    assert(items.drop_first()[j - 1] == items[j]);
                }
            }
        } else {
            assert(items.drop_first()[r] == items[r + 1]);
            assert forall|j: int| 0 <= j < r + 1 implies items[j] != x by {
                if j > 0 {
                    assert(items.drop_first()[j - 1] == items[j]);
                }
            }
        }
    }
}

/// Pool indices `i` and `j` may co-occur: some allowed-pair entry resolves to
/// the two indices, in either order.
pub open spec fn pair_allowed(items: Seq<u64>, pairs: Seq<(u64, u64)>, i: int, j: int) -> bool {
    exists|p: int|
        0 <= p < pairs.len() && ((first_pos(items, pairs[p].0) == i && first_pos(
            items,
            pairs[p].1,
        ) == j) || (first_pos(items, pairs[p].0) == j && first_pos(items, pairs[p].1) == i))
}

/// The allowed-pair relation is symmetric: an entry backs a pair of pool
/// indices in either order.
pub proof fn lemma_pair_allowed_sym(items: Seq<u64>, pairs: Seq<(u64, u64)>, i: int, j: int)
    ensures
        pair_allowed(items, pairs, i, j) == pair_allowed(items, pairs, j, i),
{
    if pair_allowed(items, pairs, i, j) {
        let p = choose|p: int|
            0 <= p < pairs.len() && ((first_pos(items, pairs[p].0) == i && first_pos(
                items,
                pairs[p].1,
            ) == j) || (first_pos(items, pairs[p].0) == j && first_pos(items, pairs[p].1) == i));
        assert(0 <= p < pairs.len() && ((first_pos(items, pairs[p].0) == j && first_pos(
            items,
            pairs[p].1,
        ) == i) || (first_pos(items, pairs[p].0) == i && first_pos(items, pairs[p].1) == j)));
    }
    if pair_allowed(items, pairs, j, i) {
        let p = choose|p: int|
            0 <= p < pairs.len() && ((first_pos(items, pairs[p].0) == j && first_pos(
                items,
                pairs[p].1,
            ) == i) || (first_pos(items, pairs[p].0) == i && first_pos(items, pairs[p].1) == j));
        assert(0 <= p < pairs.len() && ((first_pos(items, pairs[p].0) == i && first_pos(
            items,
            pairs[p].1,
        ) == j) || (first_pos(items, pairs[p].0) == j && first_pos(items, pairs[p].1) == i)));
    }
}

/// How many times `x` occurs in `s`.
pub open spec fn occurrences(s: Seq<usize>, x: usize) -> nat
    decreases s.len(),
{
    if s.len() == 0 {
        0
    } else {
        occurrences(s.drop_last(), x) + if s.last() == x {
            1nat
        } else {
            0nat
        }
    }
}

proof fn lemma_occurrences_push(s: Seq<usize>, y: usize, x: usize)
    ensures
        occurrences(s.push(y), x) == occurrences(s, x) + if y == x {
            1nat
        } else {
            0nat
        },
{
    assert(s.push(y).drop_last() =~= s);
}

proof fn lemma_occurrences_take_step(s: Seq<usize>, j: int, x: usize)
    requires
        0 <= j < s.len(),
    ensures
        occurrences(s.take(j + 1), x) == occurrences(s.take(j), x) + if s[j] == x {
            1nat
        } else {
            0nat
        },
{
    assert(s.take(j + 1) =~= s.take(j).push(s[j]));
    lemma_occurrences_push(s.take(j), s[j], x);
}

proof fn lemma_occurrences_take_le(s: Seq<usize>, j: int, x: usize)
    requires
        0 <= j <= s.len(),
    ensures
        occurrences(s.take(j), x) <= occurrences(s, x),
    decreases s.len() - j,
{
    if j == s.len() {
        assert(s.take(j) =~= s);
    } else {
        lemma_occurrences_take_step(s, j, x);
        lemma_occurrences_take_le(s, j + 1, x);
    }
}

proof fn lemma_occurrences_absent(s: Seq<usize>, x: usize)
    requires
        forall|d: int| 0 <= d < s.len() ==> s[d] != x,
    ensures
        occurrences(s, x) == 0,
    decreases s.len(),
{
    if s.len() > 0 {
        lemma_occurrences_absent(s.drop_last(), x);
    }
}

/// A qualifying combination: `n` pool indices in non-decreasing order, none
/// used more than the effective cap allows, every two positions backed by an
/// allowed-pair entry.
pub open spec fn valid_selection(
    sel: Seq<usize>,
    items: Seq<u64>,
    pairs: Seq<(u64, u64)>,
    n: nat,
    m: nat,
) -> bool {
    &&& sel.len() == n
    &&& forall|p: int| 0 <= p < sel.len() ==> (#[trigger] sel[p]) < items.len()
    &&& forall|p1: int, p2: int|
        0 <= p1 <= p2 < sel.len() ==> #[trigger] sel[p1] <= #[trigger] sel[p2]
    &&& forall|x: usize| #[trigger] occurrences(sel, x) <= effective_cap(n, m)
    &&& forall|p1: int, p2: int|
        0 <= p1 < p2 < sel.len() ==> #[trigger] pair_allowed(items, pairs, sel[p1] as int, sel[p2] as int)
}

/// The views of the emitted selections.
pub open spec fn sel_views(rs: Seq<Vec<usize>>) -> Seq<Seq<usize>> {
    rs.map_values(|v: Vec<usize>| v@)
}

proof fn lemma_sel_views_push(rs: Seq<Vec<usize>>, v: Vec<usize>)
    ensures
        sel_views(rs.push(v)) =~= sel_views(rs).push(v@),
{
}

/// If every emission is a valid selection and no valid selection exists,
/// nothing is emitted: an emission would itself be a witness.
pub proof fn lemma_no_valid_selection_no_emissions(
    vs: Seq<Seq<usize>>,
    items: Seq<u64>,
    pairs: Seq<(u64, u64)>,
    n: nat,
    m: nat,
)
    requires
        forall|i: int| 0 <= i < vs.len() ==> valid_selection(#[trigger] vs[i], items, pairs, n, m),
        forall|s: Seq<usize>| !valid_selection(s, items, pairs, n, m),
    ensures
        vs.len() == 0,
{
    if vs.len() > 0 {
        assert(valid_selection(vs[0], items, pairs, n, m));
    }
}

// ---------------------------------------------------------------------------
// Bit-level helpers for the compatibility masks.
// ---------------------------------------------------------------------------

/// Bit `i` of `mask` is set.
spec fn bit32(mask: u32, i: u32) -> bool {
    (mask >> i) & 1u32 == 1u32
}

proof fn lemma_bit_and(a: u32, b: u32, i: u32)
    requires
        i < 32,
    ensures
        bit32(a & b, i) == (bit32(a, i) && bit32(b, i)),
{
    assert((((a & b) >> i) & 1u32 == 1u32) == (((a >> i) & 1u32 == 1u32) && ((b >> i) & 1u32
        == 1u32))) by (bit_vector);
}

proof fn lemma_bit_or_shl(a: u32, j: u32, i: u32)
    requires
        i < 32,
        j < 32,
    ensures
        bit32(a | (1u32 << j), i) == (bit32(a, i) || i == j),
{
    assert((((a | (1u32 << j)) >> i) & 1u32 == 1u32) == (((a >> i) & 1u32 == 1u32) || i == j))
        by (bit_vector)
        requires
            i < 32 && j < 32,
    ;
}

proof fn lemma_bit_max(i: u32)
    requires
        i < 32,
    ensures
        bit32(u32::MAX, i),
{
    assert((0xffff_ffffu32 >> i) & 1u32 == 1u32) by (bit_vector)
        requires
            i < 32,
    ;
}

proof fn lemma_bit_zero(i: u32)
    ensures
        !bit32(0u32, i),
{
    assert(!((0u32 >> i) & 1u32 == 1u32)) by (bit_vector);
}

proof fn lemma_mask_test(mask: u32, i: u32)
    requires
        i < 32,
    ensures
        (mask & (1u32 << i) != 0) == bit32(mask, i),
{
    assert((mask & (1u32 << i) != 0) == ((mask >> i) & 1u32 == 1u32)) by (bit_vector)
        requires
            i < 32,
    ;
}

/// The running AND of the compatibility masks of the chosen prefix.
spec fn and_mask(allowed: Seq<u32>, prefix: Seq<usize>) -> u32
    decreases prefix.len(),
{
    if prefix.len() == 0 {
        u32::MAX
    } else {
        and_mask(allowed, prefix.drop_last()) & allowed[prefix.last() as int]
    }
}

proof fn lemma_and_mask_push(allowed: Seq<u32>, prefix: Seq<usize>, y: usize)
    ensures
        and_mask(allowed, prefix.push(y)) == (and_mask(allowed, prefix) & allowed[y as int]),
{
    assert(prefix.push(y).drop_last() =~= prefix);
}

proof fn lemma_and_mask_bit(allowed: Seq<u32>, prefix: Seq<usize>, j: u32)
    requires
        j < 32,
        forall|d: int| 0 <= d < prefix.len() ==> 0 <= #[trigger] prefix[d] < allowed.len(),
    ensures
        bit32(and_mask(allowed, prefix), j) <==> (forall|d: int|
            0 <= d < prefix.len() ==> bit32(allowed[#[trigger] prefix[d] as int], j)),
    decreases prefix.len(),
{
    if prefix.len() == 0 {
        lemma_bit_max(j);
    } else {
        lemma_and_mask_bit(allowed, prefix.drop_last(), j);
        lemma_bit_and(and_mask(allowed, prefix.drop_last()), allowed[prefix.last() as int], j);
        if bit32(and_mask(allowed, prefix), j) {
            assert forall|d: int| 0 <= d < prefix.len() implies bit32(
                allowed[#[trigger] prefix[d] as int],
                j,
            ) by {
                if d < prefix.len() - 1 {
                    assert(prefix.drop_last()[d] == prefix[d]);
                }
            }
        } else {
            if !bit32(and_mask(allowed, prefix.drop_last()), j) {
                let d = choose|d: int|
                    0 <= d < prefix.drop_last().len() && !bit32(
                        allowed[prefix.drop_last()[d] as int],
                        j,
                    );
                assert(prefix[d] == prefix.drop_last()[d]);
            }
        }
    }
}

// ---------------------------------------------------------------------------
// Lexicographic order on equal-length index words, used to track which
// selections the search has already passed.
// ---------------------------------------------------------------------------

/// `s` is strictly smaller than `w` on the first `w.len()` positions.
spec fn prefix_lt(s: Seq<usize>, w: Seq<usize>) -> bool
    decreases w.len(),
{
    if w.len() == 0 || s.len() == 0 {
        false
    } else if s[0] < w[0] {
        true
    } else if s[0] == w[0] {
        prefix_lt(s.drop_first(), w.drop_first())
    } else {
        false
    }
}

proof fn lemma_prefix_lt_push(s: Seq<usize>, w: Seq<usize>, x: usize)
    requires
        s.len() > w.len(),
    ensures
        prefix_lt(s, w.push(x)) <==> (prefix_lt(s, w) || (s.take(w.len() as int) == w && s[w.len() as int]
            < x)),
    decreases w.len(),
{
    if w.len() == 0 {
        assert(s.take(0) =~= w);
        assert(w.push(x)[0] == x);
        assert(w.push(x).drop_first().len() == 0);
        assert(!prefix_lt(s.drop_first(), w.push(x).drop_first()));
    } else {
        assert(w.push(x)[0] == w[0]);
        if s[0] == w[0] {
            assert(w.push(x).drop_first() =~= w.drop_first().push(x));
            assert(prefix_lt(s, w.push(x)) == prefix_lt(s.drop_first(), w.drop_first().push(x)));
            assert(prefix_lt(s, w) == prefix_lt(s.drop_first(), w.drop_first()));
            lemma_prefix_lt_push(s.drop_first(), w.drop_first(), x);
            assert(s.drop_first()[w.len() - 1] == s[w.len() as int]);
            if s.drop_first().take(w.len() - 1) == w.drop_first() {
                assert forall|i: int| 0 <= i < w.len() implies s.take(w.len() as int)[i] == w[i] by {
                    if i > 0 {
                        assert(s.take(w.len() as int)[i] == s.drop_first()[i - 1]);
                        assert(s.drop_first().take(w.len() - 1)[i - 1] == w.drop_first()[i - 1]);
                    }
                }
                assert(s.take(w.len() as int) =~= w);
            }
            if s.take(w.len() as int) == w {
                assert forall|i: int|
                    0 <= i < w.len() - 1 implies s.drop_first().take(w.len() - 1)[i]
                    == w.drop_first()[i] by {
                    assert(s.take(w.len() as int)[i + 1] == w[i + 1]);
                }
                assert(s.drop_first().take(w.len() - 1) =~= w.drop_first());
            }
        } else {
            if s.take(w.len() as int) == w {
                assert(s.take(w.len() as int)[0] == w[0]);
            }
        }
    }
}

// ---------------------------------------------------------------------------
// Termination measure for the backtracking walk.  The walk's state --- the
// chosen prefix plus the index currently under consideration --- is read as a
// number in base pool+2; every step of the walk strictly increases it.
// ---------------------------------------------------------------------------

spec fn pow_int(b: int, e: nat) -> int
    decreases e,
{
    if e == 0 {
        1
    } else {
        b * pow_int(b, (e - 1) as nat)
    }
}

proof fn lemma_pow_pos(b: int, e: nat)
    requires
        b >= 1,
    ensures
        pow_int(b, e) >= 1,
    decreases e,
{
    if e > 0 {
        lemma_pow_pos(b, (e - 1) as nat);
        assert(b * pow_int(b, (e - 1) as nat) >= 1) by (nonlinear_arith)
            requires
                b >= 1 && pow_int(b, (e - 1) as nat) >= 1,
        ;
    }
}

/// Digit `d` of `s` weighs `(s[d] + 1) * b^(n - d)`.
spec fn word_value(s: Seq<usize>, b: int, n: int) -> int
    decreases s.len(),
{
    if s.len() == 0 {
        0
    } else {
        word_value(s.drop_last(), b, n) + (s.last() + 1) * pow_int(b, (n - (s.len() - 1)) as nat)
    }
}

proof fn lemma_word_value_push(s: Seq<usize>, b: int, n: int, x: usize)
    ensures
        word_value(s.push(x), b, n) == word_value(s, b, n) + (x + 1) * pow_int(
            b,
            (n - s.len()) as nat,
        ),
{
    assert(s.push(x).drop_last() =~= s);
}

proof fn lemma_word_value_bound(s: Seq<usize>, b: int, n: int)
    requires
        b >= 2,
        s.len() <= n + 1,
        forall|d: int| 0 <= d < s.len() ==> #[trigger] s[d] + 1 < b,
    ensures
        0 <= word_value(s, b, n) <= pow_int(b, (n + 1) as nat) - pow_int(
            b,
            (n + 1 - s.len()) as nat,
        ),
    decreases s.len(),
{
    lemma_pow_pos(b, (n + 1) as nat);
    if s.len() == 0 {
        lemma_pow_pos(b, (n + 1 - s.len()) as nat);
    } else {
        let len = s.len() as int;
        assert forall|d: int| 0 <= d < s.drop_last().len() implies #[trigger] s.drop_last()[d] + 1
            < b by {
            assert(s.drop_last()[d] == s[d]);
        }
        lemma_word_value_bound(s.drop_last(), b, n);
        let p = pow_int(b, (n + 1 - len) as nat);
        lemma_pow_pos(b, (n + 1 - len) as nat);
        assert(s.drop_last().len() == len - 1);
        assert(word_value(s.drop_last(), b, n) <= pow_int(b, (n + 1) as nat) - pow_int(
            b,
            (n + 2 - len) as nat,
        ));
        assert(((n + 2 - len) as nat - 1) as nat == (n + 1 - len) as nat);
        assert(pow_int(b, (n + 2 - len) as nat) == b * p);
        assert((s.last() + 1) * p <= (b - 1) * p) by (nonlinear_arith)
            requires
                s.last() + 1 <= b - 1 && p >= 0,
        ;
        assert((s.last() + 1) * p >= 0) by (nonlinear_arith)
            requires
                s.last() + 1 >= 0 && p >= 0,
        ;
        assert(word_value(s, b, n) == word_value(s.drop_last(), b, n) + (s.last() + 1) * p);
        assert((b - 1) * p == b * p - p) by (nonlinear_arith);
    }
}

proof fn lemma_prefix_lt_irrefl(s: Seq<usize>, w: Seq<usize>)
    requires
        s.len() >= w.len(),
        s.take(w.len() as int) == w,
    ensures
        !prefix_lt(s, w),
    decreases w.len(),
{
    if w.len() > 0 {
        assert(s.take(w.len() as int)[0] == s[0]);
        assert forall|i: int|
            0 <= i < w.len() - 1 implies s.drop_first().take(w.len() - 1)[i] == w.drop_first()[i] by {
            assert(s.take(w.len() as int)[i + 1] == w[i + 1]);
        }
        assert(s.drop_first().take(w.len() - 1) =~= w.drop_first());
        lemma_prefix_lt_irrefl(s.drop_first(), w.drop_first());
    }
}

/// Rejected configurations.
#[derive(Debug, Clone, Copy, PartialEq, Eq, Structural)]
pub enum SelectionError {
    /// The pool holds more than 32 items, the width of a compatibility mask.
    PoolTooLarge,
    /// An allowed-pair entry names an item that is not in the pool.
    UnknownPairItem,
}

/// Index of the first occurrence of `x` in `items`, if any.
fn find_first(items: &Vec<u64>, x: u64) -> (r: Option<usize>)
    ensures
        match r {
            Some(i) => i < items@.len() && items@[i as int] == x && first_pos(items@, x)
                == i as int,
            None => first_pos(items@, x) == -1,
        },
{
    let mut i: usize = 0;
    while i < items.len()
        invariant
            i <= items.len(),
            forall|j: int| 0 <= j < i ==> items@[j] != x,
        decreases items.len() - i,
    {
        if items[i] == x {
            proof {
                lemma_first_pos(items@, x);
                let r = first_pos(items@, x);
                if r == -1 {
                    assert(items@[i as int] != x);
                } else {
                    if r < i {
                        assert(items@[r] != x);
                    }
                    if r > i {
                        assert(items@[i as int] != x);
                    }
                }
            }
            return Some(i);
        }
        i += 1;
    }
    proof {
        lemma_first_pos(items@, x);
        let r = first_pos(items@, x);
        if r != -1 {
            assert(items@[r] != x);
        }
    }
    None
}

fn clone_selection(v: &Vec<usize>) -> (r: Vec<usize>)
    ensures
        r@ == v@,
{
    let mut r: Vec<usize> = Vec::new();
    let mut i: usize = 0;
    while i < v.len()
        invariant
            i <= v.len(),
            r@ =~= v@.take(i as int),
        decreases v.len() - i,
    {
        r.push(v[i]);
        i += 1;
        proof {
            assert(v@.take(i as int) =~= v@.take(i - 1).push(v@[i - 1]));
        }
    }
    proof {
        assert(v@.take(v@.len() as int) =~= v@);
    }
    r
}


// ---------------------------------------------------------------------------
// Transition lemmas for the backtracking walk.
// ---------------------------------------------------------------------------

/// The compatibility masks agree with the allowed-pair relation.
spec fn masks_ok(allowed: Seq<u32>, items: Seq<u64>, pairs: Seq<(u64, u64)>) -> bool {
    &&& allowed.len() == items.len()
    &&& items.len() <= 32
    &&& forall|i: int, j: u32|
        0 <= i < allowed.len() && j < 32 ==> (#[trigger] bit32(allowed[i], j) <==> pair_allowed(
            items,
            pairs,
            i,
            j as int,
        ))
}

/// No valid selection extends `pfx` with `idx`: either the repetition cap is
/// already met, or some chosen item is not paired with `idx`.
proof fn lemma_no_extension(
    items: Seq<u64>,
    pairs: Seq<(u64, u64)>,
    allowed: Seq<u32>,
    n: nat,
    m: nat,
    m_eff: nat,
    mask: u32,
    pfx: Seq<usize>,
    idx: usize,
)
    requires
        masks_ok(allowed, items, pairs),
        m_eff == effective_cap(n, m),
        pfx.len() < n,
        idx < items.len(),
        forall|d: int| 0 <= d < pfx.len() ==> (#[trigger] pfx[d]) < allowed.len(),
        mask == and_mask(allowed, pfx),
        occurrences(pfx, idx) >= m_eff || !bit32(mask, idx as u32),
    ensures
        forall|s: Seq<usize>|
            valid_selection(s, items, pairs, n, m) ==> !(s.take(pfx.len() as int) == pfx && s[pfx.len() as int]
                == idx),
{
    let plen = pfx.len() as int;
    assert forall|s: Seq<usize>|
        valid_selection(s, items, pairs, n, m) implies !(s.take(plen) == pfx && s[plen]
        == idx) by {
        if s.take(plen) == pfx && s[plen] == idx {
            if occurrences(pfx, idx) >= m_eff {
                lemma_occurrences_take_step(s, plen, idx);
                lemma_occurrences_take_le(s, plen + 1, idx);
                assert(occurrences(s, idx) > m_eff);
            } else {
                lemma_and_mask_bit(allowed, pfx, idx as u32);
                let d = choose|d: int|
                    0 <= d < pfx.len() && !bit32(allowed[(#[trigger] pfx[d]) as int], idx as u32);
                assert(s.take(plen)[d] == s[d]);
                assert(pair_allowed(items, pairs, s[d] as int, s[plen] as int));
                assert(bit32(allowed[pfx[d] as int], idx as u32));
            }
        }
    }
}

/// Moving from candidate `idx` to `idx + 1` does not change the set of
/// selections the walk has passed, when no valid selection extends the
/// prefix with `idx`.
proof fn lemma_done_unchanged_step(
    items: Seq<u64>,
    pairs: Seq<(u64, u64)>,
    n: nat,
    m: nat,
    pfx: Seq<usize>,
    idx: usize,
    nidx: usize,
)
    requires
        pfx.len() < n,
        nidx == idx + 1,
        forall|s: Seq<usize>|
            valid_selection(s, items, pairs, n, m) ==> !(s.take(pfx.len() as int) == pfx && s[pfx.len() as int]
                == idx),
    ensures
        forall|s: Seq<usize>|
            valid_selection(s, items, pairs, n, m) ==> prefix_lt(s, pfx.push(nidx)) == prefix_lt(
                s,
                pfx.push(idx),
            ),
{
    assert forall|s: Seq<usize>|
        valid_selection(s, items, pairs, n, m) implies prefix_lt(s, pfx.push(nidx)) == prefix_lt(
        s,
        pfx.push(idx),
    ) by {
        lemma_prefix_lt_push(s, pfx, idx);
        lemma_prefix_lt_push(s, pfx, nidx);
    }
}

/// Descending one level keeps the passed set unchanged: a valid selection
/// whose next entry is below the just-chosen index would break canonical
/// order.
proof fn lemma_done_descend(
    items: Seq<u64>,
    pairs: Seq<(u64, u64)>,
    n: nat,
    m: nat,
    pfx: Seq<usize>,
    idx: usize,
)
    requires
        pfx.len() + 1 < n,
    ensures
        forall|s: Seq<usize>|
            valid_selection(s, items, pairs, n, m) ==> prefix_lt(s, pfx.push(idx).push(idx))
                == prefix_lt(s, pfx.push(idx)),
{
    let d = pfx.len() as int;
    assert forall|s: Seq<usize>|
        valid_selection(s, items, pairs, n, m) implies prefix_lt(s, pfx.push(idx).push(idx))
        == prefix_lt(s, pfx.push(idx)) by {
        lemma_prefix_lt_push(s, pfx.push(idx), idx);
        if s.take(d + 1) == pfx.push(idx) {
            assert(s.take(d + 1)[d] == s[d]);
            assert(s[d] == idx);
            assert(s[d] <= s[d + 1]);
        }
    }
}

/// Backtracking one level: giving up on the exhausted deepest candidate and
/// advancing the previous one passes exactly the same selections.
proof fn lemma_done_backtrack(
    items: Seq<u64>,
    pairs: Seq<(u64, u64)>,
    n: nat,
    m: nat,
    pfx_new: Seq<usize>,
    c: usize,
    pool_len: usize,
    nidx: usize,
)
    requires
        pfx_new.len() + 1 < n,
        items.len() == pool_len,
        nidx == c + 1,
    ensures
        forall|s: Seq<usize>|
            valid_selection(s, items, pairs, n, m) ==> prefix_lt(
                s,
                pfx_new.push(c).push(pool_len),
            ) == prefix_lt(s, pfx_new.push(nidx)),
{
    let d1 = pfx_new.len() as int;
    let pfx_old = pfx_new.push(c);
    assert forall|s: Seq<usize>|
        valid_selection(s, items, pairs, n, m) implies prefix_lt(s, pfx_old.push(pool_len))
        == prefix_lt(s, pfx_new.push(nidx)) by {
        lemma_prefix_lt_push(s, pfx_old, pool_len);
        lemma_prefix_lt_push(s, pfx_new, c);
        lemma_prefix_lt_push(s, pfx_new, nidx);
        assert(s[d1 + 1] < pool_len);
        if s.take(d1 + 1) == pfx_old {
            assert(s.take(d1 + 1)[d1] == s[d1]);
            assert forall|i2: int| 0 <= i2 < d1 implies s.take(d1)[i2] == pfx_new[i2] by {
                assert(s.take(d1 + 1)[i2] == s[i2]);
            }
            assert(s.take(d1) =~= pfx_new);
            assert(s[d1] == c);
        }
        if s.take(d1) == pfx_new && s[d1] == c {
            assert forall|i2: int| 0 <= i2 < d1 + 1 implies s.take(d1 + 1)[i2] == pfx_old[i2] by {
                if i2 < d1 {
                    assert(s.take(d1)[i2] == s[i2]);
                }
            }
            assert(s.take(d1 + 1) =~= pfx_old);
        }
    }
}

/// The selection emitted at the deepest level is valid.
proof fn lemma_emission_valid(
    items: Seq<u64>,
    pairs: Seq<(u64, u64)>,
    allowed: Seq<u32>,
    n: nat,
    m: nat,
    m_eff: nat,
    mask: u32,
    pfx: Seq<usize>,
    idx: usize,
    e0: usize,
)
    requires
        masks_ok(allowed, items, pairs),
        m_eff == effective_cap(n, m),
        m_eff >= 1,
        pfx.len() + 1 == n,
        forall|d: int| 0 <= d < pfx.len() ==> (#[trigger] pfx[d]) < items.len(),
        forall|d1: int, d2: int|
            0 <= d1 <= d2 < pfx.len() ==> #[trigger] pfx[d1] <= #[trigger] pfx[d2],
        forall|d1: int, d2: int|
            0 <= d1 < d2 < pfx.len() ==> bit32(
                allowed[(#[trigger] pfx[d1]) as int],
                (#[trigger] pfx[d2]) as u32,
            ),
        pfx.len() > 0 ==> e0 >= pfx.last(),
        e0 <= idx < items.len(),
        forall|x: usize| #[trigger] occurrences(pfx, x) <= m_eff,
        occurrences(pfx, e0) < m_eff,
        mask == and_mask(allowed, pfx),
        bit32(mask, idx as u32),
    ensures
        valid_selection(pfx.push(idx), items, pairs, n, m),
{
    let sview = pfx.push(idx);
    let d = pfx.len() as int;
    assert forall|p1: int, p2: int|
        0 <= p1 <= p2 < sview.len() implies #[trigger] sview[p1] <= #[trigger] sview[p2] by {
        if p2 == d && p1 < p2 {
            assert(pfx[p1] <= pfx.last());
        }
    }
    assert forall|x: usize| #[trigger] occurrences(sview, x) <= effective_cap(n, m) by {
        lemma_occurrences_push(pfx, idx, x);
        if x == idx {
            if idx == e0 {
            } else {
                assert forall|d2: int| 0 <= d2 < pfx.len() implies #[trigger] pfx[d2] != x by {
                    assert(pfx[d2] <= pfx[pfx.len() - 1]);
                }
                lemma_occurrences_absent(pfx, x);
                assert(occurrences(sview, x) == 1);
            }
        }
    }
    lemma_and_mask_bit(allowed, pfx, idx as u32);
    assert forall|p1: int, p2: int| 0 <= p1 < p2 < sview.len() implies #[trigger] pair_allowed(
        items,
        pairs,
        sview[p1] as int,
        sview[p2] as int,
    ) by {
        if p2 < d {
            assert(bit32(allowed[pfx[p1] as int], pfx[p2] as u32));
        } else {
            assert(bit32(allowed[pfx[p1] as int], idx as u32));
        }
    }
}

/// Recording a fresh emission extends the passed set by exactly that
/// selection.
proof fn lemma_done_emit(
    items: Seq<u64>,
    pairs: Seq<(u64, u64)>,
    n: nat,
    m: nat,
    pfx: Seq<usize>,
    idx: usize,
    nidx: usize,
    old_vs: Seq<Seq<usize>>,
    new_vs: Seq<Seq<usize>>,
)
    requires
        pfx.len() + 1 == n,
        nidx == idx + 1,
        new_vs == old_vs.push(pfx.push(idx)),
        valid_selection(pfx.push(idx), items, pairs, n, m),
        forall|s: Seq<usize>|
            valid_selection(s, items, pairs, n, m) ==> (old_vs.contains(s) <==> prefix_lt(
                s,
                pfx.push(idx),
            )),
    ensures
        !old_vs.contains(pfx.push(idx)),
        forall|s: Seq<usize>|
            valid_selection(s, items, pairs, n, m) ==> (new_vs.contains(s) <==> prefix_lt(
                s,
                pfx.push(nidx),
            )),
{
    let d = pfx.len() as int;
    let sview = pfx.push(idx);
    assert(sview.take(d) =~= pfx);
    lemma_prefix_lt_irrefl(sview, pfx);
    lemma_prefix_lt_push(sview, pfx, idx);
    assert(!prefix_lt(sview, pfx.push(idx)));
    assert(!old_vs.contains(sview));
    assert forall|s: Seq<usize>|
        valid_selection(s, items, pairs, n, m) implies (new_vs.contains(s) <==> prefix_lt(
        s,
        pfx.push(nidx),
    )) by {
        lemma_prefix_lt_push(s, pfx, idx);
        lemma_prefix_lt_push(s, pfx, nidx);
        if s == sview {
            assert(new_vs[new_vs.len() - 1] == sview);
            assert(new_vs.contains(sview));
            assert(s.take(d) == pfx && s[d] == idx);
        } else {
            assert(new_vs.contains(s) == old_vs.contains(s)) by {
                if new_vs.contains(s) {
                    let i2 = choose|i2: int| 0 <= i2 < new_vs.len() && new_vs[i2] == s;
                    assert(old_vs[i2] == s);
                }
                if old_vs.contains(s) {
                    let i2 = choose|i2: int| 0 <= i2 < old_vs.len() && old_vs[i2] == s;
                    assert(new_vs[i2] == s);
                }
            }
            if s.take(d) == pfx && s[d] == idx {
                assert(s =~= sview);
            }
        }
    }
}

/// Pairwise-distinct emission lists stay distinct when a fresh selection is
/// recorded.
proof fn lemma_distinct_push(vs: Seq<Seq<usize>>, x: Seq<usize>)
    requires
        forall|i: int, j: int| 0 <= i < j < vs.len() ==> vs[i] != vs[j],
        !vs.contains(x),
    ensures
        forall|i: int, j: int| 0 <= i < j < vs.push(x).len() ==> vs.push(x)[i] != vs.push(x)[j],
{
    assert forall|i: int, j: int|
        0 <= i < j < vs.push(x).len() implies vs.push(x)[i] != vs.push(x)[j] by {
        if j == vs.len() {
            assert(vs.push(x)[i] == vs[i]);
            if vs[i] == x {
                assert(vs.contains(x));
            }
        }
    }
}

/// When the walk has exhausted the root level, it has passed every valid
/// selection.
proof fn lemma_all_done_at_root(
    items: Seq<u64>,
    pairs: Seq<(u64, u64)>,
    n: nat,
    m: nat,
    pool_len: usize,
)
    requires
        n > 0,
        items.len() == pool_len,
    ensures
        forall|s: Seq<usize>|
            valid_selection(s, items, pairs, n, m) ==> prefix_lt(
                s,
                Seq::<usize>::empty().push(pool_len),
            ),
{
    assert forall|s: Seq<usize>|
        valid_selection(s, items, pairs, n, m) implies prefix_lt(
        s,
        Seq::<usize>::empty().push(pool_len),
    ) by {
        let w = Seq::<usize>::empty().push(pool_len);
        assert(w[0] == pool_len);
        assert(s[0] < pool_len);
    }
}

// ---------------------------------------------------------------------------
// Steps of the termination measure.
// ---------------------------------------------------------------------------

proof fn lemma_wv_step(pfx: Seq<usize>, b: int, n: int, x: usize, y: usize)
    requires
        b >= 2,
        x < y,
        pfx.len() <= n,
    ensures
        word_value(pfx.push(y), b, n) >= word_value(pfx.push(x), b, n) + 1,
{
    lemma_word_value_push(pfx, b, n, x);
    lemma_word_value_push(pfx, b, n, y);
    let q = pow_int(b, (n - pfx.len()) as nat);
    lemma_pow_pos(b, (n - pfx.len()) as nat);
    assert((y + 1) * q - (x + 1) * q == (y - x) * q) by (nonlinear_arith);
    assert((y - x) * q >= q) by (nonlinear_arith)
        requires
            y - x >= 1 && q >= 1,
    ;
}

proof fn lemma_wv_descend(pfx: Seq<usize>, b: int, n: int, idx: usize)
    requires
        b >= 2,
        pfx.len() + 1 <= n,
    ensures
        word_value(pfx.push(idx).push(idx), b, n) >= word_value(pfx.push(idx), b, n) + 1,
{
    lemma_word_value_push(pfx.push(idx), b, n, idx);
    let q = pow_int(b, (n - pfx.len() - 1) as nat);
    lemma_pow_pos(b, (n - pfx.len() - 1) as nat);
    assert((idx + 1) * q >= q) by (nonlinear_arith)
        requires
            idx + 1 >= 1 && q >= 1,
    ;
}

proof fn lemma_wv_backtrack(pfx_new: Seq<usize>, b: int, n: int, c: usize, pool_len: usize, nidx: usize)
    requires
        b == pool_len + 2,
        pfx_new.len() + 1 <= n,
        nidx == c + 1,
    ensures
        word_value(pfx_new.push(nidx), b, n) >= word_value(
            pfx_new.push(c).push(pool_len),
            b,
            n,
        ) + 1,
{
    lemma_word_value_push(pfx_new, b, n, c);
    lemma_word_value_push(pfx_new, b, n, nidx);
    lemma_word_value_push(pfx_new.push(c), b, n, pool_len);
    let d1 = pfx_new.len() as int;
    let q = pow_int(b, (n - d1 - 1) as nat);
    lemma_pow_pos(b, (n - d1 - 1) as nat);
    assert(((n - d1) as nat - 1) as nat == (n - d1 - 1) as nat);
    assert(pow_int(b, (n - d1) as nat) == b * q);
    assert((c + 2) * (b * q) - (c + 1) * (b * q) == b * q) by (nonlinear_arith);
    assert((pool_len + 1) * q == b * q - q) by (nonlinear_arith)
        requires
            b == pool_len + 2,
    ;
}

/// The measure of any reachable state lies below the fixed bound.
proof fn lemma_wv_bounded(w: Seq<usize>, b: int, n: int)
    requires
        b >= 2,
        1 <= w.len() <= n + 1,
        forall|d: int| 0 <= d < w.len() ==> #[trigger] w[d] + 1 < b,
    ensures
        0 <= word_value(w, b, n) <= pow_int(b, (n + 1) as nat) - 1,
{
    lemma_word_value_bound(w, b, n);
    lemma_pow_pos(b, (n + 1 - w.len()) as nat);
}

// ---------------------------------------------------------------------------
// Mask construction.
// ---------------------------------------------------------------------------

/// Build the per-item compatibility masks from the allowed-pair list.
fn build_masks(items: &Vec<u64>, allowed_pairs: &Vec<(u64, u64)>) -> (r: Result<
    Vec<u32>,
    SelectionError,
>)
    requires
        items@.len() <= 32,
    ensures
        match r {
            Ok(allowed) => {
                &&& masks_ok(allowed@, items@, allowed_pairs@)
                &&& forall|p: int|
                    0 <= p < allowed_pairs@.len() ==> (first_pos(
                        items@,
                        #[trigger] allowed_pairs@[p].0,
                    ) >= 0 && first_pos(items@, allowed_pairs@[p].1) >= 0)
            },
            Err(e) => e == SelectionError::UnknownPairItem && exists|p: int|
                0 <= p < allowed_pairs@.len() && (first_pos(items@, #[trigger] allowed_pairs@[p].0)
                    < 0 || first_pos(items@, allowed_pairs@[p].1) < 0),
        },
{
    let pool_len = items.len();
    let mut allowed: Vec<u32> = filled_u32_vec(pool_len);
    proof {
        assert(allowed_pairs@.take(0) =~= Seq::<(u64, u64)>::empty());
        assert forall|i: int, j: u32| 0 <= i < pool_len && j < 32 implies !(#[trigger] bit32(
            allowed@[i],
            j,
        )) by {
            lemma_bit_zero(j);
        }
    }
    let mut p: usize = 0;
    while p < allowed_pairs.len()
        invariant
            p <= allowed_pairs.len(),
            items@.len() == pool_len <= 32,
            allowed@.len() == pool_len,
            forall|p2: int|
                0 <= p2 < p ==> (first_pos(items@, #[trigger] allowed_pairs@[p2].0) >= 0
                    && first_pos(items@, allowed_pairs@[p2].1) >= 0),
            forall|i: int, j: u32|
                0 <= i < pool_len && j < 32 ==> (#[trigger] bit32(allowed@[i], j) <==> pair_allowed(
                    items@,
                    allowed_pairs@.take(p as int),
                    i,
                    j as int,
                )),
        decreases allowed_pairs.len() - p,
    {
        let pr = allowed_pairs[p];
        let a_idx = match find_first(items, pr.0) {
            Some(i) => i,
            None => {
                return Err(SelectionError::UnknownPairItem);
            },
        };
        let b_idx = match find_first(items, pr.1) {
            Some(i) => i,
            None => {
                return Err(SelectionError::UnknownPairItem);
            },
        };
        let ghost old_allowed = allowed@;
        let cur_a = allowed[a_idx];
        allowed.set(a_idx, cur_a | (1u32 << (b_idx as u32)));
        let cur_b = allowed[b_idx];
        allowed.set(b_idx, cur_b | (1u32 << (a_idx as u32)));
        p += 1;
        proof {
            let pp = (p - 1) as int;
            assert(allowed_pairs@.take(pp + 1) =~= allowed_pairs@.take(pp).push(
                allowed_pairs@[pp],
            ));
            assert(allowed_pairs@.take(pp + 1)[pp] == allowed_pairs@[pp]);
            assert(allowed_pairs@[pp] == pr);
            assert forall|i: int, j: u32| 0 <= i < pool_len && j < 32 implies (#[trigger] bit32(
                allowed@[i],
                j,
            ) <==> pair_allowed(items@, allowed_pairs@.take(p as int), i, j as int)) by {
                let prev = allowed_pairs@.take(pp);
                let now = allowed_pairs@.take(pp + 1);
                // how this row changed
                if i == a_idx as int && i == b_idx as int {
                    lemma_bit_or_shl(old_allowed[i] | (1u32 << (b_idx as u32)), a_idx as u32, j);
                    lemma_bit_or_shl(old_allowed[i], b_idx as u32, j);
                    assert(bit32(allowed@[i], j) == (bit32(old_allowed[i], j) || j == a_idx as u32
                        || j == b_idx as u32));
                } else if i == b_idx as int {
                    lemma_bit_or_shl(old_allowed[i], a_idx as u32, j);
                    assert(bit32(allowed@[i], j) == (bit32(old_allowed[i], j) || j
                        == a_idx as u32));
                } else if i == a_idx as int {
                    lemma_bit_or_shl(old_allowed[i], b_idx as u32, j);
                    assert(bit32(allowed@[i], j) == (bit32(old_allowed[i], j) || j
                        == b_idx as u32));
                } else {
                    assert(allowed@[i] == old_allowed[i]);
                }
                // the new pair sets exactly the two mirrored bits
                if (i == a_idx as int && j == b_idx as u32) || (i == b_idx as int && j
                    == a_idx as u32) {
                    assert(0 <= pp < now.len() && ((first_pos(items@, now[pp].0) == i && first_pos(
                        items@,
                        now[pp].1,
                    ) == j as int) || (first_pos(items@, now[pp].0) == j as int && first_pos(
                        items@,
                        now[pp].1,
                    ) == i)));
                    assert(pair_allowed(items@, now, i, j as int));
                }
                if pair_allowed(items@, now, i, j as int) {
                    let w = choose|w: int|
                        0 <= w < now.len() && ((first_pos(items@, now[w].0) == i && first_pos(
                            items@,
                            now[w].1,
                        ) == j as int) || (first_pos(items@, now[w].0) == j as int && first_pos(
                            items@,
                            now[w].1,
                        ) == i));
                    if w < pp {
                        assert(prev[w] == now[w]);
                        assert(pair_allowed(items@, prev, i, j as int));
                    } else {
                        assert(now[w] == pr);
                        assert((i == a_idx as int && j == b_idx as u32) || (i == b_idx as int && j
                            == a_idx as u32));
                    }
                }
                if pair_allowed(items@, prev, i, j as int) {
                    let w = choose|w: int|
                        0 <= w < prev.len() && ((first_pos(items@, prev[w].0) == i && first_pos(
                            items@,
                            prev[w].1,
                        ) == j as int) || (first_pos(items@, prev[w].0) == j as int && first_pos(
                            items@,
                            prev[w].1,
                        ) == i));
                    assert(now[w] == prev[w]);
                    assert(pair_allowed(items@, now, i, j as int));
                }
            }
        }
    }
    proof {
        assert(allowed_pairs@.take(allowed_pairs@.len() as int) =~= allowed_pairs@);
    }
    Ok(allowed)
}

fn filled_usize_vec(len: usize) -> (v: Vec<usize>)
    ensures
        v@.len() == len,
        forall|i: int| 0 <= i < len ==> v@[i] == 0usize,
{
    let mut v: Vec<usize> = Vec::new();
    let mut z: usize = 0;
    while z < len
        invariant
            z <= len,
            v@.len() == z,
            forall|i: int| 0 <= i < z ==> v@[i] == 0usize,
        decreases len - z,
    {
        v.push(0);
        z += 1;
    }
    v
}

fn filled_u32_vec(len: usize) -> (v: Vec<u32>)
    ensures
        v@.len() == len,
        forall|i: int| 0 <= i < len ==> v@[i] == 0u32,
{
    let mut v: Vec<u32> = Vec::new();
    let mut z: usize = 0;
    while z < len
        invariant
            z <= len,
            v@.len() == z,
            forall|i: int| 0 <= i < z ==> v@[i] == 0u32,
        decreases len - z,
    {
        v.push(0u32);
        z += 1;
    }
    v
}


/// Emit every qualifying combination of `n` pool indices: non-decreasing,
/// no index repeated beyond the effective cap, all positions pairwise backed
/// by `allowed_pairs`.  The result lists each such combination exactly once.
#[verifier::loop_isolation(false)]
#[verifier::rlimit(100)]
pub fn unique_selections_from_pairs(
    items: &Vec<u64>,
    allowed_pairs: &Vec<(u64, u64)>,
    n: usize,
    m: usize,
) -> (result: Result<Vec<Vec<usize>>, SelectionError>)
    ensures
        (result is Ok) <==> (n == 0 || (items@.len() <= 32 && forall|p: int|
            0 <= p < allowed_pairs@.len() ==> (first_pos(items@, #[trigger] allowed_pairs@[p].0)
                >= 0 && first_pos(items@, allowed_pairs@[p].1) >= 0))),
        match result {
            Ok(sels) => {
                &&& forall|i: int|
                    0 <= i < sel_views(sels@).len() ==> valid_selection(
                        #[trigger] sel_views(sels@)[i],
                        items@,
                        allowed_pairs@,
                        n as nat,
                        m as nat,
                    )
                &&& forall|s: Seq<usize>|
                    valid_selection(s, items@, allowed_pairs@, n as nat, m as nat)
                        ==> sel_views(sels@).contains(s)
                &&& forall|i: int, j: int|
                    0 <= i < j < sel_views(sels@).len() ==> sel_views(sels@)[i] != sel_views(
                        sels@,
                    )[j]
                &&& n == 0 ==> sel_views(sels@) =~= seq![Seq::<usize>::empty()]
            },
            Err(SelectionError::PoolTooLarge) => n > 0 && items@.len() > 32,
            Err(SelectionError::UnknownPairItem) => n > 0 && items@.len() <= 32 && exists|p: int|
                0 <= p < allowed_pairs@.len() && (first_pos(items@, #[trigger] allowed_pairs@[p].0)
                    < 0 || first_pos(items@, allowed_pairs@[p].1) < 0),
        },
{
    let pool_len = items.len();

    if n == 0 {
        let mut out: Vec<Vec<usize>> = Vec::new();
        out.push(Vec::new());
        proof {
            assert(sel_views(out@) =~= seq![Seq::<usize>::empty()]);
            assert forall|s: Seq<usize>|
                valid_selection(s, items@, allowed_pairs@, n as nat, m as nat) implies sel_views(
                out@,
            ).contains(s) by {
                assert(s =~= Seq::<usize>::empty());
                assert(sel_views(out@)[0] == Seq::<usize>::empty());
            }
            assert forall|i: int|
                0 <= i < sel_views(out@).len() implies valid_selection(
                #[trigger] sel_views(out@)[i],
                items@,
                allowed_pairs@,
                n as nat,
                m as nat,
            ) by {
                assert(sel_views(out@)[i] == Seq::<usize>::empty());
                assert forall|x: usize| #[trigger] occurrences(Seq::<usize>::empty(), x)
                    <= effective_cap(n as nat, m as nat) by {}
            }
        }
        return Ok(out);
    }

    if pool_len > 32 {
        return Err(SelectionError::PoolTooLarge);
    }

    let m_eff: usize = if m == 0 || m > n {
        n
    } else {
        m
    };
    proof {
        assert(m_eff as nat == effective_cap(n as nat, m as nat));
    }

    let allowed = match build_masks(items, allowed_pairs) {
        Ok(a) => a,
        Err(e) => {
            return Err(e);
        },
    };

    let n_last = n - 1;
    let mut count: Vec<usize> = filled_usize_vec(n);
    let mut solution: Vec<usize> = filled_usize_vec(n);
    let mut item_count: Vec<usize> = filled_usize_vec(pool_len);
    let mut allowed_mask: Vec<u32> = filled_u32_vec(n);
    allowed_mask.set(0, u32::MAX);
    let mut mask: u32 = u32::MAX;
    let mut depth: usize = 0;
    let mut idx: usize = 0;
    let mut results: Vec<Vec<usize>> = Vec::new();

    let ghost bb: int = pool_len as int + 2;
    let ghost nn: int = n as int;
    let ghost mut v0: int = 0;

    proof {
        assert(count@.take(0) =~= Seq::<usize>::empty());
        assert(and_mask(allowed@, Seq::<usize>::empty()) == u32::MAX);
        assert forall|x: usize| #[trigger] occurrences(count@.take(0), x) <= m_eff by {
            assert(occurrences(Seq::<usize>::empty(), x) == 0);
        }
        assert forall|s: Seq<usize>|
            valid_selection(s, items@, allowed_pairs@, n as nat, m as nat) implies (sel_views(
            results@,
        ).contains(s) <==> prefix_lt(s, count@.take(0).push(0usize))) by {
            lemma_prefix_lt_push(s, Seq::<usize>::empty(), 0usize);
            assert(!prefix_lt(s, Seq::<usize>::empty().push(0usize)));
            assert(sel_views(results@).len() == 0);
        }
    }

    loop
        invariant
            depth < n,
            idx <= pool_len,
            count@.len() == n,
            allowed_mask@.len() == n,
            solution@.len() == n,
            item_count@.len() == pool_len,
            forall|d: int| 0 <= d < depth ==> #[trigger] count@[d] < pool_len,
            forall|d1: int, d2: int|
                0 <= d1 <= d2 < depth ==> #[trigger] count@[d1] <= #[trigger] count@[d2],
            depth > 0 ==> idx >= count@[depth - 1],
            forall|x: usize|
                x < pool_len ==> item_count@[x as int] == occurrences(
                    count@.take(depth as int),
                    x,
                ),
            forall|x: usize| #[trigger] occurrences(count@.take(depth as int), x) <= m_eff,
            mask == and_mask(allowed@, count@.take(depth as int)),
            forall|d: int|
                0 <= d <= depth ==> #[trigger] allowed_mask@[d] == and_mask(
                    allowed@,
                    count@.take(d),
                ),
            forall|d1: int, d2: int|
                0 <= d1 < d2 < depth ==> bit32(
                    allowed@[#[trigger] count@[d1] as int],
                    #[trigger] count@[d2] as u32,
                ),
            forall|d: int| 0 <= d < depth ==> #[trigger] solution@[d] == count@[d],
            forall|i: int|
                0 <= i < sel_views(results@).len() ==> valid_selection(
                    #[trigger] sel_views(results@)[i],
                    items@,
                    allowed_pairs@,
                    n as nat,
                    m as nat,
                ),
            forall|s: Seq<usize>|
                valid_selection(s, items@, allowed_pairs@, n as nat, m as nat) ==> (sel_views(
                    results@,
                ).contains(s) <==> prefix_lt(s, count@.take(depth as int).push(idx))),
            forall|i: int, j: int|
                0 <= i < j < sel_views(results@).len() ==> sel_views(results@)[i] != sel_views(
                    results@,
                )[j],
        decreases pow_int(bb, (nn + 1) as nat) - word_value(
            count@.take(depth as int).push(idx),
            bb,
            nn,
        ),
    {
        let ghost count_before = count@;
        count.set(depth, idx);
        proof {
            assert forall|d: int| 0 <= d <= depth implies count@.take(d) == count_before.take(
                d,
            ) by {
                assert(count@.take(d) =~= count_before.take(d));
            }
            v0 = word_value(count@.take(depth as int).push(idx), bb, nn);
        }

        while idx == pool_len
            invariant
                depth < n,
                idx <= pool_len,
                count@.len() == n,
                item_count@.len() == pool_len,
                count@[depth as int] == idx,
                forall|d: int| 0 <= d < depth ==> #[trigger] count@[d] < pool_len,
                forall|d1: int, d2: int|
                    0 <= d1 <= d2 < depth ==> #[trigger] count@[d1] <= #[trigger] count@[d2],
                depth > 0 ==> idx >= count@[depth - 1],
                forall|x: usize|
                    x < pool_len ==> item_count@[x as int] == occurrences(
                        count@.take(depth as int),
                        x,
                    ),
                forall|x: usize| #[trigger] occurrences(count@.take(depth as int), x) <= m_eff,
                mask == and_mask(allowed@, count@.take(depth as int)),
                forall|d: int|
                    0 <= d <= depth ==> #[trigger] allowed_mask@[d] == and_mask(
                        allowed@,
                        count@.take(d),
                    ),
                forall|d1: int, d2: int|
                    0 <= d1 < d2 < depth ==> bit32(
                        allowed@[#[trigger] count@[d1] as int],
                        #[trigger] count@[d2] as u32,
                    ),
                forall|d: int| 0 <= d < depth ==> #[trigger] solution@[d] == count@[d],
                forall|s: Seq<usize>|
                    valid_selection(s, items@, allowed_pairs@, n as nat, m as nat) ==> (sel_views(
                        results@,
                    ).contains(s) <==> prefix_lt(s, count@.take(depth as int).push(idx))),
                word_value(count@.take(depth as int).push(idx), bb, nn) >= v0,
            decreases pow_int(bb, (nn + 1) as nat) - word_value(
                count@.take(depth as int).push(idx),
                bb,
                nn,
            ),
        {
            if depth > 0 {
                let ghost old_count = count@;
                let ghost pfx_old = count@.take(depth as int);
                depth -= 1;
                idx = count[depth];
                let ghost c = idx as usize;
                let ic = item_count[idx];
                proof {
                    let pfx_new = count@.take(depth as int);
                    assert(pfx_old =~= pfx_new.push(c));
                    lemma_occurrences_push(pfx_new, c, c);
                    assert(ic >= 1);
                }
                item_count.set(idx, ic - 1);
                idx += 1;
                count.set(depth, idx);
                mask = allowed_mask[depth];
                proof {
                    let pfx_new = count@.take(depth as int);
                    assert forall|d: int| 0 <= d <= depth implies count@.take(d) == old_count.take(
                        d,
                    ) by {
                        assert(count@.take(d) =~= old_count.take(d));
                    }
                    assert(pfx_old =~= pfx_new.push(c));
                    assert forall|x: usize| x < pool_len implies item_count@[x as int]
                        == occurrences(pfx_new, x) by {
                        lemma_occurrences_push(pfx_new, c, x);
                    }
                    assert forall|x: usize| #[trigger] occurrences(pfx_new, x) <= m_eff by {
                        lemma_occurrences_push(pfx_new, c, x);
                        assert(occurrences(pfx_old, x) <= m_eff);
                    }
                    lemma_done_backtrack(
                        items@,
                        allowed_pairs@,
                        n as nat,
                        m as nat,
                        pfx_new,
                        c,
                        pool_len,
                        idx,
                    );
                    lemma_wv_backtrack(pfx_new, bb, nn, c, pool_len, idx);
                    assert forall|d: int|
                        0 <= d < pfx_new.push(idx).len() implies #[trigger] pfx_new.push(idx)[d] + 1
                        < bb by {
                        if d < depth {
                            assert(pfx_new[d] == count@[d]);
                        }
                    }
                    lemma_wv_bounded(pfx_new.push(idx), bb, nn);
                }
            } else {
                proof {
                    lemma_all_done_at_root(items@, allowed_pairs@, n as nat, m as nat, pool_len);
                    assert(count@.take(0) =~= Seq::<usize>::empty());
                    assert forall|s: Seq<usize>|
                        valid_selection(s, items@, allowed_pairs@, n as nat, m as nat) implies
                    sel_views(results@).contains(s) by {
                        assert(prefix_lt(s, Seq::<usize>::empty().push(pool_len)));
                    }
                }
                return Ok(results);
            }
        }

        // idx < pool_len from here on
        let test_count = item_count[idx];
        let test_bit = mask & (1u32 << (idx as u32));
        proof {
            lemma_mask_test(mask, idx as u32);
        }
        if test_count == m_eff || test_bit == 0 {
            proof {
                let pfx = count@.take(depth as int);
                lemma_no_extension(
                    items@,
                    allowed_pairs@,
                    allowed@,
                    n as nat,
                    m as nat,
                    m_eff as nat,
                    mask,
                    pfx,
                    idx,
                );
                lemma_done_unchanged_step(
                    items@,
                    allowed_pairs@,
                    n as nat,
                    m as nat,
                    pfx,
                    idx,
                    (idx + 1) as usize,
                );
                lemma_wv_step(pfx, bb, nn, idx, (idx + 1) as usize);
                assert forall|d: int|
                    0 <= d < pfx.push((idx + 1) as usize).len() implies #[trigger] pfx.push(
                    (idx + 1) as usize,
                )[d] + 1 < bb by {
                    if d < depth {
                        assert(pfx[d] == count@[d]);
                    }
                }
                lemma_wv_bounded(pfx.push((idx + 1) as usize), bb, nn);
            }
            idx += 1;
            continue ;
        }

        if depth == n_last {
            let ghost pfx = count@.take(depth as int);
            let ghost e0 = idx as usize;
            proof {
                assert(occurrences(pfx, e0) < m_eff);
            }
            while idx < pool_len
                invariant
                    depth == n_last,
                    e0 <= idx <= pool_len,
                    e0 < pool_len,
                    pfx == count@.take(depth as int),
                    solution@.len() == n,
                    depth > 0 ==> e0 >= count@[depth - 1],
                    occurrences(pfx, e0) < m_eff,
                    forall|d: int| 0 <= d < depth ==> #[trigger] solution@[d] == count@[d],
                    forall|i: int|
                        0 <= i < sel_views(results@).len() ==> valid_selection(
                            #[trigger] sel_views(results@)[i],
                            items@,
                            allowed_pairs@,
                            n as nat,
                            m as nat,
                        ),
                    forall|s: Seq<usize>|
                        valid_selection(s, items@, allowed_pairs@, n as nat, m as nat) ==> (
                        sel_views(results@).contains(s) <==> prefix_lt(s, pfx.push(idx))),
                    forall|i: int, j: int|
                        0 <= i < j < sel_views(results@).len() ==> sel_views(results@)[i]
                            != sel_views(results@)[j],
                decreases pool_len - idx,
            {
                let test_bit2 = mask & (1u32 << (idx as u32));
                proof {
                    lemma_mask_test(mask, idx as u32);
                }
                if test_bit2 != 0 {
                    solution.set(depth, idx);
                    let sel = clone_selection(&solution);
                    proof {
                        assert(sel@ =~= pfx.push(idx)) by {
                            assert(forall|d: int|
                                0 <= d < depth ==> solution@[d] == #[trigger] pfx[d]);
                            assert(solution@[depth as int] == idx);
                        }
                        assert forall|d1: int, d2: int|
                            0 <= d1 < d2 < pfx.len() implies bit32(
                            allowed@[(#[trigger] pfx[d1]) as int],
                            (#[trigger] pfx[d2]) as u32,
                        ) by {
                            assert(pfx[d1] == count@[d1]);
                            assert(pfx[d2] == count@[d2]);
                        }
                        lemma_emission_valid(
                            items@,
                            allowed_pairs@,
                            allowed@,
                            n as nat,
                            m as nat,
                            m_eff as nat,
                            mask,
                            pfx,
                            idx,
                            e0,
                        );
                        lemma_sel_views_push(results@, sel);
                    }
                    let ghost old_vs = sel_views(results@);
                    results.push(sel);
                    proof {
                        assert(sel_views(results@) =~= old_vs.push(pfx.push(idx)));
                        lemma_done_emit(
                            items@,
                            allowed_pairs@,
                            n as nat,
                            m as nat,
                            pfx,
                            idx,
                            (idx + 1) as usize,
                            old_vs,
                            sel_views(results@),
                        );
                        lemma_distinct_push(old_vs, pfx.push(idx));
                    }
                } else {
                    proof {
                        lemma_no_extension(
                            items@,
                            allowed_pairs@,
                            allowed@,
                            n as nat,
                            m as nat,
                            m_eff as nat,
                            mask,
                            pfx,
                            idx,
                        );
                        lemma_done_unchanged_step(
                            items@,
                            allowed_pairs@,
                            n as nat,
                            m as nat,
                            pfx,
                            idx,
                            (idx + 1) as usize,
                        );
                    }
                }
                idx += 1;
            }
            proof {
                lemma_wv_step(pfx, bb, nn, e0, pool_len);
                assert forall|d: int|
                    0 <= d < pfx.push(pool_len).len() implies #[trigger] pfx.push(pool_len)[d] + 1
                    < bb by {
                    if d < depth {
                        assert(pfx[d] == count@[d]);
                    }
                }
                lemma_wv_bounded(pfx.push(pool_len), bb, nn);
                assert(word_value(count@.take(depth as int).push(idx), bb, nn) >= v0 + 1);
            }
            continue ;
        }

        // descend one level
        let ghost pfx = count@.take(depth as int);
        mask = mask & allowed[idx];
        let ic2 = item_count[idx];
        proof {
            assert(occurrences(pfx, idx) < m_eff);
        }
        item_count.set(idx, ic2 + 1);
        solution.set(depth, idx);
        depth += 1;
        allowed_mask.set(depth, mask);
        proof {
            let pfx_new = count@.take(depth as int);
            assert(pfx_new =~= pfx.push(idx));
            lemma_and_mask_push(allowed@, pfx, idx);
            assert forall|x: usize| x < pool_len implies item_count@[x as int] == occurrences(
                pfx_new,
                x,
            ) by {
                lemma_occurrences_push(pfx, idx, x);
            }
            assert forall|x: usize| #[trigger] occurrences(pfx_new, x) <= m_eff by {
                lemma_occurrences_push(pfx, idx, x);
            }
            lemma_and_mask_bit(allowed@, pfx, idx as u32);
            assert forall|d1: int, d2: int| 0 <= d1 < d2 < depth implies bit32(
                allowed@[#[trigger] count@[d1] as int],
                #[trigger] count@[d2] as u32,
            ) by {
                if d2 == depth - 1 {
                    assert(pfx[d1] == count@[d1]);
                    assert(count@[d2] == idx);
                    assert(bit32(allowed@[pfx[d1] as int], idx as u32));
                }
            }
            lemma_done_descend(items@, allowed_pairs@, n as nat, m as nat, pfx, idx);
            lemma_wv_descend(pfx, bb, nn, idx);
            assert forall|d: int|
                0 <= d < pfx_new.push(idx).len() implies #[trigger] pfx_new.push(idx)[d] + 1
                < bb by {
                if d < depth {
                    assert(pfx_new[d] == count@[d]);
                }
            }
            lemma_wv_bounded(pfx_new.push(idx), bb, nn);
        }
    }
}

} // verus!

