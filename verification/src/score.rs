//! Scores, and the merge of per-segment answers into one ranking.
//!
//! A score is a single-precision number. This library only orders scores, so it
//! holds each one by its IEEE-754 bit pattern: below the sign bit the pattern
//! counts upwards with the magnitude, so the signed magnitude is an integer that
//! orders two numbers exactly as the numbers themselves are ordered.
use vstd::arithmetic::power2::{
    lemma_pow2_pos, lemma_pow2_strictly_increases, lemma_pow2_unfold, pow2,
};
use vstd::prelude::*;
use vstd::seq_lib::*;

verus! {

/// One answer of a search: an external id and the bit pattern of its score.
pub type Hit = (u64, u32);

/// Whether a bit pattern stands for no number.
pub open spec fn is_nan(bits: u32) -> bool {
    0x7F80_0000 < bits < 0x8000_0000 || 0xFF80_0000 < bits
}

/// The integer that orders a score: its signed magnitude. Both zeroes are 0.
pub open spec fn rank_of(bits: u32) -> int {
    if bits < 0x8000_0000 {
        bits as int
    } else {
        0x8000_0000 - bits
    }
}

/// Whether score `a` is a greater number than score `b`. No number is greater
/// than a NaN, nor the other way round.
pub open spec fn outranks(a: u32, b: u32) -> bool {
    !is_nan(a) && !is_nan(b) && rank_of(a) > rank_of(b)
}

/// Every score in the list is a number.
pub open spec fn all_numbers(hits: Seq<Hit>) -> bool {
    forall|i: int| 0 <= i < hits.len() ==> !is_nan((#[trigger] hits[i]).1)
}

/// The list runs from the best score to the worst.
pub open spec fn descending(hits: Seq<Hit>) -> bool {
    forall|i: int, j: int|
        0 <= i <= j < hits.len() ==> rank_of((#[trigger] hits[i]).1) >= rank_of(
            (#[trigger] hits[j]).1,
        )
}

/// `ordered` holds the same hits as `hits`, each as often, and where every score
/// is a number it runs from best to worst. Hits with equal scores may stand in
/// either order.
pub open spec fn is_ranking(hits: Seq<Hit>, ordered: Seq<Hit>) -> bool {
    &&& ordered.to_multiset() == hits.to_multiset()
    &&& all_numbers(hits) ==> descending(ordered)
}

/// `best` is the first `k` hits of a ranking of `hits`, or all of it where there
/// are fewer.
pub open spec fn is_best(hits: Seq<Hit>, k: nat, best: Seq<Hit>) -> bool {
    exists|ordered: Seq<Hit>|
        #[trigger] is_ranking(hits, ordered) && best == ordered.take(
            if k < ordered.len() {
                k as int
            } else {
                ordered.len() as int
            },
        )
}

/// Whether score `a` is greater than score `b`.
pub fn beats(a: u32, b: u32) -> (r: bool)
    ensures
        r == outranks(a, b),
        r == (is_number(a) && is_number(b) && value_of(a) > value_of(b)),
{
    proof {
        law_ranking_is_the_order_of_the_numbers(a, b);
    }
    let a_nan: bool = (0x7F80_0000 < a && a < 0x8000_0000) || 0xFF80_0000 < a;
    let b_nan: bool = (0x7F80_0000 < b && b < 0x8000_0000) || 0xFF80_0000 < b;
    if a_nan || b_nan {
        return false;
    }
    let ra: i64 = if a < 0x8000_0000 {
        a as i64
    } else {
        0x8000_0000 - a as i64
    };
    let rb: i64 = if b < 0x8000_0000 {
        b as i64
    } else {
        0x8000_0000 - b as i64
    };
    ra > rb
}

/// Every hit of `hits` scores at least as high as `h`.
spec fn all_at_least(hits: Seq<Hit>, h: Hit) -> bool {
    forall|i: int| 0 <= i < hits.len() ==> rank_of((#[trigger] hits[i]).1) >= rank_of(h.1)
}

proof fn lemma_same_hits_same_numbers(a: Seq<Hit>, b: Seq<Hit>)
    requires
        a.to_multiset() == b.to_multiset(),
        all_numbers(a),
    ensures
        all_numbers(b),
{
    broadcast use group_to_multiset_ensures;

    assert forall|i: int| 0 <= i < b.len() implies !is_nan((#[trigger] b[i]).1) by {
        assert(b.contains(b[i]));
        assert(b.to_multiset().count(b[i]) > 0);
        assert(a.contains(b[i]));
    }
}

/// Merge two rankings into one.
fn merge(a: &Vec<Hit>, b: &Vec<Hit>) -> (out: Vec<Hit>)
    requires
        all_numbers(a@ + b@) ==> descending(a@) && descending(b@),
    ensures
        is_ranking(a@ + b@, out@),
{
    let mut out: Vec<Hit> = Vec::with_capacity(a.len());
    let mut i: usize = 0;
    let mut j: usize = 0;
    let ghost numbers: bool = all_numbers(a@ + b@);
    proof {
        assert(a@.take(0) =~= Seq::empty());
        assert(b@.take(0) =~= Seq::empty());
        lemma_multiset_commutative(a@.take(0), b@.take(0));
        assert(a@.take(0) + b@.take(0) =~= Seq::empty());
    }
    while i < a.len() || j < b.len()
        invariant
            i <= a.len(),
            j <= b.len(),
            numbers == all_numbers(a@ + b@),
            numbers ==> descending(a@) && descending(b@),
            out@.to_multiset() == a@.take(i as int).to_multiset().add(
                b@.take(j as int).to_multiset(),
            ),
            numbers ==> descending(out@),
            numbers && i < a.len() ==> all_at_least(out@, a@[i as int]),
            numbers && j < b.len() ==> all_at_least(out@, b@[j as int]),
        decreases a.len() - i + b.len() - j,
    {
        broadcast use group_to_multiset_ensures;

        let from_b: bool = i == a.len() || (j < b.len() && beats(b[j].1, a[i].1));
        if from_b {
            proof {
                assert(b@.take(j + 1) =~= b@.take(j as int).push(b@[j as int]));
                if numbers && i < a.len() {
                    assert((a@ + b@)[i as int] == a@[i as int]);
                    assert((a@ + b@)[a.len() + j] == b@[j as int]);
                }
            }
            out.push(b[j]);
            j += 1;
        } else {
            proof {
                assert(a@.take(i + 1) =~= a@.take(i as int).push(a@[i as int]));
                if numbers && j < b.len() {
                    assert((a@ + b@)[i as int] == a@[i as int]);
                    assert((a@ + b@)[a.len() + j] == b@[j as int]);
                }
            }
            out.push(a[i]);
            i += 1;
        }
    }
    proof {
        assert(a@.take(i as int) =~= a@);
        assert(b@.take(j as int) =~= b@);
        lemma_multiset_commutative(a@, b@);
    }
    out
}

/// Rank the hits, best first.
fn rank(hits: Vec<Hit>) -> (ordered: Vec<Hit>)
    ensures
        is_ranking(hits@, ordered@),
    decreases hits.len(),
{
    if hits.len() <= 1 {
        return hits;
    }
    let mut left: Vec<Hit> = hits;
    let ghost whole: Seq<Hit> = left@;
    let mid: usize = left.len() / 2;
    let right: Vec<Hit> = left.split_off(mid);
    assert(whole =~= left@ + right@);
    let ghost (l, r) = (left@, right@);
    let left: Vec<Hit> = rank(left);
    let right: Vec<Hit> = rank(right);
    proof {
        lemma_multiset_commutative(l, r);
        lemma_multiset_commutative(left@, right@);
        if all_numbers(left@ + right@) {
            lemma_same_hits_same_numbers(left@ + right@, whole);
            assert forall|i: int| 0 <= i < l.len() implies !is_nan((#[trigger] l[i]).1) by {
                assert(whole[i] == l[i]);
            }
            assert forall|i: int| 0 <= i < r.len() implies !is_nan((#[trigger] r[i]).1) by {
                assert(whole[l.len() + i] == r[i]);
            }
        }
    }
    let ordered: Vec<Hit> = merge(&left, &right);
    proof {
        if all_numbers(whole) {
            lemma_same_hits_same_numbers(whole, left@ + right@);
        }
    }
    ordered
}

/// The `k` best hits, best first: globally rank the hits of all segments and
/// keep the first `k`.
pub fn best(hits: Vec<Hit>, k: usize) -> (top: Vec<Hit>)
    ensures
        is_best(hits@, k as nat, top@),
{
    let mut top: Vec<Hit> = rank(hits);
    let ghost ordered: Seq<Hit> = top@;
    assert(is_ranking(hits@, ordered));
    top.truncate(k);
    assert(k >= ordered.len() ==> ordered.take(ordered.len() as int) =~= ordered);
    top
}

/// The exponent field of a bit pattern.
pub open spec fn exponent_of(bits: u32) -> int {
    (bits as int / 0x80_0000) % 0x100
}

/// The fraction field of a bit pattern.
pub open spec fn fraction_of(bits: u32) -> int {
    bits as int % 0x80_0000
}

/// Whether a bit pattern stands for a number: all but those with the greatest exponent
/// and a fraction do. The greatest exponent without a fraction is an infinity.
pub open spec fn is_number(bits: u32) -> bool {
    exponent_of(bits) < 0xFF || fraction_of(bits) == 0
}

/// The magnitude of the number that a bit pattern stands for, counted in steps of the
/// least positive number, 2 to the power -149. An infinity counts as the number that
/// would follow the greatest finite one.
pub open spec fn magnitude_of(bits: u32) -> int {
    if exponent_of(bits) == 0 {
        fraction_of(bits)
    } else {
        (0x80_0000 + fraction_of(bits)) * pow2((exponent_of(bits) - 1) as nat)
    }
}

/// The number that a bit pattern stands for, in the same steps.
pub open spec fn value_of(bits: u32) -> int {
    if bits >= 0x8000_0000 {
        -magnitude_of(bits)
    } else {
        magnitude_of(bits)
    }
}

proof fn lemma_magnitude_grows(a: u32, b: u32)
    requires
        a < b < 0x8000_0000,
    ensures
        0 <= magnitude_of(a) < magnitude_of(b),
{
    let (ea, eb) = (exponent_of(a), exponent_of(b));
    let (fa, fb) = (fraction_of(a), fraction_of(b));
    assert(a == ea * 0x80_0000 + fa && b == eb * 0x80_0000 + fb);
    let pa = pow2((ea - 1) as nat) as int;
    let pb = pow2((eb - 1) as nat) as int;
    lemma_pow2_pos((ea - 1) as nat);
    lemma_pow2_pos((eb - 1) as nat);
    if ea > 0 {
        assert(0 <= (0x80_0000 + fa) * pa) by (nonlinear_arith)
            requires
                0 <= fa,
                0 < pa,
        ;
    }
    if ea == eb {
        if ea > 0 {
            assert((0x80_0000 + fa) * pa < (0x80_0000 + fb) * pa) by (nonlinear_arith)
                requires
                    fa < fb,
                    0 < pa,
            ;
        }
    } else if ea == 0 {
        assert((0x80_0000 + fb) * pb >= 0x80_0000) by (nonlinear_arith)
            requires
                0 <= fb,
                1 <= pb,
        ;
    } else {
        lemma_pow2_unfold(ea as nat);
        if ea < eb - 1 {
            lemma_pow2_strictly_increases(ea as nat, (eb - 1) as nat);
        }
        assert((0x80_0000 + fa) * pa < (0x80_0000 + fb) * pb) by (nonlinear_arith)
            requires
                0 <= fa < 0x80_0000,
                0 <= fb,
                0 < pa,
                2 * pa <= pb,
        ;
    }
}

proof fn lemma_fields_ignore_the_sign(bits: u32)
    requires
        bits >= 0x8000_0000,
    ensures
        exponent_of(bits) == exponent_of((bits - 0x8000_0000) as u32),
        fraction_of(bits) == fraction_of((bits - 0x8000_0000) as u32),
        magnitude_of(bits) == magnitude_of((bits - 0x8000_0000) as u32),
{
}

/// The ranking of scores is the order of the numbers: one score outranks another
/// exactly where both are numbers and the first is the greater.
pub proof fn law_ranking_is_the_order_of_the_numbers(a: u32, b: u32)
    ensures
        is_nan(a) == !is_number(a),
        outranks(a, b) == (is_number(a) && is_number(b) && value_of(a) > value_of(b)),
        rank_of(a) > rank_of(b) <==> value_of(a) > value_of(b),
{
    let (sa, sb) = (a >= 0x8000_0000, b >= 0x8000_0000);
    let la = if sa {
        (a - 0x8000_0000) as u32
    } else {
        a
    };
    let lb = if sb {
        (b - 0x8000_0000) as u32
    } else {
        b
    };
    if sa {
        lemma_fields_ignore_the_sign(a);
    }
    if sb {
        lemma_fields_ignore_the_sign(b);
    }
    assert(la == exponent_of(la) * 0x80_0000 + fraction_of(la));
    if la < lb {
        lemma_magnitude_grows(la, lb);
    }
    if lb < la {
        lemma_magnitude_grows(lb, la);
    }
    assert(magnitude_of(0) == 0);
    if la > 0 {
        lemma_magnitude_grows(0, la);
    }
    if lb > 0 {
        lemma_magnitude_grows(0, lb);
    }
}

/// Among positive numbers the greater pattern wins, among negative ones the lesser; any
/// positive number beats any negative one; and the two zeroes tie.
pub proof fn law_ranking_by_sign(a: u32, b: u32)
    ensures
        a < b <= 0x7F80_0000 ==> outranks(b, a),
        0x8000_0000 < a < b <= 0xFF80_0000 ==> outranks(a, b),
        a <= 0x7F80_0000 && 0x8000_0000 < b <= 0xFF80_0000 ==> outranks(a, b),
        !outranks(0, 0x8000_0000) && !outranks(0x8000_0000, 0),
        0x7F80_0000 < a < 0x8000_0000 || 0xFF80_0000 < a ==> !outranks(a, b) && !outranks(b, a),
        !(outranks(a, b) && outranks(b, a)),
{
}

/// The best `k` of a list of hits: as many as there are, up to `k`; each drawn from the
/// list, no oftener than it stands there; the greater number before the lesser; and
/// nothing that was left out is greater than anything that was kept.
pub proof fn law_the_best_are_the_greatest(hits: Seq<Hit>, k: nat, best: Seq<Hit>)
    requires
        is_best(hits, k, best),
    ensures
        best.len() == if k < hits.len() {
            k
        } else {
            hits.len()
        },
        best.to_multiset().subset_of(hits.to_multiset()),
        (forall|i: int| 0 <= i < hits.len() ==> is_number((#[trigger] hits[i]).1)) ==> {
            &&& forall|i: int, j: int|
                0 <= i <= j < best.len() ==> value_of((#[trigger] best[i]).1) >= value_of(
                    (#[trigger] best[j]).1,
                )
            &&& forall|h: Hit, i: int|
                0 <= i < best.len() && #[trigger] hits.to_multiset().sub(best.to_multiset()).count(
                    h,
                ) > 0 ==> value_of(h.1) <= value_of((#[trigger] best[i]).1)
        },
{
    broadcast use group_to_multiset_ensures;

    let ordered = choose|ordered: Seq<Hit>|
        #[trigger] is_ranking(hits, ordered) && best == ordered.take(
            if k < ordered.len() {
                k as int
            } else {
                ordered.len() as int
            },
        );
    ordered.to_multiset_ensures();
    hits.to_multiset_ensures();
    assert(ordered.len() == hits.len());
    let rest = ordered.skip(best.len() as int);
    assert(ordered =~= best + rest);
    lemma_multiset_commutative(best, rest);
    assert(hits.to_multiset().sub(best.to_multiset()) =~= rest.to_multiset());
    if forall|i: int| 0 <= i < hits.len() ==> is_number((#[trigger] hits[i]).1) {
        assert forall|i: int| 0 <= i < hits.len() implies !is_nan((#[trigger] hits[i]).1) by {
            law_ranking_is_the_order_of_the_numbers(hits[i].1, hits[i].1);
        }
        assert(descending(ordered));
        assert forall|i: int, j: int| 0 <= i <= j < ordered.len() implies value_of(
            (#[trigger] ordered[i]).1,
        ) >= value_of((#[trigger] ordered[j]).1) by {
            law_ranking_is_the_order_of_the_numbers(ordered[j].1, ordered[i].1);
        }
        assert forall|i: int, j: int| 0 <= i <= j < best.len() implies value_of(
            (#[trigger] best[i]).1,
        ) >= value_of((#[trigger] best[j]).1) by {
            assert(value_of(ordered[i].1) >= value_of(ordered[j].1));
        }
        assert forall|h: Hit, i: int|
            0 <= i < best.len() && #[trigger] hits.to_multiset().sub(best.to_multiset()).count(h)
                > 0 implies value_of(h.1) <= value_of((#[trigger] best[i]).1) by {
            assert(rest.contains(h));
            let j = rest.index_of(h);
            assert(ordered[best.len() + j] == h);
            assert(value_of(ordered[i].1) >= value_of(ordered[best.len() + j].1));
        }
    }
}

} // verus!
