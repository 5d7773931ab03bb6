//! The strongest dots of a tag: those of the greatest mass and area.

use crate::segmentation::FeatureVector;
use vstd::prelude::*;

verus! {

/// The strength of a dot: its mass times its area.
pub open spec fn strength(fv: FeatureVector) -> int {
    fv.zom * fv.area
}

/// `sorted` with `fv` put behind the last dot that is no weaker than it.
pub open spec fn placed_by_strength(sorted: Seq<FeatureVector>, fv: FeatureVector) -> Seq<FeatureVector>
    decreases sorted.len(),
{
    if sorted.len() == 0 || strength(sorted.last()) >= strength(fv) {
        sorted.push(fv)
    } else {
        placed_by_strength(sorted.drop_last(), fv).push(sorted.last())
    }
}

/// The dots in the order of their strength, the strongest first; dots of
/// equal strength keep their order.
pub open spec fn by_strength(dots: Seq<FeatureVector>) -> Seq<FeatureVector>
    decreases dots.len(),
{
    if dots.len() == 0 {
        dots
    } else {
        placed_by_strength(by_strength(dots.drop_last()), dots.last())
    }
}

/// No dot stands before a stronger one.
pub open spec fn falls(s: Seq<FeatureVector>) -> bool {
    forall|i: int, j: int| 0 <= i < j < s.len() ==> strength(#[trigger] s[i]) >= strength(#[trigger] s[j])
}

pub proof fn lemma_placed(sorted: Seq<FeatureVector>, fv: FeatureVector)
    requires
        falls(sorted),
    ensures
        falls(placed_by_strength(sorted, fv)),
        placed_by_strength(sorted, fv).len() == sorted.len() + 1,
        placed_by_strength(sorted, fv).to_multiset() == sorted.to_multiset().insert(fv),
        forall|i: int|
            0 <= i < sorted.len() + 1 ==> strength(#[trigger] placed_by_strength(sorted, fv)[i]) >= strength(
                fv,
            ) || (sorted.len() > 0 && strength(placed_by_strength(sorted, fv)[i]) >= strength(sorted.last())),
    decreases sorted.len(),
{
    broadcast use vstd::seq_lib::group_to_multiset_ensures;

    if sorted.len() == 0 || strength(sorted.last()) >= strength(fv) {
        let r = sorted.push(fv);
        assert forall|i: int, j: int| 0 <= i < j < r.len() implies strength(#[trigger] r[i]) >= strength(
            #[trigger] r[j],
        ) by {
            if j == sorted.len() {
                assert(strength(sorted[i]) >= strength(sorted[sorted.len() - 1]));
            }
        }
        assert forall|i: int| 0 <= i < r.len() implies strength(#[trigger] r[i]) >= strength(fv) by {
            if i < sorted.len() {
                assert(strength(sorted[i]) >= strength(sorted[sorted.len() - 1]));
            }
        }
    } else {
        let rest = sorted.drop_last();
        let last = sorted.last();
        assert(falls(rest));
        lemma_placed(rest, fv);
        let inner = placed_by_strength(rest, fv);
        let r = inner.push(last);
        assert forall|i: int, j: int| 0 <= i < j < r.len() implies strength(#[trigger] r[i]) >= strength(
            #[trigger] r[j],
        ) by {
            if j == inner.len() {
                if rest.len() > 0 {
                    assert(strength(sorted[rest.len() - 1]) >= strength(sorted[sorted.len() - 1]));
                }
            }
        }
        assert(sorted =~= rest.push(last));
    }
}

/// The order by strength falls, and holds the same dots.
pub proof fn lemma_by_strength(dots: Seq<FeatureVector>)
    ensures
        falls(by_strength(dots)),
        by_strength(dots).len() == dots.len(),
        by_strength(dots).to_multiset() == dots.to_multiset(),
    decreases dots.len(),
{
    broadcast use vstd::seq_lib::group_to_multiset_ensures;

    if dots.len() > 0 {
        lemma_by_strength(dots.drop_last());
        lemma_placed(by_strength(dots.drop_last()), dots.last());
        assert(dots =~= dots.drop_last().push(dots.last()));
    }
}

/// The `count` strongest of `dots`, the strongest first; all of them where
/// there are no more.
pub fn strongest_dots(dots: &Vec<FeatureVector>, count: usize) -> (r: Vec<FeatureVector>)
    ensures
        r@ == (if count < dots.len() {
            by_strength(dots@).take(count as int)
        } else {
            by_strength(dots@)
        }),
{
    let mut sorted: Vec<FeatureVector> = Vec::new();
    let mut n: usize = 0;
    assert(dots@.take(0) =~= Seq::<FeatureVector>::empty());
    while n < dots.len()
        invariant
            n <= dots.len(),
            sorted@ == by_strength(dots@.take(n as int)),
            sorted.len() == n,
        decreases dots.len() - n,
    {
        let fv = dots[n];
        let ghost before = sorted@;
        proof {
            assert(dots@.take(n + 1).drop_last() =~= dots@.take(n as int));
        }
        // walk up from the end past every weaker dot
        sorted.push(fv);
        let mut k: usize = n;
        proof {
            assert(before.take(n as int) =~= before);
            assert(before.skip(n as int) =~= Seq::<FeatureVector>::empty());
            assert(sorted@ =~= before.take(n as int).push(fv) + before.skip(n as int));
            assert(placed_by_strength(before, fv) =~= placed_by_strength(before.take(n as int), fv)
                + before.skip(n as int));
        }
        while k > 0 && weaker(&sorted[k - 1], &fv)
            invariant
                k <= n,
                sorted.len() == n + 1,
                before.len() == n,
                sorted@ == before.take(k as int).push(fv) + before.skip(k as int),
                placed_by_strength(before, fv) == placed_by_strength(before.take(k as int), fv) + before.skip(
                    k as int,
                ),
            decreases k,
        {
            proof {
                let head = before.take(k as int);
                assert(head.last() == before[k - 1]);
                assert(head.drop_last() =~= before.take(k - 1));
                assert(placed_by_strength(head, fv) == placed_by_strength(before.take(k - 1), fv).push(
                    before[k - 1],
                ));
                assert(placed_by_strength(before.take(k - 1), fv).push(before[k - 1]) + before.skip(k as int)
                    =~= placed_by_strength(before.take(k - 1), fv) + before.skip(k - 1));
            }
            let moved = sorted[k - 1];
            sorted[k] = moved;
            sorted[k - 1] = fv;
            assert(sorted@ =~= before.take(k - 1).push(fv) + before.skip(k - 1));
            k = k - 1;
        }
        proof {
            let head = before.take(k as int);
            if k > 0 {
                assert(head.last() == before[k - 1]);
            }
            assert(placed_by_strength(head, fv) == head.push(fv));
        }
        n = n + 1;
    }
    assert(dots@.take(dots.len() as int) =~= dots@);
    if count < sorted.len() {
        sorted.truncate(count);
    }
    sorted
}

/// Whether `a` is weaker than `b`.
pub fn weaker(a: &FeatureVector, b: &FeatureVector) -> (r: bool)
    ensures
        r == (strength(*a) < strength(*b)),
{
    assert(a.zom * a.area <= 0xffff_ffff_ffff_ffff * 0xffff_ffff && b.zom * b.area <= 0xffff_ffff_ffff_ffff
        * 0xffff_ffff) by (nonlinear_arith)
        requires
            a.zom <= 0xffff_ffff_ffff_ffff,
            a.area <= 0xffff_ffff,
            b.zom <= 0xffff_ffff_ffff_ffff,
            b.area <= 0xffff_ffff,
    ;
    (a.zom as u128) * (a.area as u128) < (b.zom as u128) * (b.area as u128)
}

/// Whether the strongest of `dots` has more than five times the mass of the
/// weakest: such dots are no dots of one tag. `dots` are in the order of
/// their strength.
pub fn too_uneven(dots: &Vec<FeatureVector>) -> (r: bool)
    ensures
        r == (dots.len() > 0 && dots[0].zom > 5 * dots[dots.len() - 1].zom),
{
    if dots.len() == 0 {
        false
    } else {
        dots[0].zom as u128 > 5 * (dots[dots.len() - 1].zom as u128)
    }
}

} // verus!
