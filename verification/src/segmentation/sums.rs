//! Sums over the component table and over the list of closed components.

use crate::segmentation::FeatureVector;
use vstd::prelude::*;

verus! {

/// The areas of the components of `s`, added up.
pub open spec fn total_area(s: Seq<FeatureVector>) -> int
    decreases s.len(),
{
    if s.len() == 0 {
        0
    } else {
        total_area(s.drop_last()) + s.last().area
    }
}

/// The entries of `s`, added up.
pub open spec fn total(s: Seq<nat>) -> nat
    decreases s.len(),
{
    if s.len() == 0 {
        0
    } else {
        total(s.drop_last()) + s.last()
    }
}

pub proof fn lemma_total_area_push(s: Seq<FeatureVector>, e: FeatureVector)
    ensures
        total_area(s.push(e)) == total_area(s) + e.area,
{
    assert(s.push(e).drop_last() =~= s);
}

pub proof fn lemma_total_area_update(s: Seq<FeatureVector>, i: int, e: FeatureVector)
    requires
        0 <= i < s.len(),
    ensures
        total_area(s.update(i, e)) == total_area(s) - s[i].area + e.area,
    decreases s.len(),
{
    if i == s.len() - 1 {
        assert(s.update(i, e).drop_last() =~= s.drop_last());
    } else {
        lemma_total_area_update(s.drop_last(), i, e);
        assert(s.update(i, e).drop_last() =~= s.drop_last().update(i, e));
    }
}

pub proof fn lemma_area_le_total(s: Seq<FeatureVector>, i: int)
    requires
        0 <= i < s.len(),
    ensures
        s[i].area <= total_area(s),
        total_area(s) >= 0,
    decreases s.len(),
{
    lemma_total_area_nonneg(s.drop_last());
    if i < s.len() - 1 {
        lemma_area_le_total(s.drop_last(), i);
    }
}

pub proof fn lemma_total_area_nonneg(s: Seq<FeatureVector>)
    ensures
        total_area(s) >= 0,
    decreases s.len(),
{
    if s.len() > 0 {
        lemma_total_area_nonneg(s.drop_last());
    }
}

/// A list of components none of which is empty is no longer than its total
/// area.
pub proof fn lemma_len_le_total_area(s: Seq<FeatureVector>)
    requires
        forall|i: int| 0 <= i < s.len() ==> (#[trigger] s[i]).area >= 1,
    ensures
        s.len() <= total_area(s),
    decreases s.len(),
{
    if s.len() > 0 {
        lemma_len_le_total_area(s.drop_last());
    }
}

/// Components with no area add nothing.
pub proof fn lemma_total_area_single(s: Seq<FeatureVector>, i: int)
    requires
        0 <= i < s.len(),
        forall|j: int| 0 <= j < s.len() && j != i ==> (#[trigger] s[j]).area == 0,
    ensures
        total_area(s) == s[i].area,
    decreases s.len(),
{
    if i == s.len() - 1 {
        lemma_total_area_zero(s.drop_last());
    } else {
        lemma_total_area_single(s.drop_last(), i);
    }
}

pub proof fn lemma_total_area_zero(s: Seq<FeatureVector>)
    requires
        forall|j: int| 0 <= j < s.len() ==> (#[trigger] s[j]).area == 0,
    ensures
        total_area(s) == 0,
    decreases s.len(),
{
    if s.len() > 0 {
        lemma_total_area_zero(s.drop_last());
    }
}

/// The entries of `omass` at the places `ks`, added up.
pub open spec fn kids_mass(omass: Seq<nat>, ks: Seq<int>) -> nat
    decreases ks.len(),
{
    if ks.len() == 0 {
        0
    } else {
        kids_mass(omass, ks.drop_last()) + omass[ks.last()]
    }
}

pub proof fn lemma_kids_mass_concat(omass: Seq<nat>, a: Seq<int>, b: Seq<int>)
    ensures
        kids_mass(omass, a + b) == kids_mass(omass, a) + kids_mass(omass, b),
    decreases b.len(),
{
    if b.len() == 0 {
        assert(a + b =~= a);
    } else {
        lemma_kids_mass_concat(omass, a, b.drop_last());
        assert((a + b).drop_last() =~= a + b.drop_last());
    }
}

pub proof fn lemma_kids_mass_one(omass: Seq<nat>, k: int)
    ensures
        kids_mass(omass, seq![k]) == omass[k],
{
    assert(seq![k].drop_last() =~= Seq::<int>::empty());
    assert(kids_mass(omass, Seq::<int>::empty()) == 0);
    assert(seq![k].last() == k);
}

/// The sum looks at no other places than those of `ks`.
pub proof fn lemma_kids_mass_frame(omass: Seq<nat>, other: Seq<nat>, ks: Seq<int>)
    requires
        forall|j: int| 0 <= j < ks.len() ==> other[#[trigger] ks[j]] == omass[ks[j]],
    ensures
        kids_mass(other, ks) == kids_mass(omass, ks),
    decreases ks.len(),
{
    if ks.len() > 0 {
        assert(ks.last() == ks[ks.len() - 1]);
        assert forall|j: int| 0 <= j < ks.drop_last().len() implies other[#[trigger] ks.drop_last()[j]]
            == omass[ks.drop_last()[j]] by {
            assert(ks.drop_last()[j] == ks[j]);
        }
        lemma_kids_mass_frame(omass, other, ks.drop_last());
    }
}

/// Where all entries but one are zero, that one is the sum.
pub proof fn lemma_total_single(s: Seq<nat>, i: int)
    requires
        0 <= i < s.len(),
        forall|j: int| 0 <= j < s.len() && j != i ==> #[trigger] s[j] == 0,
    ensures
        total(s) == s[i],
    decreases s.len(),
{
    if i == s.len() - 1 {
        lemma_total_zero(s.drop_last());
    } else {
        lemma_total_single(s.drop_last(), i);
    }
}

pub proof fn lemma_total_zero(s: Seq<nat>)
    requires
        forall|j: int| 0 <= j < s.len() ==> #[trigger] s[j] == 0,
    ensures
        total(s) == 0,
    decreases s.len(),
{
    if s.len() > 0 {
        lemma_total_zero(s.drop_last());
    }
}

pub proof fn lemma_total_push(s: Seq<nat>, e: nat)
    ensures
        total(s.push(e)) == total(s) + e,
{
    assert(s.push(e).drop_last() =~= s);
}

pub proof fn lemma_total_update(s: Seq<nat>, i: int, e: nat)
    requires
        0 <= i < s.len(),
    ensures
        total(s.update(i, e)) == total(s) - s[i] + e,
    decreases s.len(),
{
    if i == s.len() - 1 {
        assert(s.update(i, e).drop_last() =~= s.drop_last());
    } else {
        lemma_total_update(s.drop_last(), i, e);
        assert(s.update(i, e).drop_last() =~= s.drop_last().update(i, e));
    }
}

pub proof fn lemma_le_total(s: Seq<nat>, i: int)
    requires
        0 <= i < s.len(),
    ensures
        s[i] <= total(s),
    decreases s.len(),
{
    if i < s.len() - 1 {
        lemma_le_total(s.drop_last(), i);
    }
}

pub proof fn lemma_two_le_total(s: Seq<nat>, i: int, j: int)
    requires
        0 <= i < s.len(),
        0 <= j < s.len(),
        i != j,
    ensures
        s[i] + s[j] <= total(s),
    decreases s.len(),
{
    let last = s.len() - 1;
    if i == last {
        lemma_le_total(s.drop_last(), j);
    } else if j == last {
        lemma_le_total(s.drop_last(), i);
    } else {
        lemma_two_le_total(s.drop_last(), i, j);
    }
}

} // verus!
