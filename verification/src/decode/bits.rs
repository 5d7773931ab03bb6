//! The number that a tag carries, and the cells of its grid.

use crate::decode::LFTagClass;
use vstd::arithmetic::power2::{lemma2_to64, lemma_pow2_strictly_increases, lemma_pow2_unfold, pow2};
use vstd::prelude::*;

verus! {

/// The number whose binary digits are `bits`, the first one counting most.
pub open spec fn bits_value(bits: Seq<bool>) -> nat
    decreases bits.len(),
{
    if bits.len() == 0 {
        0
    } else {
        2 * bits_value(bits.drop_last()) + if bits.last() {
            1nat
        } else {
            0nat
        }
    }
}

/// The number whose digits to the base 4 are `digits`, the first one
/// counting most.
pub open spec fn quads_value(digits: Seq<u8>) -> nat
    decreases digits.len(),
{
    if digits.len() == 0 {
        0
    } else {
        4 * quads_value(digits.drop_last()) + digits.last() as nat
    }
}

pub proof fn lemma_bits_bound(bits: Seq<bool>)
    ensures
        bits_value(bits) < pow2(bits.len()),
    decreases bits.len(),
{
    if bits.len() == 0 {
        lemma2_to64();
    } else {
        lemma_bits_bound(bits.drop_last());
        lemma_pow2_unfold(bits.len());
    }
}

pub proof fn lemma_quads_bound(digits: Seq<u8>)
    requires
        forall|i: int| 0 <= i < digits.len() ==> #[trigger] digits[i] < 4,
    ensures
        quads_value(digits) < pow2(2 * digits.len()),
    decreases digits.len(),
{
    if digits.len() == 0 {
        lemma2_to64();
    } else {
        assert forall|i: int| 0 <= i < digits.drop_last().len() implies #[trigger] digits.drop_last()[i]
            < 4 by {
            assert(digits.drop_last()[i] == digits[i]);
        }
        lemma_quads_bound(digits.drop_last());
        lemma_pow2_unfold(2 * digits.len());
        lemma_pow2_unfold((2 * digits.len() - 1) as nat);
    }
}

/// The number that the bits of the data nodes spell, in the order in which
/// the nodes are read.
pub fn pack_bits(bits: &Vec<bool>) -> (data: u64)
    requires
        bits.len() <= 64,
    ensures
        data == bits_value(bits@),
{
    let mut data: u64 = 0;
    let mut i: usize = 0;
    assert(bits@.take(0) =~= Seq::<bool>::empty());
    while i < bits.len()
        invariant
            i <= bits.len(),
            bits.len() <= 64,
            data == bits_value(bits@.take(i as int)),
        decreases bits.len() - i,
    {
        proof {
            assert(bits@.take(i + 1).drop_last() =~= bits@.take(i as int));
            lemma_bits_bound(bits@.take(i + 1));
            lemma2_to64();
            if i + 1 < 64 {
                lemma_pow2_strictly_increases((i + 1) as nat, 64);
            }
        }
        data = data * 2 + if bits[i] {
            1
        } else {
            0
        };
        i = i + 1;
    }
    assert(bits@.take(bits.len() as int) =~= bits@);
    data
}

/// The number that the places of the data dots spell, two bits to a dot, in
/// the order in which the dots are read.
pub fn pack_quads(digits: &Vec<u8>) -> (data: u64)
    requires
        digits.len() <= 32,
        forall|i: int| 0 <= i < digits.len() ==> #[trigger] digits[i] < 4,
    ensures
        data == quads_value(digits@),
{
    let mut data: u64 = 0;
    let mut i: usize = 0;
    assert(digits@.take(0) =~= Seq::<u8>::empty());
    while i < digits.len()
        invariant
            i <= digits.len(),
            digits.len() <= 32,
            forall|k: int| 0 <= k < digits.len() ==> #[trigger] digits[k] < 4,
            data == quads_value(digits@.take(i as int)),
        decreases digits.len() - i,
    {
        proof {
            assert(digits@.take(i + 1).drop_last() =~= digits@.take(i as int));
            assert forall|k: int| 0 <= k < digits@.take(i + 1).len() implies #[trigger] digits@.take(i + 1)[k]
                < 4 by {
                assert(digits@.take(i + 1)[k] == digits[k]);
            }
            lemma_quads_bound(digits@.take(i + 1));
            lemma2_to64();
            if 2 * (i + 1) < 64 {
                lemma_pow2_strictly_increases((2 * (i + 1)) as nat, 64);
            }
        }
        data = data * 4 + digits[i] as u64;
        i = i + 1;
    }
    assert(digits@.take(digits.len() as int) =~= digits@);
    data
}

/// The cell in column `i` and row `j` of a tag of dots holds a data dot:
/// all cells do but the two upper corners, which hold the baseline.
pub open spec fn is_data_cell(side: nat, i: int, j: int) -> bool {
    0 <= i < side && 0 <= j < side && !(j == 0 && (i == 0 || i == side - 1))
}

/// The cell `a` is read before the cell `b`: rows from the top, and each
/// row from the left.
pub open spec fn read_before(a: (usize, usize), b: (usize, usize)) -> bool {
    a.1 < b.1 || (a.1 == b.1 && a.0 < b.0)
}

impl LFTagClass {
    /// The cells that hold data dots, as `(column, row)`, in the order in
    /// which they are read.
    pub fn get_data_cells(&self) -> (cells: Vec<(usize, usize)>)
        ensures
            forall|k: int|
                0 <= k < cells.len() ==>
                    is_data_cell(self.side(), (#[trigger] cells[k]).0 as int, cells[k].1 as int),
            forall|a: int, b: int|
                0 <= a < b < cells.len() ==>
                    read_before(#[trigger] cells[a], #[trigger] cells[b]),
            forall|i: int, j: int|
                is_data_cell(self.side(), i, j) ==> exists|k: int|
                    0 <= k < cells.len() && #[trigger] cells[k] == (i as usize, j as usize),
    {
        let side = self.get_width();
        let mut cells: Vec<(usize, usize)> = Vec::new();
        let mut j: usize = 0;
        while j < side
            invariant
                j <= side,
                side == self.side(),
                forall|k: int|
                    0 <= k < cells.len() ==> is_data_cell(side as nat, (#[trigger] cells[k]).0 as int, cells[k].1 as int)
                        && cells[k].1 < j,
                forall|a: int, b: int|
                    0 <= a < b < cells.len() ==> read_before(#[trigger] cells[a], #[trigger] cells[b]),
                forall|p: int, q: int|
                    is_data_cell(side as nat, p, q) && q < j ==> exists|k: int|
                        0 <= k < cells.len() && #[trigger] cells[k] == (p as usize, q as usize),
            decreases side - j,
        {
            let mut i: usize = 0;
            while i < side
                invariant
                    i <= side,
                    j < side,
                    side == self.side(),
                    forall|k: int|
                        0 <= k < cells.len() ==> is_data_cell(
                            side as nat,
                            (#[trigger] cells[k]).0 as int,
                            cells[k].1 as int,
                        ) && (cells[k].1 < j || (cells[k].1 == j && cells[k].0 < i)),
                    forall|a: int, b: int|
                        0 <= a < b < cells.len() ==> read_before(#[trigger] cells[a], #[trigger] cells[b]),
                    forall|p: int, q: int|
                        is_data_cell(side as nat, p, q) && (q < j || (q == j && p < i)) ==> exists|k: int|
                            0 <= k < cells.len() && #[trigger] cells[k] == (p as usize, q as usize),
                decreases side - i,
            {
                if !(j == 0 && (i == 0 || i == side - 1)) {
                    let ghost before = cells@;
                    cells.push((i, j));
                    assert forall|p: int, q: int|
                        is_data_cell(side as nat, p, q) && (q < j || (q == j && p < i + 1)) implies exists|
                        k: int,
                    |
                        0 <= k < cells.len() && #[trigger] cells[k] == (p as usize, q as usize) by {
                        if q == j && p == i {
                            assert(cells[cells.len() - 1] == (p as usize, q as usize));
                        } else {
                            let k = choose|k: int|
                                0 <= k < before.len() && #[trigger] before[k] == (p as usize, q as usize);
                            assert(cells[k] == (p as usize, q as usize));
                        }
                    }
                }
                i = i + 1;
            }
            j = j + 1;
        }
        cells
    }
}

} // verus!
