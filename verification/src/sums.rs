use vstd::prelude::*;

verus! {

/// Sum of a sequence of unsigned values.
pub open spec fn total(vals: Seq<u32>) -> int
    decreases vals.len(),
{
    if vals.len() == 0 {
        0
    } else {
        total(vals.drop_last()) + vals.last()
    }
}

/// Sum of the values whose flag in `mask` is set.
pub open spec fn masked_total(vals: Seq<u32>, mask: Seq<bool>) -> int
    decreases vals.len(),
{
    if vals.len() == 0 {
        0
    } else {
        masked_total(vals.drop_last(), mask.drop_last()) + if mask.last() {
            vals.last() as int
        } else {
            0
        }
    }
}

pub proof fn lemma_total_nonneg(vals: Seq<u32>)
    ensures
        total(vals) >= 0,
    decreases vals.len(),
{
    if vals.len() > 0 {
        lemma_total_nonneg(vals.drop_last());
    }
}

pub proof fn lemma_masked_bounds(vals: Seq<u32>, mask: Seq<bool>)
    requires
        mask.len() == vals.len(),
    ensures
        0 <= masked_total(vals, mask) <= total(vals),
    decreases vals.len(),
{
    if vals.len() > 0 {
        lemma_masked_bounds(vals.drop_last(), mask.drop_last());
    }
}

pub proof fn lemma_masked_none(vals: Seq<u32>, mask: Seq<bool>)
    requires
        mask.len() == vals.len(),
        forall|j: int| 0 <= j < mask.len() ==> !#[trigger] mask[j],
    ensures
        masked_total(vals, mask) == 0,
    decreases vals.len(),
{
    if vals.len() > 0 {
        lemma_masked_none(vals.drop_last(), mask.drop_last());
    }
}

/// Setting one more flag adds exactly that value.
pub proof fn lemma_masked_set(vals: Seq<u32>, mask: Seq<bool>, j: int)
    requires
        mask.len() == vals.len(),
        0 <= j < vals.len(),
        !mask[j],
    ensures
        masked_total(vals, mask.update(j, true)) == masked_total(vals, mask) + vals[j],
    decreases vals.len(),
{
    let m2 = mask.update(j, true);
    if j == vals.len() - 1 {
        assert(m2.drop_last() =~= mask.drop_last());
    } else {
        assert(m2.drop_last() =~= mask.drop_last().update(j, true));
        lemma_masked_set(vals.drop_last(), mask.drop_last(), j);
    }
}


/// The sum over a mask and over its complement make up the whole.
pub proof fn lemma_masked_complement(vals: Seq<u32>, mask: Seq<bool>)
    requires
        mask.len() == vals.len(),
    ensures
        masked_total(vals, mask) + masked_total(vals, Seq::new(mask.len(), |j: int| !mask[j])) == total(vals),
    decreases vals.len(),
{
    if vals.len() > 0 {
        let c = Seq::new(mask.len(), |j: int| !mask[j]);
        assert(c.drop_last() =~= Seq::new(mask.drop_last().len(), |j: int| !mask.drop_last()[j]));
        lemma_masked_complement(vals.drop_last(), mask.drop_last());
    }
}

/// Summing over more flags never gives less.
pub proof fn lemma_masked_mono(vals: Seq<u32>, m1: Seq<bool>, m2: Seq<bool>)
    requires
        m1.len() == vals.len(),
        m2.len() == vals.len(),
        forall|j: int| 0 <= j < vals.len() && #[trigger] m1[j] ==> m2[j],
    ensures
        masked_total(vals, m1) <= masked_total(vals, m2),
    decreases vals.len(),
{
    if vals.len() > 0 {
        lemma_masked_mono(vals.drop_last(), m1.drop_last(), m2.drop_last());
    }
}

/// With every flag set, the masked sum is the whole sum.
pub proof fn lemma_masked_all(vals: Seq<u32>, mask: Seq<bool>)
    requires
        mask.len() == vals.len(),
        forall|j: int| 0 <= j < mask.len() ==> #[trigger] mask[j],
    ensures
        masked_total(vals, mask) == total(vals),
    decreases vals.len(),
{
    if vals.len() > 0 {
        lemma_masked_all(vals.drop_last(), mask.drop_last());
    }
}

/// Number of set flags.
pub open spec fn count_set(mask: Seq<bool>) -> int
    decreases mask.len(),
{
    if mask.len() == 0 {
        0
    } else {
        count_set(mask.drop_last()) + if mask.last() {
            1int
        } else {
            0
        }
    }
}

pub proof fn lemma_count_none(mask: Seq<bool>)
    requires
        forall|j: int| 0 <= j < mask.len() ==> !#[trigger] mask[j],
    ensures
        count_set(mask) == 0,
    decreases mask.len(),
{
    if mask.len() > 0 {
        lemma_count_none(mask.drop_last());
    }
}

pub proof fn lemma_count_all(mask: Seq<bool>)
    requires
        forall|j: int| 0 <= j < mask.len() ==> #[trigger] mask[j],
    ensures
        count_set(mask) == mask.len(),
    decreases mask.len(),
{
    if mask.len() > 0 {
        lemma_count_all(mask.drop_last());
    }
}

pub proof fn lemma_count_set(mask: Seq<bool>, j: int)
    requires
        0 <= j < mask.len(),
        !mask[j],
    ensures
        count_set(mask.update(j, true)) == count_set(mask) + 1,
    decreases mask.len(),
{
    let m2 = mask.update(j, true);
    if j == mask.len() - 1 {
        assert(m2.drop_last() =~= mask.drop_last());
    } else {
        assert(m2.drop_last() =~= mask.drop_last().update(j, true));
        lemma_count_set(mask.drop_last(), j);
    }
}


/// Sum of a sequence of naturals.
pub open spec fn total_nat(vals: Seq<nat>) -> nat
    decreases vals.len(),
{
    if vals.len() == 0 {
        0
    } else {
        total_nat(vals.drop_last()) + vals.last()
    }
}

/// Sum of the naturals whose flag in `mask` is set.
pub open spec fn masked_total_nat(vals: Seq<nat>, mask: Seq<bool>) -> nat
    decreases vals.len(),
{
    if vals.len() == 0 {
        0
    } else {
        masked_total_nat(vals.drop_last(), mask.drop_last()) + if mask.last() {
            vals.last()
        } else {
            0
        }
    }
}

pub proof fn lemma_masked_nat_bound(vals: Seq<nat>, mask: Seq<bool>)
    requires
        mask.len() == vals.len(),
    ensures
        masked_total_nat(vals, mask) <= total_nat(vals),
    decreases vals.len(),
{
    if vals.len() > 0 {
        lemma_masked_nat_bound(vals.drop_last(), mask.drop_last());
    }
}

pub proof fn lemma_masked_nat_none(vals: Seq<nat>, mask: Seq<bool>)
    requires
        mask.len() == vals.len(),
        forall|j: int| 0 <= j < mask.len() ==> !#[trigger] mask[j],
    ensures
        masked_total_nat(vals, mask) == 0,
    decreases vals.len(),
{
    if vals.len() > 0 {
        lemma_masked_nat_none(vals.drop_last(), mask.drop_last());
    }
}

pub proof fn lemma_masked_nat_set(vals: Seq<nat>, mask: Seq<bool>, j: int)
    requires
        mask.len() == vals.len(),
        0 <= j < vals.len(),
        !mask[j],
    ensures
        masked_total_nat(vals, mask.update(j, true)) == masked_total_nat(vals, mask) + vals[j],
    decreases vals.len(),
{
    let m2 = mask.update(j, true);
    if j == vals.len() - 1 {
        assert(m2.drop_last() =~= mask.drop_last());
    } else {
        assert(m2.drop_last() =~= mask.drop_last().update(j, true));
        lemma_masked_nat_set(vals.drop_last(), mask.drop_last(), j);
    }
}

} // verus!
