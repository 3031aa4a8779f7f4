use vstd::prelude::*;
use crate::scheduler::{ProcResult, waiting_sum, turnaround_sum};

verus! {

/// The totals add up every outcome: nothing for no outcomes, an outcome's own time for one
/// outcome, and one more outcome adds its time to the total of the others.
pub proof fn law_totals_add_each_outcome(rs: Seq<ProcResult>, r: ProcResult)
    ensures
        waiting_sum(Seq::<ProcResult>::empty()) == 0,
        turnaround_sum(Seq::<ProcResult>::empty()) == 0,
        waiting_sum(seq![r]) == r.waiting_time,
        turnaround_sum(seq![r]) == r.turnaround_time,
        waiting_sum(rs.push(r)) == waiting_sum(rs) + r.waiting_time,
        turnaround_sum(rs.push(r)) == turnaround_sum(rs) + r.turnaround_time,
{
    assert(rs.push(r).drop_last() =~= rs);
    assert(seq![r].drop_last() =~= Seq::<ProcResult>::empty());
}

/// The totals of two lists of outcomes put together are the sums of their totals.
pub proof fn law_totals_concat(a: Seq<ProcResult>, b: Seq<ProcResult>)
    ensures
        waiting_sum(a + b) == waiting_sum(a) + waiting_sum(b),
        turnaround_sum(a + b) == turnaround_sum(a) + turnaround_sum(b),
    decreases b.len(),
{
    if b.len() == 0 {
        assert(a + b =~= a);
    } else {
        law_totals_concat(a, b.drop_last());
        assert((a + b).drop_last() =~= a + b.drop_last());
        assert((a + b).last() == b.last());
    }
}

} // verus!
