use crate::freelist::bump::PG_SIZE;
use crate::freelist::in_run;
use vstd::prelude::*;

verus! {

/// Whether a range, given as a base and a byte length, is made of whole
/// pages, of one at least.
pub open spec fn range_ok(r: (usize, usize)) -> bool {
    r.0 as int % (PG_SIZE as int) == 0 && r.1 as int % (PG_SIZE as int) == 0 && r.1 > 0
}

/// The pages of a range.
pub open spec fn range_pages(r: (usize, usize)) -> Set<int> {
    Set::new(|p: int| in_run(r.0 as int, r.1 as int / (PG_SIZE as int), p))
}

/// The pages of the ranges of `rs`.
pub open spec fn ranges_pages(rs: Seq<(usize, usize)>) -> Set<int> {
    Set::new(|p: int| exists|i: int| 0 <= i < rs.len() && (#[trigger] range_pages(rs[i])).contains(p))
}

/// The range that an optional range stands for.
pub open spec fn some_range(r: Option<(usize, usize)>) -> Seq<(usize, usize)> {
    match r {
        Some(range) => seq![range],
        None => Seq::empty(),
    }
}

/// What holds of the ranges `rs` that left the backend for the system
/// while its managed pages went from `before` to `after`: each is made of
/// whole pages that were managed, and the managed pages have shrunk by
/// just the pages of the ranges.
pub open spec fn gave_back(before: Set<int>, after: Set<int>, rs: Seq<(usize, usize)>) -> bool {
    &&& after == before.difference(ranges_pages(rs))
    &&& ranges_pages(rs).subset_of(before)
    &&& forall|i: int| 0 <= i < rs.len() ==> range_ok(#[trigger] rs[i])
}

/// Nothing leaves when the managed pages stay.
pub proof fn lemma_gave_nothing(managed: Set<int>)
    ensures
        gave_back(managed, managed, Seq::empty()),
{
    assert(managed.difference(ranges_pages(Seq::empty())) == managed);
}

/// One range leaves.
pub proof fn lemma_gave_one(before: Set<int>, after: Set<int>, r: (usize, usize))
    requires
        after == before.difference(range_pages(r)),
        range_pages(r).subset_of(before),
        range_ok(r),
    ensures
        gave_back(before, after, seq![r]),
{
    let rs = seq![r];
    assert forall|p: int| ranges_pages(rs).contains(p) <==> range_pages(r).contains(p) by {
        if range_pages(r).contains(p) {
            assert(range_pages(rs[0]).contains(p));
        }
    }
    assert(ranges_pages(rs) == range_pages(r));
}

/// What left in two steps is what left in the first step and what left
/// in the second.
pub proof fn lemma_gave_more(
    before: Set<int>,
    mid: Set<int>,
    after: Set<int>,
    rs1: Seq<(usize, usize)>,
    rs2: Seq<(usize, usize)>,
)
    requires
        gave_back(before, mid, rs1),
        gave_back(mid, after, rs2),
    ensures
        gave_back(before, after, rs1 + rs2),
{
    let rs = rs1 + rs2;
    assert forall|p: int| ranges_pages(rs).contains(p) <==> (ranges_pages(rs1).contains(p)
        || ranges_pages(rs2).contains(p)) by {
        if ranges_pages(rs).contains(p) {
            let i = choose|i: int| 0 <= i < rs.len() && (#[trigger] range_pages(rs[i])).contains(p);
            if i < rs1.len() {
                assert(range_pages(rs1[i]).contains(p));
            } else {
                assert(range_pages(rs2[i - rs1.len()]).contains(p));
            }
        }
        if ranges_pages(rs1).contains(p) {
            let i = choose|i: int| 0 <= i < rs1.len() && (#[trigger] range_pages(rs1[i])).contains(p);
            assert(range_pages(rs[i]).contains(p));
        }
        if ranges_pages(rs2).contains(p) {
            let i = choose|i: int| 0 <= i < rs2.len() && (#[trigger] range_pages(rs2[i])).contains(p);
            assert(range_pages(rs[i + rs1.len()]).contains(p));
        }
    }
    assert(after == before.difference(ranges_pages(rs)));
    assert forall|i: int| 0 <= i < rs.len() implies range_ok(#[trigger] rs[i]) by {
        if i < rs1.len() {
            assert(range_ok(rs1[i]));
        } else {
            assert(range_ok(rs2[i - rs1.len()]));
        }
    }
}

/// What holds of ranges that have left the backend when `after` are its
/// managed pages: each is made of whole pages, none of which is managed.
pub open spec fn all_gone(after: Set<int>, rs: Seq<(usize, usize)>) -> bool {
    &&& ranges_pages(rs).disjoint(after)
    &&& forall|i: int| 0 <= i < rs.len() ==> range_ok(#[trigger] rs[i])
}

/// The ranges that left are gone.
pub proof fn lemma_all_gone(before: Set<int>, after: Set<int>, rs: Seq<(usize, usize)>)
    requires
        gave_back(before, after, rs),
    ensures
        all_gone(after, rs),
{
}

/// A page of a range that left is no longer managed.
pub proof fn lemma_gone(before: Set<int>, after: Set<int>, rs: Seq<(usize, usize)>, i: int, p: int)
    requires
        gave_back(before, after, rs),
        0 <= i < rs.len(),
        in_run(rs[i].0 as int, rs[i].1 as int / (PG_SIZE as int), p),
    ensures
        before.contains(p),
        !after.contains(p),
{
    assert(range_pages(rs[i]).contains(p));
    assert(ranges_pages(rs).contains(p));
}

} // verus!
