//! Reporting how far a job has come, in thousandths.

use vstd::prelude::*;

verus! {

/// Whether `report` can be told each number of thousandths from `from` to `to`. Who
/// asks for no more than this tells it no other.
pub open spec fn accepts<F: Fn(u32)>(report: F, from: u32, to: u32) -> bool {
    forall|p: u32| from <= p <= to ==> call_requires(report, (p,))
}

/// That `report` was told `p`, and came back.
pub open spec fn told<F: Fn(u32)>(report: &F, p: u32) -> bool {
    call_ensures(*report, (p,), ())
}

/// The point `part` thousandths of the way from `from` to `to`.
pub open spec fn point_between(from: u32, to: u32, part: u32) -> int {
    from + part * (to - from) / 1000
}

/// The point `part` thousandths of the way from `from` to `to`.
pub(crate) fn between(from: u32, to: u32, part: u32) -> (p: u32)
    requires
        from <= to <= 1000,
        part <= 1000,
    ensures
        p == point_between(from, to, part),
        from <= p <= to,
{
    assert(0 <= part * (to - from) <= 1000 * (to - from)) by (nonlinear_arith)
        requires
            from <= to,
            part <= 1000,
    ;
    from + part * (to - from) / 1000
}

/// Reports the point `part` thousandths of the way from `from` to `to`.
pub(crate) fn tell<F: Fn(u32)>(report: &F, from: u32, to: u32, part: u32)
    requires
        accepts(*report, from, to),
        from <= to <= 1000,
        part <= 1000,
    ensures
        told(report, point_between(from, to, part) as u32),
{
    report(between(from, to, part));
}

/// Points between two others begin at the one, end at the other, never fall, and are in
/// proportion to the part.
pub proof fn law_points_in_proportion(from: u32, to: u32, part: u32, more: u32)
    requires
        from <= to,
        part <= more <= 1000,
    ensures
        point_between(from, to, 0) == from,
        point_between(from, to, 1000) == to,
        point_between(from, to, part) <= point_between(from, to, more),
        1000 * (point_between(from, to, part) - from) <= part * (to - from) < 1000 * (point_between(
            from,
            to,
            part,
        ) - from) + 1000,
{
    assert(part * (to - from) <= more * (to - from)) by (nonlinear_arith)
        requires
            part <= more,
            from <= to,
    ;
    assert(1000 * (to - from) / 1000 == to - from);
}

/// What may be told is each number of the range, and what was told was a call.
pub proof fn law_told<F: Fn(u32)>(report: &F, from: u32, to: u32, p: u32)
    ensures
        told(report, p) <==> call_ensures(*report, (p,), ()),
        accepts(*report, from, to) && from <= p <= to ==> call_requires(*report, (p,)),
{
}

} // verus!
