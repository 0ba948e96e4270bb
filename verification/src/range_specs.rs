//! Contracts for the accessors of `std::ops::RangeInclusive` that the
//! context-window code reads.
use std::ops::RangeInclusive;
use vstd::prelude::*;
use vstd::std_specs::cmp::PartialOrdIs;
use vstd::std_specs::cmp::PartialOrdSpec;

verus! {

/// `RangeInclusive::start` returns a reference to the lower bound the
/// range holds (its `start` field).
pub assume_specification<Idx>[ RangeInclusive::<Idx>::start ](r: &RangeInclusive<Idx>) -> (res: &Idx)
    ensures
        *res == r@.start,
;

/// `RangeInclusive::end` returns a reference to the upper bound the
/// range holds (its `end` field).
pub assume_specification<Idx>[ RangeInclusive::<Idx>::end ](r: &RangeInclusive<Idx>) -> (res: &Idx)
    ensures
        *res == r@.end,
;

/// `RangeInclusive::is_empty` is true when iterating the range yields no
/// item: the range has been exhausted by iteration, or its start is not
/// less than or equal to its end.
pub assume_specification<Idx: PartialOrd<Idx>>[ RangeInclusive::<Idx>::is_empty ](
    r: &RangeInclusive<Idx>,
) -> (res: bool) where Idx: PartialOrd<Idx>
    ensures
        Idx::obeys_partial_cmp_spec() ==> res == (r@.exhausted || !r@.start.is_le(&r@.end)),
;

} // verus!
