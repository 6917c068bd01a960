use vstd::prelude::*;

verus! {

/// Verus-visible declaration of rangemap's inclusive-interval-keyed map,
/// the ordered collection behind the range index.
#[verifier::external_type_specification]
#[verifier::external_body]
#[verifier::reject_recursive_types(K)]
#[verifier::reject_recursive_types(V)]
#[verifier::reject_recursive_types(StepFnsT)]
pub struct ExRangeInclusiveMap<K, V, StepFnsT>(rangemap::RangeInclusiveMap<K, V, StepFnsT>);

/// What the range index holds: every covered 48-bit point, mapped to the
/// value of the last range inserted over it.
pub uninterp spec fn range_contents(m: rangemap::RangeInclusiveMap<u64, usize>) -> Map<
    u64,
    usize,
>;

/// Relies on rangemap::RangeInclusiveMap::new: makes an empty map.
#[verifier::external_body]
pub fn rm_new() -> (r: rangemap::RangeInclusiveMap<u64, usize>)
    ensures
        forall|p: u64| #![auto] !range_contents(r).contains_key(p),
{
    rangemap::RangeInclusiveMap::new()
}

/// Relies on rangemap::RangeInclusiveMap::insert: the inserted range maps
/// each of its points to the new value, replacing any overlapped part of
/// the ranges already stored; points outside it keep their mapping.
#[verifier::external_body]
pub fn rm_insert(m: &mut rangemap::RangeInclusiveMap<u64, usize>, start: u64, end: u64, v: usize)
    requires
        start <= end,
    ensures
        forall|p: u64|
            start <= p <= end ==> #[trigger] range_contents(*final(m)).contains_key(p),
        forall|p: u64| start <= p <= end ==> #[trigger] range_contents(*final(m))[p] == v,
        forall|p: u64|
            !(start <= p <= end) ==> #[trigger] range_contents(*final(m)).contains_key(p)
                == range_contents(*old(m)).contains_key(p),
        forall|p: u64|
            !(start <= p <= end) && range_contents(*old(m)).contains_key(p)
                ==> #[trigger] range_contents(*final(m))[p] == range_contents(*old(m))[p],
{
    m.insert(start..=end, v);
}

/// Relies on rangemap::RangeInclusiveMap::get: returns the value of the
/// stored range that covers the point, if any does.
#[verifier::external_body]
pub fn rm_get(m: &rangemap::RangeInclusiveMap<u64, usize>, q: u64) -> (r: Option<usize>)
    ensures
        match r {
            Some(v) => range_contents(*m).contains_key(q) && range_contents(*m)[q] == v,
            None => !range_contents(*m).contains_key(q),
        },
{
    m.get(&q).copied()
}

} // verus!
