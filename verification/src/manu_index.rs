use vstd::prelude::*;

verus! {

/// Verus-visible declaration of multimap's one-key-to-many-values map, the
/// collection behind the manufacturer index.
#[verifier::external_type_specification]
#[verifier::external_body]
#[verifier::reject_recursive_types(K)]
#[verifier::reject_recursive_types(V)]
#[verifier::reject_recursive_types(S)]
pub struct ExMultiMap<K, V, S>(multimap::MultiMap<K, V, S>);

/// What the manufacturer index holds: each stored key's text, mapped to
/// the values inserted under it, oldest first.
pub uninterp spec fn mm_contents(m: multimap::MultiMap<String, usize>) -> Map<
    Seq<char>,
    Seq<usize>,
>;

/// Relies on multimap::MultiMap::new: makes an empty map.
#[verifier::external_body]
pub fn mm_new() -> (r: multimap::MultiMap<String, usize>)
    ensures
        forall|q: Seq<char>| #![auto] !mm_contents(r).contains_key(q),
{
    multimap::MultiMap::new()
}

/// Relies on multimap::MultiMap::insert: appends the value to the vector
/// stored under the key, starting a one-element vector for a fresh key;
/// other keys are untouched.
#[verifier::external_body]
pub fn mm_insert(m: &mut multimap::MultiMap<String, usize>, k: String, v: usize)
    ensures
        mm_contents(*final(m)).contains_key(k@),
        mm_contents(*final(m))[k@] == if mm_contents(*old(m)).contains_key(k@) {
            mm_contents(*old(m))[k@].push(v)
        } else {
            seq![v]
        },
        forall|q: Seq<char>|
            q != k@ ==> #[trigger] mm_contents(*final(m)).contains_key(q) == mm_contents(
                *old(m),
            ).contains_key(q),
        forall|q: Seq<char>|
            q != k@ && mm_contents(*old(m)).contains_key(q) ==> #[trigger] mm_contents(
                *final(m),
            )[q] == mm_contents(*old(m))[q],
{
    m.insert(k, v);
}

/// Relies on multimap::MultiMap::get_vec: returns a reference to the
/// vector of values stored under the key, if the key is present.
#[verifier::external_body]
pub fn mm_get_vec<'a>(m: &'a multimap::MultiMap<String, usize>, k: &str) -> (r: Option<
    &'a Vec<usize>,
>)
    ensures
        match r {
            Some(v) => mm_contents(*m).contains_key(k@) && v@ == mm_contents(*m)[k@],
            None => !mm_contents(*m).contains_key(k@),
        },
{
    m.get_vec(k)
}

} // verus!
