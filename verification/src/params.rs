//! The path parameters of a request, held in a `heapless::FnvIndexMap` of at
//! most eight entries, and the operations on it that routing uses.
use vstd::prelude::*;
use heapless::{FnvIndexMap, IndexMap};

verus! {

#[verifier::external_type_specification]
#[verifier::external_body]
#[verifier::reject_recursive_types(K)]
#[verifier::reject_recursive_types(V)]
#[verifier::reject_recursive_types(S)]
pub struct ExIndexMap<K, V, S, const N: usize>(IndexMap<K, V, S, N>);

#[verifier::external_type_specification]
#[verifier::external_body]
#[verifier::reject_recursive_types(H)]
pub struct ExBuildHasherDefault<H>(hash32::BuildHasherDefault<H>);

#[verifier::external_type_specification]
#[verifier::external_body]
pub struct ExFnvHasher(hash32::FnvHasher);

/// The parameters of a request: parameter name to the path segment it matched; at most
/// eight are held.
pub type Params<'a> = FnvIndexMap<&'a str, &'a str, 8>;

/// What a parameter map holds: each name's text mapped to its value's text.
pub uninterp spec fn param_map(m: FnvIndexMap<&str, &str, 8>) -> Map<Seq<char>, Seq<char>>;

/// The empty parameter map.
pub open spec fn no_params() -> Map<Seq<char>, Seq<char>> {
    Map::empty()
}

/// An empty parameter map (`FnvIndexMap::new`).
#[verifier::external_body]
pub(crate) fn params_new<'a>() -> (r: Params<'a>)
    ensures
        param_map(r) == no_params(),
{
    FnvIndexMap::new()
}

/// The value stored under `key` (`IndexMap::get`, the stored `&str` copied out).
#[verifier::external_body]
pub(crate) fn params_get<'a>(m: &Params<'a>, key: &str) -> (r: Option<&'a str>)
    ensures
        r is Some <==> param_map(*m).dom().contains(key@),
        r matches Some(v) ==> v@ == param_map(*m)[key@],
{
    m.get(key).copied()
}

/// Stores `value` under `key` (`IndexMap::insert`). A key already present keeps its
/// place and gets the new value, and the old value is returned; a new key is stored
/// while fewer than eight are held; when eight are held a new key is refused and the
/// pair is handed back, the map unchanged.
#[verifier::external_body]
pub(crate) fn params_insert<'a>(m: &mut Params<'a>, key: &'a str, value: &'a str) -> (r: Result<
    Option<&'a str>,
    (&'a str, &'a str),
>)
    ensures
        param_map(*old(m)).dom().contains(key@) ==> (r matches Ok(Some(o)) && o@ == param_map(
            *old(m),
        )[key@] && param_map(*final(m)) == param_map(*old(m)).insert(key@, value@)),
        !param_map(*old(m)).dom().contains(key@) && param_map(*old(m)).dom().len() < 8 ==> (
        r matches Ok(None) && param_map(*final(m)) == param_map(*old(m)).insert(key@, value@)),
        !param_map(*old(m)).dom().contains(key@) && param_map(*old(m)).dom().len() >= 8 ==> (
        r matches Err((k, v)) && k@ == key@ && v@ == value@ && param_map(*final(m)) == param_map(
            *old(m),
        )),
{
    m.insert(key, value)
}

} // verus!
