//! The store of solver results: what the solver found for a deficit and a
//! set of slots is kept and handed out again.

use quick_cache::sync::Cache;
use vstd::prelude::*;

verus! {

/// A result of the solver: the decorations as pairs of a count and a place in
/// the pool, or none.
pub type Answer = Option<Vec<(usize, usize)>>;

/// The store of results, by deficits and slots: a bounded cache that drops
/// what was not asked for lately.
#[verifier::external_body]
pub struct ResultCache {
    inner: Cache<Vec<i64>, Answer>,
}

/// What the store holds: for each key the result that was kept for it.
pub uninterp spec fn cache_entries(
    cache: ResultCache,
) -> Map<Seq<i64>, Option<Seq<(usize, usize)>>>;

/// A store that holds nothing.
pub open spec fn no_entries() -> Map<Seq<i64>, Option<Seq<(usize, usize)>>> {
    Map::empty()
}

/// A result as a plain value.
pub open spec fn result_view(v: Answer) -> Option<Seq<(usize, usize)>> {
    match v {
        Some(a) => Some(a@),
        None => None,
    }
}

/// Makes an empty store for about `capacity` results.
///
/// Trusted: calls `quick_cache::sync::Cache::new`; the claim is that the new
/// store holds nothing.
#[verifier::external_body]
pub(crate) fn cache_new(capacity: usize) -> (r: ResultCache)
    ensures
        cache_entries(r) == no_entries(),
{
    ResultCache { inner: Cache::new(capacity) }
}

/// Looks `key` up.
///
/// Trusted: calls `quick_cache::sync::Cache::get`; the claim is that a
/// result that comes back is the one that the store holds for `key`. The
/// store may have dropped what was kept, so nothing is claimed where none
/// comes back.
#[verifier::external_body]
pub(crate) fn cache_get(cache: &ResultCache, key: &Vec<i64>) -> (r: Option<Answer>)
    ensures
        match r {
            Some(v) => cache_entries(*cache).contains_key(key@) && cache_entries(*cache)[key@]
                == result_view(v),
            None => true,
        },
{
    cache.inner.get(key)
}

/// Keeps `value` for `key`.
///
/// Trusted: calls `quick_cache::sync::Cache::insert`; the claim is that
/// afterwards the store holds nothing but `value` for `key` and what it held
/// before for other keys. It may drop any of these to stay within its
/// capacity.
#[verifier::external_body]
pub(crate) fn cache_insert(
    cache: &mut ResultCache,
    key: Vec<i64>,
    value: Answer,
)
    ensures
        forall|k: Seq<i64>| #[trigger]
            cache_entries(*final(cache)).contains_key(k) ==> (k == key@ && cache_entries(
                *final(cache),
            )[k] == result_view(value)) || (k != key@ && cache_entries(*old(cache)).contains_key(k)
                && cache_entries(*final(cache))[k] == cache_entries(*old(cache))[k]),
{
    cache.inner.insert(key, value);
}

} // verus!
