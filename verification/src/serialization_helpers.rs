//! Tests for values that need not be written down.

use fxhash::FxHashMap;
use vstd::prelude::*;

verus! {

/// Whether there is no value.
pub fn is_none<T>(opt: &Option<T>) -> (res: bool)
    ensures
        res == (opt is None),
{
    opt.is_none()
}

/// Whether a table is empty.
pub fn is_empty_map<K, V>(opt: &FxHashMap<K, V>) -> (res: bool)
    ensures
        res == opt@.dom().is_empty(),
{
    opt.is_empty()
}

/// Whether a list is empty.
pub fn is_empty_vec<V>(opt: &Vec<V>) -> (res: bool)
    ensures
        res == (opt@.len() == 0),
{
    opt.is_empty()
}

/// `From::from` of a type for itself hands the value back. It is what `Into::into` calls where a
/// number is one of the type that `is_zero` converts to already.
pub assume_specification<Source>[ <Source as std::convert::From<Source>>::from ](
    source: Source,
) -> (res: Source)
    ensures
        res == source,
;

/// Whether a number is zero.
pub fn is_zero<V: Into<isize> + Copy>(opt: &V) -> (res: bool)
    ensures
        exists|v: isize|
            #[trigger] call_ensures(<V as Into<isize>>::into, (*opt,), v) && res == (v == 0),
{
    let v: isize = (*opt).into();
    assert(call_ensures(<V as Into<isize>>::into, (*opt,), v));
    v == 0
}

/// Whether a flag is not set.
pub fn is_false(opt: &bool) -> (res: bool)
    ensures
        res == !*opt,
{
    !*opt
}

/// Zero.
pub fn zero() -> (res: isize)
    ensures
        res == 0,
{
    0
}

} // verus!
