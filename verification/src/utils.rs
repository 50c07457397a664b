//! Small collection helpers: lookups that return a proper error instead
//! of an `Option`.

use std::collections::HashMap;

use vstd::prelude::*;
use vstd::std_specs::cmp::PartialEqSpec;

verus! {

broadcast use vstd::std_specs::hash::group_hash_axioms;

/// What a helper reports when a lookup fails.
#[derive(Debug, PartialEq, Eq)]
pub enum UtilError {
    /// The key was not in the map; it is carried rendered, for messages.
    KeyNotFound { key_str: String },
    /// The index fell outside the collection.
    OutOfBounds { index: usize, collection_name: String, len: usize },
    /// No element of the collection matched; both are carried rendered.
    IndexOfFailed { elt_str: String, collection_str: String },
}

pub type UtilResult<T> = Result<T, UtilError>;

/// Relies on the standard formatter: renders a value through its
/// `Debug` implementation, for error messages only.
#[verifier::external_body]
fn debug_string<T: core::fmt::Debug + ?Sized>(value: &T) -> String {
    format!("{:?}", value)
}

/// Map lookup that returns a result with a proper error in place of an
/// option.
pub fn map_get<'a, K: core::hash::Hash + core::cmp::Eq + core::fmt::Debug, V>(
    hash_map: &'a HashMap<K, V>,
    key: &K,
) -> (r: UtilResult<&'a V>)
    requires
        vstd::std_specs::hash::obeys_key_model::<K>(),
    ensures
        hash_map@.contains_key(*key) ==> (r matches Ok(v) && *v == hash_map@[*key]),
        !hash_map@.contains_key(*key) ==> (r matches Err(e) && e is KeyNotFound),
{
    let value = hash_map.get(key);
    match value {
        Option::Some(v) => Ok(v),
        Option::None => Err(UtilError::KeyNotFound { key_str: debug_string(key) }),
    }
}

/// The position of the first element equal to `elt`, or a proper error
/// when none is.
#[verifier::loop_isolation(false)]
pub fn index_of<T: core::cmp::Eq + core::fmt::Debug>(elt: T, slice: &[T]) -> (r: UtilResult<
    usize,
>)
    ensures
        T::obeys_eq_spec() ==> match r {
            Ok(i) => 0 <= i < slice@.len() && slice@[i as int].eq_spec(&elt) && forall|j: int|
                0 <= j < i ==> !(#[trigger] slice@[j]).eq_spec(&elt),
            Err(e) => e is IndexOfFailed && forall|j: int|
                0 <= j < slice@.len() ==> !(#[trigger] slice@[j]).eq_spec(&elt),
        },
{
    let n = slice.len();
    let mut i: usize = 0;
    while i < n
        invariant
            0 <= i <= n == slice@.len(),
            T::obeys_eq_spec() ==> forall|j: int|
                0 <= j < i ==> !(#[trigger] slice@[j]).eq_spec(&elt),
        decreases n - i,
    {
        if slice[i] == elt {
            return Ok(i);
        }
        i = i + 1;
    }
    let elt_str = debug_string(&elt);
    let collection_str = debug_string(slice);
    Err(UtilError::IndexOfFailed { elt_str, collection_str })
}

/// Slice lookup that returns a result with a proper error in place of
/// an option.
pub fn slice_get<'a, T>(index: usize, slice: &'a [T]) -> (r: UtilResult<&'a T>)
    ensures
        index < slice@.len() ==> (r matches Ok(v) && *v == slice@[index as int]),
        index >= slice@.len() ==> (r matches Err(e) && (e matches UtilError::OutOfBounds {
            index: i,
            len,
            ..
        } && i == index && len == slice@.len())),
{
    if index < slice.len() {
        Ok(&slice[index])
    } else {
        Err(
            UtilError::OutOfBounds {
                index,
                collection_name: "Slice".to_string(),
                len: slice.len(),
            },
        )
    }
}

/// Mutable vector lookup that returns a result with a proper error in
/// place of an option.
pub fn slice_get_mut<'a, T>(index: usize, slice: &'a mut Vec<T>) -> (r: UtilResult<&'a mut T>)
    ensures
        index < old(slice)@.len() ==> r is Ok,
        index >= old(slice)@.len() ==> (r matches Err(e) && (e matches UtilError::OutOfBounds {
            index: i,
            len,
            ..
        } && i == index && len == old(slice)@.len()) && final(slice)@ == old(slice)@),
        r matches Ok(v) ==> *v == old(slice)@[index as int] && final(slice)@ == old(
            slice,
        )@.update(index as int, *final(v)),
{
    let slice_len = slice.len();
    if index < slice_len {
        Ok(&mut slice[index])
    } else {
        Err(
            UtilError::OutOfBounds {
                index,
                collection_name: "Slice".to_string(),
                len: slice_len,
            },
        )
    }
}

/// The position of the first element equal to `elt`, together with the
/// last position of the unbroken run of equal elements that starts
/// there; a proper error when no element matches.
pub fn first_last_index_of<T: core::cmp::Eq + core::fmt::Debug>(elt: T, slice: &[T]) -> (r:
    UtilResult<(usize, usize)>)
    ensures
        T::obeys_eq_spec() ==> match r {
            Ok(pair) => {
                let first = pair.0;
                let last = pair.1;
                &&& 0 <= first <= last < slice@.len()
                &&& forall|j: int| 0 <= j < first ==> !(#[trigger] slice@[j]).eq_spec(&elt)
                &&& forall|j: int|
                    first <= j <= last ==> (#[trigger] slice@[j]).eq_spec(&elt)
                &&& (last == slice@.len() - 1 || !slice@[last + 1].eq_spec(&elt))
            },
            Err(e) => e is IndexOfFailed && forall|j: int|
                0 <= j < slice@.len() ==> !(#[trigger] slice@[j]).eq_spec(&elt),
        },
{
    let mut first_index_opt: Option<usize> = None;
    let mut last_index_opt: Option<usize> = None;

    let n = slice.len();
    let mut index: usize = 0;
    while index < n
        invariant
            0 <= index <= n == slice@.len(),
            first_index_opt is Some <==> last_index_opt is Some,
            T::obeys_eq_spec() ==> match (first_index_opt, last_index_opt) {
                (Some(first), Some(last)) => {
                    &&& 0 <= first <= last < index
                    &&& last == index - 1
                    &&& forall|j: int| 0 <= j < first ==> !(#[trigger] slice@[j]).eq_spec(&elt)
                    &&& forall|j: int|
                        first <= j <= last ==> (#[trigger] slice@[j]).eq_spec(&elt)
                },
                _ => forall|j: int| 0 <= j < index ==> !(#[trigger] slice@[j]).eq_spec(&elt),
            },
        ensures
            first_index_opt is Some <==> last_index_opt is Some,
            T::obeys_eq_spec() ==> match (first_index_opt, last_index_opt) {
                (Some(first), Some(last)) => {
                    &&& 0 <= first <= last < slice@.len()
                    &&& forall|j: int| 0 <= j < first ==> !(#[trigger] slice@[j]).eq_spec(&elt)
                    &&& forall|j: int|
                        first <= j <= last ==> (#[trigger] slice@[j]).eq_spec(&elt)
                    &&& (last == slice@.len() - 1 || !slice@[last + 1].eq_spec(&elt))
                },
                _ => forall|j: int| 0 <= j < slice@.len() ==> !(#[trigger] slice@[j]).eq_spec(
                    &elt,
                ),
            },
        decreases n - index,
    {
        let list_elt = &slice[index];
        if *list_elt == elt {
            if first_index_opt.is_none() {
                first_index_opt = Some(index);
                last_index_opt = Some(index);
            } else {
                last_index_opt = Some(index);
            }
        } else if last_index_opt.is_some() {
            break;
        }
        index = index + 1;
    }

    if first_index_opt.is_some() && last_index_opt.is_some() {
        let first_index = first_index_opt.unwrap();
        let last_index = last_index_opt.unwrap();
        Ok((first_index, last_index))
    } else {
        let elt_str = debug_string(&elt);
        let collection_str = debug_string(slice);
        Err(UtilError::IndexOfFailed { elt_str, collection_str })
    }
}

} // verus!
