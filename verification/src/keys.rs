//! What the map asks of its key type.

use vstd::prelude::*;
use vstd::std_specs::hash::obeys_key_model;

verus! {

/// Keys of type `K` can be trusted: hashing and `==` agree with equality of
/// values, and a clone of a key is the key.
pub open spec fn faithful_keys<K: Clone>() -> bool {
    &&& obeys_key_model::<K>()
    &&& forall|a: K, b: K| #[trigger] cloned(a, b) ==> a == b
}

/// A second copy of `key`, for the index.
pub(crate) fn copy_key<K: Clone>(key: &K) -> (copy: K)
    requires
        faithful_keys::<K>(),
    ensures
        copy == *key,
{
    let copy = key.clone();
    assert(cloned(*key, copy));
    copy
}

} // verus!
