//! The concurrent hash map of the `dashmap` crate, as a type that the
//! library's structures can hold.

use vstd::prelude::*;

verus! {

/// `dashmap::DashMap`, a sharded concurrent hash map. Its contents are named
/// per instantiation by the modules that hold one.
#[verifier::external_type_specification]
#[verifier::external_body]
#[verifier::reject_recursive_types(K)]
#[verifier::reject_recursive_types(V)]
#[verifier::reject_recursive_types(S)]
pub struct ExDashMap<K, V, S>(dashmap::DashMap<K, V, S>);

} // verus!
