//! Table descriptors: a name plus the key and value types, and no state.
//!
//! The engine refuses an empty table name, so a descriptor can only be built
//! for a non-empty one; every descriptor carries that fact as its type
//! invariant.

use vstd::prelude::*;

use crate::codec::{DbKey, DbValue};

verus! {

/// Names one plain table together with its key and value types.
pub struct TableHandle<K, V> {
    name: String,
    marker: core::marker::PhantomData<(K, V)>,
}

impl<K, V> TableHandle<K, V> {
    /// The table's name.
    pub closed spec fn spec_name(&self) -> Seq<char> {
        self.name@
    }

    /// The name is never empty: the engine panics on an empty table name,
    /// so no descriptor holds one.
    #[verifier::type_invariant]
    pub open spec fn wf(self) -> bool {
        self.spec_name().len() > 0
    }
}

impl<K: DbKey, V: DbValue> TableHandle<K, V> {
    /// A descriptor for the table of this name.
    pub fn new(name: &str) -> (r: Self)
        requires
            name@.len() > 0,
        ensures
            r.spec_name() == name@,
    {
        TableHandle { name: name.to_owned(), marker: core::marker::PhantomData }
    }

    /// The table's name.
    pub fn name(&self) -> (r: &str)
        ensures
            r@ == self.spec_name(),
    {
        self.name.as_str()
    }
}

/// Names one multimap table together with its key and value types. Values
/// carry an order too: a key's value set is reported in ascending order.
pub struct MultimapTableHandle<K, V> {
    name: String,
    marker: core::marker::PhantomData<(K, V)>,
}

impl<K, V> MultimapTableHandle<K, V> {
    /// The table's name.
    pub closed spec fn spec_name(&self) -> Seq<char> {
        self.name@
    }

    /// The name is never empty: the engine panics on an empty table name,
    /// so no descriptor holds one.
    #[verifier::type_invariant]
    pub open spec fn wf(self) -> bool {
        self.spec_name().len() > 0
    }
}

impl<K: DbKey, V: DbKey> MultimapTableHandle<K, V> {
    /// A descriptor for the multimap table of this name.
    pub fn new(name: &str) -> (r: Self)
        requires
            name@.len() > 0,
        ensures
            r.spec_name() == name@,
    {
        MultimapTableHandle { name: name.to_owned(), marker: core::marker::PhantomData }
    }

    /// The table's name.
    pub fn name(&self) -> (r: &str)
        ensures
            r@ == self.spec_name(),
    {
        self.name.as_str()
    }
}

} // verus!
