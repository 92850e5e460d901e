//! The hash map of the `hashbrown` crate, from 64-bit keys to 64-bit values.

use vstd::prelude::*;

verus! {

/// A `hashbrown::HashMap<u64, u64>` with the crate's default hasher.
#[verifier::external_body]
pub struct IdTable {
    inner: hashbrown::HashMap<u64, u64>,
}

/// The key-value pairs that a table holds.
pub uninterp spec fn table_entries(table: &IdTable) -> Map<u64, u64>;

impl View for IdTable {
    type V = Map<u64, u64>;

    open spec fn view(&self) -> Map<u64, u64> {
        table_entries(self)
    }
}

/// `HashMap::new`: a table that holds nothing.
#[verifier::external_body]
pub(crate) fn table_new() -> (table: IdTable)
    ensures
        table_entries(&table) == (Map::<u64, u64>::empty()),
{
    IdTable { inner: hashbrown::HashMap::new() }
}

/// `HashMap::len`: the number of keys in the table.
#[verifier::external_body]
pub(crate) fn table_len(table: &IdTable) -> (n: usize)
    ensures
        n == table_entries(table).dom().len(),
{
    table.inner.len()
}

/// `HashMap::get`: the value stored under the key, or `None` where the key is absent.
#[verifier::external_body]
pub(crate) fn table_get(table: &IdTable, key: u64) -> (value: Option<u64>)
    ensures
        value == (if table_entries(table).contains_key(key) {
            Some(table_entries(table)[key])
        } else {
            None
        }),
{
    table.inner.get(&key).copied()
}

/// `HashMap::insert`: the key now maps to the value, every other key is as before;
/// returns what the key mapped to before, if anything.
#[verifier::external_body]
pub(crate) fn table_insert(table: &mut IdTable, key: u64, value: u64) -> (previous: Option<u64>)
    ensures
        table_entries(final(table)) == table_entries(old(table)).insert(key, value),
        previous == (if table_entries(old(table)).contains_key(key) {
            Some(table_entries(old(table))[key])
        } else {
            None
        }),
{
    table.inner.insert(key, value)
}

/// `HashMap::remove`: the key is absent afterwards, every other key is as before;
/// returns what the key mapped to before, if anything.
#[verifier::external_body]
pub(crate) fn table_remove(table: &mut IdTable, key: u64) -> (previous: Option<u64>)
    ensures
        table_entries(final(table)) == table_entries(old(table)).remove(key),
        previous == (if table_entries(old(table)).contains_key(key) {
            Some(table_entries(old(table))[key])
        } else {
            None
        }),
{
    table.inner.remove(&key)
}

} // verus!
