//! Hash maps and sets keyed by symbol, on the `rustc_hash` hasher.
//!
//! The maps themselves are trusted: each function here makes one call into them and states what it
//! does to their contents.

use rustc_hash::{FxHashMap, FxHashSet};
use vstd::prelude::*;

verus! {

/// `rustc_hash::FxBuildHasher`, which the maps and sets below carry as their hasher. Nothing is
/// claimed of it.
#[verifier::external_type_specification]
#[verifier::external_body]
pub struct ExFxBuildHasher(rustc_hash::FxBuildHasher);

/// The interner's table: from a name to its id.
pub type SymbolTable<'src> = FxHashMap<&'src str, u32>;

/// The names a symbol table holds, each with its id.
pub uninterp spec fn interned(table: SymbolTable) -> Map<Seq<char>, u32>;

/// `FxHashMap::default`: a table that holds nothing.
#[verifier::external_body]
pub(crate) fn symbol_table<'src>() -> (table: SymbolTable<'src>)
    ensures
        (interned(table) == Map::<Seq<char>, u32>::empty()),
{
    FxHashMap::default()
}

/// `HashMap::get` on a symbol table: the id of a name, if the table holds it.
#[verifier::external_body]
pub(crate) fn symbol_get(table: &SymbolTable, name: &str) -> (id: Option<u32>)
    ensures
        id == (if interned(*table).contains_key(name@) {
            Some(interned(*table)[name@])
        } else {
            None
        }),
{
    table.get(name).copied()
}

/// `HashMap::insert` on a symbol table: from now on the name has this id.
#[verifier::external_body]
pub(crate) fn symbol_insert<'src>(
    table: &mut SymbolTable<'src>,
    name: &'src str,
    id: u32,
)
    ensures
        interned(*final(table)) == interned(*old(table)).insert(name@, id),
{
    table.insert(name, id);
}

/// A set of symbols, by number.
pub type SymbolSet = FxHashSet<u32>;

/// `FxHashSet::default`: a set that holds nothing.
#[verifier::external_body]
pub(crate) fn symbol_set() -> (set: SymbolSet)
    ensures
        set@ == Set::<u32>::empty(),
{
    FxHashSet::default()
}

/// `HashSet::insert` on a set of symbols: the symbol is in the set from now on, and the result says
/// whether it was not before.
#[verifier::external_body]
pub(crate) fn set_insert(set: &mut SymbolSet, sym: u32) -> (fresh: bool)
    ensures
        final(set)@ == old(set)@.insert(sym),
        fresh == !old(set)@.contains(sym),
{
    set.insert(sym)
}

/// `HashSet::contains` on a set of symbols.
#[verifier::external_body]
pub(crate) fn set_contains(set: &SymbolSet, sym: u32) -> (r: bool)
    ensures
        r == set@.contains(sym),
{
    set.contains(&sym)
}

/// `HashSet::remove` on a set of symbols: the symbol is not in the set from now on, and the result
/// says whether it was before.
#[verifier::external_body]
pub(crate) fn set_remove(set: &mut SymbolSet, sym: u32) -> (was_there: bool)
    ensures
        final(set)@ == old(set)@.remove(sym),
        was_there == old(set)@.contains(sym),
{
    set.remove(&sym)
}

/// `HashSet::iter` on a set of symbols: each of its symbols once, in no particular order.
#[verifier::external_body]
pub(crate) fn set_items(set: &SymbolSet) -> (items: Vec<u32>)
    ensures
        items@.no_duplicates(),
        items@.to_set() == set@,
{
    set.iter().copied().collect()
}

/// A map keyed by symbol number.
pub type SymbolMap<V> = FxHashMap<u32, V>;

/// `FxHashMap::default`: a map that holds nothing.
#[verifier::external_body]
pub(crate) fn symbol_map<V>() -> (map: SymbolMap<V>)
    ensures
        (map@ == Map::<u32, V>::empty()),
{
    FxHashMap::default()
}

/// `HashMap::get` on a map keyed by symbol: the value of a symbol, if the map holds one.
#[verifier::external_body]
pub(crate) fn map_get<V>(map: &SymbolMap<V>, sym: u32) -> (value: Option<&V>)
    ensures
        match value {
            Some(found) => map@.contains_key(sym) && *found == map@[sym],
            None => !map@.contains_key(sym),
        },
{
    map.get(&sym)
}

/// `HashMap::insert` on a map keyed by symbol: from now on the symbol has this value.
#[verifier::external_body]
pub(crate) fn map_insert<V>(map: &mut SymbolMap<V>, sym: u32, value: V)
    ensures
        final(map)@ == old(map)@.insert(sym, value),
{
    map.insert(sym, value);
}

} // verus!
