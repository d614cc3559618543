use vstd::prelude::*;
use hashbrown::{HashMap, HashSet};
use hashbrown::hash_map::DefaultHashBuilder;
use crate::rows::GlyphKey;

verus! {

#[verifier::external_type_specification]
#[verifier::external_body]
#[verifier::reject_recursive_types(K)]
#[verifier::reject_recursive_types(V)]
#[verifier::reject_recursive_types(S)]
pub struct ExHashMap<K, V, S>(HashMap<K, V, S>);

#[verifier::external_type_specification]
#[verifier::external_body]
#[verifier::reject_recursive_types(T)]
#[verifier::reject_recursive_types(S)]
pub struct ExHashSet<T, S>(HashSet<T, S>);

#[verifier::external_type_specification]
#[verifier::external_body]
pub struct ExDefaultHashBuilder(DefaultHashBuilder);

/// Free vertical bands of the atlas, keyed by one edge and mapping to the other.
pub type BandTable = HashMap<u32, u32, DefaultHashBuilder>;

/// Where each resident glyph lives: key to `(row top, index in row)`.
pub type GlyphTable = HashMap<GlyphKey, (u32, u32), DefaultHashBuilder>;

/// A set of row tops.
pub type RowSet = HashSet<u32, DefaultHashBuilder>;

/// Band edge to band edge.
pub type BandMap = Map<u32, u32>;

/// Glyph key to `(row top, index in row)`.
pub type GlyphMap = Map<GlyphKey, (u32, u32)>;

/// The contents of a band table.
pub uninterp spec fn band_contents(m: BandTable) -> BandMap;

/// The contents of a glyph table.
pub uninterp spec fn glyph_contents(m: GlyphTable) -> GlyphMap;

/// The contents of a row set.
pub uninterp spec fn row_set_contents(s: RowSet) -> Set<u32>;

/// Relies on `hashbrown::HashMap::new`: the map starts empty.
#[verifier::external_body]
pub(crate) fn band_new() -> (m: BandTable)
    ensures
        band_contents(m) == BandMap::empty(),
{
    HashMap::new()
}

/// Relies on `hashbrown::HashMap::insert`: `k` maps to `v` afterwards.
#[verifier::external_body]
pub(crate) fn band_insert(m: &mut BandTable, k: u32, v: u32)
    ensures
        band_contents(*final(m)) == band_contents(*old(m)).insert(k, v),
{
    m.insert(k, v);
}

/// Relies on `hashbrown::HashMap::remove`: takes out the value under `k`, if any.
#[verifier::external_body]
pub(crate) fn band_remove(m: &mut BandTable, k: u32) -> (r: Option<u32>)
    ensures
        band_contents(*final(m)) == band_contents(*old(m)).remove(k),
        band_contents(*old(m)).contains_key(k) ==> r == Some(band_contents(*old(m))[k]),
        !band_contents(*old(m)).contains_key(k) ==> r.is_none(),
{
    m.remove(&k)
}

/// Relies on `hashbrown::HashMap::clear`: the map becomes empty.
#[verifier::external_body]
pub(crate) fn band_clear(m: &mut BandTable)
    ensures
        band_contents(*final(m)) == BandMap::empty(),
{
    m.clear()
}

/// Relies on `hashbrown::HashMap::iter`: every entry once, in an order that
/// the hasher decides.
#[verifier::external_body]
pub(crate) fn band_entries(m: &BandTable) -> (r: Vec<(u32, u32)>)
    ensures
        r@.no_duplicates(),
        forall|i: int|
            0 <= i < r@.len() ==> #[trigger] band_contents(*m).contains_key(r@[i].0)
                && band_contents(*m)[r@[i].0] == r@[i].1,
        forall|k: u32|
            #[trigger] band_contents(*m).contains_key(k) ==> r@.contains(
                (k, band_contents(*m)[k]),
            ),
{
    m.iter().map(|e| (*e.0, *e.1)).collect()
}

/// Relies on `hashbrown::HashMap::new`: the map starts empty.
#[verifier::external_body]
pub(crate) fn glyph_table_new() -> (m: GlyphTable)
    ensures
        glyph_contents(m) == GlyphMap::empty(),
{
    HashMap::new()
}

/// Relies on `hashbrown::HashMap::get`: the value under `k`, if any.
#[verifier::external_body]
pub(crate) fn glyph_table_get(m: &GlyphTable, k: &GlyphKey) -> (r: Option<(u32, u32)>)
    ensures
        glyph_contents(*m).contains_key(*k) ==> r == Some(glyph_contents(*m)[*k]),
        !glyph_contents(*m).contains_key(*k) ==> r.is_none(),
{
    m.get(k).copied()
}

/// Relies on `hashbrown::HashMap::insert`: `k` maps to `v` afterwards.
#[verifier::external_body]
pub(crate) fn glyph_table_insert(m: &mut GlyphTable, k: GlyphKey, v: (u32, u32))
    ensures
        glyph_contents(*final(m)) == glyph_contents(*old(m)).insert(k, v),
{
    m.insert(k, v);
}

/// Relies on `hashbrown::HashMap::remove`: `k` is absent afterwards.
#[verifier::external_body]
pub(crate) fn glyph_table_remove(m: &mut GlyphTable, k: &GlyphKey)
    ensures
        glyph_contents(*final(m)) == glyph_contents(*old(m)).remove(*k),
{
    m.remove(k);
}

/// Relies on `hashbrown::HashMap::clear`: the map becomes empty.
#[verifier::external_body]
pub(crate) fn glyph_table_clear(m: &mut GlyphTable)
    ensures
        glyph_contents(*final(m)) == GlyphMap::empty(),
{
    m.clear()
}

/// Relies on `hashbrown::HashSet::new`: the set starts empty.
#[verifier::external_body]
pub(crate) fn row_set_new() -> (s: RowSet)
    ensures
        row_set_contents(s) == Set::<u32>::empty(),
{
    HashSet::new()
}

/// Relies on `hashbrown::HashSet::insert`: `k` is a member afterwards.
#[verifier::external_body]
pub(crate) fn row_set_insert(s: &mut RowSet, k: u32)
    ensures
        row_set_contents(*final(s)) == row_set_contents(*old(s)).insert(k),
{
    s.insert(k);
}

/// Relies on `hashbrown::HashSet::contains`: whether `k` is a member.
#[verifier::external_body]
pub(crate) fn row_set_contains(s: &RowSet, k: u32) -> (r: bool)
    ensures
        r == row_set_contents(*s).contains(k),
{
    s.contains(&k)
}

} // verus!
