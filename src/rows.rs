use vstd::prelude::*;
use linked_hash_map::LinkedHashMap;
use crate::geometry::TexRect;

verus! {

/// Identity of a rasterized glyph bitmap, quantized by the cache tolerances:
/// `(font_id, glyph_id, scale_x, scale_y, offset_x, offset_y)`, where the last
/// four are the scale and the sub-pixel offset divided by their tolerance and
/// rounded.
pub type GlyphKey = (usize, u32, u32, u32, u16, u16);

/// A glyph bitmap stored in the atlas.
#[derive(Clone, Copy, Debug)]
pub struct GlyphTexInfo {
    pub glyph_info: GlyphKey,
    /// Sub-pixel offset (in thousandths of a pixel) at which the glyph was rasterized.
    pub offset: (i32, i32),
    /// Texels holding the bitmap (padding included, 4x4 alignment excluded).
    pub tex_coords: TexRect,
}

/// A horizontal strip of the atlas whose top edge is its key in the row table.
#[derive(Clone, Debug)]
pub struct Row {
    /// Row height in texels, fixed when the row is created.
    pub height: u32,
    /// Texels from the left edge taken by glyphs so far.
    pub width: u32,
    pub glyphs: Vec<GlyphTexInfo>,
}

#[verifier::external_type_specification]
#[verifier::external_body]
#[verifier::reject_recursive_types(K)]
#[verifier::reject_recursive_types(V)]
#[verifier::reject_recursive_types(S)]
pub struct ExLinkedHashMap<K, V, S>(LinkedHashMap<K, V, S>);

/// The rows of a cache keyed by their top edge, from least to most recently used.
pub type RowTable = LinkedHashMap<u32, Row>;

/// The entries of a row table in iteration order (least recently used first).
pub uninterp spec fn row_entries(m: RowTable) -> Seq<(u32, Row)>;

/// Some entry of `s` has key `k`.
pub open spec fn has_key(s: Seq<(u32, Row)>, k: u32) -> bool {
    exists|i: int| 0 <= i < s.len() && s[i].0 == k
}

/// The position of the entry with key `k` in `s` (keys of a table are unique).
pub open spec fn key_pos(s: Seq<(u32, Row)>, k: u32) -> int {
    choose|i: int| 0 <= i < s.len() && s[i].0 == k
}

/// The keys of `s`, in order.
pub open spec fn keys_of(s: Seq<(u32, Row)>) -> Seq<u32> {
    s.map_values(|e: (u32, Row)| e.0)
}

/// Relies on `LinkedHashMap::new`: the table starts empty.
#[verifier::external_body]
pub(crate) fn rows_new() -> (m: RowTable)
    ensures
        row_entries(m) == Seq::<(u32, Row)>::empty(),
{
    LinkedHashMap::new()
}

/// Relies on `LinkedHashMap::len`: the number of entries.
#[verifier::external_body]
pub(crate) fn rows_len(m: &RowTable) -> (r: usize)
    ensures
        r == row_entries(*m).len(),
{
    m.len()
}

/// Relies on `LinkedHashMap::keys`: the keys in iteration order.
#[verifier::external_body]
pub(crate) fn rows_keys(m: &RowTable) -> (r: Vec<u32>)
    ensures
        r@ == keys_of(row_entries(*m)),
{
    m.keys().cloned().collect()
}

/// Relies on `LinkedHashMap::get`: the value stored under `k`, if any.
#[verifier::external_body]
pub(crate) fn rows_get<'a>(m: &'a RowTable, k: u32) -> (r: Option<&'a Row>)
    ensures
        has_key(row_entries(*m), k) ==> r == Some(&row_entries(*m)[key_pos(row_entries(*m), k)].1),
        !has_key(row_entries(*m), k) ==> r.is_none(),
{
    m.get(&k)
}

/// Relies on `LinkedHashMap::get_refresh`: the entry under `k`, if any, moves
/// to the most recently used end.
#[verifier::external_body]
pub(crate) fn rows_refresh(m: &mut RowTable, k: u32)
    ensures
        has_key(row_entries(*old(m)), k) ==> row_entries(*final(m)) == row_entries(*old(m)).remove(
            key_pos(row_entries(*old(m)), k),
        ).push(row_entries(*old(m))[key_pos(row_entries(*old(m)), k)]),
        !has_key(row_entries(*old(m)), k) ==> row_entries(*final(m)) == row_entries(*old(m)),
{
    m.get_refresh(&k);
}

/// Relies on `LinkedHashMap::insert`: the entry lands at the most recently used
/// end, replacing an entry with the same key.
#[verifier::external_body]
pub(crate) fn rows_insert(m: &mut RowTable, k: u32, v: Row) -> (r: Option<Row>)
    ensures
        has_key(row_entries(*old(m)), k) ==> row_entries(*final(m)) == row_entries(*old(m)).remove(
            key_pos(row_entries(*old(m)), k),
        ).push((k, v)) && r == Some(row_entries(*old(m))[key_pos(row_entries(*old(m)), k)].1),
        !has_key(row_entries(*old(m)), k) ==> row_entries(*final(m)) == row_entries(*old(m)).push(
            (k, v),
        ) && r.is_none(),
{
    m.insert(k, v)
}

/// Relies on `LinkedHashMap::remove`: takes out the entry under `k`, if any.
#[verifier::external_body]
pub(crate) fn rows_remove(m: &mut RowTable, k: u32) -> (r: Option<Row>)
    ensures
        has_key(row_entries(*old(m)), k) ==> row_entries(*final(m)) == row_entries(*old(m)).remove(
            key_pos(row_entries(*old(m)), k),
        ) && r == Some(row_entries(*old(m))[key_pos(row_entries(*old(m)), k)].1),
        !has_key(row_entries(*old(m)), k) ==> row_entries(*final(m)) == row_entries(*old(m))
            && r.is_none(),
{
    m.remove(&k)
}

/// Relies on `LinkedHashMap::front`: the key of the least recently used entry.
#[verifier::external_body]
pub(crate) fn rows_front_key(m: &RowTable) -> (r: Option<u32>)
    ensures
        row_entries(*m).len() > 0 ==> r == Some(row_entries(*m)[0].0),
        row_entries(*m).len() == 0 ==> r.is_none(),
{
    m.front().map(|e| *e.0)
}

/// Relies on `LinkedHashMap::pop_front`: takes out the least recently used entry.
#[verifier::external_body]
pub(crate) fn rows_pop_front(m: &mut RowTable) -> (r: Option<(u32, Row)>)
    ensures
        row_entries(*old(m)).len() > 0 ==> r == Some(row_entries(*old(m))[0])
            && row_entries(*final(m)) == row_entries(*old(m)).drop_first(),
        row_entries(*old(m)).len() == 0 ==> r.is_none() && row_entries(*final(m)) == row_entries(
            *old(m),
        ),
{
    m.pop_front()
}

/// Relies on `LinkedHashMap::clear`: the table becomes empty.
#[verifier::external_body]
pub(crate) fn rows_clear(m: &mut RowTable)
    ensures
        row_entries(*final(m)) == Seq::<(u32, Row)>::empty(),
{
    m.clear()
}

} // verus!
