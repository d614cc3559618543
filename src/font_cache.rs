use vstd::prelude::*;
use crate::geometry::{PixelRect, TexRect};
use crate::rows::{
    GlyphKey, GlyphTexInfo, Row, RowTable, has_key, key_pos, keys_of, row_entries, rows_new,
    rows_clear, rows_len, rows_keys, rows_get, rows_refresh, rows_insert, rows_remove,
    rows_front_key, rows_pop_front,
};
use crate::ledger::{
    row_map, row_has, band_has, covered, rows_disjoint, ledger_wf, tiled, row_glyphs_wf, index_wf,
    carved_free, carved_rev, without_row, row_fits, lemma_key_pos, lemma_row_map_remove,
    lemma_row_map_push, lemma_row_map_refresh, lemma_free_row, lemma_carve_row,
};
use crate::tables::{
    BandMap, BandTable, GlyphMap, GlyphTable, RowSet, band_contents, glyph_contents,
    row_set_contents, band_new, band_insert, band_remove, band_clear, band_entries,
    glyph_table_new, glyph_table_get, glyph_table_insert, glyph_table_remove, glyph_table_clear,
    row_set_new, row_set_insert, row_set_contains,
};

verus! {

/// Tolerances are counted in thousandths of a pixel; this is the smallest allowed.
pub const MIN_TOLERANCE: u32 = 1;

/// Thousandths in one pixel.
pub const SUBPIXEL: i64 = 1000;

/// Returned from `Cache::rect_for`.
#[derive(Copy, Clone, Debug, PartialEq, Eq, Structural, Hash, PartialOrd, Ord)]
pub enum CacheReadErr {
    /// The requested glyph is not present in the cache.
    GlyphNotCached,
}

impl CacheReadErr {
    pub fn description(&self) -> (r: &'static str)
        ensures
            r@ == "Glyph not cached"@,
    {
        match *self {
            CacheReadErr::GlyphNotCached => "Glyph not cached",
        }
    }
}

/// Returned from `Cache::cache_glyphs`.
#[derive(Copy, Clone, Debug, PartialEq, Eq, Structural, Hash, PartialOrd, Ord)]
pub enum CacheWriteErr {
    /// At least one requested glyph is too big to fit into the cache, even
    /// if all other glyphs are removed.
    GlyphTooLarge,
    /// Not all of the requested glyphs can fit into the cache, even if the
    /// cache is completely cleared before the attempt.
    NoRoomForWholeQueue,
}

impl CacheWriteErr {
    pub fn description(&self) -> (r: &'static str)
        ensures
            *self == CacheWriteErr::GlyphTooLarge ==> r@ == "Glyph too large"@,
            *self == CacheWriteErr::NoRoomForWholeQueue ==> r@ == "No room for whole queue"@,
    {
        match *self {
            CacheWriteErr::GlyphTooLarge => "Glyph too large",
            CacheWriteErr::NoRoomForWholeQueue => "No room for whole queue",
        }
    }
}

/// How a successful `cache_glyphs` call fit its batch.
#[derive(Copy, Clone, Debug, PartialEq, Eq, Structural, Hash, PartialOrd, Ord)]
pub enum CachedBy {
    /// Any additional glyphs were added without moving the glyphs of the batch
    /// that were already cached. Glyphs outside the batch may have been removed.
    Adding,
    /// The batch was fit by clearing the cache and packing it anew. Earlier
    /// texture positions are no longer valid.
    Reordering,
}

/// One glyph that should be resident in the atlas.
///
/// Scales and positions are counted in thousandths of a pixel.
#[derive(Copy, Clone, Debug, PartialEq, Eq)]
pub struct GlyphRequest {
    pub font_id: usize,
    pub glyph_id: u32,
    pub scale: (u32, u32),
    pub position: (i32, i32),
    /// Pixel bounding box of the positioned glyph; `None` for a glyph with no shape.
    pub bbox: Option<PixelRect>,
}

impl GlyphRequest {
    /// The glyph has pixels to store.
    pub open spec fn has_shape(&self) -> bool {
        match self.bbox {
            Some(b) => !b.spec_is_empty(),
            None => false,
        }
    }

    pub open spec fn bbox_width(&self) -> int {
        self.bbox.unwrap().spec_width()
    }

    pub open spec fn bbox_height(&self) -> int {
        self.bbox.unwrap().spec_height()
    }

    /// Whether the glyph has pixels to store.
    pub fn is_drawable(&self) -> (r: bool)
        ensures
            r == self.has_shape(),
    {
        match self.bbox {
            Some(b) => b.min_x < b.max_x && b.min_y < b.max_y,
            None => false,
        }
    }
}

/// Where a newly cached glyph must be rasterized: the texels reserved for it
/// (alignment included) and the index of its request in the batch.
#[derive(Copy, Clone, Debug, PartialEq, Eq)]
pub struct Placement {
    pub rect: TexRect,
    pub request: usize,
}

/// Where a cached glyph lives.
#[derive(Copy, Clone, Debug, PartialEq, Eq)]
pub struct CachedRect {
    /// The glyph's texels in the atlas, without padding.
    pub tex_rect: TexRect,
    /// Sub-pixel offset (thousandths of a pixel) at which the bitmap was rasterized.
    pub offset: (i32, i32),
}

/// `n / d` rounded to the nearest integer, halves rounded up.
pub open spec fn round_div(n: int, d: int) -> int {
    (2 * n + d) / (2 * d)
}

/// A rounded quotient is no larger than the dividend.
proof fn lemma_round_div_le(n: int, d: int)
    requires
        n >= 0,
        d >= 1,
    ensures
        0 <= round_div(n, d) <= n,
{
    let x = 2 * n + d;
    let q = x / (2 * d);
    let r = x % (2 * d);
    vstd::arithmetic::div_mod::lemma_fundamental_div_mod(x, 2 * d);
    vstd::arithmetic::div_mod::lemma_mod_bound(x, 2 * d);
    assert(0 <= q <= n) by (nonlinear_arith)
        requires
            x == 2 * d * q + r,
            0 <= r < 2 * d,
            x == 2 * n + d,
            n >= 0,
            d >= 1,
    ;
}

/// The fractional part of `p / SUBPIXEL` (in thousandths) with the sign of `p`.
pub open spec fn trunc_fract(p: int) -> int {
    if p >= 0 {
        p % 1000
    } else {
        -((-p) % 1000)
    }
}

/// The sub-pixel offset of position `p`, brought into `[-500, 500]`.
pub open spec fn normalised_offset(p: int) -> int {
    let f = trunc_fract(p);
    if f > 500 {
        f - 1000
    } else if f < -500 {
        f + 1000
    } else {
        f
    }
}

/// Sub-pixel offset of a position, in thousandths of a pixel within `[-500, 500]`.
pub fn normalised_offset_from_position(position: (i32, i32)) -> (r: (i32, i32))
    ensures
        r.0 == normalised_offset(position.0 as int),
        r.1 == normalised_offset(position.1 as int),
        -500 <= r.0 <= 500,
        -500 <= r.1 <= 500,
{
    (normalised_axis(position.0), normalised_axis(position.1))
}

fn normalised_axis(p: i32) -> (r: i32)
    ensures
        r == normalised_offset(p as int),
        -500 <= r <= 500,
{
    let q = p as i64;
    let f: i64 = if q >= 0 {
        q % SUBPIXEL
    } else {
        -((-q) % SUBPIXEL)
    };
    if f > 500 {
        (f - 1000) as i32
    } else if f < -500 {
        (f + 1000) as i32
    } else {
        f as i32
    }
}

/// Construction parameters of a `Cache`. Tolerances are in thousandths of a pixel.
#[derive(Clone, Copy, Debug, PartialEq, Eq)]
pub struct CacheBuilder {
    pub dimensions: (u32, u32),
    pub scale_tolerance: u32,
    pub position_tolerance: u32,
    pub pad_glyphs: bool,
    pub align_4x4: bool,
}

impl Default for CacheBuilder {
    fn default() -> (r: Self)
        ensures
            r.dimensions == (256u32, 256u32),
            r.scale_tolerance == 100,
            r.position_tolerance == 100,
            r.pad_glyphs,
            !r.align_4x4,
    {
        CacheBuilder {
            dimensions: (256, 256),
            scale_tolerance: 100,
            position_tolerance: 100,
            pad_glyphs: true,
            align_4x4: false,
        }
    }
}

impl CacheBuilder {
    /// Width and height of the atlas texture.
    pub fn dimensions(self, width: u32, height: u32) -> (r: Self)
        ensures
            r == (CacheBuilder { dimensions: (width, height), ..self }),
    {
        CacheBuilder { dimensions: (width, height), ..self }
    }

    /// Largest scale difference (thousandths of a pixel) between glyphs that may
    /// share one bitmap.
    pub fn scale_tolerance(self, scale_tolerance: u32) -> (r: Self)
        ensures
            r == (CacheBuilder { scale_tolerance, ..self }),
    {
        CacheBuilder { scale_tolerance, ..self }
    }

    /// Largest sub-pixel offset difference (thousandths of a pixel) between
    /// glyphs that may share one bitmap.
    pub fn position_tolerance(self, position_tolerance: u32) -> (r: Self)
        ensures
            r == (CacheBuilder { position_tolerance, ..self }),
    {
        CacheBuilder { position_tolerance, ..self }
    }

    /// Surround each glyph with one transparent texel.
    pub fn pad_glyphs(self, pad_glyphs: bool) -> (r: Self)
        ensures
            r == (CacheBuilder { pad_glyphs, ..self }),
    {
        CacheBuilder { pad_glyphs, ..self }
    }

    /// Align glyphs to 4x4 texel boundaries.
    pub fn align_4x4(self, align_4x4: bool) -> (r: Self)
        ensures
            r == (CacheBuilder { align_4x4, ..self }),
    {
        CacheBuilder { align_4x4, ..self }
    }

    pub open spec fn spec_validated(self) -> CacheBuilder {
        CacheBuilder {
            scale_tolerance: if self.scale_tolerance < MIN_TOLERANCE {
                MIN_TOLERANCE
            } else {
                self.scale_tolerance
            },
            position_tolerance: if self.position_tolerance < MIN_TOLERANCE {
                MIN_TOLERANCE
            } else {
                self.position_tolerance
            },
            ..self
        }
    }

    /// The builder with both tolerances raised to at least `MIN_TOLERANCE`.
    fn validated(self) -> (r: Self)
        ensures
            r == self.spec_validated(),
    {
        let scale_tolerance = if self.scale_tolerance < MIN_TOLERANCE {
            MIN_TOLERANCE
        } else {
            self.scale_tolerance
        };
        let position_tolerance = if self.position_tolerance < MIN_TOLERANCE {
            MIN_TOLERANCE
        } else {
            self.position_tolerance
        };
        CacheBuilder { scale_tolerance, position_tolerance, ..self }
    }

    /// An empty cache with these parameters.
    pub fn build(self) -> (c: Cache)
        ensures
            c.wf(),
            c.config() == self.spec_validated(),
            c.is_clear(),
    {
        let v = self.validated();
        let mut c = Cache {
            scale_tolerance: v.scale_tolerance,
            position_tolerance: v.position_tolerance,
            width: v.dimensions.0,
            height: v.dimensions.1,
            rows: rows_new(),
            space_start_for_end: band_new(),
            space_end_for_start: band_new(),
            all_glyphs: glyph_table_new(),
            pad_glyphs: v.pad_glyphs,
            align_4x4: v.align_4x4,
        };
        c.clear();
        c
    }

    /// Gives `cache` these parameters and empties it.
    pub fn rebuild(self, cache: &mut Cache)
        ensures
            final(cache).wf(),
            final(cache).config() == self.spec_validated(),
            final(cache).is_clear(),
    {
        let v = self.validated();
        cache.width = v.dimensions.0;
        cache.height = v.dimensions.1;
        cache.scale_tolerance = v.scale_tolerance;
        cache.position_tolerance = v.position_tolerance;
        cache.pad_glyphs = v.pad_glyphs;
        cache.align_4x4 = v.align_4x4;
        cache.clear();
    }
}

/// An implementation of a dynamic GPU glyph cache: a row-packing allocator
/// over a fixed-size atlas with least-recently-used eviction of rows.
pub struct Cache {
    scale_tolerance: u32,
    position_tolerance: u32,
    width: u32,
    height: u32,
    rows: RowTable,
    /// Free bands, bottom edge to top edge.
    space_start_for_end: BandTable,
    /// Free bands, top edge to bottom edge.
    space_end_for_start: BandTable,
    all_glyphs: GlyphTable,
    pad_glyphs: bool,
    align_4x4: bool,
}

impl Cache {
    /// Rows from least to most recently used.
    pub closed spec fn row_seq(&self) -> Seq<(u32, Row)> {
        row_entries(self.rows)
    }

    /// Rows by top edge.
    pub open spec fn rows_by_top(&self) -> Map<u32, Row> {
        row_map(self.row_seq())
    }

    /// Free bands, top edge to bottom edge.
    pub closed spec fn free(&self) -> BandMap {
        band_contents(self.space_end_for_start)
    }

    /// Free bands, bottom edge to top edge.
    pub closed spec fn free_rev(&self) -> BandMap {
        band_contents(self.space_start_for_end)
    }

    /// Resident glyphs: key to `(row top, index in row)`.
    pub closed spec fn index(&self) -> GlyphMap {
        glyph_contents(self.all_glyphs)
    }

    pub closed spec fn config(&self) -> CacheBuilder {
        CacheBuilder {
            dimensions: (self.width, self.height),
            scale_tolerance: self.scale_tolerance,
            position_tolerance: self.position_tolerance,
            pad_glyphs: self.pad_glyphs,
            align_4x4: self.align_4x4,
        }
    }

    pub open spec fn atlas_width(&self) -> u32 {
        self.config().dimensions.0
    }

    pub open spec fn atlas_height(&self) -> u32 {
        self.config().dimensions.1
    }

    /// The cache's internal invariant.
    pub open spec fn wf(&self) -> bool {
        let rm = self.rows_by_top();
        &&& keys_of(self.row_seq()).no_duplicates()
        &&& self.config().scale_tolerance >= MIN_TOLERANCE
        &&& self.config().position_tolerance >= MIN_TOLERANCE
        &&& rows_disjoint(rm, self.atlas_height())
        &&& ledger_wf(rm, self.free(), self.free_rev(), self.atlas_height())
        &&& tiled(rm, self.free(), self.atlas_height())
        &&& forall|a: u32| #[trigger]
            rm.contains_key(a) ==> row_glyphs_wf(a, rm[a], self.atlas_width())
        &&& index_wf(rm, self.index())
    }

    /// The state right after `clear`: no rows, no glyphs, one free band over
    /// the whole atlas.
    pub open spec fn is_clear(&self) -> bool {
        &&& self.row_seq().len() == 0
        &&& self.index() == GlyphMap::empty()
        &&& self.atlas_height() > 0 ==> self.free() == BandMap::empty().insert(0, self.atlas_height())
        &&& self.atlas_height() == 0 ==> self.free() == BandMap::empty()
    }

    /// A builder with the default parameters.
    pub fn builder() -> (r: CacheBuilder)
        ensures
            r.dimensions == (256u32, 256u32),
            r.scale_tolerance == 100,
            r.position_tolerance == 100,
            r.pad_glyphs,
            !r.align_4x4,
    {
        CacheBuilder::default()
    }

    /// The scale tolerance, in thousandths of a pixel.
    pub fn scale_tolerance(&self) -> (r: u32)
        ensures
            r == self.config().scale_tolerance,
    {
        self.scale_tolerance
    }

    /// The sub-pixel position tolerance, in thousandths of a pixel.
    pub fn position_tolerance(&self) -> (r: u32)
        ensures
            r == self.config().position_tolerance,
    {
        self.position_tolerance
    }

    /// The atlas dimensions the cache packs into.
    pub fn dimensions(&self) -> (r: (u32, u32))
        ensures
            r == self.config().dimensions,
    {
        (self.width, self.height)
    }

    /// A builder holding this cache's parameters.
    pub fn to_builder(&self) -> (r: CacheBuilder)
        ensures
            r == self.config(),
    {
        CacheBuilder {
            dimensions: (self.width, self.height),
            position_tolerance: self.position_tolerance,
            scale_tolerance: self.scale_tolerance,
            pad_glyphs: self.pad_glyphs,
            align_4x4: self.align_4x4,
        }
    }

    /// The key of a request under this cache's tolerances.
    pub open spec fn key_for(&self, font_id: usize, g: GlyphRequest) -> GlyphKey {
        let st = self.config().scale_tolerance as int;
        let pt = self.config().position_tolerance as int;
        (
            font_id,
            g.glyph_id,
            round_div(g.scale.0 as int, st) as u32,
            round_div(g.scale.1 as int, st) as u32,
            round_div(normalised_offset(g.position.0 as int) + 500, pt) as u16,
            round_div(normalised_offset(g.position.1 as int) + 500, pt) as u16,
        )
    }

    /// Glyph identity with scale and sub-pixel offset quantized by the tolerances.
    pub fn lossy_info_for(&self, font_id: usize, glyph: &GlyphRequest) -> (r: GlyphKey)
        requires
            self.wf(),
        ensures
            r == self.key_for(font_id, *glyph),
    {
        let st = self.scale_tolerance as u64;
        let pt = self.position_tolerance as u64;
        let offset = normalised_offset_from_position(glyph.position);
        let sx = (2 * (glyph.scale.0 as u64) + st) / (2 * st);
        let sy = (2 * (glyph.scale.1 as u64) + st) / (2 * st);
        let ox = (2 * ((offset.0 + 500) as u64) + pt) / (2 * pt);
        let oy = (2 * ((offset.1 + 500) as u64) + pt) / (2 * pt);
        proof {
            lemma_round_div_le(glyph.scale.0 as int, st as int);
            lemma_round_div_le(glyph.scale.1 as int, st as int);
            lemma_round_div_le(offset.0 + 500, pt as int);
            lemma_round_div_le(offset.1 + 500, pt as int);
        }
        (font_id, glyph.glyph_id, sx as u32, sy as u32, ox as u16, oy as u16)
    }

    /// Drops every row and glyph and frees the whole atlas.
    pub fn clear(&mut self)
        requires
            old(self).config().scale_tolerance >= MIN_TOLERANCE,
            old(self).config().position_tolerance >= MIN_TOLERANCE,
        ensures
            final(self).wf(),
            final(self).is_clear(),
            final(self).config() == old(self).config(),
    {
        rows_clear(&mut self.rows);
        band_clear(&mut self.space_end_for_start);
        band_clear(&mut self.space_start_for_end);
        if self.height > 0 {
            band_insert(&mut self.space_end_for_start, 0, self.height);
            band_insert(&mut self.space_start_for_end, self.height, 0);
        }
        glyph_table_clear(&mut self.all_glyphs);
        proof {
            let rm = self.rows_by_top();
            assert(rm =~= Map::<u32, Row>::empty());
            assert(keys_of(self.row_seq()) =~= Seq::<u32>::empty());
            assert forall|y: int| 0 <= y < self.atlas_height() implies #[trigger] covered(
                rm,
                self.free(),
                y,
            ) by {
                assert(band_has(self.free(), 0, y));
            }
        }
    }
}

impl Cache {
    /// Removes the least recently used row and its glyphs and merges its span
    /// into the free ledger; returns the free band that now holds that span.
    fn evict_lru(&mut self) -> (band: (u32, u32))
        requires
            old(self).wf(),
            old(self).row_seq().len() > 0,
        ensures
            final(self).wf(),
            final(self).config() == old(self).config(),
            final(self).row_seq() == old(self).row_seq().drop_first(),
            final(self).rows_by_top() == old(self).rows_by_top().remove(old(self).row_seq()[0].0),
            old(self).rows_by_top().contains_key(old(self).row_seq()[0].0),
            final(self).index() == without_row(old(self).index(), old(self).row_seq()[0].0),
            final(self).free().contains_key(band.0),
            final(self).free()[band.0] == band.1,
            band.0 <= old(self).row_seq()[0].0,
            old(self).row_seq()[0].0 + old(self).row_seq()[0].1.height <= band.1,
    {
        let ghost old_seq = self.row_seq();
        let ghost old_index = self.index();
        let ghost rm = self.rows_by_top();
        let ghost free = self.free();
        let ghost rev = self.free_rev();
        let entry = rows_pop_front(&mut self.rows);
        let (top, row) = entry.unwrap();
        proof {
            assert(old_seq.drop_first() =~= old_seq.remove(0));
            lemma_row_map_remove(old_seq, 0);
            lemma_key_pos(old_seq, 0);
        }
        let mut j: usize = 0;
        while j < row.glyphs.len()
            invariant
                0 <= j <= row.glyphs@.len(),
                rm.contains_key(top),
                row == rm[top],
                index_wf(rm, old_index),
                self.row_seq() == old_seq.drop_first(),
                self.free() == free,
                self.free_rev() == rev,
                self.config() == old(self).config(),
                self.index() == Map::new(
                    |k: GlyphKey|
                        old_index.contains_key(k) && !(old_index[k].0 == top && old_index[k].1
                            < j),
                    |k: GlyphKey| old_index[k],
                ),
            decreases row.glyphs@.len() - j,
        {
            let ghost before = self.index();
            glyph_table_remove(&mut self.all_glyphs, &row.glyphs[j].glyph_info);
            proof {
                let g = row.glyphs@[j as int].glyph_info;
                assert(old_index[g] == (top, j as u32));
                let next = Map::new(
                    |k: GlyphKey|
                        old_index.contains_key(k) && !(old_index[k].0 == top && old_index[k].1 < j
                            + 1),
                    |k: GlyphKey| old_index[k],
                );
                assert forall|k: GlyphKey| #[trigger]
                    old_index.contains_key(k) && old_index[k] == (top, j as u32) implies k == g by {
                    assert(rm[top].glyphs@[j as int].glyph_info == k);
                }
                assert(self.index() =~= next);
            }
            j += 1;
        }
        proof {
            assert(self.index() =~= without_row(old_index, top));
        }
        let mut new_start = top;
        let mut new_end = top + row.height;
        match band_remove(&mut self.space_end_for_start, new_end) {
            Some(end) => {
                new_end = end;
            },
            None => {},
        }
        match band_remove(&mut self.space_start_for_end, new_start) {
            Some(start) => {
                new_start = start;
            },
            None => {},
        }
        band_insert(&mut self.space_start_for_end, new_end, new_start);
        band_insert(&mut self.space_end_for_start, new_start, new_end);
        proof {
            let h = self.atlas_height();
            lemma_free_row(rm, free, rev, h, top);
            let rm2 = rm.remove(top);
            let index2 = without_row(old_index, top);
            assert(self.rows_by_top() == rm2);
            assert(old_seq[0].0 == top);
            assert forall|a: u32| #[trigger] rm2.contains_key(a) implies row_glyphs_wf(
                a,
                rm2[a],
                self.atlas_width(),
            ) by {
                assert(rm.contains_key(a));
            }
            assert forall|a: u32, i: int|
                #[trigger] rm2.contains_key(a) && 0 <= i < rm2[a].glyphs@.len() implies index2.contains_key(
                #[trigger] rm2[a].glyphs@[i].glyph_info,
            ) && index2[rm2[a].glyphs@[i].glyph_info] == (a, i as u32) by {
                assert(rm.contains_key(a));
            }
            assert forall|k: GlyphKey| #[trigger] index2.contains_key(k) implies rm2.contains_key(
                index2[k].0,
            ) && index2[k].1 < rm2[index2[k].0].glyphs@.len()
                && rm2[index2[k].0].glyphs@[index2[k].1 as int].glyph_info == k by {
                assert(old_index.contains_key(k));
            }
        }
        (new_start, new_end)
    }
}

impl Cache {
    /// Marks the row at `top` as most recently used.
    fn touch_row(&mut self, top: u32)
        requires
            old(self).wf(),
        ensures
            final(self).wf(),
            final(self).config() == old(self).config(),
            final(self).rows_by_top() == old(self).rows_by_top(),
            final(self).index() == old(self).index(),
            final(self).free() == old(self).free(),
            has_key(old(self).row_seq(), top) ==> final(self).row_seq() == old(self).row_seq().remove(
                key_pos(old(self).row_seq(), top),
            ).push(old(self).row_seq()[key_pos(old(self).row_seq(), top)]),
            !has_key(old(self).row_seq(), top) ==> final(self).row_seq() == old(self).row_seq(),
    {
        let ghost s = self.row_seq();
        rows_refresh(&mut self.rows, top);
        proof {
            if has_key(s, top) {
                let p = key_pos(s, top);
                lemma_row_map_refresh(s, p);
            }
        }
    }

    /// The most recently used row with room for a glyph of `w` by `h` texels.
    fn find_row(&self, w: u32, h: u32) -> (r: Option<u32>)
        requires
            self.wf(),
        ensures
            r.is_some() ==> exists|p: int|
                0 <= p < self.row_seq().len() && self.row_seq()[p].0 == r.unwrap() && row_fits(
                    self.row_seq()[p].1,
                    w,
                    h,
                    self.atlas_width(),
                ) && forall|q: int|
                    p < q < self.row_seq().len() ==> !row_fits(
                        #[trigger] self.row_seq()[q].1,
                        w,
                        h,
                        self.atlas_width(),
                    ),
            r.is_none() ==> forall|q: int|
                0 <= q < self.row_seq().len() ==> !row_fits(
                    #[trigger] self.row_seq()[q].1,
                    w,
                    h,
                    self.atlas_width(),
                ),
    {
        let keys = rows_keys(&self.rows);
        let ghost s = self.row_seq();
        let mut i = keys.len();
        while i > 0
            invariant
                i <= s.len(),
                keys@ == keys_of(s),
                keys_of(s).no_duplicates(),
                s == self.row_seq(),
                self.wf(),
                forall|q: int| i <= q < s.len() ==> !row_fits(#[trigger] s[q].1, w, h, self.atlas_width()),
            decreases i,
        {
            i -= 1;
            let t = keys[i];
            proof {
                assert(s[i as int].0 == t);
                lemma_key_pos(s, i as int);
            }
            let row = rows_get(&self.rows, t).unwrap();
            proof {
                let rm = self.rows_by_top();
                assert(rm.contains_key(t));
                assert(row_glyphs_wf(t, rm[t], self.atlas_width()));
            }
            if row.height >= h && self.width - row.width >= w {
                return Some(t);
            }
        }
        None
    }

    /// Some free band at least `h` texels tall.
    fn find_gap(&self, h: u32) -> (r: Option<(u32, u32)>)
        requires
            self.wf(),
        ensures
            r.is_some() ==> self.free().contains_key(r.unwrap().0) && self.free()[r.unwrap().0]
                == r.unwrap().1 && r.unwrap().1 - r.unwrap().0 >= h,
            r.is_none() ==> forall|s: u32| #[trigger]
                self.free().contains_key(s) ==> self.free()[s] - s < h,
    {
        let entries = band_entries(&self.space_end_for_start);
        let mut i: usize = 0;
        while i < entries.len()
            invariant
                i <= entries@.len(),
                self.wf(),
                forall|q: int|
                    0 <= q < entries@.len() ==> #[trigger] self.free().contains_key(entries@[q].0)
                        && self.free()[entries@[q].0] == entries@[q].1,
                forall|s: u32| #[trigger]
                    self.free().contains_key(s) ==> entries@.contains((s, self.free()[s])),
                forall|q: int| 0 <= q < i ==> #[trigger] entries@[q].1 - entries@[q].0 < h,
            decreases entries@.len() - i,
        {
            let (start, end) = entries[i];
            proof {
                assert(self.free().contains_key(entries@[i as int].0));
            }
            if end - start >= h {
                return Some((start, end));
            }
            i += 1;
        }
        proof {
            assert forall|s: u32| #[trigger] self.free().contains_key(s) implies self.free()[s] - s
                < h by {
                assert(entries@.contains((s, self.free()[s])));
                let q = choose|q: int| 0 <= q < entries@.len() && entries@[q] == (s, self.free()[s]);
                assert(entries@[q].1 - entries@[q].0 < h);
            }
        }
        None
    }
}

impl Cache {
    /// Cuts a new, empty row `h` texels tall from the top of the free band `[start, end)`.
    fn new_row(&mut self, start: u32, end: u32, h: u32)
        requires
            old(self).wf(),
            old(self).free().contains_key(start),
            old(self).free()[start] == end,
            0 < h <= end - start,
        ensures
            final(self).wf(),
            final(self).config() == old(self).config(),
            final(self).index() == old(self).index(),
            !old(self).rows_by_top().contains_key(start),
            final(self).row_seq() == old(self).row_seq().push(
                (start, Row { height: h, width: 0, glyphs: final(self).row_seq().last().1.glyphs }),
            ),
            final(self).row_seq().last().1.glyphs@.len() == 0,
            final(self).free() == carved_free(old(self).free(), start, h),
            final(self).rows_by_top() == old(self).rows_by_top().insert(
                start,
                final(self).row_seq().last().1,
            ),
    {
        let ghost s = self.row_seq();
        let ghost rm = self.rows_by_top();
        let ghost free = self.free();
        let ghost rev = self.free_rev();
        let new_space_start = start + h;
        band_remove(&mut self.space_end_for_start, start);
        if new_space_start == end {
            band_remove(&mut self.space_start_for_end, end);
        } else {
            band_insert(&mut self.space_end_for_start, new_space_start, end);
            band_insert(&mut self.space_start_for_end, end, new_space_start);
        }
        let row = Row { width: 0, height: h, glyphs: Vec::new() };
        let ghost r = row;
        proof {
            lemma_carve_row(rm, free, rev, self.atlas_height(), start, r);
            assert(self.free() == carved_free(free, start, h));
            assert(self.free_rev() == carved_rev(free, rev, start, h));
            assert(!has_key(s, start));
            lemma_row_map_push(s, start, r);
        }
        rows_insert(&mut self.rows, start, row);
        proof {
            let rm2 = rm.insert(start, r);
            assert(self.rows_by_top() == rm2);
            assert forall|a: u32| #[trigger] rm2.contains_key(a) implies row_glyphs_wf(
                a,
                rm2[a],
                self.atlas_width(),
            ) by {
                if a != start {
                    assert(rm.contains_key(a));
                }
            }
            assert forall|a: u32, i: int|
                #[trigger] rm2.contains_key(a) && 0 <= i < rm2[a].glyphs@.len() implies self.index().contains_key(
                #[trigger] rm2[a].glyphs@[i].glyph_info,
            ) && self.index()[rm2[a].glyphs@[i].glyph_info] == (a, i as u32) by {
                assert(rm.contains_key(a));
            }
            assert forall|k: GlyphKey| #[trigger] self.index().contains_key(k) implies rm2.contains_key(
                self.index()[k].0,
            ) && self.index()[k].1 < rm2[self.index()[k].0].glyphs@.len()
                && rm2[self.index()[k].0].glyphs@[self.index()[k].1 as int].glyph_info == k by {
                assert(rm.contains_key(self.index()[k].0));
            }
        }
    }

    /// Appends a glyph to the row at `top` and makes that row the most
    /// recently used; returns the texels reserved for it, alignment included.
    fn add_glyph(
        &mut self,
        top: u32,
        key: GlyphKey,
        offset: (i32, i32),
        unaligned: (u32, u32),
        aligned: (u32, u32),
    ) -> (r: TexRect)
        requires
            old(self).wf(),
            old(self).rows_by_top().contains_key(top),
            row_fits(old(self).rows_by_top()[top], aligned.0, aligned.1, old(self).atlas_width()),
            0 < unaligned.0 <= aligned.0,
            0 < unaligned.1 <= aligned.1,
            !old(self).index().contains_key(key),
        ensures
            final(self).wf(),
            final(self).config() == old(self).config(),
            final(self).free() == old(self).free(),
            ({
                let old_row = old(self).rows_by_top()[top];
                let n = old_row.glyphs@.len();
                let info = GlyphTexInfo {
                    glyph_info: key,
                    offset,
                    tex_coords: TexRect {
                        min_x: old_row.width,
                        min_y: top,
                        max_x: (old_row.width + unaligned.0) as u32,
                        max_y: (top + unaligned.1) as u32,
                    },
                };
                let new_row = Row {
                    height: old_row.height,
                    width: (old_row.width + aligned.0) as u32,
                    glyphs: final(self).rows_by_top()[top].glyphs,
                };
                &&& final(self).rows_by_top()[top] == new_row
                &&& new_row.glyphs@ == old_row.glyphs@.push(info)
                &&& final(self).rows_by_top() == old(self).rows_by_top().insert(top, new_row)
                &&& final(self).index() == old(self).index().insert(key, (top, n as u32))
                &&& final(self).row_seq() == old(self).row_seq().remove(
                    key_pos(old(self).row_seq(), top),
                ).push((top, new_row))
                &&& r == TexRect {
                    min_x: old_row.width,
                    min_y: top,
                    max_x: (old_row.width + aligned.0) as u32,
                    max_y: (top + aligned.1) as u32,
                }
            }),
    {
        let ghost s = self.row_seq();
        let ghost rm = self.rows_by_top();
        let ghost p = key_pos(s, top);
        proof {
            assert(has_key(s, top));
            assert(row_glyphs_wf(top, rm[top], self.atlas_width()));
            lemma_row_map_remove(s, p);
        }
        let mut row = rows_remove(&mut self.rows, top).unwrap();
        let ghost old_row = row;
        let x = row.width;
        let placed = TexRect { min_x: x, min_y: top, max_x: x + aligned.0, max_y: top + aligned.1 };
        let stored = TexRect {
            min_x: x,
            min_y: top,
            max_x: x + unaligned.0,
            max_y: top + unaligned.1,
        };
        row.glyphs.push(GlyphTexInfo { glyph_info: key, offset, tex_coords: stored });
        row.width = x + aligned.0;
        let n = row.glyphs.len() - 1;
        let ghost new_row = row;
        proof {
            assert(!has_key(s.remove(p), top)) by {
                if has_key(s.remove(p), top) {
                    assert(row_map(s.remove(p)).contains_key(top));
                }
            }
            lemma_row_map_push(s.remove(p), top, new_row);
        }
        rows_insert(&mut self.rows, top, row);
        glyph_table_insert(&mut self.all_glyphs, key, (top, n as u32));
        proof {
            let rm2 = rm.insert(top, new_row);
            let index = glyph_contents(old(self).all_glyphs);
            assert(rm.remove(top).insert(top, new_row) =~= rm2);
            assert(self.rows_by_top() == rm2);
            assert forall|a: u32| #[trigger] rm2.contains_key(a) implies rm.contains_key(a)
                && rm2[a].height == rm[a].height by {}
            assert(rows_disjoint(rm2, self.atlas_height()));
            assert(ledger_wf(rm2, self.free(), self.free_rev(), self.atlas_height()));
            assert forall|y: int| 0 <= y < self.atlas_height() implies #[trigger] covered(
                rm2,
                self.free(),
                y,
            ) by {
                assert(covered(rm, self.free(), y));
                if exists|a: u32| row_has(rm, a, y) {
                    let a = choose|a: u32| row_has(rm, a, y);
                    assert(row_has(rm2, a, y));
                }
            }
            assert(row_glyphs_wf(top, new_row, self.atlas_width())) by {
                assert forall|j: int, k: int|
                    0 <= j < k < new_row.glyphs@.len() implies #[trigger] new_row.glyphs@[j].tex_coords.max_x
                    <= #[trigger] new_row.glyphs@[k].tex_coords.min_x by {
                    if k == n {
                        assert(new_row.glyphs@[j] == old_row.glyphs@[j]);
                    } else {
                        assert(new_row.glyphs@[j] == old_row.glyphs@[j]);
                        assert(new_row.glyphs@[k] == old_row.glyphs@[k]);
                    }
                }
                assert forall|j: int| 0 <= j < new_row.glyphs@.len() implies {
                    let g = #[trigger] new_row.glyphs@[j].tex_coords;
                    g.min_y == top && g.min_y < g.max_y && g.max_y <= top + new_row.height
                        && g.min_x < g.max_x && g.max_x <= new_row.width
                } by {
                    if j < n {
                        assert(new_row.glyphs@[j] == old_row.glyphs@[j]);
                    }
                }
            }
            assert forall|a: u32| #[trigger] rm2.contains_key(a) implies row_glyphs_wf(
                a,
                rm2[a],
                self.atlas_width(),
            ) by {
                if a != top {
                    assert(rm.contains_key(a));
                }
            }
            assert forall|a: u32, i: int|
                #[trigger] rm2.contains_key(a) && 0 <= i < rm2[a].glyphs@.len() implies self.index().contains_key(
                #[trigger] rm2[a].glyphs@[i].glyph_info,
            ) && self.index()[rm2[a].glyphs@[i].glyph_info] == (a, i as u32) by {
                assert(rm.contains_key(a));
                if a == top && i == n {
                } else {
                    if a == top {
                        assert(rm2[a].glyphs@[i] == rm[a].glyphs@[i]);
                    }
                    assert(index.contains_key(rm[a].glyphs@[i].glyph_info));
                }
            }
            assert forall|k: GlyphKey| #[trigger] self.index().contains_key(k) implies rm2.contains_key(
                self.index()[k].0,
            ) && self.index()[k].1 < rm2[self.index()[k].0].glyphs@.len()
                && rm2[self.index()[k].0].glyphs@[self.index()[k].1 as int].glyph_info == k by {
                if k != key {
                    assert(index.contains_key(k));
                    let a = index[k].0;
                    assert(rm.contains_key(a));
                    if a == top {
                        assert(rm2[a].glyphs@[index[k].1 as int] == rm[a].glyphs@[index[k].1 as int]);
                    }
                }
            }
        }
        placed
    }
}

/// `x` rounded up to a multiple of four.
pub open spec fn align4(x: int) -> int {
    (x + 3) / 4 * 4
}

/// The height of a request's bounding box, zero without one.
pub open spec fn req_height(g: GlyphRequest) -> int {
    match g.bbox {
        Some(b) => b.spec_height(),
        None => 0,
    }
}

/// `order` lists request indices by non-increasing bounding box height.
pub open spec fn tallest_first(glyphs: Seq<GlyphRequest>, order: Seq<usize>) -> bool {
    forall|a: int, b: int|
        0 <= a < b < order.len() ==> req_height(glyphs[order[a] as int]) >= req_height(
            glyphs[order[b] as int],
        )
}

/// Where `insert` puts a request `h` tall into `s`: before the first entry
/// from `k` on that is shorter, else at the end.
pub open spec fn ins_pos(glyphs: Seq<GlyphRequest>, s: Seq<usize>, h: int, k: int) -> int
    decreases s.len() - k,
{
    if k < 0 || k >= s.len() {
        s.len() as int
    } else if req_height(glyphs[s[k] as int]) < h {
        k
    } else {
        ins_pos(glyphs, s, h, k + 1)
    }
}

/// `order` sorted tallest first by insertion, equal heights in their order.
pub open spec fn sorted_tallest_first(glyphs: Seq<GlyphRequest>, order: Seq<usize>) -> Seq<usize>
    decreases order.len(),
{
    if order.len() == 0 {
        Seq::empty()
    } else {
        let prev = sorted_tallest_first(glyphs, order.drop_last());
        let x = order.last();
        prev.insert(ins_pos(glyphs, prev, req_height(glyphs[x as int]), 0), x)
    }
}

/// Sorts request indices tallest first, keeping the order of equal heights.
pub fn sort_tallest_first(glyphs: &Vec<GlyphRequest>, order: &Vec<usize>) -> (r: Vec<usize>)
    requires
        forall|i: int| 0 <= i < order@.len() ==> order@[i] < glyphs@.len(),
        forall|i: int| 0 <= i < order@.len() ==> (#[trigger] glyphs@[order@[i] as int]).has_shape(),
    ensures
        r@.len() == order@.len(),
        forall|x: usize| r@.contains(x) <==> order@.contains(x),
        tallest_first(glyphs@, r@),
        r@ == sorted_tallest_first(glyphs@, order@),
{
    let mut out: Vec<usize> = Vec::new();
    let mut i: usize = 0;
    while i < order.len()
        invariant
            i <= order@.len(),
            out@.len() == i,
            forall|k: int| 0 <= k < order@.len() ==> order@[k] < glyphs@.len(),
            forall|k: int| 0 <= k < order@.len() ==> (#[trigger] glyphs@[order@[k] as int]).has_shape(),
            forall|x: usize| out@.contains(x) <==> order@.subrange(0, i as int).contains(x),
            forall|k: int|
                0 <= k < out@.len() ==> #[trigger] out@[k] < glyphs@.len() && glyphs@[out@[k] as int].has_shape(),
            tallest_first(glyphs@, out@),
            out@ == sorted_tallest_first(glyphs@, order@.subrange(0, i as int)),
        decreases order@.len() - i,
    {
        let x = order[i];
        let h = glyph_height(&glyphs[x]);
        let mut pos: usize = 0;
        while pos < out.len() && glyph_height(&glyphs[out[pos]]) >= h
            invariant
                pos <= out@.len(),
                forall|k: int|
                    0 <= k < out@.len() ==> #[trigger] out@[k] < glyphs@.len() && glyphs@[out@[k] as int].has_shape(),
                forall|k: int| 0 <= k < pos ==> req_height(glyphs@[out@[k] as int]) >= h,
                ins_pos(glyphs@, out@, h as int, 0) == ins_pos(glyphs@, out@, h as int, pos as int),
            decreases out@.len() - pos,
        {
            pos += 1;
        }
        let ghost prev = out@;
        proof {
            assert(ins_pos(glyphs@, out@, h as int, pos as int) == pos);
        }
        out.insert(pos, x);
        proof {
            let sub0 = order@.subrange(0, i as int);
            let sub1 = order@.subrange(0, i as int + 1);
            assert(sub1 =~= sub0.push(x));
            assert(sub1.drop_last() =~= sub0);
            assert forall|y: usize| out@.contains(y) <==> order@.subrange(0, i as int + 1).contains(y) by {
                if out@.contains(y) {
                    let k = choose|k: int| 0 <= k < out@.len() && out@[k] == y;
                    if k < pos {
                        assert(prev[k] == y);
                    } else if k > pos {
                        assert(prev[k - 1] == y);
                    }
                    if y != x {
                        assert(prev.contains(y));
                        let m = choose|m: int| 0 <= m < i && sub0[m] == y;
                        assert(sub1[m] == y);
                    } else {
                        assert(sub1[i as int] == y);
                    }
                }
                if sub1.contains(y) {
                    let m = choose|m: int| 0 <= m <= i && sub1[m] == y;
                    if m == i {
                        assert(out@[pos as int] == y);
                    } else {
                        assert(sub0[m] == y);
                        assert(prev.contains(y));
                        let k = choose|k: int| 0 <= k < prev.len() && prev[k] == y;
                        if k < pos {
                            assert(out@[k] == y);
                        } else {
                            assert(out@[k + 1] == y);
                        }
                    }
                }
            }
            assert forall|k: int| 0 <= k < out@.len() implies #[trigger] out@[k] < glyphs@.len()
                && glyphs@[out@[k] as int].has_shape() by {
                if k < pos {
                    assert(out@[k] == prev[k]);
                } else if k > pos {
                    assert(out@[k] == prev[k - 1]);
                }
            }
            assert forall|a: int, b: int| 0 <= a < b < out@.len() implies req_height(
                glyphs@[out@[a] as int],
            ) >= req_height(glyphs@[out@[b] as int]) by {
                if pos < prev.len() {
                    assert(req_height(glyphs@[prev[pos as int] as int]) < h);
                }
                if b < pos {
                    assert(out@[a] == prev[a] && out@[b] == prev[b]);
                } else if b == pos {
                    assert(out@[a] == prev[a]);
                } else if a < pos {
                    assert(out@[a] == prev[a] && out@[b] == prev[b - 1]);
                } else if a == pos {
                    assert(out@[b] == prev[b - 1]);
                    assert(req_height(glyphs@[prev[pos as int] as int]) >= req_height(
                        glyphs@[prev[b - 1] as int],
                    ));
                } else {
                    assert(out@[a] == prev[a - 1] && out@[b] == prev[b - 1]);
                }
            }
        }
        i += 1;
    }
    proof {
        assert(order@.subrange(0, order@.len() as int) =~= order@);
    }
    out
}

/// Height of a request's bounding box.
fn glyph_height(g: &GlyphRequest) -> (r: u32)
    requires
        g.has_shape(),
    ensures
        r == req_height(*g),
{
    let b = g.bbox.unwrap();
    b.height()
}

impl Cache {
    /// Texels a request needs before 4x4 alignment: its box plus padding.
    pub open spec fn unaligned_dims(&self, g: GlyphRequest) -> (int, int) {
        let pad: int = if self.config().pad_glyphs {
            2
        } else {
            0
        };
        (g.bbox_width() + pad, g.bbox_height() + pad)
    }

    /// Texels a request takes in a row.
    pub open spec fn aligned_dims(&self, g: GlyphRequest) -> (int, int) {
        let u = self.unaligned_dims(g);
        if self.config().align_4x4 {
            (align4(u.0), align4(u.1))
        } else {
            u
        }
    }

    /// A request whose glyph could never fit the atlas.
    pub open spec fn too_large(&self, g: GlyphRequest) -> bool {
        g.has_shape() && (self.aligned_dims(g).0 >= self.atlas_width() || self.aligned_dims(g).1
            >= self.atlas_height())
    }

    /// Whether a request's glyph could never fit the atlas.
    fn is_too_large(&self, g: &GlyphRequest) -> (r: bool)
        requires
            g.has_shape(),
        ensures
            r == self.too_large(*g),
    {
        let b = g.bbox.unwrap();
        let pad: u64 = if self.pad_glyphs {
            2
        } else {
            0
        };
        let mut w = b.width() as u64 + pad;
        let mut h = b.height() as u64 + pad;
        if self.align_4x4 {
            w = (w + 3) / 4 * 4;
            h = (h + 3) / 4 * 4;
        }
        w >= self.width as u64 || h >= self.height as u64
    }

    /// The unaligned and aligned texel sizes of a request that fits.
    fn glyph_dims(&self, g: &GlyphRequest) -> (r: ((u32, u32), (u32, u32)))
        requires
            g.has_shape(),
            !self.too_large(*g),
        ensures
            r.0.0 == self.unaligned_dims(*g).0,
            r.0.1 == self.unaligned_dims(*g).1,
            r.1.0 == self.aligned_dims(*g).0,
            r.1.1 == self.aligned_dims(*g).1,
            0 < r.0.0 <= r.1.0 < self.atlas_width(),
            0 < r.0.1 <= r.1.1 < self.atlas_height(),
    {
        let b = g.bbox.unwrap();
        let pad: u64 = if self.pad_glyphs {
            2
        } else {
            0
        };
        let uw = b.width() as u64 + pad;
        let uh = b.height() as u64 + pad;
        let (aw, ah) = if self.align_4x4 {
            ((uw + 3) / 4 * 4, (uh + 3) / 4 * 4)
        } else {
            (uw, uh)
        };
        ((uw as u32, uh as u32), (aw as u32, ah as u32))
    }
}

/// The row at `t` survived from `before` to `after`: same height, and the
/// glyphs it held are still in their slots.
pub open spec fn row_kept(before: Map<u32, Row>, after: Map<u32, Row>, t: u32) -> bool {
    &&& after.contains_key(t)
    &&& after[t].height == before[t].height
    &&& before[t].glyphs@.is_prefix_of(after[t].glyphs@)
}

/// Outcome of placing one glyph.
enum PackStep {
    Placed(TexRect),
    Retry,
    NoRoom,
}

impl Cache {
    /// Finds room for one uncached glyph, evicting unprotected rows from the
    /// least recently used end if needed, and stores it.
    fn place_one(&mut self, g: &GlyphRequest, key: GlyphKey, in_use: &mut RowSet, from_empty: bool) -> (r: PackStep)
        requires
            old(self).wf(),
            g.has_shape(),
            !old(self).too_large(*g),
            !old(self).index().contains_key(key),
        ensures
            final(self).wf(),
            final(self).config() == old(self).config(),
            from_empty ==> !(r is Retry),
            !from_empty ==> !(r is NoRoom),
            r is Placed ==> {
                let rect = r->Placed_0;
                let slot = final(self).index()[key];
                let info = final(self).rows_by_top()[slot.0].glyphs@[slot.1 as int];
                &&& final(self).index().contains_key(key)
                &&& final(self).row_seq().len() > 0
                &&& final(self).row_seq().last().0 == slot.0
                &&& row_set_contents(*final(in_use)) == row_set_contents(*old(in_use)).insert(slot.0)
                &&& info.tex_coords.min_x == rect.min_x
                &&& info.tex_coords.min_y == rect.min_y
                &&& info.offset.0 == normalised_offset(g.position.0 as int)
                &&& info.offset.1 == normalised_offset(g.position.1 as int)
                &&& info.tex_coords.spec_width() == old(self).unaligned_dims(*g).0
                &&& info.tex_coords.spec_height() == old(self).unaligned_dims(*g).1
                &&& rect.spec_width() == old(self).aligned_dims(*g).0
                &&& rect.spec_height() == old(self).aligned_dims(*g).1
                &&& forall|k: GlyphKey| #[trigger] final(self).index().contains_key(k) ==> k == key || old(self).index().contains_key(k)
            },
            r is Placed ==> forall|t: u32|
                old(self).rows_by_top().contains_key(t) && #[trigger] row_set_contents(*old(in_use)).contains(t)
                    ==> row_kept(old(self).rows_by_top(), final(self).rows_by_top(), t),
            ({
                let s0 = summaries(old(self).row_seq());
                let w = old(self).aligned_dims(*g).0;
                let h = old(self).aligned_dims(*g).1;
                let lp = last_fit(s0, w, h, old(self).atlas_width() as int, s0.len() as int);
                let all_in = forall|i: int|
                    0 <= i < old(self).row_seq().len() ==> row_set_contents(*old(in_use)).contains(
                        #[trigger] old(self).row_seq()[i].0,
                    );
                let band = exists|s: u32| #[trigger]
                    old(self).free().contains_key(s) && old(self).free()[s] - s >= h;
                &&& all_in && lp >= 0 ==> r is Placed && summaries(final(self).row_seq()) == s0.remove(
                    lp,
                ).push((s0[lp].0, s0[lp].1, (s0[lp].2 + w) as u32)) && final(self).free() == old(
                    self,
                ).free()
                &&& all_in && lp < 0 && band ==> r is Placed && exists|s: u32| #[trigger]
                    old(self).free().contains_key(s) && old(self).free()[s] - s >= h && summaries(
                        final(self).row_seq(),
                    ) == s0.push((s, h as u32, w as u32)) && final(self).free() == carved_free(
                        old(self).free(),
                        s,
                        h as u32,
                    )
                &&& all_in && lp < 0 && !band ==> !(r is Placed)
            }),
            r is Placed ==> forall|k: GlyphKey|
                #[trigger] old(self).index().contains_key(k) && row_set_contents(*old(in_use)).contains(
                    old(self).index()[k].0,
                ) ==> final(self).index().contains_key(k) && final(self).index()[k] == old(self).index()[k],
    {
        let ghost rm0 = self.rows_by_top();
        let ghost idx0 = self.index();
        let ghost s_init = self.row_seq();
        let ghost free0 = self.free();
        let (un, al) = self.glyph_dims(g);
        let ghost s0 = summaries(s_init);
        let ghost lp = last_fit(s0, al.0 as int, al.1 as int, self.atlas_width() as int, s0.len() as int);
        let ghost all_in = forall|i: int|
            0 <= i < s_init.len() ==> row_set_contents(*old(in_use)).contains(#[trigger] s_init[i].0);
        proof {
            lemma_last_fit(s0, al.0 as int, al.1 as int, self.atlas_width() as int, s0.len() as int);
        }
        let mut row_top = self.find_row(al.0, al.1);
        let ghost found_p: int = -1;
        if row_top.is_none() {
            proof {
                if lp >= 0 {
                    assert(s0[lp] == (s_init[lp].0, s_init[lp].1.height, s_init[lp].1.width));
                    assert(!row_fits(s_init[lp].1, al.0, al.1, self.atlas_width()));
                }
            }
            let mut gap = self.find_gap(al.1);
            let ghost gap0 = gap;
            while gap.is_none() && rows_len(&self.rows) > 0
                invariant
                    self.wf(),
                    self.config() == old(self).config(),
                    row_set_contents(*in_use) == row_set_contents(*old(in_use)),
                    gap.is_some() ==> self.free().contains_key(gap.unwrap().0) && self.free()[gap.unwrap().0]
                        == gap.unwrap().1 && gap.unwrap().1 - gap.unwrap().0 >= al.1,
                    forall|k: GlyphKey| #[trigger] self.index().contains_key(k) ==> idx0.contains_key(k),
                    forall|t: u32|
                        rm0.contains_key(t) && #[trigger] row_set_contents(*in_use).contains(t)
                            ==> self.rows_by_top().contains_key(t) && self.rows_by_top()[t] == rm0[t],
                    forall|k: GlyphKey|
                        #[trigger] idx0.contains_key(k) && row_set_contents(*in_use).contains(idx0[k].0)
                            ==> self.index().contains_key(k) && self.index()[k] == idx0[k],
                    all_in ==> self.row_seq() == s_init && self.free() == free0 && gap == gap0,
                    free0 == old(self).free(),
                    s_init == old(self).row_seq(),
                    gap0.is_none() ==> forall|s: u32| #[trigger]
                        free0.contains_key(s) ==> free0[s] - s < al.1,
                    all_in == forall|i: int|
                        0 <= i < s_init.len() ==> row_set_contents(*old(in_use)).contains(#[trigger] s_init[i].0),
                    lp < 0,
                    s0 == summaries(s_init),
                    lp == last_fit(s0, al.0 as int, al.1 as int, old(self).atlas_width() as int, s0.len() as int),
                    al.0 == old(self).aligned_dims(*g).0,
                    al.1 == old(self).aligned_dims(*g).1,
                decreases self.row_seq().len(),
            {
                proof {
                    if all_in {
                        assert(gap0.is_none());
                        assert(free0 == old(self).free());
                        assert forall|s: u32| #[trigger] old(self).free().contains_key(s) implies old(
                            self,
                        ).free()[s] - s < al.1 by {
                            assert(free0.contains_key(s));
                        }
                    }
                }
                let front = rows_front_key(&self.rows).unwrap();
                if row_set_contains(in_use, front) {
                    if from_empty {
                        return PackStep::NoRoom;
                    } else {
                        return PackStep::Retry;
                    }
                }
                proof {
                    if all_in {
                        assert(row_set_contents(*old(in_use)).contains(s_init[0].0));
                    }
                }
                let band = self.evict_lru();
                if band.1 - band.0 >= al.1 {
                    gap = Some(band);
                }
            }
            match gap {
                Some(band) => {
                    let ghost s_before = self.row_seq();
                    self.new_row(band.0, band.1, al.1);
                    row_top = Some(band.0);
                    proof {
                        let s = self.row_seq();
                        lemma_key_pos(s, s.len() - 1);
                        assert(s.remove(s.len() - 1) =~= s_before);
                    }
                },
                None => {
                    if from_empty {
                        return PackStep::NoRoom;
                    } else {
                        return PackStep::Retry;
                    }
                },
            }
            proof {
                let s = self.row_seq();
                lemma_key_pos(s, s.len() - 1);
                found_p = s.len() - 1;
                assert(self.rows_by_top().contains_key(row_top.unwrap()));
            }
        } else {
            proof {
                let p = choose|p: int|
                    0 <= p < self.row_seq().len() && self.row_seq()[p].0 == row_top.unwrap() && row_fits(
                        self.row_seq()[p].1,
                        al.0,
                        al.1,
                        self.atlas_width(),
                    ) && forall|q: int|
                        p < q < self.row_seq().len() ==> !row_fits(
                            #[trigger] self.row_seq()[q].1,
                            al.0,
                            al.1,
                            self.atlas_width(),
                        );
                lemma_key_pos(self.row_seq(), p);
                found_p = p;
                assert(s0[p] == (s_init[p].0, s_init[p].1.height, s_init[p].1.width));
                if lp > p {
                    assert(s0[lp] == (s_init[lp].0, s_init[lp].1.height, s_init[lp].1.width));
                    assert(!row_fits(s_init[lp].1, al.0, al.1, self.atlas_width()));
                }
                assert(lp == p);
            }
        }
        let top = row_top.unwrap();
        let ghost rm1 = self.rows_by_top();
        let ghost idx1 = self.index();
        assert(forall|k: GlyphKey| #[trigger] idx1.contains_key(k) ==> idx0.contains_key(k));
        assert(rm1.contains_key(top));
        assert(row_glyphs_wf(top, rm1[top], self.atlas_width()));
        assert(top + rm1[top].height <= self.atlas_height());
        let offset = normalised_offset_from_position(g.position);
        let ghost s_pre = self.row_seq();
        let rect = self.add_glyph(top, key, offset, un, al);
        row_set_insert(in_use, top);
        proof {
            let s_post = self.row_seq();
            assert(key_pos(s_pre, top) == found_p);
            assert(summaries(s_post) =~= summaries(s_pre).remove(found_p).push(
                (top, s_pre[found_p].1.height, (s_pre[found_p].1.width + al.0) as u32),
            ));
            assert(self.index() == idx1.insert(key, self.index()[key]));
            let slot = self.index()[key];
            let info = self.rows_by_top()[slot.0].glyphs@[slot.1 as int];
            assert(slot.0 == top);
            assert(slot.1 == rm1[top].glyphs@.len());
            assert(info.tex_coords.min_x == rect.min_x);
            assert(info.tex_coords.spec_width() == old(self).unaligned_dims(*g).0);
            assert(info.tex_coords.spec_height() == old(self).unaligned_dims(*g).1);
            assert(rect.spec_width() == old(self).aligned_dims(*g).0);
            assert(info.offset.0 == normalised_offset(g.position.0 as int));
            assert(row_set_contents(*in_use) == row_set_contents(*old(in_use)).insert(slot.0));
            assert forall|k: GlyphKey| #[trigger] self.index().contains_key(k) implies k == key
                || idx0.contains_key(k) by {
                if k != key {
                    assert(idx1.contains_key(k));
                }
            }
            assert forall|t: u32|
                rm0.contains_key(t) && #[trigger] row_set_contents(*old(in_use)).contains(t)
                    implies row_kept(rm0, self.rows_by_top(), t) by {
                assert(rm1.contains_key(t) && rm1[t] == rm0[t]);
                if t == top {
                    assert(rm0[t].glyphs@ =~= self.rows_by_top()[t].glyphs@.subrange(0, rm0[t].glyphs@.len() as int));
                }
            }
        }
        PackStep::Placed(rect)
    }
}

/// Outcome of one packing pass over a batch.
enum Attempt {
    Packed(Vec<Placement>),
    Retry,
    NoRoom,
}

impl Cache {
    /// The key of a request under this cache's tolerances.
    pub open spec fn request_key(&self, g: GlyphRequest) -> GlyphKey {
        self.key_for(g.font_id, g)
    }

    /// The stored glyph a resident key points to.
    pub open spec fn slot_info(&self, k: GlyphKey) -> GlyphTexInfo {
        let slot = self.index()[k];
        self.rows_by_top()[slot.0].glyphs@[slot.1 as int]
    }

    /// Every request with a shape has its glyph resident.
    pub open spec fn all_resident(&self, glyphs: Seq<GlyphRequest>) -> bool {
        forall|j: int|
            0 <= j < glyphs.len() && (#[trigger] glyphs[j]).has_shape() ==> self.index().contains_key(
                self.request_key(glyphs[j]),
            )
    }

    /// Some request of the batch is too large for the atlas.
    pub open spec fn any_too_large(&self, glyphs: Seq<GlyphRequest>) -> bool {
        exists|j: int| 0 <= j < glyphs.len() && self.too_large(#[trigger] glyphs[j])
    }

    /// `p` names a request with a shape whose glyph is resident at `p.rect`.
    pub open spec fn placement_ok(&self, glyphs: Seq<GlyphRequest>, p: Placement) -> bool {
        &&& p.request < glyphs.len()
        &&& glyphs[p.request as int].has_shape()
        &&& {
            let g = glyphs[p.request as int];
            let k = self.request_key(g);
            let info = self.slot_info(k);
            &&& self.index().contains_key(k)
            &&& info.tex_coords.min_x == p.rect.min_x
            &&& info.tex_coords.min_y == p.rect.min_y
            &&& info.tex_coords.spec_width() == self.unaligned_dims(g).0
            &&& info.tex_coords.spec_height() == self.unaligned_dims(g).1
            &&& info.offset.0 == normalised_offset(g.position.0 as int)
            &&& info.offset.1 == normalised_offset(g.position.1 as int)
            &&& p.rect.spec_width() == self.aligned_dims(g).0
            &&& p.rect.spec_height() == self.aligned_dims(g).1
        }
    }

    /// Every glyph resident here but not in `before` was placed by one of `placements`.
    pub open spec fn new_keys_placed(
        &self,
        before: Cache,
        glyphs: Seq<GlyphRequest>,
        placements: Seq<Placement>,
    ) -> bool {
        forall|k: GlyphKey|
            #[trigger] self.index().contains_key(k) && !before.index().contains_key(k) ==> exists|
                q: int,
            |
                0 <= q < placements.len() && before.request_key(
                    glyphs[#[trigger] placements[q].request as int],
                ) == k
    }

    /// Key `k` still points to the same slot, in a row that kept its glyphs.
    pub open spec fn keeps_slot(&self, before: Cache, k: GlyphKey) -> bool {
        &&& self.index().contains_key(k)
        &&& self.index()[k] == before.index()[k]
        &&& row_kept(before.rows_by_top(), self.rows_by_top(), before.index()[k].0)
    }
}

/// A key that keeps its slot keeps its stored glyph.
proof fn lemma_keeps_slot_info(before: Cache, after: Cache, k: GlyphKey)
    requires
        before.wf(),
        before.index().contains_key(k),
        after.keeps_slot(before, k),
    ensures
        after.slot_info(k) == before.slot_info(k),
{
    let slot = before.index()[k];
    let a = before.rows_by_top()[slot.0].glyphs@;
    let b = after.rows_by_top()[slot.0].glyphs@;
    assert(slot.1 < a.len());
    assert(a[slot.1 as int] == b.subrange(0, a.len() as int)[slot.1 as int]);
}

/// Keeping a slot is transitive.
proof fn lemma_keeps_slot_trans(c0: Cache, c1: Cache, c2: Cache, k: GlyphKey)
    requires
        c1.keeps_slot(c0, k),
        c2.keeps_slot(c1, k),
    ensures
        c2.keeps_slot(c0, k),
{
    let t = c0.index()[k].0;
    let a = c0.rows_by_top()[t].glyphs@;
    let b = c1.rows_by_top()[t].glyphs@;
    let c = c2.rows_by_top()[t].glyphs@;
    assert(a =~= c.subrange(0, a.len() as int)) by {
        assert forall|i: int| 0 <= i < a.len() implies a[i] == c[i] by {
            assert(a[i] == b.subrange(0, a.len() as int)[i]);
            assert(b[i] == c.subrange(0, b.len() as int)[i]);
        }
    }
}

impl Cache {
    /// One packing pass: refreshes the rows of already cached glyphs, then
    /// places the others tallest first.
    #[verifier::rlimit(100)]
    fn try_pack(&mut self, glyphs: &Vec<GlyphRequest>, from_empty: bool) -> (r: Attempt)
        requires
            old(self).wf(),
            !old(self).any_too_large(glyphs@),
        ensures
            final(self).wf(),
            final(self).config() == old(self).config(),
            from_empty ==> !(r is Retry),
            !from_empty ==> !(r is NoRoom),
            r is Packed ==> final(self).all_resident(glyphs@),
            r is Packed ==> forall|j: int|
                0 <= j < glyphs@.len() && (#[trigger] glyphs@[j]).has_shape()
                    && old(self).index().contains_key(old(self).request_key(glyphs@[j]))
                    ==> final(self).keeps_slot(*old(self), old(self).request_key(glyphs@[j])),
            r is Packed ==> forall|q: int|
                0 <= q < r->Packed_0@.len() ==> final(self).placement_ok(glyphs@, #[trigger] r->Packed_0@[q])
                    && !old(self).index().contains_key(old(self).request_key(glyphs@[r->Packed_0@[q].request as int])),
            r is Packed ==> final(self).new_keys_placed(*old(self), glyphs@, r->Packed_0@),
            r is Packed ==> old(self).placements_distinct(glyphs@, r->Packed_0@),
            old(self).all_resident(glyphs@) ==> r is Packed && r->Packed_0@.len() == 0
                && final(self).index() == old(self).index() && final(self).rows_by_top()
                == old(self).rows_by_top(),
            from_empty && old(self).row_seq().len() == 0 ==> (r is NoRoom <==> !old(
                self,
            ).fits_when_empty(glyphs@)),
    {
        let ghost c0 = *self;
        let ghost mode = from_empty && c0.row_seq().len() == 0;
        proof {
            if mode {
                lemma_no_rows(c0);
            }
        }
        assert(c0 == *old(self));
        let mut in_use = row_set_new();
        let mut uncached: Vec<usize> = Vec::new();
        let mut i: usize = 0;
        while i < glyphs.len()
            invariant
                i <= glyphs@.len(),
                self.wf(),
                self.config() == c0.config(),
                self.index() == c0.index(),
                self.rows_by_top() == c0.rows_by_top(),
                forall|j: int|
                    0 <= j < i && (#[trigger] glyphs@[j]).has_shape() ==> (c0.index().contains_key(
                        c0.request_key(glyphs@[j]),
                    ) && row_set_contents(in_use).contains(
                        c0.index()[c0.request_key(glyphs@[j])].0,
                    )) || uncached@.contains(j as usize),
                forall|q: int|
                    0 <= q < uncached@.len() ==> #[trigger] uncached@[q] < i && glyphs@[uncached@[q] as int].has_shape()
                        && !c0.index().contains_key(c0.request_key(glyphs@[uncached@[q] as int])),
                mode ==> uncached@ == shaped_indices(glyphs@, i as int) && row_set_contents(in_use)
                    == Set::<u32>::empty() && c0.index() == GlyphMap::empty() && self.row_seq()
                    == c0.row_seq(),
                self.free() == c0.free(),
                mode == (from_empty && c0.row_seq().len() == 0),
            decreases glyphs@.len() - i,
        {
            let ghost unc_before = uncached@;
            if glyphs[i].is_drawable() {
                let key = self.lossy_info_for(glyphs[i].font_id, &glyphs[i]);
                match glyph_table_get(&self.all_glyphs, &key) {
                    Some(slot) => {
                        row_set_insert(&mut in_use, slot.0);
                        self.touch_row(slot.0);
                    },
                    None => {
                        uncached.push(i);
                    },
                }
            }
            proof {
                assert forall|j: int|
                    0 <= j <= i && (#[trigger] glyphs@[j]).has_shape() implies (c0.index().contains_key(
                    c0.request_key(glyphs@[j]),
                ) && row_set_contents(in_use).contains(c0.index()[c0.request_key(glyphs@[j])].0))
                    || uncached@.contains(j as usize) by {
                    if j == i {
                        if !c0.index().contains_key(c0.request_key(glyphs@[j])) {
                            assert(uncached@[uncached@.len() - 1] == j as usize);
                        }
                    } else if unc_before.contains(j as usize) {
                        let q = choose|q: int| 0 <= q < unc_before.len() && unc_before[q] == j as usize;
                        assert(uncached@[q] == j as usize);
                    }
                }
            }
            i += 1;
        }
        let order = sort_tallest_first(glyphs, &uncached);
        let mut placements: Vec<Placement> = Vec::new();
        let mut q: usize = 0;
        let ghost mut sim = PackSim { rows: Seq::empty(), next: 0, placed: Set::empty() };
        proof {
            if mode {
                reveal(Cache::sim_matches);
                assert(uncached@ == shaped_indices(glyphs@, glyphs@.len() as int));
                assert(summaries(self.row_seq()) =~= sim.rows);
                assert(self.index().dom() =~= sim.placed);
                assert(self.free() == band_below(0, self.atlas_height()));
            }
        }
        while q < order.len()
            invariant
                q <= order@.len(),
                order@.len() == uncached@.len(),
                q == 0 ==> self.index() == c0.index() && self.rows_by_top() == c0.rows_by_top()
                    && placements@.len() == 0,
                c0.placements_distinct(glyphs@, placements@),
                mode == (from_empty && c0.row_seq().len() == 0),
                mode ==> order@ == sorted_tallest_first(
                    glyphs@,
                    shaped_indices(glyphs@, glyphs@.len() as int),
                ),
                mode ==> c0.sim_run(glyphs@, order@, q as nat) == Some(sim) && self.sim_matches(
                    row_set_contents(in_use),
                    sim,
                ),
                c0 == *old(self),
                self.wf(),
                self.config() == c0.config(),
                c0.wf(),
                !c0.any_too_large(glyphs@),
                forall|x: usize| order@.contains(x) <==> uncached@.contains(x),
                forall|q2: int|
                    0 <= q2 < uncached@.len() ==> #[trigger] uncached@[q2] < glyphs@.len() && glyphs@[uncached@[q2] as int].has_shape()
                        && !c0.index().contains_key(c0.request_key(glyphs@[uncached@[q2] as int])),
                forall|j: int|
                    0 <= j < glyphs@.len() && (#[trigger] glyphs@[j]).has_shape() ==> (self.index().contains_key(
                        c0.request_key(glyphs@[j]),
                    ) && row_set_contents(in_use).contains(
                        self.index()[c0.request_key(glyphs@[j])].0,
                    )) || exists|q2: int| q <= q2 < order@.len() && order@[q2] == j,
                forall|j: int|
                    0 <= j < glyphs@.len() && (#[trigger] glyphs@[j]).has_shape()
                        && c0.index().contains_key(c0.request_key(glyphs@[j])) ==> self.keeps_slot(
                        c0,
                        c0.request_key(glyphs@[j]),
                    ) && row_set_contents(in_use).contains(c0.index()[c0.request_key(glyphs@[j])].0),
                forall|pi: int|
                    0 <= pi < placements@.len() ==> self.placement_ok(glyphs@, #[trigger] placements@[pi])
                        && !c0.index().contains_key(c0.request_key(glyphs@[placements@[pi].request as int]))
                        && row_set_contents(in_use).contains(
                        self.index()[c0.request_key(glyphs@[placements@[pi].request as int])].0,
                    ),
                forall|k: GlyphKey|
                    #[trigger] self.index().contains_key(k) && !c0.index().contains_key(k) ==> row_set_contents(
                        in_use,
                    ).contains(self.index()[k].0) && exists|pi: int|
                        0 <= pi < placements@.len() && c0.request_key(
                            glyphs@[#[trigger] placements@[pi].request as int],
                        ) == k,
            decreases order@.len() - q,
        {
            let gi = order[q];
            proof {
                assert(q > 0 || self.index() == c0.index());
                assert(order@.contains(gi));
                assert(uncached@.contains(gi));
            }
            let key = self.lossy_info_for(glyphs[gi].font_id, &glyphs[gi]);
            let ghost before = *self;
            let ghost in_use_before = row_set_contents(in_use);
            let ghost sim_before = sim;
            proof {
                assert(c0.sim_step(sim, glyphs@[gi as int]) == before.sim_step(sim, glyphs@[gi as int]));
                if mode {
                    assert(c0.sim_run(glyphs@, order@, (q + 1) as nat) == c0.sim_step(sim, glyphs@[gi as int]));
                }
            }
            match glyph_table_get(&self.all_glyphs, &key) {
                Some(_) => {
                    proof {
                        if mode {
                            reveal(Cache::sim_matches);
                            assert(self.index().dom().contains(key));
                            assert(sim.placed.contains(key));
                        }
                    }
                },
                None => {
                    proof {
                        assert(!c0.too_large(glyphs@[gi as int]));
                    }
                    let step = self.place_one(&glyphs[gi], key, &mut in_use, from_empty);
                    proof {
                        if mode {
                            lemma_sim_advance(before, *self, in_use_before, row_set_contents(in_use), sim, glyphs@[gi as int], step is Placed);
                            if step is Placed {
                                sim = before.sim_step(sim, glyphs@[gi as int]).unwrap();
                            } else {
                                lemma_sim_fails_on(c0, glyphs@, order@, (q + 1) as nat, order@.len());
                            }
                        }
                    }
                    match step {
                        PackStep::Placed(rect) => {
                            let ghost pl_before = placements@;
                            placements.push(Placement { rect, request: gi });
                            proof {
                                assert forall|a: int, b: int|
                                    0 <= a < b < placements@.len() implies c0.request_key(
                                    glyphs@[#[trigger] placements@[a].request as int],
                                ) != c0.request_key(glyphs@[#[trigger] placements@[b].request as int]) by {
                                    if b == pl_before.len() {
                                        assert(placements@[a] == pl_before[a]);
                                        assert(before.placement_ok(glyphs@, pl_before[a]));
                                    } else {
                                        assert(placements@[a] == pl_before[a]);
                                        assert(placements@[b] == pl_before[b]);
                                    }
                                }
                                assert(key == c0.request_key(glyphs@[gi as int]));
                                assert(placements@[pl_before.len() as int].request == gi);
                                assert forall|k: GlyphKey|
                                    #[trigger] self.index().contains_key(k) && !c0.index().contains_key(k)
                                        implies row_set_contents(in_use).contains(self.index()[k].0)
                                        && exists|pi: int|
                                        0 <= pi < placements@.len() && c0.request_key(
                                            glyphs@[#[trigger] placements@[pi].request as int],
                                        ) == k by {
                                    if k == key {
                                        assert(c0.request_key(glyphs@[placements@[pl_before.len() as int].request as int]) == k);
                                    } else {
                                        assert(before.index().contains_key(k));
                                        let pi = choose|pi: int|
                                            0 <= pi < pl_before.len() && c0.request_key(
                                                glyphs@[#[trigger] pl_before[pi].request as int],
                                            ) == k;
                                        assert(placements@[pi] == pl_before[pi]);
                                    }
                                }
                            }
                        },
                        PackStep::Retry => {
                            return Attempt::Retry;
                        },
                        PackStep::NoRoom => {
                            return Attempt::NoRoom;
                        },
                    }
                },
            }
            q += 1;
        }
        proof {
            if c0.all_resident(glyphs@) && uncached@.len() > 0 {
                assert(glyphs@[uncached@[0] as int].has_shape());
            }
            assert(self.new_keys_placed(c0, glyphs@, placements@));
        }
        Attempt::Packed(placements)
    }
}

impl Cache {
    /// No two placements are for the same glyph.
    pub open spec fn placements_distinct(&self, glyphs: Seq<GlyphRequest>, placements: Seq<Placement>) -> bool {
        forall|a: int, b: int|
            0 <= a < b < placements.len() ==> self.request_key(glyphs[#[trigger] placements[a].request as int])
                != self.request_key(glyphs[#[trigger] placements[b].request as int])
    }

    /// Every resident glyph was placed by one of `placements`.
    pub open spec fn all_keys_placed(&self, glyphs: Seq<GlyphRequest>, placements: Seq<Placement>) -> bool {
        forall|k: GlyphKey|
            #[trigger] self.index().contains_key(k) ==> exists|q: int|
                0 <= q < placements.len() && self.request_key(
                    glyphs[#[trigger] placements[q].request as int],
                ) == k
    }

    /// Makes every request with a shape resident in the atlas.
    ///
    /// Rows holding glyphs of the batch are refreshed; the other glyphs are
    /// placed tallest first, each in the most recently used row with room,
    /// else in a new row cut from a free band, else after evicting rows that
    /// hold no glyph of the batch from the least recently used end. When that
    /// cannot make room the cache is cleared and the batch packed once more
    /// from scratch.
    ///
    /// On success returns how the batch was fit and, for each glyph newly
    /// stored, the texels to rasterize it into and the index of its request.
    /// `GlyphTooLarge` leaves the cache as it was; `NoRoomForWholeQueue`
    /// leaves it cleared.
    pub fn cache_glyphs(&mut self, glyphs: &Vec<GlyphRequest>) -> (r: Result<
        (CachedBy, Vec<Placement>),
        CacheWriteErr,
    >)
        requires
            old(self).wf(),
        ensures
            final(self).wf(),
            final(self).config() == old(self).config(),
            (r == Err::<(CachedBy, Vec<Placement>), CacheWriteErr>(CacheWriteErr::GlyphTooLarge))
                == old(self).any_too_large(glyphs@),
            old(self).any_too_large(glyphs@) ==> *final(self) == *old(self),
            r is Ok ==> final(self).all_resident(glyphs@),
            r is Ok ==> forall|q: int|
                0 <= q < r->Ok_0.1@.len() ==> final(self).placement_ok(glyphs@, #[trigger] r->Ok_0.1@[q]),
            r is Ok ==> final(self).placements_distinct(glyphs@, r->Ok_0.1@),
            r is Ok && r->Ok_0.0 == CachedBy::Adding ==> forall|q: int|
                0 <= q < r->Ok_0.1@.len() ==> !old(self).index().contains_key(
                    old(self).request_key(glyphs@[#[trigger] r->Ok_0.1@[q].request as int]),
                ),
            r is Ok && r->Ok_0.0 == CachedBy::Adding ==> forall|j: int|
                0 <= j < glyphs@.len() && (#[trigger] glyphs@[j]).has_shape()
                    && old(self).index().contains_key(old(self).request_key(glyphs@[j]))
                    ==> final(self).keeps_slot(*old(self), old(self).request_key(glyphs@[j])),
            r is Ok && r->Ok_0.0 == CachedBy::Adding ==> final(self).new_keys_placed(
                *old(self),
                glyphs@,
                r->Ok_0.1@,
            ),
            r is Ok && r->Ok_0.0 == CachedBy::Reordering ==> final(self).all_keys_placed(
                glyphs@,
                r->Ok_0.1@,
            ),
            r == Err::<(CachedBy, Vec<Placement>), CacheWriteErr>(CacheWriteErr::NoRoomForWholeQueue)
                ==> final(self).is_clear() && !old(self).fits_when_empty(glyphs@),
            !old(self).any_too_large(glyphs@) && old(self).fits_when_empty(glyphs@) ==> r is Ok,
            !old(self).any_too_large(glyphs@) && old(self).all_resident(glyphs@) ==> r is Ok
                && r->Ok_0.0 == CachedBy::Adding && r->Ok_0.1@.len() == 0 && final(self).index()
                == old(self).index() && final(self).rows_by_top() == old(self).rows_by_top(),
    {
        let mut i: usize = 0;
        while i < glyphs.len()
            invariant
                i <= glyphs@.len(),
                *self == *old(self),
                self.wf(),
                forall|j: int| 0 <= j < i ==> !self.too_large(#[trigger] glyphs@[j]),
            decreases glyphs@.len() - i,
        {
            if glyphs[i].is_drawable() && self.is_too_large(&glyphs[i]) {
                return Err(CacheWriteErr::GlyphTooLarge);
            }
            i += 1;
        }
        // an atlas without rows holds no glyph
        let from_empty = rows_len(&self.rows) == 0;
        let ghost c0 = *self;

        match self.try_pack(glyphs, from_empty) {
            Attempt::Packed(placements) => Ok((CachedBy::Adding, placements)),
            Attempt::NoRoom => {
                self.clear();
                Err(CacheWriteErr::NoRoomForWholeQueue)
            },
            Attempt::Retry => {
                self.clear();
                let ghost c1 = *self;
                proof {
                    let order = sorted_tallest_first(glyphs@, shaped_indices(glyphs@, glyphs@.len() as int));
                    lemma_sim_config(c0, c1, glyphs@, order, order.len());
                    assert(c1.fits_when_empty(glyphs@) == c0.fits_when_empty(glyphs@));
                }
                match self.try_pack(glyphs, true) {
                    Attempt::Packed(placements) => {
                        proof {
                            assert(c1.index() == GlyphMap::empty());
                            assert forall|k: GlyphKey| #[trigger] self.index().contains_key(k) implies exists|q: int|
                                0 <= q < placements@.len() && self.request_key(
                                    glyphs@[#[trigger] placements@[q].request as int],
                                ) == k by {
                                assert(!c1.index().contains_key(k));
                                let q = choose|q: int|
                                    0 <= q < placements@.len() && c1.request_key(
                                        glyphs@[#[trigger] placements@[q].request as int],
                                    ) == k;
                            }
                        }
                        Ok((CachedBy::Reordering, placements))
                    },
                    _ => {
                        self.clear();
                        Err(CacheWriteErr::NoRoomForWholeQueue)
                    },
                }
            },
        }
    }

    /// What `rect_for` returns for a request.
    pub open spec fn spec_rect_for(&self, g: GlyphRequest) -> Result<Option<CachedRect>, CacheReadErr> {
        if !g.has_shape() {
            Ok(None)
        } else if !self.index().contains_key(self.request_key(g)) {
            Err(CacheReadErr::GlyphNotCached)
        } else {
            let info = self.slot_info(self.request_key(g));
            Ok(
                Some(
                    CachedRect {
                        tex_rect: if self.config().pad_glyphs {
                            info.tex_coords.spec_unpadded()
                        } else {
                            info.tex_coords
                        },
                        offset: info.offset,
                    },
                ),
            )
        }
    }

    /// The atlas texels (padding removed) and rasterization offset of a
    /// cached glyph; `Ok(None)` for a glyph with no shape.
    pub fn rect_for(&self, glyph: &GlyphRequest) -> (r: Result<Option<CachedRect>, CacheReadErr>)
        requires
            self.wf(),
        ensures
            r == self.spec_rect_for(*glyph),
    {
        if !glyph.is_drawable() {
            return Ok(None);
        }
        let key = self.lossy_info_for(glyph.font_id, glyph);
        let slot = match glyph_table_get(&self.all_glyphs, &key) {
            Some(slot) => slot,
            None => {
                return Err(CacheReadErr::GlyphNotCached);
            },
        };
        proof {
            let rm = self.rows_by_top();
            assert(rm.contains_key(slot.0));
            assert(row_glyphs_wf(slot.0, rm[slot.0], self.atlas_width()));
            lemma_key_pos(self.row_seq(), key_pos(self.row_seq(), slot.0));
        }
        let row = rows_get(&self.rows, slot.0).unwrap();
        let info = row.glyphs[slot.1 as usize];
        proof {
            assert(info.tex_coords.min_x < info.tex_coords.max_x);
        }
        let tex_rect = if self.pad_glyphs {
            info.tex_coords.unpadded()
        } else {
            info.tex_coords
        };
        Ok(Some(CachedRect { tex_rect, offset: info.offset }))
    }
}

/// `v` thousandths of a pixel rounded to whole pixels, halves away from zero.
pub open spec fn round_thousandths(v: int) -> int {
    if v >= 0 {
        (v + 500) / 1000
    } else {
        -((-v + 500) / 1000)
    }
}

/// Screen pixel of a glyph's top-left corner on one axis: the box edge `edge`
/// of the bitmap rasterized at `tex_offset`, moved to `position`.
pub open spec fn placed_edge(edge: int, tex_offset: int, position: int) -> int {
    round_thousandths(edge * 1000 - tex_offset + position)
}

/// The screen rectangle a cached glyph is drawn at, for a bitmap whose pixel
/// box at `tex_offset` is `local_bb` and a request at `position` (both in
/// thousandths of a pixel). The bitmap may be shared between nearby requests;
/// the placement always follows the request's own position.
pub fn screen_rect(local_bb: PixelRect, tex_offset: (i32, i32), position: (i32, i32)) -> (r: PixelRect)
    requires
        i32::MIN <= placed_edge(local_bb.min_x as int, tex_offset.0 as int, position.0 as int)
            + local_bb.spec_width() <= i32::MAX,
        i32::MIN <= placed_edge(local_bb.min_y as int, tex_offset.1 as int, position.1 as int)
            + local_bb.spec_height() <= i32::MAX,
        i32::MIN <= placed_edge(local_bb.min_x as int, tex_offset.0 as int, position.0 as int) <= i32::MAX,
        i32::MIN <= placed_edge(local_bb.min_y as int, tex_offset.1 as int, position.1 as int) <= i32::MAX,
    ensures
        r.min_x == placed_edge(local_bb.min_x as int, tex_offset.0 as int, position.0 as int),
        r.min_y == placed_edge(local_bb.min_y as int, tex_offset.1 as int, position.1 as int),
        r.spec_width() == local_bb.spec_width(),
        r.spec_height() == local_bb.spec_height(),
{
    let min_x = placed_axis(local_bb.min_x, tex_offset.0, position.0);
    let min_y = placed_axis(local_bb.min_y, tex_offset.1, position.1);
    let max_x = (min_x + (local_bb.max_x as i64 - local_bb.min_x as i64)) as i32;
    let max_y = (min_y + (local_bb.max_y as i64 - local_bb.min_y as i64)) as i32;
    PixelRect { min_x: min_x as i32, min_y: min_y as i32, max_x, max_y }
}

fn placed_axis(edge: i32, tex_offset: i32, position: i32) -> (r: i64)
    ensures
        r == placed_edge(edge as int, tex_offset as int, position as int),
{
    let v = edge as i64 * 1000 - tex_offset as i64 + position as i64;
    if v >= 0 {
        (v + 500) / 1000
    } else {
        -((-v + 500) / 1000)
    }
}

/// No two rows overlap vertically, and within a row no two glyphs overlap
/// horizontally; every glyph lies inside its row and the atlas.
pub proof fn law_no_overlap(c: Cache)
    requires
        c.wf(),
    ensures
        forall|a: u32, b: u32|
            #[trigger] c.rows_by_top().contains_key(a) && #[trigger] c.rows_by_top().contains_key(b)
                && a != b ==> a + c.rows_by_top()[a].height <= b || b + c.rows_by_top()[b].height <= a,
        forall|a: u32, j: int, k: int|
            c.rows_by_top().contains_key(a) && 0 <= j < k < c.rows_by_top()[a].glyphs@.len()
                ==> #[trigger] c.rows_by_top()[a].glyphs@[j].tex_coords.max_x
                <= #[trigger] c.rows_by_top()[a].glyphs@[k].tex_coords.min_x,
        forall|a: u32, j: int|
            #[trigger] c.rows_by_top().contains_key(a) && 0 <= j < c.rows_by_top()[a].glyphs@.len()
                ==> {
                let g = #[trigger] c.rows_by_top()[a].glyphs@[j].tex_coords;
                &&& a <= g.min_y < g.max_y <= a + c.rows_by_top()[a].height
                &&& g.min_x < g.max_x <= c.atlas_width()
            },
{
    assert forall|a: u32, j: int, k: int|
        c.rows_by_top().contains_key(a) && 0 <= j < k < c.rows_by_top()[a].glyphs@.len()
            implies #[trigger] c.rows_by_top()[a].glyphs@[j].tex_coords.max_x
            <= #[trigger] c.rows_by_top()[a].glyphs@[k].tex_coords.min_x by {
        assert(row_glyphs_wf(a, c.rows_by_top()[a], c.atlas_width()));
    }
    assert forall|a: u32, j: int|
        #[trigger] c.rows_by_top().contains_key(a) && 0 <= j < c.rows_by_top()[a].glyphs@.len()
            implies {
            let g = #[trigger] c.rows_by_top()[a].glyphs@[j].tex_coords;
            &&& a <= g.min_y < g.max_y <= a + c.rows_by_top()[a].height
            &&& g.min_x < g.max_x <= c.atlas_width()
        } by {
        assert(row_glyphs_wf(a, c.rows_by_top()[a], c.atlas_width()));
    }
}

/// The rows and the free bands of the ledger together cover every texel row
/// of the atlas exactly once, and no two free bands touch.
pub proof fn law_ledger_tiling(c: Cache)
    requires
        c.wf(),
    ensures
        forall|y: int| 0 <= y < c.atlas_height() ==> #[trigger] covered(c.rows_by_top(), c.free(), y),
        forall|s: u32| #[trigger] c.free().contains_key(s) ==> s < c.free()[s] <= c.atlas_height(),
        forall|s: u32, t: u32|
            #[trigger] c.free().contains_key(s) && #[trigger] c.free().contains_key(t) && s != t
                ==> c.free()[s] < t || c.free()[t] < s,
        forall|a: u32, s: u32|
            #[trigger] c.rows_by_top().contains_key(a) && #[trigger] c.free().contains_key(s)
                ==> a + c.rows_by_top()[a].height <= s || c.free()[s] <= a,
{
    assert forall|s: u32, t: u32|
        #[trigger] c.free().contains_key(s) && #[trigger] c.free().contains_key(t) && s != t
            implies c.free()[s] < t || c.free()[t] < s by {
        assert(!c.free().contains_key(c.free()[s]));
        assert(!c.free().contains_key(c.free()[t]));
    }
}

/// Once a batch has been cached, looking its glyphs up gives the same answers
/// for as long as the resident glyphs and their rows stay as they are; a
/// repeated `cache_glyphs` of the same batch keeps them so (and returns
/// `Adding` with nothing to upload), hence every `rect_for` answer repeats.
pub proof fn law_repeat_lookup_stable(before: Cache, after: Cache, glyphs: Seq<GlyphRequest>, g: GlyphRequest)
    requires
        before.wf(),
        !before.any_too_large(glyphs),
        before.all_resident(glyphs),
        after.config() == before.config(),
        after.index() == before.index(),
        after.rows_by_top() == before.rows_by_top(),
    ensures
        !after.any_too_large(glyphs),
        after.all_resident(glyphs),
        after.spec_rect_for(g) == before.spec_rect_for(g),
{
}

/// A glyph that no row holds any more is reported as not cached.
pub proof fn law_evicted_not_cached(c: Cache, g: GlyphRequest)
    requires
        c.wf(),
        g.has_shape(),
        forall|a: u32, j: int|
            c.rows_by_top().contains_key(a) && 0 <= j < c.rows_by_top()[a].glyphs@.len()
                ==> (#[trigger] c.rows_by_top()[a].glyphs@[j]).glyph_info != c.request_key(g),
    ensures
        c.spec_rect_for(g) == Err::<Option<CachedRect>, CacheReadErr>(CacheReadErr::GlyphNotCached),
{
    let k = c.request_key(g);
    if c.index().contains_key(k) {
        let slot = c.index()[k];
        assert(c.rows_by_top().contains_key(slot.0));
    }
}

/// Two requests for the same glyph whose scales and sub-pixel offsets fall in
/// the same tolerance steps share one bitmap: `rect_for` gives both the same
/// atlas texels.
pub proof fn law_tolerance_dedup(c: Cache, g1: GlyphRequest, g2: GlyphRequest)
    requires
        c.wf(),
        g1.has_shape(),
        g2.has_shape(),
        g1.font_id == g2.font_id,
        g1.glyph_id == g2.glyph_id,
        round_div(g1.scale.0 as int, c.config().scale_tolerance as int) == round_div(
            g2.scale.0 as int,
            c.config().scale_tolerance as int,
        ),
        round_div(g1.scale.1 as int, c.config().scale_tolerance as int) == round_div(
            g2.scale.1 as int,
            c.config().scale_tolerance as int,
        ),
        round_div(normalised_offset(g1.position.0 as int) + 500, c.config().position_tolerance as int)
            == round_div(normalised_offset(g2.position.0 as int) + 500, c.config().position_tolerance as int),
        round_div(normalised_offset(g1.position.1 as int) + 500, c.config().position_tolerance as int)
            == round_div(normalised_offset(g2.position.1 as int) + 500, c.config().position_tolerance as int),
    ensures
        c.request_key(g1) == c.request_key(g2),
        c.spec_rect_for(g1) == c.spec_rect_for(g2),
{
}

/// A row as the packing simulation sees it: `(top, height, width used)`.
pub open spec fn summaries(s: Seq<(u32, Row)>) -> Seq<(u32, u32, u32)> {
    s.map_values(|e: (u32, Row)| (e.0, e.1.height, e.1.width))
}

/// The greedy packing of a batch into an empty atlas: rows from least to most
/// recently used, the top of the free space below them, and the keys stored.
pub struct PackSim {
    pub rows: Seq<(u32, u32, u32)>,
    pub next: int,
    pub placed: Set<GlyphKey>,
}

/// Index of the most recently used of the first `n` rows with room for a
/// glyph of `w` by `h`, or `-1`.
pub open spec fn last_fit(rows: Seq<(u32, u32, u32)>, w: int, h: int, width: int, n: int) -> int
    decreases n,
{
    if n <= 0 {
        -1
    } else if rows[n - 1].1 >= h && width - rows[n - 1].2 >= w {
        n - 1
    } else {
        last_fit(rows, w, h, width, n - 1)
    }
}

proof fn lemma_last_fit(rows: Seq<(u32, u32, u32)>, w: int, h: int, width: int, n: int)
    requires
        0 <= n <= rows.len(),
    ensures
        -1 <= last_fit(rows, w, h, width, n) < n,
        last_fit(rows, w, h, width, n) >= 0 ==> ({
            let p = last_fit(rows, w, h, width, n);
            rows[p].1 >= h && width - rows[p].2 >= w
        }),
        forall|q: int|
            last_fit(rows, w, h, width, n) < q < n ==> !(rows[q].1 >= h && width - rows[q].2 >= w),
    decreases n,
{
    if n > 0 {
        lemma_last_fit(rows, w, h, width, n - 1);
    }
}

/// The indices of the requests that have a shape, among the first `n`.
pub open spec fn shaped_indices(glyphs: Seq<GlyphRequest>, n: int) -> Seq<usize>
    decreases n,
{
    if n <= 0 {
        Seq::empty()
    } else {
        let prev = shaped_indices(glyphs, n - 1);
        if glyphs[n - 1].has_shape() {
            prev.push((n - 1) as usize)
        } else {
            prev
        }
    }
}

/// The free ledger of a simulated atlas: one band from `next` to the bottom.
pub open spec fn band_below(next: int, height: u32) -> BandMap {
    if next < height {
        BandMap::empty().insert(next as u32, height)
    } else {
        BandMap::empty()
    }
}

impl Cache {
    /// One step of the simulation.
    pub open spec fn sim_step(&self, st: PackSim, g: GlyphRequest) -> Option<PackSim> {
        let k = self.request_key(g);
        let w = self.aligned_dims(g).0;
        let h = self.aligned_dims(g).1;
        let p = last_fit(st.rows, w, h, self.atlas_width() as int, st.rows.len() as int);
        if st.placed.contains(k) {
            Some(st)
        } else if p >= 0 {
            Some(
                PackSim {
                    rows: st.rows.remove(p).push(
                        (st.rows[p].0, st.rows[p].1, (st.rows[p].2 + w) as u32),
                    ),
                    next: st.next,
                    placed: st.placed.insert(k),
                },
            )
        } else if self.atlas_height() - st.next >= h {
            Some(
                PackSim {
                    rows: st.rows.push((st.next as u32, h as u32, w as u32)),
                    next: st.next + h,
                    placed: st.placed.insert(k),
                },
            )
        } else {
            None
        }
    }

    /// The simulation after the first `n` requests of `order`.
    pub open spec fn sim_run(&self, glyphs: Seq<GlyphRequest>, order: Seq<usize>, n: nat) -> Option<PackSim>
        decreases n,
    {
        if n == 0 {
            Some(PackSim { rows: Seq::empty(), next: 0, placed: Set::empty() })
        } else {
            match self.sim_run(glyphs, order, (n - 1) as nat) {
                Some(st) => self.sim_step(st, glyphs[order[n - 1] as int]),
                None => None,
            }
        }
    }

    /// The batch fits an empty atlas of this cache's size when packed tallest
    /// first, each glyph into the most recently used row with room, else
    /// into a new row below the others.
    pub open spec fn fits_when_empty(&self, glyphs: Seq<GlyphRequest>) -> bool {
        let order = sorted_tallest_first(glyphs, shaped_indices(glyphs, glyphs.len() as int));
        self.sim_run(glyphs, order, order.len()) is Some
    }
}

impl Cache {
    /// This cache is in the state the simulation `sim` describes, with every
    /// row in `in_use`.
    #[verifier::opaque]
    pub open spec fn sim_matches(&self, in_use: Set<u32>, sim: PackSim) -> bool {
        &&& summaries(self.row_seq()) == sim.rows
        &&& self.free() == band_below(sim.next, self.atlas_height())
        &&& 0 <= sim.next <= self.atlas_height()
        &&& self.index().dom() == sim.placed
        &&& forall|i: int| 0 <= i < sim.rows.len() ==> in_use.contains(#[trigger] sim.rows[i].0)
    }
}

/// A placement step taken in the state a simulation describes is that
/// simulation's step.
proof fn lemma_sim_advance(
    before: Cache,
    after: Cache,
    ib: Set<u32>,
    ia: Set<u32>,
    sim: PackSim,
    g: GlyphRequest,
    placed: bool,
)
    requires
        before.wf(),
        after.config() == before.config(),
        before.sim_matches(ib, sim),
        g.has_shape(),
        !before.too_large(g),
        !before.index().contains_key(before.request_key(g)),
        placed ==> {
            let key = before.request_key(g);
            let slot = after.index()[key];
            &&& after.index().contains_key(key)
            &&& after.row_seq().len() > 0
            &&& after.row_seq().last().0 == slot.0
            &&& ia == ib.insert(slot.0)
            &&& forall|k: GlyphKey| #[trigger] after.index().contains_key(k) ==> k == key || before.index().contains_key(k)
            &&& forall|k: GlyphKey|
                #[trigger] before.index().contains_key(k) && ib.contains(before.index()[k].0)
                    ==> after.index().contains_key(k) && after.index()[k] == before.index()[k]
        },
        ({
            let s0 = summaries(before.row_seq());
            let w = before.aligned_dims(g).0;
            let h = before.aligned_dims(g).1;
            let lp = last_fit(s0, w, h, before.atlas_width() as int, s0.len() as int);
            let all_in = forall|i: int|
                0 <= i < before.row_seq().len() ==> ib.contains(#[trigger] before.row_seq()[i].0);
            let band = exists|s: u32| #[trigger] before.free().contains_key(s) && before.free()[s] - s >= h;
            &&& all_in && lp >= 0 ==> placed && summaries(after.row_seq()) == s0.remove(lp).push(
                (s0[lp].0, s0[lp].1, (s0[lp].2 + w) as u32),
            ) && after.free() == before.free()
            &&& all_in && lp < 0 && band ==> placed && exists|s: u32| #[trigger]
                before.free().contains_key(s) && before.free()[s] - s >= h && summaries(after.row_seq())
                    == s0.push((s, h as u32, w as u32)) && after.free() == carved_free(
                    before.free(),
                    s,
                    h as u32,
                )
            &&& all_in && lp < 0 && !band ==> !placed
        }),
    ensures
        placed ==> before.sim_step(sim, g) is Some && after.sim_matches(ia, before.sim_step(sim, g).unwrap()),
        !placed ==> before.sim_step(sim, g) is None,
{
    reveal(Cache::sim_matches);
    let key = before.request_key(g);
    let s0 = summaries(before.row_seq());
    let w = before.aligned_dims(g).0;
    let h = before.aligned_dims(g).1;
    let H = before.atlas_height();
    let lp = last_fit(s0, w, h, before.atlas_width() as int, s0.len() as int);
    lemma_last_fit(s0, w, h, before.atlas_width() as int, s0.len() as int);
    assert(!sim.placed.contains(key));
    assert forall|i: int| 0 <= i < before.row_seq().len() implies ib.contains(#[trigger] before.row_seq()[i].0) by {
        assert(s0[i].0 == before.row_seq()[i].0);
    }
    let band = exists|s: u32| #[trigger] before.free().contains_key(s) && before.free()[s] - s >= h;
    assert(band <==> H - sim.next >= h) by {
        if H - sim.next >= h {
            assert(before.free().contains_key(sim.next as u32));
        }
    }
    if placed {
        let next = before.sim_step(sim, g).unwrap();
        let slot = after.index()[key];
        assert(after.index().dom() =~= sim.placed.insert(key)) by {
            assert forall|k: GlyphKey| before.index().contains_key(k) implies after.index().contains_key(k) by {
                assert(before.index().contains_key(k));
            }
        }
        if lp >= 0 {
            assert(after.free() == band_below(next.next, H));
        } else {
            let s = choose|s: u32| #[trigger]
                before.free().contains_key(s) && before.free()[s] - s >= h && summaries(after.row_seq())
                    == s0.push((s, h as u32, w as u32)) && after.free() == carved_free(
                    before.free(),
                    s,
                    h as u32,
                );
            assert(s == sim.next);
            assert(after.free() =~= band_below(next.next, H));
        }
        assert(sim.rows == s0);
        if lp >= 0 {
            assert(next.rows == s0.remove(lp).push((s0[lp].0, s0[lp].1, (s0[lp].2 + w) as u32)));
        } else {
            assert(next.rows == s0.push((sim.next as u32, h as u32, w as u32)));
        }
        assert(next.rows == summaries(after.row_seq()));
        assert(summaries(after.row_seq()).last().0 == slot.0);
        assert forall|i: int| 0 <= i < next.rows.len() implies ia.contains(#[trigger] next.rows[i].0) by {
            if i < next.rows.len() - 1 {
                if lp >= 0 {
                    let j = if i < lp { i } else { i + 1 };
                    assert(s0.remove(lp)[i] == s0[j]);
                    assert(next.rows[i] == s0[j]);
                    assert(ib.contains(sim.rows[j].0));
                } else {
                    assert(next.rows[i] == s0[i]);
                    assert(ib.contains(sim.rows[i].0));
                }
            } else {
                assert(next.rows[i] == summaries(after.row_seq()).last());
            }
        }
    }
}

/// The simulation depends on the cache's parameters alone.
proof fn lemma_sim_config(c1: Cache, c2: Cache, glyphs: Seq<GlyphRequest>, order: Seq<usize>, n: nat)
    requires
        c1.config() == c2.config(),
    ensures
        c1.sim_run(glyphs, order, n) == c2.sim_run(glyphs, order, n),
    decreases n,
{
    if n > 0 {
        lemma_sim_config(c1, c2, glyphs, order, (n - 1) as nat);
    }
}

/// A failed simulation stays failed.
proof fn lemma_sim_fails_on(c: Cache, glyphs: Seq<GlyphRequest>, order: Seq<usize>, m: nat, n: nat)
    requires
        m <= n,
        c.sim_run(glyphs, order, m) is None,
    ensures
        c.sim_run(glyphs, order, n) is None,
    decreases n - m,
{
    if m < n {
        lemma_sim_fails_on(c, glyphs, order, m, (n - 1) as nat);
    }
}

/// A cache without rows holds no glyph and one free band over the whole atlas.
proof fn lemma_no_rows(c: Cache)
    requires
        c.wf(),
        c.row_seq().len() == 0,
    ensures
        c.index() == GlyphMap::empty(),
        c.free() == band_below(0, c.atlas_height()),
{
    let rm = c.rows_by_top();
    let free = c.free();
    let h = c.atlas_height();
    assert(rm =~= Map::<u32, Row>::empty()) by {
        assert forall|k: u32| !rm.contains_key(k) by {}
    }
    assert(c.index() =~= GlyphMap::empty()) by {
        assert forall|k: GlyphKey| !c.index().contains_key(k) by {
            if c.index().contains_key(k) {
                assert(rm.contains_key(c.index()[k].0));
            }
        }
    }
    if h > 0 {
        assert(covered(rm, free, 0));
        let s0 = choose|s: u32| band_has(free, s, 0);
        assert(s0 == 0);
        let e0 = free[0];
        if e0 < h {
            assert(covered(rm, free, e0 as int));
            let s1 = choose|s: u32| band_has(free, s, e0 as int);
            assert(free.contains_key(s1) && free.contains_key(0u32));
            assert(s1 == e0);
        }
        assert forall|s: u32| free.contains_key(s) implies s == 0 by {
            if s != 0 {
                assert(free.contains_key(s) && free.contains_key(0u32));
            }
        }
        assert(free =~= band_below(0, h));
    } else {
        assert forall|s: u32| !free.contains_key(s) by {}
        assert(free =~= band_below(0, h));
    }
}

} // verus!
