use sprowl::font_cache::{
    normalised_offset_from_position, screen_rect, sort_tallest_first, Cache, CacheReadErr, CacheWriteErr, CachedBy,
    CachedRect, GlyphRequest, Placement,
};
use sprowl::geometry::{PixelRect, TexRect};

fn glyph(id: u32, w: i32, h: i32) -> GlyphRequest {
    GlyphRequest {
        font_id: 0,
        glyph_id: id,
        scale: (12000, 12000),
        position: (0, 0),
        bbox: Some(PixelRect { min_x: 0, min_y: 0, max_x: w, max_y: h }),
    }
}

fn small_cache() -> Cache {
    Cache::builder().dimensions(64, 64).pad_glyphs(false).build()
}

fn tex(min_x: u32, min_y: u32, max_x: u32, max_y: u32) -> TexRect {
    TexRect { min_x, min_y, max_x, max_y }
}

fn tex_rect_of(cache: &Cache, g: &GlyphRequest) -> TexRect {
    match cache.rect_for(g) {
        Ok(Some(r)) => r.tex_rect,
        other => panic!("glyph not resident: {:?}", other),
    }
}

#[test]
fn packs_tallest_first() {
    let mut cache = small_cache();
    let batch = vec![glyph(1, 30, 10), glyph(2, 30, 30), glyph(3, 30, 20)];
    let (by, placements) = cache.cache_glyphs(&batch).unwrap();
    assert_eq!(by, CachedBy::Adding);
    assert_eq!(
        placements,
        vec![
            Placement { rect: tex(0, 0, 30, 30), request: 1 },
            Placement { rect: tex(30, 0, 60, 20), request: 2 },
            Placement { rect: tex(0, 30, 30, 40), request: 0 },
        ]
    );
    assert_eq!(tex_rect_of(&cache, &batch[1]), tex(0, 0, 30, 30));
    assert_eq!(tex_rect_of(&cache, &batch[2]), tex(30, 0, 60, 20));
    assert_eq!(tex_rect_of(&cache, &batch[0]), tex(0, 30, 30, 40));
    let bottom = batch.iter().map(|g| tex_rect_of(&cache, g).max_y).max().unwrap();
    assert!(bottom <= 60);
}

#[test]
fn glyph_rects_never_overlap() {
    let mut cache = small_cache();
    let batch: Vec<GlyphRequest> = (0..12u32).map(|i| glyph(i, 5 + (i as i32 % 4) * 3, 4 + (i as i32 % 5) * 2)).collect();
    cache.cache_glyphs(&batch).unwrap();
    let rects: Vec<TexRect> = batch.iter().map(|g| tex_rect_of(&cache, g)).collect();
    for (i, a) in rects.iter().enumerate() {
        assert!(a.max_x <= 64 && a.max_y <= 64);
        for b in rects.iter().skip(i + 1) {
            let apart = a.max_x <= b.min_x || b.max_x <= a.min_x || a.max_y <= b.min_y || b.max_y <= a.min_y;
            assert!(apart, "{:?} overlaps {:?}", a, b);
        }
    }
}

#[test]
fn repeated_batch_is_stable() {
    let mut cache = small_cache();
    let batch = vec![glyph(1, 30, 10), glyph(2, 30, 30), glyph(3, 30, 20)];
    cache.cache_glyphs(&batch).unwrap();
    let first: Vec<_> = batch.iter().map(|g| cache.rect_for(g)).collect();
    let (by, placements) = cache.cache_glyphs(&batch).unwrap();
    assert_eq!(by, CachedBy::Adding);
    assert!(placements.is_empty());
    let second: Vec<_> = batch.iter().map(|g| cache.rect_for(g)).collect();
    assert_eq!(first, second);
}

#[test]
fn full_atlas_evicts_least_recently_used_row() {
    let mut cache = small_cache();
    let a = glyph(1, 60, 30);
    let b = glyph(2, 60, 30);
    let c = glyph(3, 60, 30);
    cache.cache_glyphs(&vec![a]).unwrap();
    cache.cache_glyphs(&vec![b]).unwrap();
    let (by, placements) = cache.cache_glyphs(&vec![c]).unwrap();
    assert_eq!(by, CachedBy::Adding);
    assert_eq!(placements, vec![Placement { rect: tex(0, 0, 60, 30), request: 0 }]);
    assert_eq!(cache.rect_for(&a), Err(CacheReadErr::GlyphNotCached));
    assert_eq!(tex_rect_of(&cache, &b), tex(0, 30, 60, 60));
    assert_eq!(tex_rect_of(&cache, &c), tex(0, 0, 60, 30));
}

#[test]
fn evicted_glyph_can_be_cached_again() {
    let mut cache = small_cache();
    let a = glyph(1, 60, 30);
    let b = glyph(2, 60, 30);
    let c = glyph(3, 60, 30);
    cache.cache_glyphs(&vec![a]).unwrap();
    cache.cache_glyphs(&vec![b]).unwrap();
    cache.cache_glyphs(&vec![c]).unwrap();
    assert_eq!(cache.rect_for(&a), Err(CacheReadErr::GlyphNotCached));
    let (by, _) = cache.cache_glyphs(&vec![a]).unwrap();
    assert_eq!(by, CachedBy::Adding);
    assert_eq!(tex_rect_of(&cache, &a), tex(0, 30, 60, 60));
    assert_eq!(cache.rect_for(&b), Err(CacheReadErr::GlyphNotCached));
}

#[test]
fn rows_of_the_batch_are_not_evicted() {
    let mut cache = small_cache();
    let a = glyph(1, 60, 30);
    let b = glyph(2, 60, 30);
    let c = glyph(3, 60, 34);
    cache.cache_glyphs(&vec![a]).unwrap();
    cache.cache_glyphs(&vec![b]).unwrap();
    let (by, _) = cache.cache_glyphs(&vec![a, c]).unwrap();
    assert_eq!(by, CachedBy::Adding);
    assert_eq!(tex_rect_of(&cache, &a), tex(0, 0, 60, 30));
    assert_eq!(tex_rect_of(&cache, &c), tex(0, 30, 60, 64));
    assert_eq!(cache.rect_for(&b), Err(CacheReadErr::GlyphNotCached));
}

#[test]
fn blocked_batch_is_repacked_from_scratch() {
    let mut cache = small_cache();
    cache.cache_glyphs(&vec![glyph(1, 60, 30)]).unwrap();
    let b = glyph(2, 60, 30);
    let d = glyph(4, 60, 32);
    cache.cache_glyphs(&vec![b]).unwrap();
    cache.cache_glyphs(&vec![glyph(3, 60, 30)]).unwrap();
    let (by, placements) = cache.cache_glyphs(&vec![b, d]).unwrap();
    assert_eq!(by, CachedBy::Reordering);
    assert_eq!(placements.len(), 2);
    assert_eq!(tex_rect_of(&cache, &d), tex(0, 0, 60, 32));
    assert_eq!(tex_rect_of(&cache, &b), tex(0, 32, 60, 62));
}

#[test]
fn batch_that_cannot_fit_reports_no_room() {
    let mut cache = small_cache();
    let e = glyph(1, 60, 40);
    let f = glyph(2, 60, 40);
    assert_eq!(cache.cache_glyphs(&vec![e, f]), Err(CacheWriteErr::NoRoomForWholeQueue));
    assert_eq!(cache.rect_for(&e), Err(CacheReadErr::GlyphNotCached));
    assert_eq!(cache.rect_for(&f), Err(CacheReadErr::GlyphNotCached));
}

#[test]
fn oversized_glyph_is_refused_without_change() {
    let mut cache = small_cache();
    let a = glyph(1, 20, 20);
    cache.cache_glyphs(&vec![a]).unwrap();
    let before = cache.rect_for(&a);
    let huge = glyph(2, 100, 100);
    assert_eq!(cache.cache_glyphs(&vec![huge, glyph(3, 5, 5)]), Err(CacheWriteErr::GlyphTooLarge));
    assert_eq!(cache.rect_for(&a), before);
    assert_eq!(cache.rect_for(&glyph(3, 5, 5)), Err(CacheReadErr::GlyphNotCached));
}

#[test]
fn glyph_as_wide_as_atlas_is_too_large() {
    let mut cache = small_cache();
    assert_eq!(cache.cache_glyphs(&vec![glyph(1, 64, 1)]), Err(CacheWriteErr::GlyphTooLarge));
    assert!(cache.cache_glyphs(&vec![glyph(1, 63, 1)]).is_ok());
}

#[test]
fn shapeless_glyph_has_no_rect() {
    let mut cache = small_cache();
    let space = GlyphRequest { bbox: None, ..glyph(1, 0, 0) };
    let (by, placements) = cache.cache_glyphs(&vec![space]).unwrap();
    assert_eq!(by, CachedBy::Adding);
    assert!(placements.is_empty());
    assert_eq!(cache.rect_for(&space), Ok(None));
}

#[test]
fn nearby_requests_share_a_bitmap() {
    let mut cache = Cache::builder().dimensions(64, 64).build();
    let g1 = GlyphRequest { scale: (10000, 10000), position: (0, 0), ..glyph(7, 8, 8) };
    let g2 = GlyphRequest { scale: (10040, 10040), position: (30, 30), ..glyph(7, 8, 8) };
    let (_, placements) = cache.cache_glyphs(&vec![g1, g2]).unwrap();
    assert_eq!(placements.len(), 1);
    assert_eq!(cache.rect_for(&g1), cache.rect_for(&g2));
    let far = GlyphRequest { scale: (10060, 10060), ..g1 };
    assert_eq!(cache.rect_for(&far), Err(CacheReadErr::GlyphNotCached));
}

#[test]
fn padded_glyph_reports_inner_rect() {
    let mut cache = Cache::builder().dimensions(64, 64).pad_glyphs(true).build();
    let g = glyph(1, 10, 6);
    let (_, placements) = cache.cache_glyphs(&vec![g]).unwrap();
    assert_eq!(placements, vec![Placement { rect: tex(0, 0, 12, 8), request: 0 }]);
    assert_eq!(
        cache.rect_for(&g),
        Ok(Some(CachedRect { tex_rect: tex(1, 1, 11, 7), offset: (0, 0) }))
    );
}

#[test]
fn aligned_glyph_takes_whole_blocks() {
    let mut cache = Cache::builder().dimensions(64, 64).pad_glyphs(false).align_4x4(true).build();
    let g = glyph(1, 5, 6);
    let h = glyph(2, 3, 3);
    let (_, placements) = cache.cache_glyphs(&vec![g, h]).unwrap();
    assert_eq!(placements[0], Placement { rect: tex(0, 0, 8, 8), request: 0 });
    assert_eq!(placements[1], Placement { rect: tex(8, 0, 12, 4), request: 1 });
    assert_eq!(tex_rect_of(&cache, &g), tex(0, 0, 5, 6));
}

#[test]
fn clear_drops_every_glyph() {
    let mut cache = small_cache();
    let a = glyph(1, 10, 10);
    cache.cache_glyphs(&vec![a]).unwrap();
    cache.clear();
    assert_eq!(cache.rect_for(&a), Err(CacheReadErr::GlyphNotCached));
}

#[test]
fn builder_round_trips_and_clamps_tolerances() {
    let cache = Cache::builder().dimensions(128, 32).scale_tolerance(0).position_tolerance(250).build();
    assert_eq!(cache.dimensions(), (128, 32));
    assert_eq!(cache.scale_tolerance(), 1);
    assert_eq!(cache.position_tolerance(), 250);
    let b = cache.to_builder();
    assert_eq!(b.dimensions, (128, 32));
    assert!(b.pad_glyphs);
    assert!(!b.align_4x4);
    let mut other = Cache::builder().build();
    b.dimensions(16, 16).rebuild(&mut other);
    assert_eq!(other.dimensions(), (16, 16));
}

#[test]
fn keys_round_scale_and_offset_to_tolerance_steps() {
    let cache = Cache::builder().build();
    let g = GlyphRequest { scale: (10049, 10050), position: (1700, -2500), ..glyph(9, 4, 4) };
    assert_eq!(cache.lossy_info_for(3, &g), (3, 9, 100, 101, 2, 0));
}

#[test]
fn offsets_fold_into_half_pixel_range() {
    assert_eq!(normalised_offset_from_position((1700, -1700)), (-300, 300));
    assert_eq!(normalised_offset_from_position((2500, -2500)), (500, -500));
    assert_eq!(normalised_offset_from_position((499, -999)), (499, 1));
}

#[test]
fn screen_rect_follows_requested_position() {
    let local = PixelRect { min_x: 1, min_y: -10, max_x: 9, max_y: 2 };
    let r = screen_rect(local, (200, -100), (10300, 20450));
    assert_eq!(r, PixelRect { min_x: 11, min_y: 11, max_x: 19, max_y: 23 });
    let n = screen_rect(PixelRect { min_x: -2, min_y: 0, max_x: 0, max_y: 1 }, (500, 0), (0, 0));
    assert_eq!(n, PixelRect { min_x: -3, min_y: 0, max_x: -1, max_y: 1 });
}

#[test]
fn error_descriptions() {
    assert_eq!(CacheReadErr::GlyphNotCached.description(), "Glyph not cached");
    assert_eq!(CacheWriteErr::GlyphTooLarge.description(), "Glyph too large");
    assert_eq!(CacheWriteErr::NoRoomForWholeQueue.description(), "No room for whole queue");
}

#[test]
fn sort_puts_tallest_first_and_keeps_ties_in_order() {
    let glyphs = vec![glyph(0, 1, 5), glyph(1, 1, 9), glyph(2, 1, 5), glyph(3, 1, 7), glyph(4, 1, 9)];
    let order = vec![0usize, 1, 2, 3, 4];
    assert_eq!(sort_tallest_first(&glyphs, &order), vec![1, 4, 3, 0, 2]);
    assert_eq!(sort_tallest_first(&glyphs, &vec![2usize, 0]), vec![2, 0]);
    assert!(sort_tallest_first(&glyphs, &vec![]).is_empty());
}

#[test]
fn rect_sizes_and_padding() {
    let t = tex(3, 4, 10, 12);
    assert_eq!((t.width(), t.height()), (7, 8));
    assert_eq!(t.unpadded(), tex(4, 5, 9, 11));
    let p = PixelRect { min_x: -3, min_y: -1, max_x: 4, max_y: 2 };
    assert_eq!((p.width(), p.height()), (7, 3));
    assert!(GlyphRequest { bbox: Some(PixelRect { min_x: 0, min_y: 0, max_x: 0, max_y: 3 }), ..glyph(1, 1, 1) }.bbox.is_some());
    assert!(!GlyphRequest { bbox: Some(PixelRect { min_x: 0, min_y: 0, max_x: 0, max_y: 3 }), ..glyph(1, 1, 1) }.is_drawable());
    assert!(glyph(1, 1, 1).is_drawable());
}

#[test]
fn fonts_do_not_share_bitmaps() {
    let mut cache = small_cache();
    let a = glyph(5, 6, 6);
    let b = GlyphRequest { font_id: 1, ..a };
    let (_, placements) = cache.cache_glyphs(&vec![a, b]).unwrap();
    assert_eq!(placements.len(), 2);
    assert_ne!(tex_rect_of(&cache, &a), tex_rect_of(&cache, &b));
}
