use vstd::prelude::*;
use crate::rows::{GlyphKey, Row, has_key, key_pos, keys_of};
use crate::tables::{BandMap, GlyphMap};

verus! {

// Rows of the atlas and the free-band ledger: the invariant they keep
// together, and the lemmas showing that cutting a row from a free band and
// freeing a row preserve it.

/// The rows of `s` as a map from top edge to row.
pub open spec fn row_map(s: Seq<(u32, Row)>) -> Map<u32, Row> {
    Map::new(|k: u32| has_key(s, k), |k: u32| s[key_pos(s, k)].1)
}

/// In a table with unique keys, the entry at `i` is the one found for its key.
pub(crate) proof fn lemma_key_pos(s: Seq<(u32, Row)>, i: int)
    requires
        keys_of(s).no_duplicates(),
        0 <= i < s.len(),
    ensures
        has_key(s, s[i].0),
        key_pos(s, s[i].0) == i,
{
    let k = s[i].0;
    assert(has_key(s, k));
    let p = key_pos(s, k);
    assert(keys_of(s)[p] == keys_of(s)[i]);
}

/// Taking out one entry of a table takes its key out of the row map.
pub(crate) proof fn lemma_row_map_remove(s: Seq<(u32, Row)>, p: int)
    requires
        keys_of(s).no_duplicates(),
        0 <= p < s.len(),
    ensures
        keys_of(s.remove(p)).no_duplicates(),
        row_map(s.remove(p)) == row_map(s).remove(s[p].0),
{
    let t = s.remove(p);
    assert(keys_of(t) =~= keys_of(s).remove(p));
    assert forall|i: int, j: int|
        0 <= i < keys_of(t).len() && 0 <= j < keys_of(t).len() && i != j implies keys_of(t)[i]
        != keys_of(t)[j] by {
        let i2 = if i < p { i } else { i + 1 };
        let j2 = if j < p { j } else { j + 1 };
        assert(keys_of(t)[i] == keys_of(s)[i2]);
        assert(keys_of(t)[j] == keys_of(s)[j2]);
    }
    assert forall|k: u32| #[trigger] has_key(t, k) == (has_key(s, k) && k != s[p].0) by {
        if has_key(t, k) {
            let i = choose|i: int| 0 <= i < t.len() && t[i].0 == k;
            let i2 = if i < p { i } else { i + 1 };
            assert(s[i2].0 == k);
            assert(keys_of(s)[i2] == k);
            assert(keys_of(s)[p] == s[p].0);
        }
        if has_key(s, k) && k != s[p].0 {
            let i = choose|i: int| 0 <= i < s.len() && s[i].0 == k;
            let i2 = if i < p { i } else { i - 1 };
            assert(t[i2].0 == k);
        }
    }
    assert forall|k: u32| has_key(t, k) implies t[key_pos(t, k)].1 == s[key_pos(s, k)].1 by {
        let i = key_pos(t, k);
        let i2 = if i < p { i } else { i + 1 };
        assert(s[i2] == t[i]);
        lemma_key_pos(s, i2);
    }
    assert(row_map(t) =~= row_map(s).remove(s[p].0));
}

/// Appending an entry under a new key adds it to the row map.
pub(crate) proof fn lemma_row_map_push(s: Seq<(u32, Row)>, k: u32, v: Row)
    requires
        keys_of(s).no_duplicates(),
        !has_key(s, k),
    ensures
        keys_of(s.push((k, v))).no_duplicates(),
        row_map(s.push((k, v))) == row_map(s).insert(k, v),
{
    let t = s.push((k, v));
    assert(keys_of(t) =~= keys_of(s).push(k));
    assert forall|i: int, j: int|
        0 <= i < keys_of(t).len() && 0 <= j < keys_of(t).len() && i != j implies keys_of(t)[i]
        != keys_of(t)[j] by {
        if i < s.len() && j < s.len() {
            assert(keys_of(t)[i] == keys_of(s)[i]);
            assert(keys_of(t)[j] == keys_of(s)[j]);
        } else if i < s.len() {
            assert(t[i].0 == s[i].0);
        } else if j < s.len() {
            assert(t[j].0 == s[j].0);
        }
    }
    assert forall|q: u32| #[trigger] has_key(t, q) == (has_key(s, q) || q == k) by {
        if has_key(t, q) && q != k {
            let i = choose|i: int| 0 <= i < t.len() && t[i].0 == q;
            assert(s[i].0 == q);
        }
        if has_key(s, q) {
            let i = choose|i: int| 0 <= i < s.len() && s[i].0 == q;
            assert(t[i].0 == q);
        }
        if q == k {
            assert(t[s.len() as int].0 == q);
        }
    }
    assert forall|q: u32| has_key(t, q) implies t[key_pos(t, q)].1 == row_map(s).insert(k, v)[q] by {
        let i = key_pos(t, q);
        lemma_key_pos(t, i);
        if q == k {
            lemma_key_pos(t, s.len() as int);
        } else {
            assert(i < s.len());
            assert(t[i] == s[i]);
            lemma_key_pos(s, i);
        }
    }
    assert(row_map(t) =~= row_map(s).insert(k, v));
}

/// Moving one entry to the end keeps the row map.
pub(crate) proof fn lemma_row_map_refresh(s: Seq<(u32, Row)>, p: int)
    requires
        keys_of(s).no_duplicates(),
        0 <= p < s.len(),
    ensures
        keys_of(s.remove(p).push(s[p])).no_duplicates(),
        row_map(s.remove(p).push(s[p])) == row_map(s),
{
    lemma_row_map_remove(s, p);
    let t = s.remove(p);
    assert(!has_key(t, s[p].0)) by {
        if has_key(t, s[p].0) {
            let i = choose|i: int| 0 <= i < t.len() && t[i].0 == s[p].0;
            assert(row_map(t).contains_key(s[p].0));
        }
    }
    lemma_row_map_push(t, s[p].0, s[p].1);
    lemma_key_pos(s, p);
    assert(row_map(s).remove(s[p].0).insert(s[p].0, s[p].1) =~= row_map(s));
}

/// Row `a` spans `[a, a + height)`.
pub open spec fn row_has(rm: Map<u32, Row>, a: u32, y: int) -> bool {
    rm.contains_key(a) && a <= y < a + rm[a].height
}

/// Free band starting at `s` spans `[s, free[s])`.
pub open spec fn band_has(free: BandMap, s: u32, y: int) -> bool {
    free.contains_key(s) && s <= y < free[s]
}

/// Some row or free band holds texel row `y`.
pub open spec fn covered(rm: Map<u32, Row>, free: BandMap, y: int) -> bool {
    (exists|a: u32| row_has(rm, a, y)) || (exists|s: u32| band_has(free, s, y))
}

/// Rows lie inside the atlas and no two overlap.
pub open spec fn rows_disjoint(rm: Map<u32, Row>, height: u32) -> bool {
    &&& forall|a: u32| #[trigger] rm.contains_key(a) ==> 0 < rm[a].height && a + rm[a].height <= height
    &&& forall|a: u32, b: u32|
        #[trigger] rm.contains_key(a) && #[trigger] rm.contains_key(b) && a != b ==> a
            + rm[a].height <= b || b + rm[b].height <= a
}

/// The free ledger: bands inside the atlas, the two maps inverse to each other,
/// no two bands overlapping or touching, none overlapping a row.
pub open spec fn ledger_wf(rm: Map<u32, Row>, free: BandMap, rev: BandMap, height: u32) -> bool {
    &&& forall|s: u32| #[trigger] free.contains_key(s) ==> s < free[s] && free[s] <= height
    &&& forall|s: u32| #[trigger]
        free.contains_key(s) ==> rev.contains_key(free[s]) && rev[free[s]] == s
    &&& forall|e: u32| #[trigger]
        rev.contains_key(e) ==> free.contains_key(rev[e]) && free[rev[e]] == e
    &&& forall|s: u32| #[trigger] free.contains_key(s) ==> !free.contains_key(free[s])
    &&& forall|s: u32, t: u32|
        #[trigger] free.contains_key(s) && #[trigger] free.contains_key(t) && s != t ==> free[s]
            <= t || free[t] <= s
    &&& forall|a: u32, s: u32|
        #[trigger] rm.contains_key(a) && #[trigger] free.contains_key(s) ==> a + rm[a].height <= s
            || free[s] <= a
}

/// Rows and free bands together cover every texel row of the atlas.
pub open spec fn tiled(rm: Map<u32, Row>, free: BandMap, height: u32) -> bool {
    forall|y: int| 0 <= y < height ==> #[trigger] covered(rm, free, y)
}

/// The glyphs of the row at `top` sit side by side inside it.
pub open spec fn row_glyphs_wf(top: u32, r: Row, width: u32) -> bool {
    &&& r.width <= width
    &&& r.glyphs@.len() <= r.width
    &&& forall|j: int|
        0 <= j < r.glyphs@.len() ==> {
            let g = #[trigger] r.glyphs@[j].tex_coords;
            g.min_y == top && g.min_y < g.max_y && g.max_y <= top + r.height && g.min_x < g.max_x
                && g.max_x <= r.width
        }
    &&& forall|j: int, k: int|
        0 <= j < k < r.glyphs@.len() ==> #[trigger] r.glyphs@[j].tex_coords.max_x
            <= #[trigger] r.glyphs@[k].tex_coords.min_x
}

/// The glyph table names exactly the glyphs stored in rows, each at its slot.
pub open spec fn index_wf(rm: Map<u32, Row>, index: GlyphMap) -> bool {
    &&& forall|a: u32, j: int|
        #[trigger] rm.contains_key(a) && 0 <= j < rm[a].glyphs@.len() ==> index.contains_key(
            #[trigger] rm[a].glyphs@[j].glyph_info,
        ) && index[rm[a].glyphs@[j].glyph_info] == (a, j as u32)
    &&& forall|k: GlyphKey| #[trigger]
        index.contains_key(k) ==> rm.contains_key(index[k].0) && index[k].1
            < rm[index[k].0].glyphs@.len() && rm[index[k].0].glyphs@[index[k].1 as int].glyph_info
            == k
}

/// Top edge of the free band formed when the row `[t, ..)` is freed: it
/// absorbs a free band ending at `t`.
pub open spec fn merged_start(rev: BandMap, t: u32) -> u32 {
    if rev.contains_key(t) {
        rev[t]
    } else {
        t
    }
}

/// Bottom edge of the free band formed when a row ending at `e` is freed: it
/// absorbs a free band starting at `e`.
pub open spec fn merged_end(free: BandMap, e: u32) -> u32 {
    if free.contains_key(e) {
        free[e]
    } else {
        e
    }
}

/// Freeing the row at `t` and merging its span with the neighbouring free
/// bands keeps the ledger well formed and the atlas tiled.
pub(crate) proof fn lemma_free_row(rm: Map<u32, Row>, free: BandMap, rev: BandMap, height: u32, t: u32)
    requires
        rows_disjoint(rm, height),
        ledger_wf(rm, free, rev, height),
        tiled(rm, free, height),
        rm.contains_key(t),
    ensures
        ({
            let e0 = (t + rm[t].height) as u32;
            let ns = merged_start(rev, t);
            let ne = merged_end(free, e0);
            let free2 = free.remove(e0).insert(ns, ne);
            let rev2 = rev.remove(t).insert(ne, ns);
            &&& rows_disjoint(rm.remove(t), height)
            &&& ledger_wf(rm.remove(t), free2, rev2, height)
            &&& tiled(rm.remove(t), free2, height)
            &&& ns <= t
            &&& t + rm[t].height <= ne
        }),
{
    let h = rm[t].height;
    let e0 = (t + h) as u32;
    let ns = merged_start(rev, t);
    let ne = merged_end(free, e0);
    let free2 = free.remove(e0).insert(ns, ne);
    let rev2 = rev.remove(t).insert(ne, ns);
    let rm2 = rm.remove(t);
    assert(!free.contains_key(t));
    if rev.contains_key(t) {
        assert(free.contains_key(ns) && free[ns] == t);
    }
    if free.contains_key(e0) {
        assert(rev.contains_key(ne) && rev[ne] == e0);
        assert(e0 < ne);
    }
    assert(ns <= t);
    assert(e0 <= ne && ne <= height);
    // no band other than the absorbed ones touches the new band
    assert forall|s: u32| #[trigger] free.contains_key(s) && s != e0 && s != ns implies free[s]
        <= ns || ne <= s by {
        if rev.contains_key(t) {
            assert(free.contains_key(rev[t]));
        }
        if free.contains_key(e0) {
            assert(free.contains_key(e0));
        }
        if free[s] == t {
            assert(rev.contains_key(t));
        }
    }
    assert forall|a: u32| #[trigger] rm2.contains_key(a) implies a + rm2[a].height <= ns || ne
        <= a by {
        assert(rm.contains_key(a) && a != t);
        if rev.contains_key(t) {
            assert(free.contains_key(rev[t]));
        }
    }
    assert forall|s: u32| #[trigger] free2.contains_key(s) implies s < free2[s] && free2[s]
        <= height by {}
    assert forall|s: u32| #[trigger] free2.contains_key(s) implies rev2.contains_key(free2[s])
        && rev2[free2[s]] == s by {
        if s != ns {
            assert(free.contains_key(s) && s != e0);
            assert(rev.contains_key(free[s]) && rev[free[s]] == s);
            if free[s] == ne {
                if free.contains_key(e0) {
                    assert(rev[free[e0]] == e0);
                }
            }
        }
    }
    assert forall|e: u32| #[trigger] rev2.contains_key(e) implies free2.contains_key(rev2[e])
        && free2[rev2[e]] == e by {
        if e != ne {
            assert(rev.contains_key(e) && e != t);
            let s = rev[e];
            assert(free.contains_key(s) && free[s] == e);
            if s == e0 {
                assert(free.contains_key(e0));
            }
            if s == ns {
                if rev.contains_key(t) {
                    assert(free[rev[t]] == t);
                }
            }
        }
    }
    assert forall|s: u32| #[trigger] free2.contains_key(s) implies !free2.contains_key(free2[s]) by {
        if s == ns {
            if free.contains_key(e0) {
                assert(!free.contains_key(free[e0]));
            }
        } else {
            assert(free.contains_key(s));
            assert(!free.contains_key(free[s]));
            if free[s] == ns && !rev.contains_key(t) {
                assert(rev.contains_key(free[s]));
            }
        }
    }
    assert forall|s: u32, u: u32|
        #[trigger] free2.contains_key(s) && #[trigger] free2.contains_key(u) && s != u implies free2[s]
        <= u || free2[u] <= s by {
        if s != ns && u != ns {
            assert(free.contains_key(s) && free.contains_key(u));
        }
    }
    assert forall|a: u32, s: u32|
        #[trigger] rm2.contains_key(a) && #[trigger] free2.contains_key(s) implies a + rm2[a].height
        <= s || free2[s] <= a by {
        assert(rm.contains_key(a));
        if s != ns {
            assert(free.contains_key(s));
        }
    }
    assert forall|a: u32, b: u32|
        #[trigger] rm2.contains_key(a) && #[trigger] rm2.contains_key(b) && a != b implies a
        + rm2[a].height <= b || b + rm2[b].height <= a by {
        assert(rm.contains_key(a) && rm.contains_key(b));
    }
    assert forall|y: int| 0 <= y < height implies #[trigger] covered(rm2, free2, y) by {
        assert(covered(rm, free, y));
        if exists|a: u32| row_has(rm, a, y) {
            let a = choose|a: u32| row_has(rm, a, y);
            if a == t {
                assert(band_has(free2, ns, y));
            } else {
                assert(row_has(rm2, a, y));
            }
        } else {
            let s = choose|s: u32| band_has(free, s, y);
            if s == e0 || s == ns {
                assert(band_has(free2, ns, y));
            } else if rev.contains_key(t) && s == rev[t] {
                assert(band_has(free2, ns, y));
            } else {
                assert(band_has(free2, s, y));
            }
        }
    }
}

/// The ledger after a row of height `h` is cut from the top of the free band at `s`.
pub open spec fn carved_free(free: BandMap, s: u32, h: u32) -> BandMap {
    if s + h == free[s] {
        free.remove(s)
    } else {
        free.remove(s).insert((s + h) as u32, free[s])
    }
}

/// The reverse ledger after a row of height `h` is cut from the top of the
/// free band at `s`.
pub open spec fn carved_rev(free: BandMap, rev: BandMap, s: u32, h: u32) -> BandMap {
    if s + h == free[s] {
        rev.remove(free[s])
    } else {
        rev.insert(free[s], (s + h) as u32)
    }
}

/// Cutting a new row from the top of a free band keeps rows apart, the
/// ledger well formed and the atlas tiled.
pub(crate) proof fn lemma_carve_row(
    rm: Map<u32, Row>,
    free: BandMap,
    rev: BandMap,
    height: u32,
    s: u32,
    r: Row,
)
    requires
        rows_disjoint(rm, height),
        ledger_wf(rm, free, rev, height),
        tiled(rm, free, height),
        free.contains_key(s),
        0 < r.height,
        s + r.height <= free[s],
    ensures
        !rm.contains_key(s),
        rows_disjoint(rm.insert(s, r), height),
        ledger_wf(rm.insert(s, r), carved_free(free, s, r.height), carved_rev(free, rev, s, r.height), height),
        tiled(rm.insert(s, r), carved_free(free, s, r.height), height),
{
    let h = r.height;
    let e = free[s];
    let m = (s + h) as u32;
    let rm2 = rm.insert(s, r);
    let free2 = carved_free(free, s, h);
    let rev2 = carved_rev(free, rev, s, h);
    assert(!rm.contains_key(s)) by {
        if rm.contains_key(s) {
            assert(rm.contains_key(s) && free.contains_key(s));
        }
    }
    assert(rev.contains_key(e) && rev[e] == s);
    assert(!free.contains_key(m) || m == e) by {
        if free.contains_key(m) && m != e {
            assert(free.contains_key(s) && free.contains_key(m) && s != m);
        }
    }
    assert forall|a: u32, b: u32|
        #[trigger] rm2.contains_key(a) && #[trigger] rm2.contains_key(b) && a != b implies a
        + rm2[a].height <= b || b + rm2[b].height <= a by {
        if a == s {
            assert(rm.contains_key(b) && free.contains_key(s));
        } else if b == s {
            assert(rm.contains_key(a) && free.contains_key(s));
        } else {
            assert(rm.contains_key(a) && rm.contains_key(b));
        }
    }
    assert forall|a: u32| #[trigger] rm2.contains_key(a) implies 0 < rm2[a].height && a
        + rm2[a].height <= height by {}
    assert forall|u: u32| #[trigger] free2.contains_key(u) implies u < free2[u] && free2[u]
        <= height by {}
    assert forall|u: u32| #[trigger] free2.contains_key(u) implies rev2.contains_key(free2[u])
        && rev2[free2[u]] == u by {
        if u != m {
            assert(free.contains_key(u) && u != s);
            assert(rev[free[u]] == u);
            assert(free[u] != e);
        }
    }
    assert forall|x: u32| #[trigger] rev2.contains_key(x) implies free2.contains_key(rev2[x])
        && free2[rev2[x]] == x by {
        if x != e {
            assert(rev.contains_key(x));
            assert(free.contains_key(rev[x]) && free[rev[x]] == x);
            assert(rev[x] != s);
        }
    }
    assert forall|u: u32| #[trigger] free2.contains_key(u) implies !free2.contains_key(free2[u]) by {
        if u == m {
            assert(!free.contains_key(e));
        } else {
            assert(free.contains_key(u));
            assert(!free.contains_key(free[u]));
            if free[u] == m {
                assert(free.contains_key(s) && free.contains_key(u) && s != u);
            }
        }
    }
    assert forall|u: u32, v: u32|
        #[trigger] free2.contains_key(u) && #[trigger] free2.contains_key(v) && u != v implies free2[u]
        <= v || free2[v] <= u by {
        if u != m && v != m {
            assert(free.contains_key(u) && free.contains_key(v));
        } else if u == m {
            assert(free.contains_key(v) && free.contains_key(s) && v != s);
        } else {
            assert(free.contains_key(u) && free.contains_key(s) && u != s);
        }
    }
    assert forall|a: u32, u: u32|
        #[trigger] rm2.contains_key(a) && #[trigger] free2.contains_key(u) implies a + rm2[a].height
        <= u || free2[u] <= a by {
        if a == s {
            if u != m {
                assert(free.contains_key(u) && free.contains_key(s) && u != s);
            }
        } else {
            assert(rm.contains_key(a));
            if u == m {
                assert(free.contains_key(s));
            } else {
                assert(free.contains_key(u));
            }
        }
    }
    assert forall|y: int| 0 <= y < height implies #[trigger] covered(rm2, free2, y) by {
        assert(covered(rm, free, y));
        if exists|a: u32| row_has(rm, a, y) {
            let a = choose|a: u32| row_has(rm, a, y);
            assert(row_has(rm2, a, y));
        } else {
            let u = choose|u: u32| band_has(free, u, y);
            if u == s {
                if y < m {
                    assert(row_has(rm2, s, y));
                } else {
                    assert(band_has(free2, m, y));
                }
            } else {
                assert(band_has(free2, u, y));
            }
        }
    }
}

/// The glyph table without the entries that point into the row at `t`.
pub open spec fn without_row(index: GlyphMap, t: u32) -> GlyphMap {
    Map::new(|k: GlyphKey| index.contains_key(k) && index[k].0 != t, |k: GlyphKey| index[k])
}

/// A glyph of `w` by `h` texels fits at the right end of `r` in an atlas `width` wide.
pub open spec fn row_fits(r: Row, w: u32, h: u32, width: u32) -> bool {
    r.height >= h && width - r.width >= w
}

} // verus!
