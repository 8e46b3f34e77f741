use vstd::prelude::*;

use crate::convert::{
    atlas_bytes, atlas_insert, build_tile, flatten_rows, map_bytes, palette_bytes, exported,
    resolve, Config, ScanState,
};
use crate::raster::{Color, ImageView, Rgba};
use crate::search::{first_match, lemma_first_match_found};

verus! {

/// `b` is an initial part of `a`.
pub open spec fn is_prefix(b: Seq<Color>, a: Seq<Color>) -> bool {
    b.len() <= a.len() && forall|i: int| 0 <= i < b.len() ==> a[i] == b[i]
}

/// Every map entry is a position in the atlas.
pub open spec fn map_refers_to_atlas(st: ScanState) -> bool {
    forall|i: int, j: int|
        0 <= i < st.2.len() && 0 <= j < st.2[i].len() ==> #[trigger] st.2[i][j] < st.1.len()
}

/// Every tile of the atlas holds `n` indices.
pub open spec fn tiles_sized(st: ScanState, n: int) -> bool {
    forall|k: int| 0 <= k < st.1.len() ==> #[trigger] st.1[k].len() == n
}

/// Adding a tile that is already in the atlas changes nothing: the index
/// handed back is the one the first insertion gave, and the atlas keeps its
/// length.
pub proof fn lemma_update_idempotent(a: Seq<Seq<usize>>, t: Seq<usize>)
    ensures
        atlas_insert(atlas_insert(a, t).0, t) == atlas_insert(a, t),
        atlas_insert(atlas_insert(a, t).0, t).0.len() == atlas_insert(a, t).0.len(),
{
    if first_match(a, t) is None {
        assert(a.push(t).drop_last() =~= a);
    }
}

/// The atlas index handed back is a position in the new atlas, which only grows.
pub proof fn lemma_atlas_insert_index(a: Seq<Seq<usize>>, t: Seq<usize>)
    ensures
        a.len() <= atlas_insert(a, t).0.len(),
        0 <= atlas_insert(a, t).1 < atlas_insert(a, t).0.len(),
        atlas_insert(a, t).0[atlas_insert(a, t).1] == t,
{
    lemma_first_match_found(a, t);
}

/// A pixel whose alpha is below the threshold gets palette index 0 and
/// leaves the palette as it was, whatever entry 0 holds.
pub proof fn lemma_alpha_short_circuit(pal: Seq<Color>, p: Rgba, threshold: u8)
    requires
        p.a < threshold,
    ensures
        resolve(pal, p, threshold) == (pal, 0int),
{
}

/// In a built tile, every pixel whose alpha is below the threshold holds
/// index 0; the tile has one index per pixel, and the palette only grows.
pub proof fn lemma_transparent_pixels_are_zero(pal: Seq<Color>, px: Seq<Rgba>, threshold: u8)
    ensures
        build_tile(pal, px, threshold).1.len() == px.len(),
        is_prefix(pal, build_tile(pal, px, threshold).0),
        forall|k: int|
            0 <= k < px.len() && px[k].a < threshold ==> #[trigger] build_tile(
                pal,
                px,
                threshold,
            ).1[k] == 0,
    decreases px.len(),
{
    if px.len() > 0 {
        let q = px.drop_last();
        lemma_transparent_pixels_are_zero(pal, q, threshold);
        let before = build_tile(pal, q, threshold);
        let t = build_tile(pal, px, threshold).1;
        assert forall|k: int| 0 <= k < px.len() && px[k].a < threshold implies #[trigger] t[k]
            == 0 by {
            if k < q.len() {
                assert(q[k] == px[k]);
                assert(t[k] == before.1[k]);
            }
        }
    }
}

proof fn lemma_step_keeps(cfg: Config, img: ImageView, st: ScanState, x: int, y: int)
    requires
        st.2.len() > 0,
        map_refers_to_atlas(st),
        tiles_sized(st, cfg.sub_width * cfg.sub_height),
    ensures
        map_refers_to_atlas(cfg.step(img, st, x, y)),
        tiles_sized(cfg.step(img, st, x, y), cfg.sub_width * cfg.sub_height),
        is_prefix(st.0, cfg.step(img, st, x, y).0),
        cfg.step(img, st, x, y).2.len() == st.2.len(),
{
    let px = crate::convert::region_pixels(img, x, y, cfg.sub_width as int, cfg.sub_height as int);
    lemma_transparent_pixels_are_zero(st.0, px, cfg.alpha_threshold);
    let t = build_tile(st.0, px, cfg.alpha_threshold);
    lemma_atlas_insert_index(st.1, t.1);
    let s2 = cfg.step(img, st, x, y);
    let last = st.2.len() - 1;
    assert forall|k: int| 0 <= k < s2.1.len() implies #[trigger] s2.1[k].len() == cfg.sub_width
        * cfg.sub_height by {
        if k < st.1.len() {
            if first_match(st.1, t.1) is None {
                assert(s2.1[k] == st.1[k]);
            }
        }
    }
    assert forall|i: int, j: int| 0 <= i < s2.2.len() && 0 <= j < s2.2[i].len() implies #[trigger] s2.2[i][j]
        < s2.1.len() by {
        if i == last && j == st.2[last].len() {
        } else if i == last {
            assert(s2.2[i][j] == st.2[i][j]);
        } else {
            assert(s2.2[i] == st.2[i]);
        }
    }
}

proof fn lemma_scan_row_keeps(cfg: Config, img: ImageView, st: ScanState, q: int, k: int)
    requires
        st.2.len() > 0,
        map_refers_to_atlas(st),
        tiles_sized(st, cfg.sub_width * cfg.sub_height),
    ensures
        map_refers_to_atlas(cfg.scan_row(img, st, q, k)),
        tiles_sized(cfg.scan_row(img, st, q, k), cfg.sub_width * cfg.sub_height),
        is_prefix(st.0, cfg.scan_row(img, st, q, k).0),
        cfg.scan_row(img, st, q, k).2.len() == st.2.len(),
    decreases k,
{
    if k > 0 {
        lemma_scan_row_keeps(cfg, img, st, q, k - 1);
        let s1 = cfg.scan_row(img, st, q, k - 1);
        lemma_step_keeps(
            cfg,
            img,
            s1,
            cfg.row_origin(img, q).0 + (k - 1) * cfg.sub_width,
            cfg.row_origin(img, q).1,
        );
    }
}

proof fn lemma_scan_keeps(cfg: Config, img: ImageView, n: int)
    ensures
        map_refers_to_atlas(cfg.scan(img, n)),
        tiles_sized(cfg.scan(img, n), cfg.sub_width * cfg.sub_height),
        is_prefix(cfg.initial_palette(), cfg.scan(img, n).0),
    decreases n,
{
    if n > 0 {
        lemma_scan_keeps(cfg, img, n - 1);
        let st = cfg.scan(img, n - 1);
        let st1: ScanState = (st.0, st.1, st.2.push(Seq::empty()));
        assert forall|i: int, j: int| 0 <= i < st1.2.len() && 0 <= j < st1.2[i].len() implies #[trigger] st1.2[i][j]
            < st1.1.len() by {
            assert(st1.2[i] == st.2[i]);
        }
        lemma_scan_row_keeps(cfg, img, st1, n - 1, cfg.subs_x());
    }
}

/// Every entry of the converted map is a valid index into the atlas of the
/// same conversion.
pub proof fn lemma_map_refers_to_atlas(cfg: Config, img: ImageView)
    ensures
        forall|i: int, j: int|
            0 <= i < cfg.converted(img).2.len() && 0 <= j < cfg.converted(img).2[i].len()
                ==> #[trigger] cfg.converted(img).2[i][j] < cfg.converted(img).1.len(),
        forall|k: int|
            0 <= k < flatten_rows(cfg.converted(img).2).len() ==> #[trigger] flatten_rows(
                cfg.converted(img).2,
            )[k] < cfg.converted(img).1.len(),
{
    lemma_scan_keeps(cfg, img, cfg.map_rows(img));
    lemma_flatten_bounded(cfg.converted(img).2, cfg.converted(img).1.len());
}

proof fn lemma_flatten_bounded(rows: Seq<Seq<usize>>, n: nat)
    requires
        forall|i: int, j: int|
            0 <= i < rows.len() && 0 <= j < rows[i].len() ==> #[trigger] rows[i][j] < n,
    ensures
        forall|k: int|
            0 <= k < flatten_rows(rows).len() ==> #[trigger] flatten_rows(rows)[k] < n,
    decreases rows.len(),
{
    if rows.len() > 0 {
        let r = rows.drop_last();
        assert forall|i: int, j: int| 0 <= i < r.len() && 0 <= j < r[i].len() implies #[trigger] r[i][j] < n by {
            assert(r[i] == rows[i]);
        }
        lemma_flatten_bounded(r, n);
        let f = flatten_rows(rows);
        let fr = flatten_rows(r);
        assert forall|k: int| 0 <= k < f.len() implies #[trigger] f[k] < n by {
            if k >= fr.len() {
                assert(f[k] == rows.last()[k - fr.len()]);
            } else {
                assert(f[k] == fr[k]);
            }
        }
    }
}

/// Every tile of the converted atlas holds one index per pixel of a
/// hardware tile.
pub proof fn lemma_tile_sizes(cfg: Config, img: ImageView)
    ensures
        forall|k: int|
            0 <= k < cfg.converted(img).1.len() ==> #[trigger] cfg.converted(img).1[k].len()
                == cfg.sub_width * cfg.sub_height,
{
    lemma_scan_keeps(cfg, img, cfg.map_rows(img));
}

/// With a transparency color configured, palette entry 0 is that color,
/// whether or not any pixel has it.
pub proof fn lemma_transparency_reserved(cfg: Config, img: ImageView)
    requires
        cfg.transparency_color is Some,
    ensures
        cfg.converted(img).0.len() > 0,
        cfg.converted(img).0[0] == cfg.transparency_color.unwrap(),
{
    lemma_scan_keeps(cfg, img, cfg.map_rows(img));
}

/// Converting equal images with the same configuration gives the same
/// palette, atlas and map, and so the same bytes in all three outputs.
pub proof fn lemma_conversion_deterministic(cfg: Config, a: ImageView, b: ImageView, skip_first: bool)
    requires
        a == b,
    ensures
        cfg.converted(a) == cfg.converted(b),
        palette_bytes(exported(cfg.converted(a).0, skip_first)) == palette_bytes(
            exported(cfg.converted(b).0, skip_first),
        ),
        atlas_bytes(cfg.converted(a).1) == atlas_bytes(cfg.converted(b).1),
        map_bytes(flatten_rows(cfg.converted(a).2)) == map_bytes(flatten_rows(cfg.converted(b).2)),
{
}

} // verus!
