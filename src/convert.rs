use vstd::prelude::*;

use crate::search::{first_match, lemma_first_match_found, lemma_first_match_prefix};
use crate::raster::{lemma_pixel_offset, Color, Image, ImageView, Rgba};
use vstd::arithmetic::div_mod::{
    lemma_fundamental_div_mod, lemma_fundamental_div_mod_converse, lemma_mod_pos_bound,
};
use crate::{Error, ErrorKind};

verus! {

/// Every palette index of the tile fits in four bits.
pub open spec fn fits_4bpp(t: Seq<usize>) -> bool {
    forall|k: int| 0 <= k < t.len() ==> t[k] < 16
}

/// Two indices per byte, the first of each pair in the low nibble.
pub open spec fn pack_4bpp(t: Seq<usize>) -> Seq<u8> {
    Seq::new(t.len() / 2, |k: int| (t[2 * k] + 16 * t[2 * k + 1]) as u8)
}

/// The palette indices of one hardware tile, one per pixel in row-major order.
pub struct Tile {
    indexes: Vec<usize>,
}

impl View for Tile {
    type V = Seq<usize>;

    closed spec fn view(&self) -> Seq<usize> {
        self.indexes@
    }
}

impl PartialEq for Tile {
    fn eq(&self, other: &Tile) -> (r: bool)
        ensures
            r == (self@ == other@),
    {
        if self.indexes.len() != other.indexes.len() {
            return false;
        }
        let mut i: usize = 0;
        while i < self.indexes.len()
            invariant
                self.indexes@.len() == other.indexes@.len(),
                i <= self.indexes@.len(),
                forall|k: int| 0 <= k < i ==> self.indexes@[k] == other.indexes@[k],
            decreases self.indexes@.len() - i,
        {
            if self.indexes[i] != other.indexes[i] {
                return false;
            }
            i = i + 1;
        }
        assert(self.indexes@ =~= other.indexes@);
        true
    }
}

impl vstd::std_specs::cmp::PartialEqSpecImpl for Tile {
    open spec fn obeys_eq_spec() -> bool {
        true
    }

    open spec fn eq_spec(&self, other: &Tile) -> bool {
        self@ == other@
    }
}

impl Tile {
    /// An empty tile.
    pub fn new() -> (t: Tile)
        ensures
            t@ == Seq::<usize>::empty(),
    {
        Tile { indexes: Vec::new() }
    }

    /// Appends the palette index of the next pixel.
    pub fn push(&mut self, index: usize)
        ensures
            final(self)@ == old(self)@.push(index),
    {
        self.indexes.push(index);
    }

    /// The palette indices, one per pixel.
    pub fn indexes(&self) -> (r: &Vec<usize>)
        ensures
            r@ == self@,
    {
        &self.indexes
    }

    /// Packs the tile at four bits per pixel; fails on the first index that
    /// does not fit in a nibble.
    pub fn convert_to_4bpp(&self) -> (r: Result<Vec<u8>, Error>)
        requires
            self@.len() % 2 == 0,
        ensures
            match r {
                Ok(bytes) => fits_4bpp(self@) && bytes@ == pack_4bpp(self@),
                Err(e) => !fits_4bpp(self@) && exists|index: usize|
                    #![trigger self@.contains(index)]
                    index >= 16 && self@.contains(index) && e.kind == (ErrorKind::TooManyColors {
                        index,
                    }),
            },
    {
        let t = &self.indexes;
        let mut result: Vec<u8> = Vec::new();
        let mut i: usize = 0;
        while i < t.len()
            invariant
                t@ == self@,
                t@.len() % 2 == 0,
                i % 2 == 0,
                i <= t@.len(),
                result@.len() == i / 2,
                forall|k: int| 0 <= k < i ==> t@[k] < 16,
                forall|k: int|
                    0 <= k < i / 2 ==> result@[k] == (t@[2 * k] + 16 * t@[2 * k + 1]) as u8,
            decreases t@.len() - i,
        {
            let lo = t[i];
            let hi = t[i + 1];
            if lo >= 16 {
                assert(self@[i as int] == lo);
                assert(self@.contains(lo));
                return Err(Error::new(ErrorKind::TooManyColors { index: lo }));
            }
            if hi >= 16 {
                assert(self@[i + 1] == hi);
                assert(self@.contains(hi));
                return Err(Error::new(ErrorKind::TooManyColors { index: hi }));
            }
            result.push((lo + 16 * hi) as u8);
            i = i + 2;
        }
        assert(result@ =~= pack_4bpp(self@));
        Ok(result)
    }
}

/// Where `t` lands in the atlas `a`, and the atlas afterwards: the first equal
/// tile is reused; otherwise `t` is appended.
pub open spec fn atlas_insert(a: Seq<Seq<usize>>, t: Seq<usize>) -> (Seq<Seq<usize>>, int) {
    match first_match(a, t) {
        Some(i) => (a, i),
        None => (a.push(t), a.len() as int),
    }
}

/// No two tiles of the atlas are equal.
pub open spec fn all_distinct(a: Seq<Seq<usize>>) -> bool {
    forall|i: int, j: int| 0 <= i < a.len() && 0 <= j < a.len() && i != j ==> a[i] != a[j]
}

/// The tiles of an atlas packed at four bits per pixel, one after another.
pub open spec fn atlas_bytes(a: Seq<Seq<usize>>) -> Seq<u8>
    decreases a.len(),
{
    if a.len() == 0 {
        Seq::empty()
    } else {
        atlas_bytes(a.drop_last()) + pack_4bpp(a.last())
    }
}

/// The deduplicated store of tiles; a tile's position is its atlas index.
pub struct TileAtlas {
    atlas: Vec<Tile>,
}

impl View for TileAtlas {
    type V = Seq<Seq<usize>>;

    closed spec fn view(&self) -> Seq<Seq<usize>> {
        self.atlas@.map_values(|t: Tile| t@)
    }
}

impl TileAtlas {
    /// The atlas holds no tile twice.
    pub open spec fn wf(&self) -> bool {
        all_distinct(self@)
    }

    /// An empty atlas.
    pub fn new() -> (a: TileAtlas)
        ensures
            a@ == Seq::<Seq<usize>>::empty(),
            a.wf(),
    {
        TileAtlas { atlas: Vec::new() }
    }

    /// The number of distinct tiles.
    pub fn len(&self) -> (n: usize)
        ensures
            n == self@.len(),
    {
        self.atlas.len()
    }

    /// The tile at atlas index `i`.
    pub fn get(&self, i: usize) -> (t: &Tile)
        requires
            i < self@.len(),
        ensures
            t@ == self@[i as int],
    {
        &self.atlas[i]
    }

    /// Adds a tile unless an equal one is already stored, and returns the
    /// atlas index of the stored tile.
    pub fn update(&mut self, new_tile: Tile) -> (r: usize)
        requires
            old(self).wf(),
        ensures
            final(self).wf(),
            (final(self)@, r as int) == atlas_insert(old(self)@, new_tile@),
            r < final(self)@.len(),
    {
        let mut i: usize = 0;
        while i < self.atlas.len()
            invariant
                *self == *old(self),
                self.wf(),
                i <= self@.len(),
                self@.len() == self.atlas@.len(),
                first_match(self@.take(i as int), new_tile@) is None,
            decreases self@.len() - i,
        {
            if self.atlas[i] == new_tile {
                proof {
                    assert(self@.take(i + 1).drop_last() =~= self@.take(i as int));
                    lemma_first_match_prefix(self@, i + 1, new_tile@);
                }
                return i;
            }
            proof {
                assert(self@.take(i + 1).drop_last() =~= self@.take(i as int));
            }
            i = i + 1;
        }
        proof {
            assert(self@.take(i as int) =~= self@);
            lemma_first_match_found(self@, new_tile@);
        }
        let ghost t = new_tile@;
        self.atlas.push(new_tile);
        assert(self@ =~= old(self)@.push(t));
        self.atlas.len() - 1
    }

    /// Appends every tile, in atlas order, packed at four bits per pixel.
    /// Fails at the first tile holding an index of 16 or more; the tiles
    /// before it have been written by then.
    pub fn write_4bpp(&self, out: &mut Vec<u8>) -> (r: Result<(), Error>)
        requires
            forall|k: int| 0 <= k < self@.len() ==> #[trigger] self@[k].len() % 2 == 0,
        ensures
            match r {
                Ok(()) => (forall|k: int| 0 <= k < self@.len() ==> fits_4bpp(#[trigger] self@[k]))
                    && final(out)@ == old(out)@ + atlas_bytes(self@),
                Err(e) => exists|k: int|
                    0 <= k < self@.len() && !fits_4bpp(#[trigger] self@[k]) && (forall|j: int|
                        0 <= j < k ==> fits_4bpp(#[trigger] self@[j])) && final(out)@ == old(
                        out,
                    )@ + atlas_bytes(self@.take(k)) && e.kind is TooManyColors,
            },
    {
        let mut i: usize = 0;
        while i < self.atlas.len()
            invariant
                i <= self@.len(),
                self@.len() == self.atlas@.len(),
                forall|k: int| 0 <= k < self@.len() ==> #[trigger] self@[k].len() % 2 == 0,
                forall|j: int| 0 <= j < i ==> fits_4bpp(#[trigger] self@[j]),
                out@ == old(out)@ + atlas_bytes(self@.take(i as int)),
            decreases self@.len() - i,
        {
            assert(self@.take(i + 1).drop_last() =~= self@.take(i as int));
            assert(self@[i as int] == self.atlas@[i as int]@);
            match self.atlas[i].convert_to_4bpp() {
                Ok(mut bytes) => {
                    out.append(&mut bytes);
                    assert(out@ =~= old(out)@ + atlas_bytes(self@.take(i + 1)));
                },
                Err(e) => {
                    return Err(e);
                },
            }
            i = i + 1;
        }
        assert(self@.take(i as int) =~= self@);
        Ok(())
    }
}

/// The entries of a map, row after row.
pub open spec fn flatten_rows(rows: Seq<Seq<usize>>) -> Seq<usize>
    decreases rows.len(),
{
    if rows.len() == 0 {
        Seq::empty()
    } else {
        flatten_rows(rows.drop_last()) + rows.last()
    }
}

/// Every atlas index fits in one byte.
pub open spec fn fits_8bit(s: Seq<usize>) -> bool {
    forall|k: int| 0 <= k < s.len() ==> s[k] <= 255
}

/// One byte per atlas index.
pub open spec fn map_bytes(s: Seq<usize>) -> Seq<u8> {
    s.map_values(|v: usize| v as u8)
}

/// Flattening distributes over concatenation of row lists.
pub proof fn lemma_flatten_append(a: Seq<Seq<usize>>, b: Seq<Seq<usize>>)
    ensures
        flatten_rows(a + b) == flatten_rows(a) + flatten_rows(b),
    decreases b.len(),
{
    if b.len() == 0 {
        assert(a + b =~= a);
        assert(flatten_rows(a) + flatten_rows(b) =~= flatten_rows(a));
    } else {
        lemma_flatten_append(a, b.drop_last());
        assert((a + b).drop_last() =~= a + b.drop_last());
        assert(flatten_rows(a + b) =~= flatten_rows(a) + flatten_rows(b));
    }
}

/// For each visited row of sub-tiles, the atlas index of each sub-tile.
pub struct TileMap {
    map: Vec<Vec<usize>>,
}

impl View for TileMap {
    type V = Seq<Seq<usize>>;

    closed spec fn view(&self) -> Seq<Seq<usize>> {
        self.map@.map_values(|r: Vec<usize>| r@)
    }
}

impl TileMap {
    /// A map without rows.
    pub fn new() -> (m: TileMap)
        ensures
            m@ == Seq::<Seq<usize>>::empty(),
    {
        TileMap { map: Vec::new() }
    }

    /// Starts a new, empty row.
    pub fn start_row(&mut self)
        ensures
            final(self)@ == old(self)@.push(Seq::empty()),
    {
        self.map.push(Vec::new());
        assert(self@ =~= old(self)@.push(Seq::empty()));
    }

    /// Appends an atlas index to the last row.
    pub fn push(&mut self, index: usize)
        requires
            old(self)@.len() > 0,
        ensures
            final(self)@ == old(self)@.update(
                old(self)@.len() - 1,
                old(self)@.last().push(index),
            ),
    {
        let mut row = self.map.pop().unwrap();
        row.push(index);
        self.map.push(row);
        assert(self@ =~= old(self)@.update(old(self)@.len() - 1, old(self)@.last().push(index)));
    }

    /// The rows of the map.
    pub fn rows(&self) -> (r: &Vec<Vec<usize>>)
        ensures
            r@.map_values(|v: Vec<usize>| v@) == self@,
    {
        &self.map
    }

    /// Appends one byte per entry, row after row. Fails at the first entry
    /// above 255; the entries before it have been written by then.
    pub fn write_8bit(&self, out: &mut Vec<u8>) -> (r: Result<(), Error>)
        ensures
            match r {
                Ok(()) => fits_8bit(flatten_rows(self@)) && final(out)@ == old(out)@ + map_bytes(
                    flatten_rows(self@),
                ),
                Err(e) => exists|k: int|
                    #![trigger flatten_rows(self@)[k]]
                    0 <= k < flatten_rows(self@).len() && flatten_rows(self@)[k] > 255
                        && fits_8bit(flatten_rows(self@).take(k)) && final(out)@ == old(out)@
                        + map_bytes(flatten_rows(self@).take(k)) && e.kind == (
                    ErrorKind::TooManyTiles { index: flatten_rows(self@)[k] }),
            },
    {
        let ghost rows = self@;
        let mut i: usize = 0;
        while i < self.map.len()
            invariant
                rows == self@,
                i <= rows.len(),
                rows.len() == self.map@.len(),
                fits_8bit(flatten_rows(rows.take(i as int))),
                out@ == old(out)@ + map_bytes(flatten_rows(rows.take(i as int))),
            decreases rows.len() - i,
        {
            let row = &self.map[i];
            let ghost done = flatten_rows(rows.take(i as int));
            assert(row@ == rows[i as int]);
            let mut j: usize = 0;
            while j < row.len()
                invariant
                    rows == self@,
                    i < rows.len(),
                    row@ == rows[i as int],
                    done == flatten_rows(rows.take(i as int)),
                    j <= row@.len(),
                    fits_8bit(done + row@.take(j as int)),
                    out@ == old(out)@ + map_bytes(done + row@.take(j as int)),
                decreases row@.len() - j,
            {
                let v = row[j];
                if v > 255 {
                    proof {
                        let k = done.len() + j;
                        lemma_flatten_append(rows.take(i + 1), rows.skip(i + 1));
                        assert(rows.take(i + 1) + rows.skip(i + 1) =~= rows);
                        assert(rows.take(i + 1).drop_last() =~= rows.take(i as int));
                        let all = flatten_rows(rows);
                        assert(all[k] == v);
                        assert(all.take(k) =~= done + row@.take(j as int));
                    }
                    return Err(Error::new(ErrorKind::TooManyTiles { index: v }));
                }
                out.push(v as u8);
                assert(done + row@.take(j + 1) =~= (done + row@.take(j as int)).push(v));
                assert(out@ =~= old(out)@ + map_bytes(done + row@.take(j + 1)));
                j = j + 1;
            }
            assert(rows.take(i + 1).drop_last() =~= rows.take(i as int));
            assert(row@.take(j as int) =~= row@);
            i = i + 1;
        }
        assert(rows.take(i as int) =~= rows);
        Ok(())
    }
}

/// The 15-bit hardware word of a color: red in bits 0-4, green in bits 5-9,
/// blue in bits 10-14, each the top five bits of its channel.
pub open spec fn rgb555(c: Color) -> int {
    (c.r / 8) + (c.g / 8) * 32 + (c.b / 8) * 1024
}

/// The colors as little-endian RGB555 words.
pub open spec fn palette_bytes(s: Seq<Color>) -> Seq<u8>
    decreases s.len(),
{
    if s.len() == 0 {
        Seq::empty()
    } else {
        palette_bytes(s.drop_last()) + seq![
            (rgb555(s.last()) % 256) as u8,
            (rgb555(s.last()) / 256) as u8,
        ]
    }
}

/// What `write_rgb555` exports: every entry, or all but entry 0.
pub open spec fn exported(s: Seq<Color>, skip_first: bool) -> Seq<Color> {
    if skip_first && s.len() > 0 {
        s.skip(1)
    } else if skip_first {
        Seq::empty()
    } else {
        s
    }
}

/// The ordered table of colors; a color's position is its palette index.
pub struct Palette {
    table: Vec<Color>,
}

impl View for Palette {
    type V = Seq<Color>;

    closed spec fn view(&self) -> Seq<Color> {
        self.table@
    }
}

impl Palette {
    /// An empty palette.
    pub fn new() -> (p: Palette)
        ensures
            p@ == Seq::<Color>::empty(),
    {
        Palette { table: Vec::new() }
    }

    /// Appends a color without checking whether it is already present.
    pub fn insert(&mut self, color: &Color)
        ensures
            final(self)@ == old(self)@.push(*color),
    {
        self.table.push(*color);
    }

    /// The index of the first entry equal to `color`, if any.
    pub fn get(&self, color: &Color) -> (r: Option<usize>)
        ensures
            match r {
                Some(i) => first_match(self@, *color) == Some(i as int),
                None => first_match(self@, *color) is None,
            },
    {
        let mut i: usize = 0;
        while i < self.table.len()
            invariant
                i <= self@.len(),
                self@.len() == self.table@.len(),
                first_match(self@.take(i as int), *color) is None,
            decreases self@.len() - i,
        {
            assert(self@.take(i + 1).drop_last() =~= self@.take(i as int));
            if self.table[i] == *color {
                proof {
                    lemma_first_match_prefix(self@, i + 1, *color);
                }
                return Some(i);
            }
            i = i + 1;
        }
        assert(self@.take(i as int) =~= self@);
        None
    }

    /// The number of entries.
    pub fn len(&self) -> (n: usize)
        ensures
            n == self@.len(),
    {
        self.table.len()
    }

    /// The entries in index order.
    pub fn colors(&self) -> (r: &Vec<Color>)
        ensures
            r@ == self@,
    {
        &self.table
    }

    /// Appends the entries as little-endian RGB555 words, leaving out entry 0
    /// when `skip_first` is set.
    pub fn write_rgb555(&self, out: &mut Vec<u8>, skip_first: bool)
        ensures
            final(out)@ == old(out)@ + palette_bytes(exported(self@, skip_first)),
    {
        let n = self.table.len();
        let start: usize = if skip_first && n > 0 {
            1
        } else {
            0
        };
        let ghost s = exported(self@, skip_first);
        assert(s =~= self@.subrange(start as int, n as int));
        let mut i: usize = start;
        while i < n
            invariant
                start <= i <= n,
                n == self@.len(),
                s == self@.subrange(start as int, n as int),
                out@ == old(out)@ + palette_bytes(s.take(i - start)),
            decreases n - i,
        {
            let c = self.table[i];
            let word: u16 = (c.r / 8) as u16 + (c.g / 8) as u16 * 32 + (c.b / 8) as u16 * 1024;
            out.push((word % 256) as u8);
            out.push((word / 256) as u8);
            assert(s.take(i + 1 - start).drop_last() =~= s.take(i - start));
            assert(out@ =~= old(out)@ + palette_bytes(s.take(i + 1 - start)));
            i = i + 1;
        }
        assert(s.take(i - start) =~= s);
    }
}

} // verus!

verus! {

/// The palette index of one pixel, and the palette afterwards: a pixel whose
/// alpha is below the threshold is index 0 and leaves the palette alone;
/// otherwise its color's first entry, appended when missing.
pub open spec fn resolve(pal: Seq<Color>, p: Rgba, threshold: u8) -> (Seq<Color>, int) {
    if p.a < threshold {
        (pal, 0)
    } else {
        match first_match(pal, p.spec_rgb()) {
            Some(i) => (pal, i),
            None => (pal.push(p.spec_rgb()), pal.len() as int),
        }
    }
}

/// The tile of a run of pixels, resolved one after another against a
/// growing palette, and the palette afterwards.
pub open spec fn build_tile(pal: Seq<Color>, px: Seq<Rgba>, threshold: u8) -> (
    Seq<Color>,
    Seq<usize>,
)
    decreases px.len(),
{
    if px.len() == 0 {
        (pal, Seq::empty())
    } else {
        let before = build_tile(pal, px.drop_last(), threshold);
        let r = resolve(before.0, px.last(), threshold);
        (r.0, before.1.push(r.1 as usize))
    }
}

/// The pixels of the `w` by `h` region at (`x`, `y`), row by row.
pub open spec fn region_pixels(img: ImageView, x: int, y: int, w: int, h: int) -> Seq<Rgba> {
    Seq::new((w * h) as nat, |i: int| img.at(x + i % w, y + i / w))
}

/// Conversion parameters, reusable across images.
pub struct Config {
    /// Size of a metatile, the outer cell of the scan.
    pub width: u32,
    pub height: u32,
    /// Size of a hardware tile, the subdivision of a metatile.
    pub sub_width: u32,
    pub sub_height: u32,
    /// If set, reserved as palette entry 0.
    pub transparency_color: Option<Color>,
    /// Pixels with a lower alpha resolve to palette index 0.
    pub alpha_threshold: u8,
}

/// Palette, atlas and map during a scan.
pub type ScanState = (Seq<Color>, Seq<Seq<usize>>, Seq<Seq<usize>>);

impl Config {
    /// All four tile dimensions are positive.
    pub open spec fn valid(&self) -> bool {
        self.width > 0 && self.height > 0 && self.sub_width > 0 && self.sub_height > 0
    }

    /// Metatile columns and rows that an image of the given size holds,
    /// counting a partial one.
    pub open spec fn cells_x(&self, img: ImageView) -> int {
        (img.width + self.width - 1) / self.width as int
    }

    pub open spec fn cells_y(&self, img: ImageView) -> int {
        (img.height + self.height - 1) / self.height as int
    }

    /// Hardware tiles across and down one metatile, counting a partial one.
    pub open spec fn subs_x(&self) -> int {
        (self.width + self.sub_width - 1) / self.sub_width as int
    }

    pub open spec fn subs_y(&self) -> int {
        (self.height + self.sub_height - 1) / self.sub_height as int
    }

    /// Rows of the map: one per metatile and hardware-tile row within it.
    pub open spec fn map_rows(&self, img: ImageView) -> int {
        self.cells_y(img) * self.cells_x(img) * self.subs_y()
    }

    /// Where map row `q` starts: metatile rows top to bottom, metatiles left
    /// to right, hardware-tile rows top to bottom within the metatile.
    pub open spec fn row_origin(&self, img: ImageView, q: int) -> (int, int) {
        let sy = q % self.subs_y();
        let p = q / self.subs_y();
        let tx = p % self.cells_x(img);
        let ty = p / self.cells_x(img);
        (tx * self.width, ty * self.height + sy * self.sub_height)
    }

    /// Every region the scan visits lies inside the image.
    pub open spec fn fits(&self, img: ImageView) -> bool {
        img.width == 0 || img.height == 0 || ((self.cells_x(img) - 1) * self.width + (
        self.subs_x() - 1) * self.sub_width + self.sub_width <= img.width && (self.cells_y(img)
            - 1) * self.height + (self.subs_y() - 1) * self.sub_height + self.sub_height
            <= img.height)
    }

    /// The palette before any pixel is scanned.
    pub open spec fn initial_palette(&self) -> Seq<Color> {
        match self.transparency_color {
            Some(c) => seq![c],
            None => Seq::empty(),
        }
    }

    /// One hardware tile at (`x`, `y`): build it, add it to the atlas, and
    /// record its atlas index at the end of the last map row.
    pub open spec fn step(&self, img: ImageView, st: ScanState, x: int, y: int) -> ScanState {
        let t = build_tile(
            st.0,
            region_pixels(img, x, y, self.sub_width as int, self.sub_height as int),
            self.alpha_threshold,
        );
        let a = atlas_insert(st.1, t.1);
        (t.0, a.0, st.2.update(st.2.len() - 1, st.2.last().push(a.1 as usize)))
    }

    /// The first `k` hardware tiles of map row `q`, from state `st`.
    pub open spec fn scan_row(&self, img: ImageView, st: ScanState, q: int, k: int) -> ScanState
        decreases k,
    {
        if k <= 0 {
            st
        } else {
            self.step(
                img,
                self.scan_row(img, st, q, k - 1),
                self.row_origin(img, q).0 + (k - 1) * self.sub_width,
                self.row_origin(img, q).1,
            )
        }
    }

    /// The state after the first `n` map rows.
    pub open spec fn scan(&self, img: ImageView, n: int) -> ScanState
        decreases n,
    {
        if n <= 0 {
            (self.initial_palette(), Seq::empty(), Seq::empty())
        } else {
            let st = self.scan(img, n - 1);
            self.scan_row(img, (st.0, st.1, st.2.push(Seq::empty())), n - 1, self.subs_x())
        }
    }

    /// Palette, atlas and map of a whole image.
    pub open spec fn converted(&self, img: ImageView) -> ScanState {
        self.scan(img, self.map_rows(img))
    }
}

/// Resolves every pixel of a region to a palette index, in row-major order.
fn create_tile(img: &Image, x: u32, y: u32, w: u32, h: u32, palette: &mut Palette, threshold: u8) -> (t: Tile)
    requires
        img.wf(),
        x + w <= img@.width,
        y + h <= img@.height,
    ensures
        (final(palette)@, t@) == build_tile(
            old(palette)@,
            region_pixels(img@, x as int, y as int, w as int, h as int),
            threshold,
        ),
{
    let ghost px = region_pixels(img@, x as int, y as int, w as int, h as int);
    let mut tile = Tile::new();
    proof {
        img.lemma_dims();
    }
    let mut yy: u32 = 0;
    assert(px.take(0) =~= Seq::<Rgba>::empty());
    while yy < h
        invariant
            img.wf(),
            x + w <= img@.width <= u32::MAX,
            y + h <= img@.height <= u32::MAX,
            px == region_pixels(img@, x as int, y as int, w as int, h as int),
            yy <= h,
            (palette@, tile@) == build_tile(old(palette)@, px.take(yy * w), threshold),
        decreases h - yy,
    {
        let mut xx: u32 = 0;
        while xx < w
            invariant
                img.wf(),
                x + w <= img@.width <= u32::MAX,
                y + h <= img@.height <= u32::MAX,
                px == region_pixels(img@, x as int, y as int, w as int, h as int),
                yy < h,
                xx <= w,
                (palette@, tile@) == build_tile(old(palette)@, px.take(yy * w + xx), threshold),
            decreases w - xx,
        {
            let p = img.get_pixel(x + xx, y + yy);
            proof {
                let k = yy * w + xx;
                lemma_pixel_offset(xx as int, yy as int, w as int, h as int);
                lemma_fundamental_div_mod_converse(k, w as int, yy as int, xx as int);
                assert(px[k] == p);
                assert(px.take(k + 1).drop_last() =~= px.take(k));
                assert(px.take(k + 1).last() == p);
            }
            if p.a < threshold {
                tile.push(0);
            } else {
                let c = p.to_rgb();
                match palette.get(&c) {
                    Some(i) => tile.push(i),
                    None => {
                        palette.insert(&c);
                        tile.push(palette.len() - 1);
                    },
                }
            }
            xx = xx + 1;
        }
        assert(yy * w + w == (yy + 1) * w) by (nonlinear_arith);
        yy = yy + 1;
    }
    proof {
        assert(h * w == w * h) by (nonlinear_arith);
        assert(px.take(h * w) =~= px);
    }
    tile
}

/// Facts on `(x + d - 1) / d`, the number of steps of `d` that cover `x`.
proof fn lemma_ceil_div(x: int, d: int)
    requires
        x >= 0,
        d >= 1,
    ensures
        0 <= (x + d - 1) / d <= x,
        (x + d - 1) / d * d >= x,
        x == 0 ==> (x + d - 1) / d == 0,
        x > 0 ==> (x + d - 1) / d >= 1,
{
    let n = x + d - 1;
    lemma_fundamental_div_mod(n, d);
    lemma_mod_pos_bound(n, d);
    let c = n / d;
    let r = n % d;
    assert(0 <= c <= x && c * d >= x && (x == 0 ==> c == 0) && (x > 0 ==> c >= 1))
        by (nonlinear_arith)
        requires
            n == d * c + r,
            0 <= r < d,
            d >= 1,
            x >= 0,
            n == x + d - 1,
    ;
}

/// Splitting a position below `a * b` into a quotient and a remainder by `b`.
proof fn lemma_split_index(q: int, a: int, b: int)
    requires
        0 <= q < a * b,
        b > 0,
    ensures
        0 <= q % b < b,
        0 <= q / b < a,
{
    lemma_fundamental_div_mod(q, b);
    lemma_mod_pos_bound(q, b);
    let c = q / b;
    let r = q % b;
    assert(0 <= c < a) by (nonlinear_arith)
        requires
            q == b * c + r,
            0 <= r < b,
            0 <= q < a * b,
    ;
}

/// A cell `t` of `n` and a subdivision `s` of `k` within it end no later than
/// the last subdivision of the last cell.
proof fn lemma_cell_in_bounds(t: int, n: int, s: int, k: int, size: int, sub: int, total: int)
    requires
        0 <= t < n,
        0 <= s < k,
        size >= 0,
        sub >= 0,
        (n - 1) * size + (k - 1) * sub + sub <= total,
    ensures
        0 <= t * size,
        0 <= s * sub,
        t * size + s * sub + sub <= total,
{
    assert(0 <= t * size <= (n - 1) * size && 0 <= s * sub <= (k - 1) * sub) by (nonlinear_arith)
        requires
            0 <= t < n,
            0 <= s < k,
            size >= 0,
            sub >= 0,
    ;
}

/// A product of two numbers up to `m` is at most `m * m`.
proof fn lemma_mul_bound(a: int, b: int, m: int)
    requires
        0 <= a <= m,
        0 <= b <= m,
    ensures
        0 <= a * b <= m * m,
{
    assert(0 <= a * b <= m * m) by (nonlinear_arith)
        requires
            0 <= a <= m,
            0 <= b <= m,
    ;
}

impl Config {
    /// Metatiles and hardware tiles of 8 by 8, no transparency color, alpha
    /// threshold 128.
    pub fn new() -> (c: Config)
        ensures
            c == (Config {
                width: 8,
                height: 8,
                sub_width: 8,
                sub_height: 8,
                transparency_color: None,
                alpha_threshold: 128,
            }),
    {
        Config {
            width: 8,
            height: 8,
            sub_width: 8,
            sub_height: 8,
            transparency_color: None,
            alpha_threshold: 128,
        }
    }

    /// Sets the metatile size.
    pub fn with_tilesize(self, width: u32, height: u32) -> (c: Config)
        ensures
            c == (Config { width, height, ..self }),
    {
        Config { width, height, ..self }
    }

    /// Sets the transparency color, which then always holds palette entry 0.
    pub fn with_transparency_color(self, r: u8, g: u8, b: u8) -> (c: Config)
        ensures
            c == (Config { transparency_color: Some(Color { r, g, b }), ..self }),
    {
        Config { transparency_color: Some(Color::new(r, g, b)), ..self }
    }

    /// Scans the image metatile by metatile and, within each, hardware tile
    /// by hardware tile, building the palette, the deduplicated atlas and the
    /// map. Fails, before scanning, when a region would leave the image.
    pub fn convert_image(&self, img: &Image) -> (r: Result<(Palette, TileAtlas, TileMap), Error>)
        requires
            self.valid(),
            img.wf(),
        ensures
            match r {
                Ok((palette, atlas, map)) => self.fits(img@) && atlas.wf() && (
                palette@,
                atlas@,
                map@,
                ) == self.converted(img@),
                Err(e) => !self.fits(img@) && e.kind == ErrorKind::RegionOutOfBounds,
            },
    {
        proof {
            img.lemma_dims();
        }
        let width = img.width() as u128;
        let height = img.height() as u128;
        let w = self.width as u128;
        let h = self.height as u128;
        let sw = self.sub_width as u128;
        let sh = self.sub_height as u128;
        proof {
            lemma_ceil_div(width as int, w as int);
            lemma_ceil_div(height as int, h as int);
            lemma_ceil_div(w as int, sw as int);
            lemma_ceil_div(h as int, sh as int);
        }
        let nx = (width + w - 1) / w;
        let ny = (height + h - 1) / h;
        let kx = (w + sw - 1) / sw;
        let ky = (h + sh - 1) / sh;
        let m: u128 = 0x1_0000_0000;
        proof {
            lemma_mul_bound(nx as int, w as int, m as int);
            lemma_mul_bound(ny as int, h as int, m as int);
            lemma_mul_bound(kx as int, sw as int, m as int);
            lemma_mul_bound(ky as int, sh as int, m as int);
            lemma_mul_bound(ny as int, nx as int, m as int);
            assert(ny * nx * ky <= m * m * m) by (nonlinear_arith)
                requires
                    0 <= ny * nx <= m * m,
                    0 <= ky <= m,
            ;
        }
        if width > 0 && height > 0 {
            proof {
                lemma_mul_bound((nx - 1) as int, w as int, m as int);
                lemma_mul_bound((ny - 1) as int, h as int, m as int);
                lemma_mul_bound((kx - 1) as int, sw as int, m as int);
                lemma_mul_bound((ky - 1) as int, sh as int, m as int);
            }
            if (nx - 1) * w + (kx - 1) * sw + sw > width || (ny - 1) * h + (ky - 1) * sh + sh
                > height {
                return Err(Error::new(ErrorKind::RegionOutOfBounds));
            }
        }
        let mut palette = Palette::new();
        match self.transparency_color {
            Some(c) => palette.insert(&c),
            None => {},
        }
        assert(palette@ =~= self.initial_palette());
        let mut atlas = TileAtlas::new();
        let mut map = TileMap::new();
        let nrows = ny * nx * ky;
        proof {
            if width == 0 || height == 0 {
                assert(nrows == 0) by (nonlinear_arith)
                    requires
                        nx == 0 || ny == 0,
                        nrows == ny * nx * ky,
                ;
            }
        }
        let mut q: u128 = 0;
        while q < nrows
            invariant
                self.valid(),
                img.wf(),
                self.fits(img@),
                width == img@.width <= u32::MAX,
                height == img@.height <= u32::MAX,
                w == self.width,
                h == self.height,
                sw == self.sub_width,
                sh == self.sub_height,
                nx == self.cells_x(img@),
                ny == self.cells_y(img@),
                kx == self.subs_x(),
                ky == self.subs_y(),
                nrows == self.map_rows(img@),
                nrows == ny * nx * ky,
                (width > 0 && height > 0) || nrows == 0,
                kx >= 1,
                ky >= 1,
                q <= nrows,
                atlas.wf(),
                (palette@, atlas@, map@) == self.scan(img@, q as int),
            decreases nrows - q,
        {
            proof {
                lemma_split_index(q as int, (ny * nx) as int, ky as int);
                lemma_split_index((q / ky) as int, ny as int, nx as int);
            }
            let sy = q % ky;
            let p = q / ky;
            let tx = p % nx;
            let ty = p / nx;
            proof {
                lemma_cell_in_bounds(
                    ty as int,
                    ny as int,
                    sy as int,
                    ky as int,
                    h as int,
                    sh as int,
                    height as int,
                );
                lemma_cell_in_bounds(tx as int, nx as int, 0, kx as int, w as int, sw as int, width as int);
            }
            let row_x = tx * w;
            let row_y = ty * h + sy * sh;
            assert((row_x as int, row_y as int) == self.row_origin(img@, q as int));
            map.start_row();
            let ghost st0 = (palette@, atlas@, map@);
            let mut sx: u128 = 0;
            while sx < kx
                invariant
                    self.valid(),
                    img.wf(),
                    self.fits(img@),
                    width == img@.width <= u32::MAX,
                    height == img@.height <= u32::MAX,
                    w == self.width,
                    sw == self.sub_width,
                    sh == self.sub_height,
                    nx == self.cells_x(img@),
                    kx == self.subs_x(),
                    width > 0,
                    tx < nx,
                    row_x == tx * w,
                    row_y + sh <= height,
                    (row_x as int, row_y as int) == self.row_origin(img@, q as int),
                    sx <= kx,
                    atlas.wf(),
                    map@.len() == st0.2.len(),
                    st0.2.len() > 0,
                    (palette@, atlas@, map@) == self.scan_row(img@, st0, q as int, sx as int),
                decreases kx - sx,
            {
                proof {
                    lemma_cell_in_bounds(
                        tx as int,
                        nx as int,
                        sx as int,
                        kx as int,
                        w as int,
                        sw as int,
                        width as int,
                    );
                }
                let x = row_x + sx * sw;
                let tile = create_tile(
                    img,
                    x as u32,
                    row_y as u32,
                    self.sub_width,
                    self.sub_height,
                    &mut palette,
                    self.alpha_threshold,
                );
                let index = atlas.update(tile);
                map.push(index);
                sx = sx + 1;
            }
            q = q + 1;
        }
        Ok((palette, atlas, map))
    }
}

} // verus!
