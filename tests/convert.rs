use evgfx::convert::{Config, Palette, Tile, TileAtlas, TileMap};
use evgfx::raster::{Color, Image, Rgba};
use evgfx::ErrorKind;

fn tile_of(indexes: &[usize]) -> Tile {
    let mut t = Tile::new();
    for &i in indexes {
        t.push(i);
    }
    t
}

fn solid(width: u32, height: u32, p: Rgba) -> Vec<Rgba> {
    vec![p; (width * height) as usize]
}

fn rgba(r: u8, g: u8, b: u8, a: u8) -> Rgba {
    Rgba { r, g, b, a }
}

fn outputs(cfg: &Config, img: &Image) -> (Vec<u8>, Vec<u8>, Vec<u8>) {
    let (palette, atlas, map) = cfg.convert_image(img).unwrap();
    let mut p = Vec::new();
    palette.write_rgb555(&mut p, false);
    let mut a = Vec::new();
    atlas.write_4bpp(&mut a).unwrap();
    let mut m = Vec::new();
    map.write_8bit(&mut m).unwrap();
    (p, a, m)
}

/// A 16x16 magenta image with a green 8x8 square in the top-left quadrant.
fn magenta_with_green_square() -> Image {
    let mut pixels = Vec::new();
    for y in 0..16u32 {
        for x in 0..16u32 {
            if x < 8 && y < 8 {
                pixels.push(rgba(0, 255, 0, 255));
            } else {
                pixels.push(rgba(255, 0, 255, 255));
            }
        }
    }
    Image::new(16, 16, pixels).unwrap()
}

#[test]
fn update_same_tile_twice_gives_same_index() {
    let mut atlas = TileAtlas::new();
    assert_eq!(atlas.update(tile_of(&[1, 2])), 0);
    assert_eq!(atlas.update(tile_of(&[3, 4])), 1);
    assert_eq!(atlas.len(), 2);
    assert_eq!(atlas.update(tile_of(&[3, 4])), 1);
    assert_eq!(atlas.update(tile_of(&[1, 2])), 0);
    assert_eq!(atlas.len(), 2);
    assert_eq!(atlas.get(1).indexes(), &vec![3, 4]);
}

#[test]
fn tile_equality_is_elementwise() {
    assert!(tile_of(&[1, 2]) == tile_of(&[1, 2]));
    assert!(tile_of(&[1, 2]) != tile_of(&[2, 1]));
    assert!(tile_of(&[1]) != tile_of(&[1, 0]));
    assert!(Tile::new() == tile_of(&[]));
}

#[test]
fn tiles_differing_in_order_are_distinct() {
    let mut atlas = TileAtlas::new();
    assert_eq!(atlas.update(tile_of(&[1, 2])), 0);
    assert_eq!(atlas.update(tile_of(&[2, 1])), 1);
    assert_eq!(atlas.update(tile_of(&[1, 2, 0, 0])), 2);
    assert_eq!(atlas.len(), 3);
}

#[test]
fn conversion_is_deterministic() {
    let cfg = Config::new().with_tilesize(16, 16).with_transparency_color(255, 0, 255);
    let img = magenta_with_green_square();
    let first = outputs(&cfg, &img);
    let second = outputs(&cfg, &img);
    assert_eq!(first, second);
}

#[test]
fn transparency_color_is_reserved_even_if_unused() {
    let cfg = Config::new().with_transparency_color(255, 0, 255);
    let img = Image::new(8, 8, solid(8, 8, rgba(10, 20, 30, 255))).unwrap();
    let (palette, atlas, _) = cfg.convert_image(&img).unwrap();
    assert_eq!(palette.colors(), &vec![Color::new(255, 0, 255), Color::new(10, 20, 30)]);
    assert_eq!(atlas.get(0).indexes(), &vec![1; 64]);
}

#[test]
fn low_alpha_resolves_to_index_zero_without_palette_entry() {
    let cfg = Config::new();
    let mut pixels = solid(8, 8, rgba(200, 0, 0, 255));
    pixels[1] = rgba(0, 0, 200, 10);
    pixels[2] = rgba(0, 0, 200, 127);
    pixels[3] = rgba(0, 0, 200, 128);
    let img = Image::new(8, 8, pixels).unwrap();
    let (palette, atlas, _) = cfg.convert_image(&img).unwrap();
    assert_eq!(palette.colors(), &vec![Color::new(200, 0, 0), Color::new(0, 0, 200)]);
    let t = atlas.get(0).indexes();
    assert_eq!(t[0], 0);
    assert_eq!(t[1], 0);
    assert_eq!(t[2], 0);
    assert_eq!(t[3], 1);
    assert_eq!(t[4], 0);
}

#[test]
fn transparent_first_pixel_uses_index_zero_of_empty_palette() {
    let cfg = Config::new();
    let mut pixels = solid(8, 8, rgba(1, 2, 3, 255));
    pixels[0] = rgba(9, 9, 9, 0);
    let img = Image::new(8, 8, pixels).unwrap();
    let (palette, atlas, _) = cfg.convert_image(&img).unwrap();
    assert_eq!(palette.colors(), &vec![Color::new(1, 2, 3)]);
    assert_eq!(atlas.get(0).indexes(), &vec![0; 64]);
}

#[test]
fn pack_two_indices_into_one_byte() {
    assert_eq!(tile_of(&[3, 7]).convert_to_4bpp().unwrap(), vec![0x73]);
    assert_eq!(tile_of(&[15, 0, 0, 15]).convert_to_4bpp().unwrap(), vec![0x0F, 0xF0]);
    assert_eq!(tile_of(&[]).convert_to_4bpp().unwrap(), Vec::<u8>::new());
}

#[test]
fn rgb555_of_pure_red() {
    let mut palette = Palette::new();
    palette.insert(&Color::new(248, 0, 0));
    let mut out = Vec::new();
    palette.write_rgb555(&mut out, false);
    assert_eq!(out, vec![0x1F, 0x00]);
}

#[test]
fn rgb555_channels_and_low_bits() {
    let mut palette = Palette::new();
    palette.insert(&Color::new(0, 255, 0));
    palette.insert(&Color::new(0, 0, 255));
    palette.insert(&Color::new(255, 255, 255));
    palette.insert(&Color::new(7, 7, 7));
    let mut out = vec![0xAA];
    palette.write_rgb555(&mut out, false);
    assert_eq!(out, vec![0xAA, 0xE0, 0x03, 0x00, 0x7C, 0xFF, 0x7F, 0x00, 0x00]);
}

#[test]
fn rgb555_skip_first() {
    let mut palette = Palette::new();
    palette.insert(&Color::new(255, 0, 255));
    palette.insert(&Color::new(248, 0, 0));
    let mut out = Vec::new();
    palette.write_rgb555(&mut out, true);
    assert_eq!(out, vec![0x1F, 0x00]);
    let mut empty_out = Vec::new();
    Palette::new().write_rgb555(&mut empty_out, true);
    assert!(empty_out.is_empty());
}

#[test]
fn palette_lookup_first_match() {
    let mut palette = Palette::new();
    assert_eq!(palette.get(&Color::new(1, 1, 1)), None);
    palette.insert(&Color::new(1, 1, 1));
    palette.insert(&Color::new(2, 2, 2));
    palette.insert(&Color::new(1, 1, 1));
    assert_eq!(palette.get(&Color::new(1, 1, 1)), Some(0));
    assert_eq!(palette.get(&Color::new(2, 2, 2)), Some(1));
    assert_eq!(palette.len(), 3);
}

#[test]
fn index_sixteen_fails_4bpp() {
    let e = tile_of(&[3, 16]).convert_to_4bpp().unwrap_err();
    assert_eq!(e.kind, ErrorKind::TooManyColors { index: 16 });
    let e = tile_of(&[20, 1]).convert_to_4bpp().unwrap_err();
    assert_eq!(e.kind, ErrorKind::TooManyColors { index: 20 });
}

#[test]
fn atlas_write_stops_at_bad_tile() {
    let mut atlas = TileAtlas::new();
    atlas.update(tile_of(&[1, 2]));
    atlas.update(tile_of(&[16, 0]));
    atlas.update(tile_of(&[3, 4]));
    let mut out = Vec::new();
    let e = atlas.write_4bpp(&mut out).unwrap_err();
    assert_eq!(e.kind, ErrorKind::TooManyColors { index: 16 });
    assert_eq!(out, vec![0x21]);
}

#[test]
fn map_index_256_fails_and_255_passes() {
    let mut map = TileMap::new();
    map.start_row();
    map.push(255);
    let mut out = Vec::new();
    map.write_8bit(&mut out).unwrap();
    assert_eq!(out, vec![255]);

    map.start_row();
    map.push(7);
    map.push(256);
    map.push(8);
    let mut out = Vec::new();
    let e = map.write_8bit(&mut out).unwrap_err();
    assert_eq!(e.kind, ErrorKind::TooManyTiles { index: 256 });
    assert_eq!(out, vec![255, 7]);
}

#[test]
fn too_many_tiles_from_a_conversion() {
    let mut pixels = Vec::new();
    for i in 0..257u32 {
        pixels.push(rgba((i % 256) as u8, (i / 256) as u8, 0, 255));
    }
    let img = Image::new(257, 1, pixels).unwrap();
    let mut cfg = Config::new().with_tilesize(1, 1);
    cfg.sub_width = 1;
    cfg.sub_height = 1;
    let (palette, atlas, map) = cfg.convert_image(&img).unwrap();
    assert_eq!(palette.len(), 257);
    assert_eq!(atlas.len(), 257);
    let mut out = Vec::new();
    let e = map.write_8bit(&mut out).unwrap_err();
    assert_eq!(e.kind, ErrorKind::TooManyTiles { index: 256 });
    assert_eq!(out.len(), 256);
}

#[test]
fn map_entries_index_the_atlas() {
    let mut pixels = Vec::new();
    for y in 0..16u32 {
        for x in 0..24u32 {
            let v = ((x / 8 + y / 8) % 3) as u8;
            pixels.push(rgba(v * 40, 0, 0, 255));
        }
    }
    let img = Image::new(24, 16, pixels).unwrap();
    let cfg = Config::new();
    let (_, atlas, map) = cfg.convert_image(&img).unwrap();
    assert_eq!(atlas.len(), 3);
    let mut out = Vec::new();
    map.write_8bit(&mut out).unwrap();
    assert_eq!(out, vec![0, 1, 2, 1, 2, 0]);
    for row in map.rows() {
        for &i in row {
            assert!(i < atlas.len());
        }
    }
}

#[test]
fn magenta_image_with_green_square() {
    let cfg = Config::new().with_tilesize(16, 16).with_transparency_color(255, 0, 255);
    let img = magenta_with_green_square();
    let (palette, atlas, map) = cfg.convert_image(&img).unwrap();
    assert_eq!(palette.colors(), &vec![Color::new(255, 0, 255), Color::new(0, 255, 0)]);
    assert_eq!(atlas.len(), 2);
    assert_eq!(atlas.get(0).indexes(), &vec![1; 64]);
    assert_eq!(atlas.get(1).indexes(), &vec![0; 64]);
    let mut tiles = Vec::new();
    atlas.write_4bpp(&mut tiles).unwrap();
    assert_eq!(tiles.len(), 64);
    assert_eq!(&tiles[..32], &[0x11u8; 32][..]);
    assert_eq!(&tiles[32..], &[0u8; 32][..]);
    let mut m = Vec::new();
    map.write_8bit(&mut m).unwrap();
    assert_eq!(m, vec![0, 1, 1, 1]);
    assert_eq!(map.rows(), &vec![vec![0, 1], vec![1, 1]]);
}

#[test]
fn metatile_scan_order() {
    // Two 16x8 metatiles side by side, each split into two 8x8 tiles.
    let mut pixels = Vec::new();
    for _y in 0..8u32 {
        for x in 0..32u32 {
            pixels.push(rgba((x / 8) as u8, 0, 0, 255));
        }
    }
    let img = Image::new(32, 8, pixels).unwrap();
    let cfg = Config::new().with_tilesize(16, 8);
    let (palette, atlas, map) = cfg.convert_image(&img).unwrap();
    assert_eq!(palette.len(), 4);
    assert_eq!(atlas.len(), 4);
    assert_eq!(map.rows(), &vec![vec![0, 1], vec![2, 3]]);
}

#[test]
fn region_past_edge_is_an_error() {
    let img = Image::new(12, 8, solid(12, 8, rgba(0, 0, 0, 255))).unwrap();
    let e = Config::new().convert_image(&img).err().unwrap();
    assert_eq!(e.kind, ErrorKind::RegionOutOfBounds);
}

#[test]
fn empty_image_gives_empty_outputs() {
    let img = Image::new(0, 0, Vec::new()).unwrap();
    let (palette, atlas, map) = Config::new().with_transparency_color(1, 2, 3).convert_image(&img).unwrap();
    assert_eq!(palette.len(), 1);
    assert_eq!(atlas.len(), 0);
    assert!(map.rows().is_empty());
}

#[test]
fn image_needs_matching_pixel_count() {
    assert!(Image::new(2, 2, solid(1, 3, rgba(0, 0, 0, 0))).is_none());
    let img = Image::new(2, 3, solid(2, 3, rgba(4, 5, 6, 7))).unwrap();
    assert_eq!(img.width(), 2);
    assert_eq!(img.height(), 3);
    assert_eq!(img.get_pixel(1, 2), rgba(4, 5, 6, 7));
}

#[test]
fn config_defaults_and_builders() {
    let c = Config::new();
    assert_eq!((c.width, c.height, c.sub_width, c.sub_height), (8, 8, 8, 8));
    assert_eq!(c.transparency_color, None);
    assert_eq!(c.alpha_threshold, 128);
    let c = c.with_tilesize(32, 16).with_transparency_color(1, 2, 3);
    assert_eq!((c.width, c.height, c.sub_width, c.sub_height), (32, 16, 8, 8));
    assert_eq!(c.transparency_color, Some(Color::new(1, 2, 3)));
    assert_eq!(Rgba { r: 1, g: 2, b: 3, a: 4 }.to_rgb(), Color::new(1, 2, 3));
}
