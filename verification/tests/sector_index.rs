use terra::layer::{Layer, LayerDesc, TextureFormat};
use terra::sector::{compute_index, Sector, Tile};
use terra::tile_cache::TileCache;

fn layer(sector_bytes: u64) -> Layer {
    Layer {
        desc: LayerDesc {
            parents: vec![],
            resolution: 16,
            corner_registration: false,
            format: TextureFormat::R32F,
            sector_bytes,
            shader: String::new(),
            center: String::new(),
        },
        backing_bytes: 0,
        sector_cache: TileCache::new(4, 16),
    }
}

#[test]
fn compute_sector_index() {
    assert_eq!(Layer::compute_sector_index(Sector(0, 0)), 0 * 4);
    assert_eq!(Layer::compute_sector_index(Sector(1, 1)), 3 * 4);
    assert_eq!(Layer::compute_sector_index(Sector(1, 2)), 6 * 4);
    assert_eq!(Layer::compute_sector_index(Sector(2, 3)), 13 * 4);
    assert_eq!(Layer::compute_sector_index(Sector(4, 1)), 19 * 4);

    assert_eq!(Layer::compute_sector_index(Sector(-3, -1)), 5 * 4 + 3);
    assert_eq!(Layer::compute_sector_index(Sector(-3, -4)), 13 * 4 + 3);
}

#[test]
fn sector_index_scenario() {
    assert_eq!(Layer::compute_sector_index(Sector(0, 0)), 0);
    assert_eq!(Layer::compute_sector_index(Sector(1, 1)), 12);
    assert_eq!(Layer::compute_sector_index(Sector(-3, -1)), 23);
}

#[test]
fn sector_index_first_ring() {
    assert_eq!(compute_index(Sector(0, 0)), 0);
    assert_eq!(compute_index(Sector(-1, 0)), 1);
    assert_eq!(compute_index(Sector(0, -1)), 2);
    assert_eq!(compute_index(Sector(-1, -1)), 3);
    assert_eq!(compute_index(Sector(1, 0)), 8);
    assert_eq!(compute_index(Sector(0, 1)), 4);
}

#[test]
fn sector_index_extremes_fit() {
    assert_eq!(compute_index(Sector(i32::MIN, i32::MIN)), u64::MAX);
    assert_eq!(compute_index(Sector(i32::MAX, i32::MAX)), u64::MAX - 3);
    assert_eq!(compute_index(Sector(i32::MAX, 0)), ((1u64 << 31) - 1) * ((1u64 << 31) - 1) * 4 + 4);
}

fn ring(s: Sector) -> i64 {
    let m = |c: i32| if c >= 0 { c as i64 } else { -(c as i64) - 1 };
    m(s.0).max(m(s.1))
}

#[test]
fn sector_index_is_injective_and_dense() {
    let r: i32 = 12;
    let mut seen = vec![false; (4 * r * r) as usize];
    for x in -r..r {
        for y in -r..r {
            let index = compute_index(Sector(x, y)) as usize;
            assert!(index < seen.len());
            assert!(!seen[index]);
            seen[index] = true;
        }
    }
    assert!(seen.iter().all(|s| *s));
}

#[test]
fn sector_index_grows_with_ring() {
    let r: i32 = 9;
    let mut cells = Vec::new();
    for x in -r..r {
        for y in -r..r {
            cells.push(Sector(x, y));
        }
    }
    for a in cells.iter() {
        for b in cells.iter() {
            if ring(*a) < ring(*b) {
                assert!(compute_index(*a) < compute_index(*b));
            }
        }
    }
}

#[test]
fn sector_offset_is_size_times_index() {
    let l = layer(1024);
    assert_eq!(l.compute_sector_offset(Sector(0, 0)), 0);
    assert_eq!(l.compute_sector_offset(Sector(1, 1)), 12 * 1024);
    assert_eq!(l.compute_sector_offset(Sector(-3, -1)), 23 * 1024);
    assert_eq!(l.checked_sector_offset(Sector(-3, -1)), Some(23 * 1024));
}

#[test]
fn sector_offset_overflow_is_reported() {
    let l = layer(2);
    assert_eq!(l.checked_sector_offset(Sector(i32::MIN, i32::MIN)), None);
    assert_eq!(l.checked_sector_offset(Sector(0, 0)), Some(0));
}

#[test]
fn sectors_and_tiles_compare_by_fields() {
    assert_eq!(Sector(1, -2), Sector(1, -2));
    assert!(Sector(1, 2) < Sector(1, 3));
    assert_eq!(Tile(3, 4), Tile(3, 4));
    assert!(Tile(0, 9) < Tile(1, 0));
}
