use terra::raster::{floor_coordinate, Lookup, Raster, RasterCache};

#[test]
fn values_stand_row_by_row() {
    let raster = Raster { width: 4, height: 3, bands: 2 };
    assert_eq!(raster.cell_offset(0, 0, 0), 0);
    assert_eq!(raster.cell_offset(0, 0, 1), 1);
    assert_eq!(raster.cell_offset(1, 0, 0), 2);
    assert_eq!(raster.cell_offset(0, 1, 0), 8);
    assert_eq!(raster.cell_offset(3, 2, 1), 23);
}

#[test]
fn interpolation_reads_four_neighbours() {
    let raster = Raster { width: 4, height: 3, bands: 2 };
    assert_eq!(raster.interpolation_offsets(1, 1, 1), Some([11, 13, 19, 21]));
    assert_eq!(raster.interpolation_offsets(0, 0, 0), Some([0, 2, 8, 10]));
}

#[test]
fn interpolation_stays_inside_at_the_edges() {
    let raster = Raster { width: 4, height: 3, bands: 1 };
    assert_eq!(raster.interpolation_offsets(3, 1, 0), Some([7, 7, 11, 11]));
    assert_eq!(raster.interpolation_offsets(1, 2, 0), Some([9, 10, 9, 10]));
    assert_eq!(raster.interpolation_offsets(3, 2, 0), Some([11, 11, 11, 11]));
}

#[test]
fn points_outside_give_nothing() {
    let raster = Raster { width: 4, height: 3, bands: 3 };
    assert_eq!(raster.interpolation_offsets(-1, 0, 0), None);
    assert_eq!(raster.interpolation_offsets(0, -1, 0), None);
    assert_eq!(raster.interpolation_offsets(4, 0, 0), None);
    assert_eq!(raster.interpolation_offsets(0, 3, 0), None);
    assert_eq!(raster.interpolation_offsets(i64::MAX, i64::MIN, 0), None);
    assert_eq!(raster.nearest3_offset(-1, 0), None);
    assert_eq!(raster.nearest3_offset(4, 2), None);
    assert_eq!(raster.nearest3_offset(0, 3), None);
    let empty = Raster { width: 0, height: 0, bands: 3 };
    assert_eq!(empty.interpolation_offsets(0, 0, 0), None);
    assert_eq!(empty.nearest3_offset(0, 0), None);
}

#[test]
fn nearest_cell_of_three_bands() {
    let raster = Raster { width: 4, height: 3, bands: 3 };
    assert_eq!(raster.nearest3_offset(0, 0), Some(0));
    assert_eq!(raster.nearest3_offset(2, 1), Some(18));
    assert_eq!(raster.nearest3_offset(3, 2), Some(33));
}

#[test]
fn global_raster_wraps_and_clamps() {
    let raster = Raster { width: 8, height: 4, bands: 2 };
    assert_eq!(raster.global_offset(0, 0, 0), 0);
    assert_eq!(raster.global_offset(3, 2, 1), (3 + 2 * 8) * 2 + 1);
    assert_eq!(raster.global_offset(8, 0, 0), 0);
    assert_eq!(raster.global_offset(-1, 0, 0), 7 * 2);
    assert_eq!(raster.global_offset(-8, 1, 0), 8 * 2);
    assert_eq!(raster.global_offset(-9, 1, 0), (7 + 8) * 2);
    assert_eq!(raster.global_offset(17, -5, 0), 1 * 2);
    assert_eq!(raster.global_offset(0, 4, 1), (3 * 8) * 2 + 1);
    assert_eq!(raster.global_offset(i64::MIN, i64::MAX, 0), (3 * 8) * 2);
    assert_eq!(raster.global_offset(i64::MAX, i64::MIN, 0), 7 * 2);
}

#[test]
fn coordinates_round_down() {
    assert_eq!(floor_coordinate(7, 1), Some(7));
    assert_eq!(floor_coordinate(-7, 1), Some(-7));
    assert_eq!(floor_coordinate(7, 5), Some(5));
    assert_eq!(floor_coordinate(5, 5), Some(5));
    assert_eq!(floor_coordinate(0, 5), Some(0));
    assert_eq!(floor_coordinate(-1, 5), Some(-5));
    assert_eq!(floor_coordinate(-5, 5), Some(-5));
    assert_eq!(floor_coordinate(-6, 5), Some(-10));
    assert_eq!(floor_coordinate(i16::MAX, i16::MAX), Some(i16::MAX));
    assert_eq!(floor_coordinate(i16::MIN, 1), Some(i16::MIN));
    assert_eq!(floor_coordinate(i16::MIN, 2), Some(i16::MIN));
    assert_eq!(floor_coordinate(i16::MIN, 3), None);
    assert_eq!(floor_coordinate(i16::MIN + 1, 3), None);
    assert_eq!(floor_coordinate(i16::MIN + 2, 3), Some(i16::MIN + 2));
    assert_eq!(floor_coordinate(i16::MIN + 4, 3), Some(i16::MIN + 2));
}

#[test]
fn new_raster_cache() {
    let cache = RasterCache::new(5, 3, 16);
    assert_eq!(cache.bands(), 3);
    assert_eq!(cache.raster_size(), 5);
    assert_eq!(cache.cell(-1, 7), Some((-5, 5)));
    assert_eq!(cache.cell(i16::MIN, 0), None);
}

#[test]
fn missing_raster_is_loaded_once() {
    let mut cache = RasterCache::new(1, 1, 4);
    assert_eq!(cache.get(46, 7), Lookup::Missing { latitude: 46, longitude: 7 });
    assert_eq!(cache.get(46, 7), Lookup::Missing { latitude: 46, longitude: 7 });
    assert_eq!(cache.loaded(46, 7, true), Some(0));
    assert_eq!(cache.get(46, 7), Lookup::Resident { slot: 0 });
    assert_eq!(cache.loaded(47, 7, true), Some(1));
    assert_eq!(cache.get(47, 7), Lookup::Resident { slot: 1 });
    assert_eq!(cache.get(46, 7), Lookup::Resident { slot: 0 });
}

#[test]
fn failed_load_is_not_retried() {
    let mut cache = RasterCache::new(1, 1, 4);
    assert_eq!(cache.get(10, -20), Lookup::Missing { latitude: 10, longitude: -20 });
    assert_eq!(cache.loaded(10, -20, false), None);
    assert_eq!(cache.get(10, -20), Lookup::Hole);
    cache.loaded(11, -20, true);
    cache.loaded(12, -20, true);
    cache.loaded(13, -20, false);
    for _ in 0..10 {
        assert_eq!(cache.get(10, -20), Lookup::Hole);
        assert_eq!(cache.get(13, -20), Lookup::Hole);
    }
    assert_eq!(cache.get(-20, 10), Lookup::Missing { latitude: -20, longitude: 10 });
    assert_eq!(cache.get(11, -20), Lookup::Resident { slot: 0 });
}

#[test]
fn hole_covers_the_whole_cell() {
    let mut cache = RasterCache::new(5, 1, 4);
    assert_eq!(cache.get(-1, 7), Lookup::Missing { latitude: -5, longitude: 5 });
    assert_eq!(cache.loaded(-1, 7, false), None);
    assert_eq!(cache.get(-5, 5), Lookup::Hole);
    assert_eq!(cache.get(-3, 9), Lookup::Hole);
    assert_eq!(cache.get(0, 5), Lookup::Missing { latitude: 0, longitude: 5 });
    assert_eq!(cache.get(-5, 10), Lookup::Missing { latitude: -5, longitude: 10 });
    assert_eq!(cache.get(-6, 5), Lookup::Missing { latitude: -10, longitude: 5 });
}

#[test]
fn full_cache_drops_the_least_recently_used() {
    let mut cache = RasterCache::new(1, 1, 2);
    assert_eq!(cache.loaded(1, 1, true), Some(0));
    assert_eq!(cache.loaded(2, 2, true), Some(1));
    assert_eq!(cache.get(1, 1), Lookup::Resident { slot: 0 });
    assert_eq!(cache.loaded(3, 3, true), Some(1));
    assert_eq!(cache.get(2, 2), Lookup::Missing { latitude: 2, longitude: 2 });
    assert_eq!(cache.get(1, 1), Lookup::Resident { slot: 0 });
    assert_eq!(cache.get(3, 3), Lookup::Resident { slot: 1 });
    assert_eq!(cache.loaded(4, 4, true), Some(0));
    assert_eq!(cache.get(1, 1), Lookup::Missing { latitude: 1, longitude: 1 });
    assert_eq!(cache.get(3, 3), Lookup::Resident { slot: 1 });
}

#[test]
fn loading_a_resident_raster_keeps_its_slot() {
    let mut cache = RasterCache::new(1, 1, 2);
    assert_eq!(cache.loaded(1, 1, true), Some(0));
    assert_eq!(cache.loaded(2, 2, true), Some(1));
    assert_eq!(cache.loaded(1, 1, true), Some(0));
    assert_eq!(cache.loaded(3, 3, true), Some(1));
    assert_eq!(cache.get(2, 2), Lookup::Missing { latitude: 2, longitude: 2 });
}

#[test]
fn cache_that_holds_nothing() {
    let mut cache = RasterCache::new(1, 1, 0);
    assert_eq!(cache.loaded(1, 1, true), None);
    assert_eq!(cache.get(1, 1), Lookup::Missing { latitude: 1, longitude: 1 });
    assert_eq!(cache.loaded(1, 1, false), None);
    assert_eq!(cache.get(1, 1), Lookup::Hole);
}

#[test]
fn point_outside_every_cell() {
    let mut cache = RasterCache::new(3, 1, 2);
    assert_eq!(cache.get(i16::MIN, 0), Lookup::Outside);
    assert_eq!(cache.get(0, i16::MIN), Lookup::Outside);
    assert_eq!(cache.loaded(i16::MIN, 0, true), None);
    assert_eq!(cache.loaded(i16::MIN, 0, false), None);
    assert_eq!(cache.get(i16::MIN, 0), Lookup::Outside);
    assert_eq!(cache.loaded(0, 0, true), Some(0));
}

#[test]
fn inner_points_have_four_neighbours() {
    let raster = Raster { width: 4, height: 3, bands: 2 };
    assert_eq!(raster.inner_offsets(1, 1, 1), Some([11, 13, 19, 21]));
    assert_eq!(raster.inner_offsets(0, 0, 0), Some([0, 2, 8, 10]));
    assert_eq!(raster.inner_offsets(2, 1, 0), Some([12, 14, 20, 22]));
    assert_eq!(raster.inner_offsets(3, 1, 0), None);
    assert_eq!(raster.inner_offsets(1, 2, 0), None);
    assert_eq!(raster.inner_offsets(-1, 0, 0), None);
    assert_eq!(raster.inner_offsets(0, -1, 0), None);
    assert_eq!(raster.inner_offsets(i64::MAX, 0, 0), None);
    assert_eq!(raster.inner_offsets(0, i64::MAX, 0), None);
    let line = Raster { width: 1, height: 5, bands: 1 };
    assert_eq!(line.inner_offsets(0, 0, 0), None);
    let empty = Raster { width: 0, height: 0, bands: 1 };
    assert_eq!(empty.inner_offsets(0, 0, 0), None);
}

#[test]
fn no_cell_is_both_a_hole_and_resident() {
    let mut cache = RasterCache::new(1, 1, 2);
    assert_eq!(cache.loaded(1, 1, false), None);
    assert_eq!(cache.loaded(1, 1, true), None);
    assert_eq!(cache.get(1, 1), Lookup::Hole);
    assert_eq!(cache.loaded(2, 2, true), Some(0));
    assert_eq!(cache.loaded(3, 3, true), Some(1));
    assert_eq!(cache.loaded(2, 2, false), None);
    assert_eq!(cache.get(2, 2), Lookup::Resident { slot: 0 });
    assert_eq!(cache.loaded(4, 4, true), Some(1));
    assert_eq!(cache.get(3, 3), Lookup::Missing { latitude: 3, longitude: 3 });
    assert_eq!(cache.get(2, 2), Lookup::Resident { slot: 0 });
    assert_eq!(cache.get(1, 1), Lookup::Hole);
}
