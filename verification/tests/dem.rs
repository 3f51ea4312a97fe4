use terra::dem::{DemError, DemSource, DigitalElevationModelParams};

fn tile(latitude: i16, longitude: i16, source: DemSource) -> DigitalElevationModelParams {
    DigitalElevationModelParams { latitude, longitude, source }
}

#[test]
fn sources() {
    assert_eq!(
        DemSource::Usgs30m.url_str(),
        "https://prd-tnm.s3.amazonaws.com/StagedProducts/Elevation/1/GridFloat/"
    );
    assert_eq!(
        DemSource::Usgs10m.url_str(),
        "https://prd-tnm.s3.amazonaws.com/StagedProducts/Elevation/13/GridFloat/"
    );
    assert_eq!(
        DemSource::Srtm30m.url_str(),
        "https://e4ftl01.cr.usgs.gov/SRTM/SRTMGL1.003/2000.02.11/"
    );
    assert_eq!(DemSource::Usgs30m.directory_str(), "dems/ned1");
    assert_eq!(DemSource::Usgs10m.directory_str(), "dems/ned13");
    assert_eq!(DemSource::Srtm30m.directory_str(), "dems/srtm1");
    assert_eq!(DemSource::Usgs30m.resolution(), 30);
    assert_eq!(DemSource::Usgs10m.resolution(), 10);
    assert_eq!(DemSource::Srtm30m.resolution(), 30);
    assert_eq!(DemSource::Usgs30m.cells_per_arcsecond(), 1);
    assert_eq!(DemSource::Usgs10m.cells_per_arcsecond(), 3);
    assert_eq!(DemSource::Srtm30m.cells_per_arcsecond(), 1);
    assert_eq!(DemError::ParseError.description(), "failed to parse DEM");
}

#[test]
fn usgs_tiles_are_named_by_their_northern_edge() {
    assert_eq!(
        tile(36, -112, DemSource::Usgs30m).url(),
        "https://prd-tnm.s3.amazonaws.com/StagedProducts/Elevation/1/GridFloat/n37w112.zip"
    );
    assert_eq!(
        tile(-1, 7, DemSource::Usgs10m).url(),
        "https://prd-tnm.s3.amazonaws.com/StagedProducts/Elevation/13/GridFloat/n00e007.zip"
    );
    assert_eq!(
        tile(-2, 0, DemSource::Usgs10m).url(),
        "https://prd-tnm.s3.amazonaws.com/StagedProducts/Elevation/13/GridFloat/s01e000.zip"
    );
}

#[test]
fn srtm_tiles_are_named_in_upper_case() {
    assert_eq!(
        tile(36, -112, DemSource::Srtm30m).url(),
        "https://e4ftl01.cr.usgs.gov/SRTM/SRTMGL1.003/2000.02.11/N36W112.SRTMGL1.hgt.zip"
    );
    assert_eq!(
        tile(-5, 7, DemSource::Srtm30m).url(),
        "https://e4ftl01.cr.usgs.gov/SRTM/SRTMGL1.003/2000.02.11/S05E007.SRTMGL1.hgt.zip"
    );
}

#[test]
fn file_names() {
    assert_eq!(tile(36, -112, DemSource::Usgs30m).filename(), "dems/ned1/n36_w112.zip");
    assert_eq!(tile(-5, 7, DemSource::Srtm30m).filename(), "dems/srtm1/s05_e007.zip");
    assert_eq!(tile(0, 0, DemSource::Usgs10m).filename(), "dems/ned13/n00_e000.zip");
}

#[test]
fn wide_numbers_keep_all_their_digits() {
    assert_eq!(tile(123, 1234, DemSource::Usgs30m).filename(), "dems/ned1/n123_e1234.zip");
    assert_eq!(
        tile(-32767, 32767, DemSource::Srtm30m).filename(),
        "dems/srtm1/s32767_e32767.zip"
    );
    assert_eq!(
        tile(32766, -32767, DemSource::Usgs30m).url(),
        "https://prd-tnm.s3.amazonaws.com/StagedProducts/Elevation/1/GridFloat/n32767w32767.zip"
    );
    assert_eq!(tile(9, 99, DemSource::Usgs30m).filename(), "dems/ned1/n09_e099.zip");
    assert_eq!(tile(10, 100, DemSource::Usgs30m).filename(), "dems/ned1/n10_e100.zip");
}
