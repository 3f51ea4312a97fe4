//! Digital elevation models: where the tiles of each source are found, and
//! under what name a downloaded tile is kept.

use crate::archive::{
    is_ending, text_ends_with, view_names, zip_member, zip_member_names, zip_names,
    zip_read_member,
};
use vstd::prelude::*;
use vstd::string::{StrSliceExecFns, StringExecFns};

verus! {

/// Why a tile gives no elevation model.
#[derive(Copy, Clone, Debug, PartialEq, Eq, Structural)]
pub enum DemError {
    ParseError,
}

impl DemError {
    /// What went wrong, in words.
    pub fn description(&self) -> (text: &'static str)
        ensures
            text@ == "failed to parse DEM"@,
    {
        "failed to parse DEM"
    }
}

/// A source of elevation data.
#[derive(Copy, Clone, Debug, PartialEq, Eq, Structural)]
pub enum DemSource {
    Usgs30m,
    Usgs10m,
    Srtm30m,
}

impl DemSource {
    /// The address under which the tiles of the source are published.
    pub open spec fn url_text(self) -> Seq<char> {
        match self {
            DemSource::Usgs30m => "https://prd-tnm.s3.amazonaws.com/StagedProducts/Elevation/1/GridFloat/"@,
            DemSource::Usgs10m => "https://prd-tnm.s3.amazonaws.com/StagedProducts/Elevation/13/GridFloat/"@,
            DemSource::Srtm30m => "https://e4ftl01.cr.usgs.gov/SRTM/SRTMGL1.003/2000.02.11/"@,
        }
    }

    /// The directory in which downloaded tiles of the source are kept.
    pub open spec fn directory_text(self) -> Seq<char> {
        match self {
            DemSource::Usgs30m => "dems/ned1"@,
            DemSource::Usgs10m => "dems/ned13"@,
            DemSource::Srtm30m => "dems/srtm1"@,
        }
    }

    /// Whether the source names a tile by its northern edge.
    pub open spec fn names_northern_edge(self) -> bool {
        self != DemSource::Srtm30m
    }

    /// The address under which the tiles of the source are published.
    pub fn url_str(&self) -> (url: &'static str)
        ensures
            url@ == self.url_text(),
    {
        match *self {
            DemSource::Usgs30m => {
                "https://prd-tnm.s3.amazonaws.com/StagedProducts/Elevation/1/GridFloat/"
            },
            DemSource::Usgs10m => {
                "https://prd-tnm.s3.amazonaws.com/StagedProducts/Elevation/13/GridFloat/"
            },
            DemSource::Srtm30m => "https://e4ftl01.cr.usgs.gov/SRTM/SRTMGL1.003/2000.02.11/",
        }
    }

    /// The directory in which downloaded tiles of the source are kept.
    pub fn directory_str(&self) -> (directory: &'static str)
        ensures
            directory@ == self.directory_text(),
    {
        match *self {
            DemSource::Usgs30m => "dems/ned1",
            DemSource::Usgs10m => "dems/ned13",
            DemSource::Srtm30m => "dems/srtm1",
        }
    }

    /// The approximate resolution of data from the source, in meters.
    pub fn resolution(&self) -> (meters: u32)
        ensures
            meters == (if *self == DemSource::Usgs10m {
                10u32
            } else {
                30u32
            }),
    {
        match *self {
            DemSource::Usgs30m => 30,
            DemSource::Usgs10m => 10,
            DemSource::Srtm30m => 30,
        }
    }

    /// The number of cells of the source that make up one arcsecond: a cell
    /// is the inverse of this number of arcseconds wide.
    pub fn cells_per_arcsecond(&self) -> (cells: u32)
        ensures
            cells == (if *self == DemSource::Usgs10m {
                3u32
            } else {
                1u32
            }),
    {
        match *self {
            DemSource::Usgs30m => 1,
            DemSource::Usgs10m => 3,
            DemSource::Srtm30m => 1,
        }
    }
}

/// The character of a decimal digit.
pub open spec fn digit_char(digit: int) -> char {
    if digit == 0 {
        '0'
    } else if digit == 1 {
        '1'
    } else if digit == 2 {
        '2'
    } else if digit == 3 {
        '3'
    } else if digit == 4 {
        '4'
    } else if digit == 5 {
        '5'
    } else if digit == 6 {
        '6'
    } else if digit == 7 {
        '7'
    } else if digit == 8 {
        '8'
    } else {
        '9'
    }
}

/// The number of decimal digits of a number below a hundred thousand.
pub open spec fn digit_count(n: int) -> int {
    if n >= 10000 {
        5
    } else if n >= 1000 {
        4
    } else if n >= 100 {
        3
    } else if n >= 10 {
        2
    } else {
        1
    }
}

/// A number below a hundred thousand in decimal digits, with zeros in front
/// where it has fewer than `width` digits.
pub open spec fn padded_number(n: int, width: int) -> Seq<char> {
    let places = if digit_count(n) > width {
        digit_count(n)
    } else {
        width
    };
    seq![
        digit_char(n / 10000),
        digit_char(n / 1000 % 10),
        digit_char(n / 100 % 10),
        digit_char(n / 10 % 10),
        digit_char(n % 10),
    ].skip(5 - places)
}

/// The magnitude of a coordinate.
pub open spec fn magnitude(c: int) -> int {
    if c >= 0 {
        c
    } else {
        -c
    }
}

/// The text of a decimal digit.
fn digit_str(digit: u16) -> (text: &'static str)
    requires
        digit < 10,
    ensures
        text@ == seq![digit_char(digit as int)],
{
    proof {
        reveal_strlit("0");
        reveal_strlit("1");
        reveal_strlit("2");
        reveal_strlit("3");
        reveal_strlit("4");
        reveal_strlit("5");
        reveal_strlit("6");
        reveal_strlit("7");
        reveal_strlit("8");
        reveal_strlit("9");
    }
    let text = if digit == 0 {
        "0"
    } else if digit == 1 {
        "1"
    } else if digit == 2 {
        "2"
    } else if digit == 3 {
        "3"
    } else if digit == 4 {
        "4"
    } else if digit == 5 {
        "5"
    } else if digit == 6 {
        "6"
    } else if digit == 7 {
        "7"
    } else if digit == 8 {
        "8"
    } else {
        "9"
    };
    assert(text@ =~= seq![digit_char(digit as int)]);
    text
}

/// Appends a number to a text, in decimal digits, with zeros in front where
/// it has fewer than `width` digits.
fn append_padded(out: &mut String, n: u16, width: u16)
    requires
        1 <= width <= 5,
    ensures
        final(out)@ == old(out)@ + padded_number(n as int, width as int),
{
    let digits: [u16; 5] = [n / 10000, n / 1000 % 10, n / 100 % 10, n / 10 % 10, n % 10];
    let count: u16 = if n >= 10000 {
        5
    } else if n >= 1000 {
        4
    } else if n >= 100 {
        3
    } else if n >= 10 {
        2
    } else {
        1
    };
    let places: u16 = if count > width {
        count
    } else {
        width
    };
    let ghost all = seq![
        digit_char(n as int / 10000),
        digit_char(n as int / 1000 % 10),
        digit_char(n as int / 100 % 10),
        digit_char(n as int / 10 % 10),
        digit_char(n as int % 10),
    ];
    let mut i: usize = (5 - places) as usize;
    while i < 5
        invariant
            5 - places <= i <= 5,
            1 <= places <= 5,
            forall|k: int|
                0 <= k < 5 ==> (#[trigger] digits[k]) < 10 && all[k] == digit_char(
                    digits[k] as int,
                ),
            all.len() == 5,
            out@ == old(out)@ + all.subrange(5 - places, i as int),
        decreases 5 - i,
    {
        assert(digits[i as int] < 10);
        out.append(digit_str(digits[i]));
        assert(all.subrange(5 - places, i + 1) =~= all.subrange(5 - places, i as int).push(
            all[i as int],
        ));
        i += 1;
    }
    assert(all.subrange(5 - places, 5) =~= all.skip(5 - places));
}

/// The magnitude of a coordinate.
fn coordinate_magnitude(c: i16) -> (m: u16)
    requires
        c > i16::MIN,
    ensures
        m == magnitude(c as int),
{
    if c >= 0 {
        c as u16
    } else {
        (-c) as u16
    }
}

/// The tile of one source that covers one degree of latitude and longitude.
pub struct DigitalElevationModelParams {
    pub latitude: i16,
    pub longitude: i16,
    pub source: DemSource,
}

impl DigitalElevationModelParams {
    /// The latitude by which the source names the tile: the northern edge
    /// for the sources that name tiles so, else the southern edge.
    pub open spec fn named_latitude(&self) -> int {
        if self.source.names_northern_edge() {
            self.latitude + 1
        } else {
            self.latitude as int
        }
    }

    /// The name of the tile at its source: a letter for the hemisphere and
    /// two digits or more of latitude, then a letter and three digits or more
    /// of longitude, the letters in upper case for the source that writes
    /// them so.
    pub open spec fn tile_name(&self) -> Seq<char> {
        let upper = !self.source.names_northern_edge();
        seq![
            if self.named_latitude() >= 0 {
                if upper {
                    'N'
                } else {
                    'n'
                }
            } else {
                if upper {
                    'S'
                } else {
                    's'
                }
            },
        ] + padded_number(magnitude(self.named_latitude()), 2) + seq![
            if self.longitude >= 0 {
                if upper {
                    'E'
                } else {
                    'e'
                }
            } else {
                if upper {
                    'W'
                } else {
                    'w'
                }
            },
        ] + padded_number(magnitude(self.longitude as int), 3)
    }

    /// The address of the tile: the address of the source, the name of the
    /// tile there, and the ending of the source's files.
    pub open spec fn url_text(&self) -> Seq<char> {
        self.source.url_text() + self.tile_name() + (if self.source.names_northern_edge() {
            ".zip"@
        } else {
            ".SRTMGL1.hgt.zip"@
        })
    }

    /// The name under which the downloaded tile is kept: the directory of
    /// the source, then the hemisphere letters and the digits of the tile's
    /// own latitude and longitude.
    pub open spec fn filename_text(&self) -> Seq<char> {
        self.source.directory_text() + "/"@ + seq![
            if self.latitude >= 0 {
                'n'
            } else {
                's'
            },
        ] + padded_number(magnitude(self.latitude as int), 2) + "_"@ + seq![
            if self.longitude >= 0 {
                'e'
            } else {
                'w'
            },
        ] + padded_number(magnitude(self.longitude as int), 3) + ".zip"@
    }

    /// The address from which the tile is downloaded.
    pub fn url(&self) -> (url: String)
        requires
            self.latitude > i16::MIN,
            self.longitude > i16::MIN,
            self.source.names_northern_edge() ==> self.latitude < i16::MAX,
        ensures
            url@ == self.url_text(),
    {
        proof {
            reveal_strlit("n");
            reveal_strlit("s");
            reveal_strlit("e");
            reveal_strlit("w");
            reveal_strlit("N");
            reveal_strlit("S");
            reveal_strlit("E");
            reveal_strlit("W");
        }
        let northern = match self.source {
            DemSource::Usgs30m => true,
            DemSource::Usgs10m => true,
            DemSource::Srtm30m => false,
        };
        let latitude: i16 = if northern {
            self.latitude + 1
        } else {
            self.latitude
        };
        let mut url = String::from_str(self.source.url_str());
        let ghost head = url@;
        url.append(
            if latitude >= 0 {
                if northern {
                    "n"
                } else {
                    "N"
                }
            } else {
                if northern {
                    "s"
                } else {
                    "S"
                }
            },
        );
        append_padded(&mut url, coordinate_magnitude(latitude), 2);
        url.append(
            if self.longitude >= 0 {
                if northern {
                    "e"
                } else {
                    "E"
                }
            } else {
                if northern {
                    "w"
                } else {
                    "W"
                }
            },
        );
        append_padded(&mut url, coordinate_magnitude(self.longitude), 3);
        assert(url@ =~= head + self.tile_name());
        url.append(
            if northern {
                ".zip"
            } else {
                ".SRTMGL1.hgt.zip"
            },
        );
        assert(url@ =~= self.url_text());
        url
    }

    /// The name under which the downloaded tile is kept.
    pub fn filename(&self) -> (name: String)
        requires
            self.latitude > i16::MIN,
            self.longitude > i16::MIN,
        ensures
            name@ == self.filename_text(),
    {
        proof {
            reveal_strlit("n");
            reveal_strlit("s");
            reveal_strlit("e");
            reveal_strlit("w");
        }
        let mut name = String::from_str(self.source.directory_str());
        name.append("/");
        name.append(
            if self.latitude >= 0 {
                "n"
            } else {
                "s"
            },
        );
        append_padded(&mut name, coordinate_magnitude(self.latitude), 2);
        name.append("_");
        name.append(
            if self.longitude >= 0 {
                "e"
            } else {
                "w"
            },
        );
        append_padded(&mut name, coordinate_magnitude(self.longitude), 3);
        name.append(".zip");
        assert(name@ =~= self.filename_text());
        name
    }
}

/// Whether the name at `at` is the only one that ends with `ending`.
pub open spec fn only_name(names: Seq<Seq<char>>, ending: Seq<char>, at: int) -> bool {
    &&& 0 <= at < names.len()
    &&& is_ending(ending, names[at])
    &&& forall|i: int| 0 <= i < names.len() && i != at ==> !is_ending(ending, #[trigger] names[i])
}

/// Whether just one name ends with `ending`.
pub open spec fn has_only_name(names: Seq<Seq<char>>, ending: Seq<char>) -> bool {
    exists|at: int| only_name(names, ending, at)
}

/// The place of the only name that ends with `ending`.
pub open spec fn name_place(names: Seq<Seq<char>>, ending: Seq<char>) -> int {
    choose|at: int| only_name(names, ending, at)
}

/// What an archive holds under an ending: the contents of the only member
/// whose name ends with it. An archive whose members cannot be listed, or
/// that has no such member or several, or whose member cannot be read,
/// holds nothing. No other member is read.
pub open spec fn member_of(data: Seq<u8>, ending: Seq<char>) -> Option<Seq<u8>> {
    if zip_names(data) is Some && has_only_name(zip_names(data).unwrap(), ending) {
        zip_member(data, name_place(zip_names(data).unwrap(), ending))
    } else {
        None
    }
}

/// The place of the only name among `names` that ends with `ending`.
pub fn pick_name(names: &Vec<String>, ending: &str) -> (place: Result<usize, DemError>)
    ensures
        match place {
            Ok(at) => only_name(view_names(names@), ending@, at as int) && at == name_place(
                view_names(names@),
                ending@,
            ),
            Err(_) => !has_only_name(view_names(names@), ending@),
        },
{
    let ghost plain = view_names(names@);
    let mut found: Option<usize> = None;
    let mut i: usize = 0;
    while i < names.len()
        invariant
            i <= names.len(),
            plain == view_names(names@),
            match found {
                Some(at) => at < i && is_ending(ending@, plain[at as int]) && forall|j: int|
                    0 <= j < i && j != at ==> !is_ending(ending@, #[trigger] plain[j]),
                None => forall|j: int| 0 <= j < i ==> !is_ending(ending@, #[trigger] plain[j]),
            },
        decreases names.len() - i,
    {
        assert(plain[i as int] == names@[i as int]@);
        if text_ends_with(names[i].as_str(), ending) {
            if let Some(at) = found {
                assert forall|c: int| !only_name(plain, ending@, c) by {
                    if c == at {
                        assert(is_ending(ending@, plain[i as int]));
                    } else {
                        assert(is_ending(ending@, plain[at as int]));
                    }
                }
                return Err(DemError::ParseError);
            }
            found = Some(i);
        }
        i += 1;
    }
    match found {
        Some(at) => {
            proof {
                assert(only_name(plain, ending@, at as int));
                let other = name_place(plain, ending@);
                if other != at {
                    assert(!is_ending(ending@, plain[other]));
                }
            }
            Ok(at)
        },
        None => {
            assert forall|c: int| !only_name(plain, ending@, c) by {
                if 0 <= c < plain.len() {
                    assert(!is_ending(ending@, plain[c]));
                }
            }
            Err(DemError::ParseError)
        },
    }
}

/// Lists the members of an archive and reads the only one whose name ends
/// with `ending`.
pub fn archive_member(data: &Vec<u8>, ending: &str) -> (contents: Result<Vec<u8>, DemError>)
    ensures
        match contents {
            Ok(bytes) => member_of(data@, ending@) == Some(bytes@),
            Err(_) => member_of(data@, ending@) is None,
        },
{
    let names = match zip_member_names(data) {
        Ok(names) => names,
        Err(_) => {
            return Err(DemError::ParseError);
        },
    };
    let at = match pick_name(&names, ending) {
        Ok(at) => at,
        Err(e) => {
            return Err(e);
        },
    };
    match zip_read_member(data, at) {
        Ok(bytes) => Ok(bytes),
        Err(_) => Err(DemError::ParseError),
    }
}

/// The order of the bytes of a number in a grid file.
#[derive(Copy, Clone, Debug, PartialEq, Eq, Structural)]
pub enum ByteOrder {
    LsbFirst,
    MsbFirst,
}

/// The 32-bit number that four bytes stand for, in the given order.
pub open spec fn word_of(b0: u8, b1: u8, b2: u8, b3: u8, order: ByteOrder) -> int {
    match order {
        ByteOrder::LsbFirst => b0 + 256 * b1 + 65536 * b2 + 16777216 * b3,
        ByteOrder::MsbFirst => b3 + 256 * b2 + 65536 * b1 + 16777216 * b0,
    }
}

/// A place in a grid of `width` by `height` cells, stored row by row, is
/// the place of one cell: its column is the remainder by the width, and its
/// row the quotient.
pub proof fn lemma_split(place: int, width: int, height: int)
    requires
        0 < width,
        0 <= place < width * height,
    ensures
        0 <= place % width < width,
        0 <= place / width < height,
        place == place % width + (place / width) * width,
{
    vstd::arithmetic::div_mod::lemma_fundamental_div_mod(place, width);
    let q = place / width;
    assert(q < height) by (nonlinear_arith)
        requires
            place == width * q + place % width,
            0 <= place % width,
            place < width * height,
            0 < width,
    ;
    assert(0 <= q) by (nonlinear_arith)
        requires
            place == width * q + place % width,
            place % width < width,
            0 <= place,
            0 < width,
    ;
    assert(width * q == q * width) by (nonlinear_arith);
}

/// The place of a cell of a grid lies in the grid.
pub proof fn lemma_join(x: int, y: int, width: int, height: int)
    requires
        0 <= x < width,
        0 <= y < height,
    ensures
        0 <= y * width,
        0 <= x + y * width < width * height,
{
    assert(0 <= y * width && (y + 1) * width <= height * width) by (nonlinear_arith)
        requires
            0 <= y,
            y + 1 <= height,
            0 <= width,
    ;
    assert((y + 1) * width == y * width + width) by (nonlinear_arith);
    assert(height * width == width * height) by (nonlinear_arith);
}

/// The cells of a grid file as 32-bit patterns, one for every four bytes,
/// read in the given byte order. A file that does not hold `width` times
/// `height` cells is refused.
pub fn grid_words(bytes: &Vec<u8>, width: usize, height: usize, order: ByteOrder) -> (words:
    Result<Vec<u32>, DemError>)
    ensures
        words is Ok <==> bytes@.len() == width * height * 4,
        words is Ok ==> words.unwrap()@.len() == width * height && forall|i: int|
            0 <= i < width * height ==> (#[trigger] words.unwrap()@[i]) == word_of(
                bytes@[4 * i],
                bytes@[4 * i + 1],
                bytes@[4 * i + 2],
                bytes@[4 * i + 3],
                order,
            ),
{
    assert(0 <= width * height <= 0xffff_ffff_ffff_ffff * 0xffff_ffff_ffff_ffff)
        by (nonlinear_arith)
        requires
            0 <= width <= 0xffff_ffff_ffff_ffff,
            0 <= height <= 0xffff_ffff_ffff_ffff,
    ;
    let cells: u128 = width as u128 * height as u128;
    let length = bytes.len();
    let limit: u128 = (usize::MAX / 4) as u128;
    if cells > limit {
        return Err(DemError::ParseError);
    }
    let expected: u128 = cells * 4;
    if length as u128 != expected {
        return Err(DemError::ParseError);
    }
    let count = length / 4;
    let mut words: Vec<u32> = Vec::new();
    let mut i: usize = 0;
    while i < count
        invariant
            i <= count,
            count * 4 == bytes@.len(),
            bytes@.len() == length,
            words@.len() == i,
            forall|k: int|
                0 <= k < i ==> (#[trigger] words@[k]) == word_of(
                    bytes@[4 * k],
                    bytes@[4 * k + 1],
                    bytes@[4 * k + 2],
                    bytes@[4 * k + 3],
                    order,
                ),
        decreases count - i,
    {
        assert(4 * i + 3 < bytes@.len());
        let b0 = bytes[4 * i] as u32;
        let b1 = bytes[4 * i + 1] as u32;
        let b2 = bytes[4 * i + 2] as u32;
        let b3 = bytes[4 * i + 3] as u32;
        let word = match order {
            ByteOrder::LsbFirst => b0 + 256 * b1 + 65536 * b2 + 16777216 * b3,
            ByteOrder::MsbFirst => b3 + 256 * b2 + 65536 * b1 + 16777216 * b0,
        };
        words.push(word);
        i += 1;
    }
    Ok(words)
}

/// The elevation that two bytes stand for, the high byte first: a signed
/// 16-bit number, with the lowest number, which marks a void, read as zero.
pub open spec fn height_of(high: u8, low: u8) -> int {
    let unsigned = high * 256 + low;
    if unsigned == 32768 {
        0
    } else if unsigned > 32768 {
        unsigned - 65536
    } else {
        unsigned
    }
}

/// Where a height file holds the sample that stands at `place` in the
/// elevations of a tile: the tile is stored column by column, from the last
/// sample of the last row of the file backwards.
pub open spec fn height_source(place: int, resolution: int) -> int {
    (resolution - 1 - place / resolution) + (resolution - 1 - place % resolution) * resolution
}

/// The elevations of a square tile of `resolution` samples each way, out
/// of the bytes of a height file, which holds two bytes for each sample. A
/// file of another size is refused.
pub fn height_grid(bytes: &Vec<u8>, resolution: usize) -> (heights: Result<Vec<i16>, DemError>)
    ensures
        heights is Ok <==> bytes@.len() == resolution * resolution * 2,
        heights is Ok ==> heights.unwrap()@.len() == resolution * resolution && forall|i: int|
            0 <= i < resolution * resolution ==> (#[trigger] heights.unwrap()@[i]) == height_of(
                bytes@[2 * height_source(i, resolution as int)],
                bytes@[2 * height_source(i, resolution as int) + 1],
            ),
{
    let r = resolution;
    assert(0 <= r * r <= 0xffff_ffff_ffff_ffff * 0xffff_ffff_ffff_ffff) by (nonlinear_arith)
        requires
            0 <= r <= 0xffff_ffff_ffff_ffff,
    ;
    let cells: u128 = r as u128 * r as u128;
    let length = bytes.len();
    let limit: u128 = (usize::MAX / 2) as u128;
    if cells > limit {
        return Err(DemError::ParseError);
    }
    let expected: u128 = cells * 2;
    if length as u128 != expected {
        return Err(DemError::ParseError);
    }
    let count = length / 2;
    let mut heights: Vec<i16> = Vec::new();
    let mut i: usize = 0;
    while i < count
        invariant
            i <= count,
            r == resolution,
            count == r * r,
            count * 2 == bytes@.len(),
            bytes@.len() == length,
            heights@.len() == i,
            forall|k: int|
                0 <= k < i ==> (#[trigger] heights@[k]) == height_of(
                    bytes@[2 * height_source(k, r as int)],
                    bytes@[2 * height_source(k, r as int) + 1],
                ),
        decreases count - i,
    {
        proof {
            assert(0 < r) by (nonlinear_arith)
                requires
                    0 <= i < r * r,
                    0 <= r,
            ;
            lemma_split(i as int, r as int, r as int);
            lemma_join(r - 1 - i / r, r - 1 - i % r, r as int, r as int);
        }
        let x = i / r;
        let y = i % r;
        let at = (r - 1 - x) + (r - 1 - y) * r;
        let unsigned: i32 = bytes[2 * at] as i32 * 256 + bytes[2 * at + 1] as i32;
        let height: i16 = if unsigned == 32768 {
            0
        } else if unsigned > 32768 {
            (unsigned - 65536) as i16
        } else {
            unsigned as i16
        };
        heights.push(height);
        i += 1;
    }
    Ok(heights)
}

/// How many cells a crop leaves out before its first cell, along one axis:
/// the crop is centered, and where that cannot be, it lies half a cell
/// towards the start.
pub open spec fn crop_offset(size: int, cropped: int) -> int {
    (size - cropped) / 2
}

/// Where the grid holds the cell that stands at `place` in its crop.
pub open spec fn crop_source(
    place: int,
    width: int,
    height: int,
    new_width: int,
    new_height: int,
) -> int {
    (place % new_width + crop_offset(width, new_width)) + (place / new_width + crop_offset(
        height,
        new_height,
    )) * width
}

/// The centered part of a grid: `new_width` by `new_height` cells out of the
/// middle of a grid of `width` by `height` cells, stored row by row.
pub fn crop<T: Copy>(
    values: &Vec<T>,
    width: usize,
    height: usize,
    new_width: usize,
    new_height: usize,
) -> (cropped: Vec<T>)
    requires
        values@.len() == width * height,
        0 < new_width <= width,
        0 < new_height <= height,
    ensures
        cropped@.len() == new_width * new_height,
        forall|i: int|
            0 <= i < new_width * new_height ==> (#[trigger] cropped@[i]) == values@[crop_source(
                i,
                width as int,
                height as int,
                new_width as int,
                new_height as int,
            )],
{
    let xoffset = (width - new_width) / 2;
    let yoffset = (height - new_height) / 2;
    let total = values.len();
    proof {
        lemma_join(new_width - 1, new_height - 1, new_width as int, new_height as int);
        lemma_join(new_width - 1, new_height - 1, width as int, height as int);
        assert(new_width * new_height <= width * height) by (nonlinear_arith)
            requires
                0 < new_width <= width,
                0 < new_height <= height,
        ;
    }
    let count = new_width * new_height;
    let mut cropped: Vec<T> = Vec::new();
    let mut i: usize = 0;
    while i < count
        invariant
            i <= count,
            count == new_width * new_height,
            values@.len() == width * height,
            values@.len() == total,
            0 < new_width <= width,
            0 < new_height <= height,
            xoffset == crop_offset(width as int, new_width as int),
            yoffset == crop_offset(height as int, new_height as int),
            cropped@.len() == i,
            forall|k: int|
                0 <= k < i ==> (#[trigger] cropped@[k]) == values@[crop_source(
                    k,
                    width as int,
                    height as int,
                    new_width as int,
                    new_height as int,
                )],
        decreases count - i,
    {
        proof {
            lemma_split(i as int, new_width as int, new_height as int);
            lemma_join(
                i % new_width + xoffset,
                i / new_width + yoffset,
                width as int,
                height as int,
            );
        }
        let x = i % new_width;
        let y = i / new_width;
        cropped.push(values[(x + xoffset) + (y + yoffset) * width]);
        i += 1;
    }
    cropped
}

/// The name and the password of an account, out of a text that holds them
/// with a colon in between: the text before the first colon, and the text
/// from there to the second colon or the end. A part that is missing is
/// empty.
pub open spec fn credentials_of(text: Seq<char>) -> (Seq<char>, Seq<char>) {
    let first = first_colon(text, 0);
    let second = first_colon(text, first + 1);
    (
        text.subrange(0, first),
        if first < text.len() {
            text.subrange(first + 1, second)
        } else {
            Seq::empty()
        },
    )
}

/// The place of the first colon of `text` at or behind `from`, or the
/// length of the text if there is none.
pub open spec fn first_colon(text: Seq<char>, from: int) -> int
    decreases text.len() - from,
{
    if from >= text.len() {
        text.len() as int
    } else if text[from] == ':' {
        from
    } else {
        first_colon(text, from + 1)
    }
}

/// The place of the first colon of `text` at or behind `from`, or the
/// number of characters of the text if there is none.
fn find_colon(text: &str, from: usize, length: usize) -> (place: usize)
    requires
        length == text@.len(),
        from <= length,
    ensures
        place == first_colon(text@, from as int),
        from <= place <= length,
{
    let mut i: usize = from;
    while i < length
        invariant
            from <= i <= length,
            length == text@.len(),
            first_colon(text@, from as int) == first_colon(text@, i as int),
        decreases length - i,
    {
        if text.get_char(i) == ':' {
            return i;
        }
        i += 1;
    }
    i
}

/// The name and the password of an account, out of a text that holds them
/// with a colon in between.
pub fn split_credentials(text: &str) -> (account: (String, String))
    ensures
        account.0@ == credentials_of(text@).0,
        account.1@ == credentials_of(text@).1,
{
    let length = text.unicode_len();
    let first = find_colon(text, 0, length);
    let name = text.substring_char(0, first).to_owned();
    if first >= length {
        return (name, String::new());
    }
    let second = find_colon(text, first + 1, length);
    let password = text.substring_char(first + 1, second).to_owned();
    (name, password)
}

} // verus!
