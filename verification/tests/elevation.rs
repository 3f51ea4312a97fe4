use bit_vec::BitVec;
use std::io::{Cursor, Write};
use terra::dem::{
    archive_member, crop, grid_words, height_grid, pick_name, split_credentials, ByteOrder,
    DemError,
};
use terra::raster::BitContainer;
use zip::write::FileOptions;
use zip::ZipWriter;

fn archive(members: &[(&str, &[u8])]) -> Vec<u8> {
    let mut writer = ZipWriter::new(Cursor::new(Vec::new()));
    for (name, bytes) in members {
        writer.start_file(*name, FileOptions::default()).unwrap();
        writer.write_all(bytes).unwrap();
    }
    writer.finish().unwrap().into_inner()
}

fn le16(v: u16) -> [u8; 2] {
    v.to_le_bytes()
}

fn le32(v: u32) -> [u8; 4] {
    v.to_le_bytes()
}

/// An archive of one stored member, "a.hgt", whose directory entry claims a
/// cipher in an extra field while its flags say that it is not encrypted.
fn cipher_archive() -> Vec<u8> {
    let name = b"a.hgt";
    let contents = [1u8, 2, 3, 4];
    let extra = [0x01u8, 0x99, 7, 0, 2, 0, b'A', b'E', 3, 0, 0];
    let mut data = Vec::new();
    data.extend_from_slice(&le32(0x04034b50));
    data.extend_from_slice(&le16(20));
    data.extend_from_slice(&le16(0));
    data.extend_from_slice(&le16(0));
    data.extend_from_slice(&le16(0));
    data.extend_from_slice(&le16(0x21));
    data.extend_from_slice(&le32(0xb63cfbcd));
    data.extend_from_slice(&le32(contents.len() as u32));
    data.extend_from_slice(&le32(contents.len() as u32));
    data.extend_from_slice(&le16(name.len() as u16));
    data.extend_from_slice(&le16(0));
    data.extend_from_slice(name);
    data.extend_from_slice(&contents);
    let directory = data.len() as u32;
    data.extend_from_slice(&le32(0x02014b50));
    data.extend_from_slice(&le16(20));
    data.extend_from_slice(&le16(20));
    data.extend_from_slice(&le16(0));
    data.extend_from_slice(&le16(0));
    data.extend_from_slice(&le16(0));
    data.extend_from_slice(&le16(0x21));
    data.extend_from_slice(&le32(0xb63cfbcd));
    data.extend_from_slice(&le32(contents.len() as u32));
    data.extend_from_slice(&le32(contents.len() as u32));
    data.extend_from_slice(&le16(name.len() as u16));
    data.extend_from_slice(&le16(extra.len() as u16));
    data.extend_from_slice(&le16(0));
    data.extend_from_slice(&le16(0));
    data.extend_from_slice(&le16(0));
    data.extend_from_slice(&le32(0));
    data.extend_from_slice(&le32(0));
    data.extend_from_slice(name);
    data.extend_from_slice(&extra);
    let size = data.len() as u32 - directory;
    data.extend_from_slice(&le32(0x06054b50));
    data.extend_from_slice(&le16(0));
    data.extend_from_slice(&le16(0));
    data.extend_from_slice(&le16(1));
    data.extend_from_slice(&le16(1));
    data.extend_from_slice(&le32(size));
    data.extend_from_slice(&le32(directory));
    data.extend_from_slice(&le16(0));
    data
}

#[test]
fn member_is_found_by_its_ending() {
    let data = archive(&[
        ("readme.txt", b"hello"),
        ("n37w112/floatn37w112_1.hdr", b"ncols 2\nnrows 2\n"),
        ("n37w112/floatn37w112_1.flt", &[1, 2, 3, 4]),
    ]);
    assert_eq!(archive_member(&data, ".hdr"), Ok(b"ncols 2\nnrows 2\n".to_vec()));
    assert_eq!(archive_member(&data, ".flt"), Ok(vec![1, 2, 3, 4]));
    assert_eq!(archive_member(&data, ".txt"), Ok(b"hello".to_vec()));
    assert_eq!(archive_member(&data, ".hgt"), Err(DemError::ParseError));
}

#[test]
fn two_members_with_one_ending_are_refused() {
    let data = archive(&[("a.hgt", &[1, 2]), ("b.hgt", &[3, 4])]);
    assert_eq!(archive_member(&data, ".hgt"), Err(DemError::ParseError));
}

#[test]
fn bytes_that_are_no_archive_are_refused() {
    assert_eq!(archive_member(&vec![], ".hgt"), Err(DemError::ParseError));
    assert_eq!(archive_member(&b"not a zip file at all".to_vec(), ".hgt"), Err(DemError::ParseError));
}

#[test]
fn empty_archive_has_no_member() {
    assert_eq!(archive_member(&archive(&[]), ".hgt"), Err(DemError::ParseError));
}

#[test]
fn picking_a_name() {
    let names = vec!["a.hdr".to_string(), "b.flt".to_string(), "c.flt.bak".to_string()];
    assert_eq!(pick_name(&names, ".hdr"), Ok(0));
    assert_eq!(pick_name(&names, ".flt"), Ok(1));
    assert_eq!(pick_name(&names, ".bak"), Ok(2));
    assert_eq!(pick_name(&names, ".zip"), Err(DemError::ParseError));
    assert_eq!(pick_name(&names, ""), Err(DemError::ParseError));
    assert_eq!(pick_name(&vec![], ".hdr"), Err(DemError::ParseError));
    assert_eq!(pick_name(&vec!["x".to_string()], ""), Ok(0));
}

#[test]
fn only_the_wanted_member_is_read() {
    let mut writer = ZipWriter::new(Cursor::new(Vec::new()));
    let stored = FileOptions::default().compression_method(zip::CompressionMethod::Stored);
    writer.start_file("a.hgt", stored).unwrap();
    writer.write_all(&[1, 2, 3, 4]).unwrap();
    writer.start_file("b.txt", stored).unwrap();
    writer.write_all(&[9u8; 8]).unwrap();
    let mut data = writer.finish().unwrap().into_inner();
    let start = data.windows(8).position(|w| w == [9u8; 8]).unwrap();
    data[start] = 8;
    assert_eq!(archive_member(&data, ".hgt"), Ok(vec![1, 2, 3, 4]));
    assert_eq!(archive_member(&data, ".txt"), Err(DemError::ParseError));
}

#[test]
fn member_that_claims_a_cipher_is_refused() {
    let data = cipher_archive();
    assert!(zip::ZipArchive::new(Cursor::new(data.clone())).is_ok());
    assert_eq!(archive_member(&data, ".hgt"), Err(DemError::ParseError));
    let mut plain = data.clone();
    let at = plain.len() - 22 - 11;
    plain[at] = 0x02;
    plain[at + 1] = 0x88;
    assert_eq!(archive_member(&plain, ".hgt"), Ok(vec![1, 2, 3, 4]));
}

#[test]
fn words_in_both_byte_orders() {
    let bytes = vec![0x01, 0x02, 0x03, 0x04, 0x00, 0x00, 0x80, 0x3f];
    assert_eq!(grid_words(&bytes, 2, 1, ByteOrder::LsbFirst), Ok(vec![0x04030201, 0x3f800000]));
    assert_eq!(grid_words(&bytes, 1, 2, ByteOrder::MsbFirst), Ok(vec![0x01020304, 0x0000803f]));
    assert_eq!(f32::from_bits(grid_words(&bytes, 2, 1, ByteOrder::LsbFirst).unwrap()[1]), 1.0);
}

#[test]
fn grid_of_the_wrong_size_is_refused() {
    let bytes = vec![0u8; 8];
    assert_eq!(grid_words(&bytes, 2, 2, ByteOrder::LsbFirst), Err(DemError::ParseError));
    assert_eq!(grid_words(&bytes, 1, 1, ByteOrder::LsbFirst), Err(DemError::ParseError));
    assert_eq!(grid_words(&bytes, 0, 2, ByteOrder::LsbFirst), Err(DemError::ParseError));
    assert_eq!(
        grid_words(&bytes, usize::MAX, usize::MAX, ByteOrder::LsbFirst),
        Err(DemError::ParseError)
    );
    assert_eq!(grid_words(&vec![0u8; 7], 1, 2, ByteOrder::LsbFirst), Err(DemError::ParseError));
    assert_eq!(grid_words(&vec![], 0, 5, ByteOrder::MsbFirst), Ok(vec![]));
}

#[test]
fn heights_are_read_backwards_and_turned() {
    let samples: [i16; 4] = [1, 2, 3, -4];
    let mut bytes = Vec::new();
    for s in samples.iter() {
        bytes.extend_from_slice(&s.to_be_bytes());
    }
    assert_eq!(height_grid(&bytes, 2), Ok(vec![-4, 2, 3, 1]));
}

#[test]
fn heights_of_a_larger_tile() {
    let r = 3usize;
    let mut bytes = Vec::new();
    for i in 0..(r * r) as i16 {
        bytes.extend_from_slice(&(100 + i).to_be_bytes());
    }
    let heights = height_grid(&bytes, r).unwrap();
    for x in 0..r {
        for y in 0..r {
            let source = (r - x - 1) + (r - y - 1) * r;
            assert_eq!(heights[x * r + y], 100 + source as i16);
        }
    }
}

#[test]
fn void_heights_read_as_zero() {
    let samples: [i16; 4] = [-32768, -32767, 32767, 0];
    let mut bytes = Vec::new();
    for s in samples.iter() {
        bytes.extend_from_slice(&s.to_be_bytes());
    }
    assert_eq!(height_grid(&bytes, 2), Ok(vec![0, -32767, 32767, 0]));
}

#[test]
fn height_file_of_the_wrong_size_is_refused() {
    assert_eq!(height_grid(&vec![0u8; 8], 3), Err(DemError::ParseError));
    assert_eq!(height_grid(&vec![0u8; 7], 2), Err(DemError::ParseError));
    assert_eq!(height_grid(&vec![0u8; 8], usize::MAX), Err(DemError::ParseError));
    assert_eq!(height_grid(&vec![], 0), Ok(vec![]));
}

#[test]
fn crop_takes_the_middle() {
    let values: Vec<u32> = (0..20).collect();
    assert_eq!(crop(&values, 5, 4, 3, 2), vec![6, 7, 8, 11, 12, 13]);
    assert_eq!(crop(&values, 5, 4, 5, 4), values);
    assert_eq!(crop(&values, 5, 4, 1, 1), vec![7]);
    assert_eq!(crop(&values, 5, 4, 4, 3), vec![0, 1, 2, 3, 5, 6, 7, 8, 10, 11, 12, 13]);
    let floats: Vec<f32> = vec![0.5, 1.5, 2.5, 3.5];
    assert_eq!(crop(&floats, 2, 2, 1, 2), vec![0.5, 2.5]);
}

#[test]
fn credentials_are_split_at_the_colons() {
    assert_eq!(split_credentials("user:pass"), ("user".to_string(), "pass".to_string()));
    assert_eq!(split_credentials("user"), ("user".to_string(), "".to_string()));
    assert_eq!(split_credentials(""), ("".to_string(), "".to_string()));
    assert_eq!(split_credentials(":pass"), ("".to_string(), "pass".to_string()));
    assert_eq!(split_credentials("user:"), ("user".to_string(), "".to_string()));
    assert_eq!(split_credentials("user:pass:more"), ("user".to_string(), "pass".to_string()));
    assert_eq!(split_credentials("ü:é:x"), ("ü".to_string(), "é".to_string()));
}

#[test]
fn bits_read_as_black_and_white() {
    let mask = BitContainer(BitVec::from_bytes(&[0b1010_0000, 0b0000_0001]));
    assert_eq!(mask.index(0), 255);
    assert_eq!(mask.index(1), 0);
    assert_eq!(mask.index(2), 255);
    assert_eq!(mask.index(15), 255);
    assert_eq!(mask.get(14), Some(0));
    assert_eq!(mask.get(15), Some(255));
    assert_eq!(mask.get(16), None);
    assert_eq!(mask.len(), 16);
    let empty = BitContainer(BitVec::new());
    assert_eq!(empty.get(0), None);
    assert_eq!(empty.len(), 0);
    let odd = BitContainer(BitVec::from_elem(5, true));
    assert_eq!(odd.len(), 5);
    assert_eq!(odd.index(4), 255);
    assert_eq!(odd.get(5), None);
}
