//! Layers and their identities: a layer is named by the hash of its
//! canonical descriptor, which holds the layer's own parameters and the
//! identities of its parents.

use crate::digest::{
    hex_bytes, hex_decode, hex_encode, hex_text, is_hex, sha256, sha256_digest,
};
use crate::sector::{compute_index, Sector};
use crate::tile_cache::TileCache;
use vstd::bytes::{
    spec_u32_to_le_bytes, spec_u64_to_le_bytes, u32_to_le_bytes, u64_to_le_bytes,
};
use vstd::prelude::*;
use vstd::utf8::encode_utf8;

verus! {

/// The identity of a layer: the SHA-256 digest of its canonical descriptor.
#[derive(Copy, Clone, Eq, PartialEq, PartialOrd, Ord, Hash, Debug)]
pub struct LayerId(pub [u8; 32]);

impl View for LayerId {
    type V = Seq<u8>;

    open spec fn view(&self) -> Seq<u8> {
        self.0@
    }
}

/// What a layer is used for when rendering.
#[derive(Copy, Clone, Eq, PartialEq, Hash, Debug, Structural)]
pub enum LayerType {
    Heightmap,
    Normalmap,
    Albedo,
    /// A layer that is not used for rendering directly.
    Intermediate,
}

/// The pixel format of a layer.
#[derive(Copy, Clone, Eq, PartialEq, Hash, Debug, Structural)]
pub enum TextureFormat {
    R32F,
    Rgba8,
}

impl TextureFormat {
    /// The number that stands for the format in a canonical descriptor.
    pub open spec fn tag(self) -> u32 {
        match self {
            TextureFormat::R32F => 0,
            TextureFormat::Rgba8 => 1,
        }
    }

    /// The number of bytes that one pixel takes.
    pub open spec fn pixel_bytes(self) -> u32 {
        4
    }

    /// The number of bytes that one pixel takes.
    pub fn bytes_per_pixel(self) -> (n: u32)
        ensures
            n == self.pixel_bytes(),
    {
        match self {
            TextureFormat::R32F => 4,
            TextureFormat::Rgba8 => 4,
        }
    }

    /// The number that stands for the format in a canonical descriptor.
    pub fn descriptor_tag(self) -> (n: u32)
        ensures
            n == self.tag(),
    {
        match self {
            TextureFormat::R32F => 0,
            TextureFormat::Rgba8 => 1,
        }
    }
}

/// A text in a canonical descriptor: the length of its UTF-8 form as eight
/// bytes, the low byte first, then the UTF-8 form.
pub open spec fn encoded_text(text: Seq<char>) -> Seq<u8> {
    spec_u64_to_le_bytes(encode_utf8(text).len() as u64) + encode_utf8(text)
}

/// The identities of the parents in a canonical descriptor: the bytes of
/// each, in the order of the parents.
pub open spec fn encoded_ids(ids: Seq<Seq<u8>>) -> Seq<u8>
    decreases ids.len(),
{
    if ids.len() == 0 {
        Seq::empty()
    } else {
        encoded_ids(ids.drop_last()) + ids.last()
    }
}

/// Whether every identity has 32 bytes.
pub open spec fn full_ids(ids: Seq<Seq<u8>>) -> bool {
    forall|i: int| 0 <= i < ids.len() ==> (#[trigger] ids[i]).len() == 32
}

/// The identities of the parents take 32 bytes each, and each stands at its
/// parent's place.
pub proof fn lemma_encoded_ids(ids: Seq<Seq<u8>>, i: int, b: int)
    requires
        full_ids(ids),
        0 <= i < ids.len(),
        0 <= b < 32,
    ensures
        encoded_ids(ids).len() == 32 * ids.len(),
        encoded_ids(ids)[32 * i + b] == ids[i][b],
    decreases ids.len(),
{
    lemma_encoded_ids_len(ids);
    lemma_encoded_ids_len(ids.drop_last());
    if i < ids.len() - 1 {
        lemma_encoded_ids(ids.drop_last(), i, b);
    }
}

/// The identities of the parents take 32 bytes each.
pub proof fn lemma_encoded_ids_len(ids: Seq<Seq<u8>>)
    requires
        full_ids(ids),
    ensures
        encoded_ids(ids).len() == 32 * ids.len(),
    decreases ids.len(),
{
    if ids.len() > 0 {
        lemma_encoded_ids_len(ids.drop_last());
    }
}

/// The canonical descriptor of a generated layer, which is hashed to name
/// the layer. It holds the number of parents and their identities, then the
/// layer's own parameters; integers have their low byte first. No name of a
/// layer is in it.
pub open spec fn layer_encoding(
    parents: Seq<Seq<u8>>,
    resolution: u32,
    corner_registration: bool,
    format: TextureFormat,
    sector_bytes: u64,
    shader: Seq<char>,
    center: Seq<char>,
) -> Seq<u8> {
    spec_u64_to_le_bytes(parents.len() as u64) + encoded_ids(parents) + spec_u32_to_le_bytes(
        resolution,
    ) + seq![
        if corner_registration {
            1u8
        } else {
            0u8
        },
    ] + spec_u32_to_le_bytes(format.tag()) + spec_u64_to_le_bytes(sector_bytes) + encoded_text(
        shader,
    ) + encoded_text(center)
}

/// The canonical descriptor of a dataset: the address of its source, then
/// the codes of its projection, its resolution, the code of its file format
/// and the tag of its pixel format, each integer with its low byte first.
pub open spec fn dataset_encoding(
    url: Seq<char>,
    projection: u32,
    resolution: u32,
    file_format: u32,
    texture_format: TextureFormat,
) -> Seq<u8> {
    encoded_text(url) + spec_u32_to_le_bytes(projection) + spec_u32_to_le_bytes(resolution)
        + spec_u32_to_le_bytes(file_format) + spec_u32_to_le_bytes(texture_format.tag())
}

/// The identities of the parents of a descriptor.
pub open spec fn ids_of(parents: Seq<(String, LayerId)>) -> Seq<Seq<u8>> {
    parents.map_values(|parent: (String, LayerId)| parent.1@)
}

/// Appends `bytes` to `out`.
fn append_bytes(out: &mut Vec<u8>, bytes: &[u8])
    ensures
        final(out)@ == old(out)@ + bytes@,
{
    let mut i: usize = 0;
    while i < bytes.len()
        invariant
            i <= bytes.len(),
            out@ == old(out)@ + bytes@.take(i as int),
        decreases bytes.len() - i,
    {
        out.push(bytes[i]);
        assert(bytes@.take(i + 1) =~= bytes@.take(i as int).push(bytes@[i as int]));
        i += 1;
    }
    assert(bytes@.take(i as int) =~= bytes@);
}

/// Appends a text to `out` as a canonical descriptor holds it.
fn append_text(out: &mut Vec<u8>, text: &String)
    ensures
        final(out)@ == old(out)@ + encoded_text(text@),
{
    let bytes = text.as_str().as_bytes();
    let length = u64_to_le_bytes(bytes.len() as u64);
    append_bytes(out, length.as_slice());
    append_bytes(out, bytes);
    assert(out@ =~= old(out)@ + encoded_text(text@));
}

impl LayerId {
    /// The identity that a canonical descriptor gives: its SHA-256 digest.
    pub fn of_descriptor(descriptor: &Vec<u8>) -> (id: LayerId)
        ensures
            id@ == sha256_digest(descriptor@),
    {
        LayerId(sha256(descriptor))
    }

    /// Whether two identities are the same.
    pub fn same(&self, other: &LayerId) -> (r: bool)
        ensures
            r == (self@ == other@),
            r == (*self == *other),
    {
        broadcast use vstd::array::group_array_axioms;

        let mut i: usize = 0;
        while i < 32
            invariant
                i <= 32,
                forall|k: int| 0 <= k < i ==> self.0[k] == other.0[k],
            decreases 32 - i,
        {
            if self.0[i] != other.0[i] {
                return false;
            }
            i += 1;
        }
        assert(self.0 =~= other.0);
        assert(self@ =~= other@);
        true
    }

    /// The identity as 64 lower-case hexadecimal digits: the name under
    /// which a layer's files are kept.
    pub fn to_hex(&self) -> (text: String)
        ensures
            text@ == hex_text(self@),
    {
        hex_encode(&self.0)
    }

    /// The identity that hexadecimal text stands for: 64 digits, upper or
    /// lower case. Any other text gives `None`.
    pub fn from_hex(text: &str) -> (id: Option<LayerId>)
        ensures
            id is Some <==> is_hex(encode_utf8(text@)) && encode_utf8(text@).len() == 64,
            id is Some ==> id.unwrap()@ == hex_bytes(encode_utf8(text@)),
    {
        broadcast use vstd::array::group_array_axioms;

        match hex_decode(text) {
            Ok(bytes) => {
                if bytes.len() != 32 {
                    return None;
                }
                let mut id = LayerId([0u8;32]);
                let mut i: usize = 0;
                while i < 32
                    invariant
                        i <= 32,
                        bytes.len() == 32,
                        forall|k: int| 0 <= k < i ==> id.0[k] == bytes[k],
                    decreases 32 - i,
                {
                    id.0[i] = bytes[i];
                    i += 1;
                }
                assert(id@ =~= bytes@);
                Some(id)
            },
            Err(_) => None,
        }
    }
}

/// The canonical descriptor of a generated layer.
pub struct LayerDesc {
    /// The parents, each with its name and its identity.
    pub parents: Vec<(String, LayerId)>,
    /// The side length of a sector, in pixels.
    pub resolution: u32,
    /// Whether samples sit on the corners of the pixels.
    pub corner_registration: bool,
    pub format: TextureFormat,
    /// The number of bytes that one sector takes.
    pub sector_bytes: u64,
    /// The source of the transform that computes the layer.
    pub shader: String,
    /// The location code of the dataset's center.
    pub center: String,
}

impl LayerDesc {
    /// The canonical form of the descriptor.
    pub open spec fn encoding(&self) -> Seq<u8> {
        layer_encoding(
            ids_of(self.parents@),
            self.resolution,
            self.corner_registration,
            self.format,
            self.sector_bytes,
            self.shader@,
            self.center@,
        )
    }

    /// The identity that the descriptor gives its layer.
    pub open spec fn identity(&self) -> Seq<u8> {
        sha256_digest(self.encoding())
    }

    /// The canonical form of the descriptor.
    pub fn canonical_bytes(&self) -> (bytes: Vec<u8>)
        ensures
            bytes@ == self.encoding(),
    {
        let mut out = u64_to_le_bytes(self.parents.len() as u64);
        let ghost head = out@;
        let mut i: usize = 0;
        while i < self.parents.len()
            invariant
                i <= self.parents.len(),
                out@ == head + encoded_ids(ids_of(self.parents@.take(i as int))),
            decreases self.parents.len() - i,
        {
            append_bytes(&mut out, self.parents[i].1.0.as_slice());
            proof {
                let upto = self.parents@.take(i + 1);
                assert(ids_of(upto).drop_last() =~= ids_of(self.parents@.take(i as int)));
                assert(ids_of(upto).last() == self.parents@[i as int].1@);
                assert(out@ =~= head + encoded_ids(ids_of(upto)));
            }
            i += 1;
        }
        assert(self.parents@.take(i as int) =~= self.parents@);
        let resolution = u32_to_le_bytes(self.resolution);
        append_bytes(&mut out, resolution.as_slice());
        out.push(
            if self.corner_registration {
                1
            } else {
                0
            },
        );
        let format = u32_to_le_bytes(self.format.descriptor_tag());
        append_bytes(&mut out, format.as_slice());
        let sector_bytes = u64_to_le_bytes(self.sector_bytes);
        append_bytes(&mut out, sector_bytes.as_slice());
        append_text(&mut out, &self.shader);
        append_text(&mut out, &self.center);
        assert(out@ =~= self.encoding());
        out
    }

    /// The identity of the layer: the digest of the canonical form. It
    /// depends on nothing but the descriptor, so one descriptor always gives
    /// one identity.
    pub fn id(&self) -> (id: LayerId)
        ensures
            id@ == self.identity(),
    {
        let bytes = self.canonical_bytes();
        LayerId::of_descriptor(&bytes)
    }
}

/// Two descriptors with as many parents each, which differ in the identity
/// of one parent, have different canonical forms, whatever else they hold.
pub proof fn lemma_parent_changes_encoding(a: LayerDesc, b: LayerDesc, parent: int)
    requires
        a.parents@.len() == b.parents@.len(),
        0 <= parent < a.parents@.len(),
        a.parents@[parent].1@ != b.parents@[parent].1@,
    ensures
        a.encoding() != b.encoding(),
{
    broadcast use vstd::array::group_array_axioms;

    vstd::bytes::lemma_auto_spec_u64_to_from_le_bytes();
    let x = a.parents@[parent].1@;
    let y = b.parents@[parent].1@;
    assert(x.len() == 32 && y.len() == 32);
    assert(!(x =~= y));
    let at = choose|at: int| 0 <= at < 32 && x[at] != y[at];
    assert(full_ids(ids_of(a.parents@)));
    assert(full_ids(ids_of(b.parents@)));
    lemma_encoded_ids(ids_of(a.parents@), parent, at);
    lemma_encoded_ids(ids_of(b.parents@), parent, at);
    let place = 8 + 32 * parent + at;
    assert(a.encoding()[place] == x[at]);
    assert(b.encoding()[place] == y[at]);
}

/// Whether SHA-256 tells two byte strings apart, as it does for all that
/// anyone has found: different strings have different digests.
pub open spec fn digests_differ(a: Seq<u8>, b: Seq<u8>) -> bool {
    a != b ==> sha256_digest(a) != sha256_digest(b)
}

/// Changing the identity of a parent changes the identity of the child:
/// two descriptors that differ in a parent's identity name different
/// layers, unless their canonical forms collide under SHA-256.
pub proof fn lemma_parent_changes_identity(a: LayerDesc, b: LayerDesc, parent: int)
    requires
        a.parents@.len() == b.parents@.len(),
        0 <= parent < a.parents@.len(),
        a.parents@[parent].1@ != b.parents@[parent].1@,
        digests_differ(a.encoding(), b.encoding()),
    ensures
        a.identity() != b.identity(),
{
    lemma_parent_changes_encoding(a, b, parent);
}

/// The identity of a layer is a function of its canonical form, and the
/// names of the parents are no part of that form: descriptors that agree
/// but for those names name the same layer.
pub proof fn lemma_identity_ignores_names(a: LayerDesc, b: LayerDesc)
    requires
        ids_of(a.parents@) == ids_of(b.parents@),
        a.resolution == b.resolution,
        a.corner_registration == b.corner_registration,
        a.format == b.format,
        a.sector_bytes == b.sector_bytes,
        a.shader@ == b.shader@,
        a.center@ == b.center@,
    ensures
        a.encoding() == b.encoding(),
        a.identity() == b.identity(),
{
}

/// The canonical descriptor of a dataset.
pub struct DatasetDesc {
    /// The address of the source.
    pub url: String,
    /// The code of the projection of the source.
    pub projection: u32,
    pub resolution: u32,
    /// The code of the file format of the source.
    pub file_format: u32,
    pub texture_format: TextureFormat,
}

impl DatasetDesc {
    /// The canonical form of the descriptor.
    pub open spec fn encoding(&self) -> Seq<u8> {
        dataset_encoding(
            self.url@,
            self.projection,
            self.resolution,
            self.file_format,
            self.texture_format,
        )
    }

    /// The identity that the descriptor gives its dataset.
    pub open spec fn identity(&self) -> Seq<u8> {
        sha256_digest(self.encoding())
    }

    /// The canonical form of the descriptor.
    pub fn canonical_bytes(&self) -> (bytes: Vec<u8>)
        ensures
            bytes@ == self.encoding(),
    {
        let mut out: Vec<u8> = Vec::new();
        append_text(&mut out, &self.url);
        let projection = u32_to_le_bytes(self.projection);
        append_bytes(&mut out, projection.as_slice());
        let resolution = u32_to_le_bytes(self.resolution);
        append_bytes(&mut out, resolution.as_slice());
        let file_format = u32_to_le_bytes(self.file_format);
        append_bytes(&mut out, file_format.as_slice());
        let texture_format = u32_to_le_bytes(self.texture_format.descriptor_tag());
        append_bytes(&mut out, texture_format.as_slice());
        assert(out@ =~= self.encoding());
        out
    }

    /// The identity of the dataset: the digest of the canonical form.
    pub fn id(&self) -> (id: LayerId)
        ensures
            id@ == self.identity(),
    {
        let bytes = self.canonical_bytes();
        LayerId::of_descriptor(&bytes)
    }
}

/// A layer that comes from an outside source.
pub struct Dataset {
    pub desc: DatasetDesc,
    /// Where the dataset is published.
    pub bib: String,
    pub license: String,
    /// The resident tiles of the dataset.
    pub tile_cache: TileCache,
}

/// A layer that a transform computes from its parents. Its sectors are kept
/// in one backing store, each at the offset of its index.
pub struct Layer {
    pub desc: LayerDesc,
    /// The size of the backing store: room for every sector of the grid.
    pub backing_bytes: u64,
    /// The resident sectors of the layer, each under its index.
    pub sector_cache: TileCache,
}

impl Layer {
    /// The dense index of a sector: its place in the backing store.
    pub fn compute_sector_index(sector: Sector) -> (index: u64)
        ensures
            index == sector.index(),
    {
        compute_index(sector)
    }

    /// The offset of a sector in the backing store: the size of a sector
    /// times the sector's index.
    pub fn compute_sector_offset(&self, sector: Sector) -> (offset: u64)
        requires
            self.desc.sector_bytes * sector.index() <= u64::MAX,
        ensures
            offset == self.desc.sector_bytes * sector.index(),
    {
        self.desc.sector_bytes * Self::compute_sector_index(sector)
    }

    /// The offset of a sector in the backing store, or `None` where 64 bits
    /// cannot hold it.
    pub fn checked_sector_offset(&self, sector: Sector) -> (offset: Option<u64>)
        ensures
            offset is Some <==> self.desc.sector_bytes * sector.index() <= u64::MAX,
            offset is Some ==> offset.unwrap() == self.desc.sector_bytes * sector.index(),
    {
        self.desc.sector_bytes.checked_mul(Self::compute_sector_index(sector))
    }
}

/// Sectors do not share bytes: the ranges of two different sectors in a
/// backing store, each `sector_bytes` long from the sector's offset, do not
/// overlap.
pub proof fn lemma_sector_ranges_apart(sector_bytes: int, a: Sector, b: Sector)
    requires
        0 <= sector_bytes,
        a != b,
    ensures
        sector_bytes * a.index() + sector_bytes <= sector_bytes * b.index() || sector_bytes
            * b.index() + sector_bytes <= sector_bytes * a.index(),
{
    if a.index() == b.index() {
        crate::sector::lemma_index_injective(a.0 as int, a.1 as int, b.0 as int, b.1 as int);
    }
    let i = a.index();
    let j = b.index();
    if i < j {
        assert(sector_bytes * i + sector_bytes <= sector_bytes * j) by (nonlinear_arith)
            requires
                0 <= sector_bytes,
                i + 1 <= j,
        ;
    } else {
        assert(sector_bytes * j + sector_bytes <= sector_bytes * i) by (nonlinear_arith)
            requires
                0 <= sector_bytes,
                j + 1 <= i,
        ;
    }
}

/// A backing store for a grid of `side` sectors each way has room for
/// every sector whose index is below the number of sectors of the grid.
pub proof fn lemma_sector_in_store(sector_bytes: int, side: int, sector: Sector)
    requires
        0 <= sector_bytes,
        0 <= side,
        sector.index() < side * side,
    ensures
        0 <= sector_bytes * sector.index(),
        sector_bytes * sector.index() + sector_bytes <= sector_bytes * side * side,
{
    crate::sector::lemma_index_origin(sector.0 as int, sector.1 as int);
    let i = sector.index();
    let n = side * side;
    assert(0 <= sector_bytes * i && sector_bytes * i + sector_bytes <= sector_bytes * n)
        by (nonlinear_arith)
        requires
            0 <= sector_bytes,
            0 <= i,
            i + 1 <= n,
    ;
    assert(sector_bytes * n == sector_bytes * side * side) by (nonlinear_arith)
        requires
            n == side * side,
    ;
}

} // verus!
