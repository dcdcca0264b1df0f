use vstd::prelude::*;
use vstd::slice::{slice_subrange, slice_to_vec};
use vstd::string::StringExecFns;

use crate::error::PngError;
use crate::text::{dec_digits, lossy_of, lossy_string, pad2, push_decimal, push_padded2};
use crate::utils::{be16, be32, be32_bytes, slice_to_u32};

verus! {

/// One raw chunk record: `length` counts the data bytes, and `data` holds
/// exactly that many bytes (the trailing CRC is not kept).
#[derive(Debug)]
pub struct PngChunk {
    pub length: u32,
    pub data: Vec<u8>,
}

impl PngChunk {
    /// A chunk is well formed when its declared length matches its data.
    pub open spec fn wf(&self) -> bool {
        self.data@.len() == self.length as nat
    }
}

/// The color model of the image, as declared by the header chunk. Only the
/// byte codes 0, 2, 3, 4 and 6 name a variant; every other byte is a
/// malformed-input condition, not a representable value.
#[derive(Clone, Copy, Debug, PartialEq, Eq, Structural)]
pub enum ColorType {
    Grayscale,
    Truecolor,
    Indexed,
    GrayscaleAlpha,
    TruecolorAlpha,
}

/// What decoding a color-type byte yields: a variant for the five defined
/// codes, and an `InvalidColorType` failure for every other byte.
pub open spec fn spec_color_type(b: u8) -> Result<ColorType, PngError> {
    if b == 0 {
        Ok(ColorType::Grayscale)
    } else if b == 2 {
        Ok(ColorType::Truecolor)
    } else if b == 3 {
        Ok(ColorType::Indexed)
    } else if b == 4 {
        Ok(ColorType::GrayscaleAlpha)
    } else if b == 6 {
        Ok(ColorType::TruecolorAlpha)
    } else {
        Err(PngError::InvalidColorType)
    }
}

/// The byte code that encodes a color type.
pub open spec fn color_code(c: ColorType) -> u8 {
    match c {
        ColorType::Grayscale => 0,
        ColorType::Truecolor => 2,
        ColorType::Indexed => 3,
        ColorType::GrayscaleAlpha => 4,
        ColorType::TruecolorAlpha => 6,
    }
}

impl ColorType {
    /// Decodes a color-type byte; any byte outside {0, 2, 3, 4, 6} is
    /// rejected as `InvalidColorType` rather than defaulting or panicking.
    pub fn from_byte(b: u8) -> (r: Result<ColorType, PngError>)
        ensures
            r == spec_color_type(b),
    {
        match b {
            0 => Ok(ColorType::Grayscale),
            2 => Ok(ColorType::Truecolor),
            3 => Ok(ColorType::Indexed),
            4 => Ok(ColorType::GrayscaleAlpha),
            6 => Ok(ColorType::TruecolorAlpha),
            _ => Err(PngError::InvalidColorType),
        }
    }

    /// The byte code this variant stands for.
    pub fn code(&self) -> (r: u8)
        ensures
            r == color_code(*self),
    {
        match self {
            ColorType::Grayscale => 0,
            ColorType::Truecolor => 2,
            ColorType::Indexed => 3,
            ColorType::GrayscaleAlpha => 4,
            ColorType::TruecolorAlpha => 6,
        }
    }
}

/// The fields of a decoded image-header chunk, in the order they stand in its
/// data: width, height, bit depth, color type, compression method, filter
/// method, interlace method.
pub type IhdrFields = (u32, u32, u8, ColorType, u8, u8, u8);

/// What decoding an image-header chunk's data yields. Data shorter than the
/// 13 header bytes is `MalformedChunk`; a color-type byte outside the five
/// defined codes is `InvalidColorType`; otherwise the seven fields, with
/// width and height read big-endian.
pub open spec fn spec_parse_ihdr(data: Seq<u8>) -> Result<IhdrFields, PngError> {
    if data.len() < 13 {
        Err(PngError::MalformedChunk)
    } else {
        match spec_color_type(data[9]) {
            Err(e) => Err(e),
            Ok(ct) => Ok(
                (
                    be32(data.subrange(0, 4)),
                    be32(data.subrange(4, 8)),
                    data[8],
                    ct,
                    data[10],
                    data[11],
                    data[12],
                ),
            ),
        }
    }
}

/// Decodes the image-header chunk: width, height, bit depth, color type,
/// compression method, filter method and interlace method, exactly as
/// `spec_parse_ihdr` states them.
#[allow(non_snake_case)]
pub fn parse_IHDR_chunk(chunk: &PngChunk) -> (r: Result<IhdrFields, PngError>)
    ensures
        r == spec_parse_ihdr(chunk.data@),
{
    if chunk.data.len() < 13 {
        return Err(PngError::MalformedChunk);
    }
    let color_type = match ColorType::from_byte(chunk.data[9]) {
        Ok(ct) => ct,
        Err(e) => {
            return Err(e);
        },
    };
    let width = match slice_to_u32(slice_subrange(chunk.data.as_slice(), 0, 4)) {
        Ok(v) => v,
        Err(e) => {
            return Err(e);
        },
    };
    let height = match slice_to_u32(slice_subrange(chunk.data.as_slice(), 4, 8)) {
        Ok(v) => v,
        Err(e) => {
            return Err(e);
        },
    };
    Ok((width, height, chunk.data[8], color_type, chunk.data[10], chunk.data[11], chunk.data[12]))
}

/// The 13 header bytes that the seven decoded fields stand for.
pub open spec fn encode_ihdr(f: IhdrFields) -> Seq<u8> {
    be32_bytes(f.0) + be32_bytes(f.1) + seq![f.2, color_code(f.3), f.4, f.5, f.6]
}

/// Decoding a valid header chunk and re-encoding its fields reproduces the
/// 13 header bytes exactly: the numeric fields are preserved bit for bit and
/// the color-type code maps bijectively to its variant.
pub proof fn lemma_ihdr_round_trip(data: Seq<u8>)
    requires
        data.len() >= 13,
        spec_color_type(data[9]) is Ok,
    ensures
        spec_parse_ihdr(data) is Ok,
        encode_ihdr(spec_parse_ihdr(data)->Ok_0) == data.take(13),
{
    let f = spec_parse_ihdr(data)->Ok_0;
    crate::utils::lemma_be32_decode_encode(data.subrange(0, 4));
    crate::utils::lemma_be32_decode_encode(data.subrange(4, 8));
    assert(encode_ihdr(f) =~= data.take(13));
}

/// The converse round trip: the 13 bytes encoded from any seven fields decode
/// back to exactly those fields.
pub proof fn lemma_ihdr_encode_decode(f: IhdrFields)
    ensures
        spec_parse_ihdr(encode_ihdr(f)) == Ok::<IhdrFields, PngError>(f),
{
    let data = encode_ihdr(f);
    assert(data.len() == 13);
    assert(data.subrange(0, 4) =~= be32_bytes(f.0));
    assert(data.subrange(4, 8) =~= be32_bytes(f.1));
    crate::utils::lemma_be32_encode_decode(f.0);
    crate::utils::lemma_be32_encode_decode(f.1);
    assert(data[9] == color_code(f.3));
    assert(spec_color_type(color_code(f.3)) == Ok::<ColorType, PngError>(f.3));
    let g = spec_parse_ihdr(data)->Ok_0;
    assert(g.0 == f.0 && g.1 == f.1 && g.2 == f.2 && g.3 == f.3 && g.4 == f.4 && g.5 == f.5 && g.6
        == f.6);
    assert(g == f);
}

/// The byte codes and the color-type variants correspond one to one: decoding
/// a defined code and re-encoding the variant gives the code back, and every
/// variant decodes from its own code.
pub proof fn lemma_color_code_bijective()
    ensures
        forall|b: u8|
            spec_color_type(b) is Ok ==> color_code(#[trigger] spec_color_type(b)->Ok_0) == b,
        forall|c: ColorType| spec_color_type(#[trigger] color_code(c)) == Ok::<
            ColorType,
            PngError,
        >(c),
{
}

/// The data sequences of a sequence of chunks.
pub open spec fn datas(chunks: Seq<PngChunk>) -> Seq<Seq<u8>> {
    chunks.map_values(|c: PngChunk| c.data@)
}

/// Whether some entry of `entries` carries the key `k`.
spec fn has_key(entries: Seq<(String, Vec<PngChunk>)>, k: Seq<char>) -> bool {
    exists|i: int| 0 <= i < entries.len() && (#[trigger] entries[i]).0@ == k
}

/// The index of the entry that carries the key `k`.
spec fn index_of_key(entries: Seq<(String, Vec<PngChunk>)>, k: Seq<char>) -> int {
    choose|i: int| 0 <= i < entries.len() && (#[trigger] entries[i]).0@ == k
}

/// Raw chunks grouped by their decoded type tag, each tag's chunks kept in
/// file order. Built once by the framer and read-only afterwards.
pub struct ChunkTable {
    entries: Vec<(String, Vec<PngChunk>)>,
}

impl View for ChunkTable {
    type V = Map<Seq<char>, Seq<Seq<u8>>>;

    /// The table as a mapping from decoded tag to the data sequences of its
    /// chunks, in file order.
    closed spec fn view(&self) -> Map<Seq<char>, Seq<Seq<u8>>> {
        Map::new(
            |k: Seq<char>| has_key(self.entries@, k),
            |k: Seq<char>| datas(self.entries@[index_of_key(self.entries@, k)].1@),
        )
    }
}

impl ChunkTable {
    /// Entries carry pairwise distinct keys, every group is non-empty, and
    /// every stored chunk is well formed.
    pub closed spec fn wf(&self) -> bool {
        &&& (forall|i: int, j: int|
            0 <= i < j < self.entries@.len() ==> (#[trigger] self.entries@[i]).0@ != (
            #[trigger] self.entries@[j]).0@)
        &&& (forall|i: int|
            0 <= i < self.entries@.len() ==> (#[trigger] self.entries@[i]).1@.len() > 0)
        &&& (forall|i: int, j: int|
            0 <= i < self.entries@.len() && 0 <= j < self.entries@[i].1@.len()
                ==> (#[trigger] self.entries@[i].1@[j]).wf())
    }

    /// The entry at a given index is what the table maps its key to.
    proof fn lemma_entry_view(&self, i: int)
        requires
            self.wf(),
            0 <= i < self.entries@.len(),
        ensures
            self@.contains_key(self.entries@[i].0@),
            self@[self.entries@[i].0@] == datas(self.entries@[i].1@),
    {
        let k = self.entries@[i].0@;
        assert(has_key(self.entries@, k));
        let j = index_of_key(self.entries@, k);
        assert(0 <= j < self.entries@.len() && self.entries@[j].0@ == k);
        assert(j == i);
    }

    /// A key carried by no entry is absent from the table.
    proof fn lemma_key_absent(&self, k: Seq<char>)
        requires
            forall|i: int| 0 <= i < self.entries@.len() ==> (#[trigger] self.entries@[i]).0@ != k,
        ensures
            !self@.contains_key(k),
    {
    }

    /// An empty table.
    pub fn new() -> (t: ChunkTable)
        ensures
            t.wf(),
            t@ == Map::<Seq<char>, Seq<Seq<u8>>>::empty(),
    {
        let t = ChunkTable { entries: Vec::new() };
        proof {
            assert(t@ =~= Map::<Seq<char>, Seq<Seq<u8>>>::empty());
        }
        t
    }

    /// The group of chunks stored under a tag: its data sequences are exactly
    /// what the table maps the tag to, in file order, and the group exists
    /// exactly when the tag does.
    pub fn get(&self, tag: &str) -> (r: Option<&Vec<PngChunk>>)
        requires
            self.wf(),
        ensures
            match r {
                Some(chunks) => self@.contains_key(tag@) && datas(chunks@) == self@[tag@]
                    && chunks@.len() > 0 && (forall|j: int|
                    0 <= j < chunks@.len() ==> (#[trigger] chunks@[j]).wf()),
                None => !self@.contains_key(tag@),
            },
    {
        let key = String::from_str(tag);
        let n = self.entries.len();
        let mut i: usize = 0;
        while i < n
            invariant
                self.wf(),
                n == self.entries@.len(),
                0 <= i <= n,
                key@ == tag@,
                forall|j: int| 0 <= j < i ==> (#[trigger] self.entries@[j]).0@ != tag@,
            decreases n - i,
        {
            if self.entries[i].0 == key {
                proof {
                    self.lemma_entry_view(i as int);
                }
                return Some(&self.entries[i].1);
            }
            i += 1;
        }
        proof {
            self.lemma_key_absent(tag@);
        }
        None
    }

    /// Appends a chunk under a tag: the tag's group grows by the chunk's
    /// data at the end, and a first occurrence starts a new group. No other
    /// tag changes.
    pub fn insert_chunk(&mut self, tag: String, chunk: PngChunk)
        requires
            old(self).wf(),
            chunk.wf(),
        ensures
            final (self).wf(),
            final (self)@ == old(self)@.insert(
                tag@,
                if old(self)@.contains_key(tag@) {
                    old(self)@[tag@].push(chunk.data@)
                } else {
                    seq![chunk.data@]
                },
            ),
    {
        let ghost old_entries = self.entries@;
        let n = self.entries.len();
        let mut i: usize = 0;
        while i < n
            invariant
                *self == *old(self),
                old(self).wf(),
                chunk.wf(),
                old_entries == self.entries@,
                n == self.entries@.len(),
                0 <= i <= n,
                forall|j: int| 0 <= j < i ==> (#[trigger] self.entries@[j]).0@ != tag@,
            decreases n - i,
        {
            if self.entries[i].0 == tag {
                proof {
                    self.lemma_entry_view(i as int);
                }
                let (key, mut group) = self.entries.remove(i);
                group.push(chunk);
                self.entries.insert(i, (key, group));
                proof {
                    assert(forall|j: int|
                        0 <= j < old_entries.len() && j != i ==> #[trigger] self.entries@[j]
                            == old_entries[j]);
                    assert(self.entries@[i as int].0 == old_entries[i as int].0);
                    assert(self.entries@[i as int].1@ == old_entries[i as int].1@.push(chunk));
                    self.lemma_insert_view(old(self), i as int, tag@, chunk);
                }
                return ;
            }
            i += 1;
        }
        proof {
            old(self).lemma_key_absent(tag@);
        }
        let mut group: Vec<PngChunk> = Vec::new();
        group.push(chunk);
        self.entries.push((tag, group));
        proof {
            let entries = self.entries@;
            let k = tag@;
            assert forall|p: int, q: int| 0 <= p < q < entries.len() implies (
            #[trigger] entries[p]).0@ != (#[trigger] entries[q]).0@ by {
                if q < entries.len() - 1 {
                    assert(entries[p] == old_entries[p] && entries[q] == old_entries[q]);
                }
            }
            assert(self.wf());
            assert(self@ =~= old(self)@.insert(k, seq![chunk.data@])) by {
                assert forall|kk: Seq<char>| has_key(entries, kk) implies (kk == k || has_key(
                    old_entries,
                    kk,
                )) by {
                    let j = index_of_key(entries, kk);
                    assert(0 <= j < entries.len() && entries[j].0@ == kk);
                    if j < entries.len() - 1 {
                        assert(old_entries[j].0@ == kk);
                    }
                }
                assert forall|kk: Seq<char>| has_key(old_entries, kk) implies has_key(
                    entries,
                    kk,
                ) by {
                    let j = index_of_key(old_entries, kk);
                    assert(entries[j].0@ == kk);
                }
                assert(has_key(entries, k)) by {
                    assert(entries[entries.len() - 1].0@ == k);
                }
                assert forall|kk: Seq<char>| #[trigger] self@.contains_key(kk) implies self@[kk]
                    == old(self)@.insert(k, seq![chunk.data@])[kk] by {
                    let j = index_of_key(entries, kk);
                    assert(0 <= j < entries.len() && entries[j].0@ == kk);
                    if kk == k {
                        assert(j == entries.len() - 1);
                        assert(datas(entries[j].1@) =~= seq![chunk.data@]);
                    } else {
                        assert(j < entries.len() - 1);
                        assert(old_entries[j] == entries[j]);
                        old(self).lemma_entry_view(j);
                    }
                }
            }
        }
    }

    /// Updating the group at an existing key's index is, at the table level,
    /// appending the chunk's data under that key.
    proof fn lemma_insert_view(&self, prev: &ChunkTable, i: int, k: Seq<char>, chunk: PngChunk)
        requires
            prev.wf(),
            chunk.wf(),
            0 <= i < prev.entries@.len(),
            prev.entries@[i].0@ == k,
            self.entries@.len() == prev.entries@.len(),
            forall|j: int|
                0 <= j < prev.entries@.len() && j != i ==> #[trigger] self.entries@[j]
                    == prev.entries@[j],
            self.entries@[i].0 == prev.entries@[i].0,
            self.entries@[i].1@ == prev.entries@[i].1@.push(chunk),
        ensures
            self.wf(),
            self@ == prev@.insert(k, prev@[k].push(chunk.data@)),
    {
        let entries = self.entries@;
        let old_entries = prev.entries@;
        assert(entries.len() == old_entries.len());
        assert forall|j: int| 0 <= j < entries.len() implies (#[trigger] entries[j]).0@
            == old_entries[j].0@ by {
            if j != i {
                assert(entries[j] == old_entries[j]);
            }
        }
        assert(self.wf()) by {
            assert forall|j: int| 0 <= j < entries.len() implies (#[trigger] entries[j]).1@.len()
                > 0 by {
                if j != i {
                    assert(entries[j] == old_entries[j]);
                }
            }
            assert forall|j: int, q: int|
                0 <= j < entries.len() && 0 <= q < entries[j].1@.len() implies (
            #[trigger] entries[j].1@[q]).wf() by {
                if j != i {
                    assert(entries[j] == old_entries[j]);
                } else {
                    assert(entries[i].1@ == old_entries[i].1@.push(chunk));
                }
            }
        }
        prev.lemma_entry_view(i);
        assert(self@ =~= prev@.insert(k, prev@[k].push(chunk.data@))) by {
            assert forall|kk: Seq<char>| has_key(entries, kk) <==> has_key(old_entries, kk) by {
                if has_key(entries, kk) {
                    let j = index_of_key(entries, kk);
                    assert(0 <= j < entries.len() && entries[j].0@ == kk);
                    assert(old_entries[j].0@ == kk);
                }
                if has_key(old_entries, kk) {
                    let j = index_of_key(old_entries, kk);
                    assert(0 <= j < old_entries.len() && old_entries[j].0@ == kk);
                    assert(entries[j].0@ == kk);
                }
            }
            assert forall|kk: Seq<char>| #[trigger] self@.contains_key(kk) implies self@[kk]
                == prev@.insert(k, prev@[k].push(chunk.data@))[kk] by {
                let j = index_of_key(entries, kk);
                assert(0 <= j < entries.len() && entries[j].0@ == kk);
                if kk == k {
                    assert(j == i) by {
                        if j != i {
                            assert(old_entries[j].0@ == kk && old_entries[i].0@ == k);
                        }
                    }
                    assert(datas(entries[i].1@) =~= datas(old_entries[i].1@).push(chunk.data@));
                } else {
                    assert(j != i);
                    assert(entries[j] == old_entries[j]);
                    prev.lemma_entry_view(j);
                }
            }
        }
    }
}

/// What framing a byte buffer (the file content after the signature) yields:
/// the sequence of (type-tag bytes, data bytes) records, in file order. Each
/// record is framed as a 4-byte big-endian data length, 4 tag bytes, the data
/// bytes, and 4 CRC bytes that are skipped without validation. A buffer that
/// ends mid-record is `TruncatedChunk`.
pub open spec fn spec_frame(b: Seq<u8>) -> Result<Seq<(Seq<u8>, Seq<u8>)>, PngError>
    decreases b.len(),
{
    if b.len() == 0 {
        Ok(Seq::empty())
    } else if b.len() < 8 {
        Err(PngError::TruncatedChunk)
    } else {
        let l = be32(b.subrange(0, 4)) as int;
        if b.len() < 12 + l {
            Err(PngError::TruncatedChunk)
        } else {
            match spec_frame(b.skip(12 + l)) {
                Ok(rest) => Ok(seq![(b.subrange(4, 8), b.subrange(8, 8 + l))] + rest),
                Err(e) => Err(e),
            }
        }
    }
}

/// The framed records grouped by decoded type tag: a mapping from tag to the
/// data sequences of its records, in file order.
pub open spec fn spec_group(recs: Seq<(Seq<u8>, Seq<u8>)>) -> Map<Seq<char>, Seq<Seq<u8>>>
    decreases recs.len(),
{
    if recs.len() == 0 {
        Map::empty()
    } else {
        let m = spec_group(recs.drop_last());
        let key = lossy_of(recs.last().0);
        m.insert(
            key,
            if m.contains_key(key) {
                m[key].push(recs.last().1)
            } else {
                seq![recs.last().1]
            },
        )
    }
}

/// The only way framing fails is truncation: a buffer that any framing step
/// would read past the end of.
pub proof fn lemma_frame_error_is_truncation(b: Seq<u8>)
    ensures
        spec_frame(b) is Err ==> spec_frame(b) == Err::<Seq<(Seq<u8>, Seq<u8>)>, PngError>(
            PngError::TruncatedChunk,
        ),
    decreases b.len(),
{
    if b.len() >= 8 {
        let l = be32(b.subrange(0, 4)) as int;
        if b.len() >= 12 + l {
            lemma_frame_error_is_truncation(b.skip(12 + l));
        }
    }
}

/// A non-empty buffer too short for its first record fails as truncated: one
/// shorter than the 8 length/tag bytes, or shorter than the declared data
/// length plus the 12 framing bytes.
pub proof fn lemma_frame_short_buffer_truncated(b: Seq<u8>)
    requires
        b.len() > 0,
        b.len() < 8 || b.len() < 12 + be32(b.subrange(0, 4)) as int,
    ensures
        spec_frame(b) == Err::<Seq<(Seq<u8>, Seq<u8>)>, PngError>(PngError::TruncatedChunk),
{
}

/// A tag is grouped exactly when some record carries it.
pub proof fn lemma_group_membership(recs: Seq<(Seq<u8>, Seq<u8>)>, key: Seq<char>)
    ensures
        spec_group(recs).contains_key(key) <==> exists|i: int|
            0 <= i < recs.len() && lossy_of((#[trigger] recs[i]).0) == key,
    decreases recs.len(),
{
    if recs.len() > 0 {
        lemma_group_membership(recs.drop_last(), key);
        if spec_group(recs).contains_key(key) {
            if lossy_of(recs.last().0) == key {
                assert(lossy_of(recs[recs.len() - 1].0) == key);
            } else {
                let i = choose|i: int|
                    0 <= i < recs.drop_last().len() && lossy_of(
                        (#[trigger] recs.drop_last()[i]).0,
                    ) == key;
                assert(lossy_of(recs[i].0) == key);
            }
        }
        if exists|i: int| 0 <= i < recs.len() && lossy_of((#[trigger] recs[i]).0) == key {
            let i = choose|i: int| 0 <= i < recs.len() && lossy_of((#[trigger] recs[i]).0) == key;
            if i < recs.len() - 1 {
                assert(lossy_of(recs.drop_last()[i].0) == key);
            }
        }
    }
}

/// Decomposes the byte buffer that follows the 8-byte signature into a table
/// of raw chunks grouped by decoded type tag, exactly as `spec_frame` and
/// `spec_group` state; a buffer that ends mid-record is `TruncatedChunk`.
pub fn read_png_chunks(bytes: &[u8]) -> (r: Result<ChunkTable, PngError>)
    ensures
        match r {
            Ok(t) => t.wf() && spec_frame(bytes@) is Ok && t@ == spec_group(
                spec_frame(bytes@)->Ok_0,
            ),
            Err(e) => spec_frame(bytes@) == Err::<Seq<(Seq<u8>, Seq<u8>)>, PngError>(e),
        },
{
    let mut table = ChunkTable::new();
    let ghost mut recs: Seq<(Seq<u8>, Seq<u8>)> = Seq::empty();
    let len = bytes.len();
    let mut index: usize = 0;
    proof {
        assert(bytes@.skip(0) =~= bytes@);
        match spec_frame(bytes@) {
            Ok(rest) => {
                assert(Seq::<(Seq<u8>, Seq<u8>)>::empty() + rest =~= rest);
            },
            Err(_) => {},
        }
    }
    while index < len
        invariant
            len == bytes@.len(),
            0 <= index <= len,
            table.wf(),
            table@ == spec_group(recs),
            match spec_frame(bytes@.skip(index as int)) {
                Ok(rest) => spec_frame(bytes@) == Ok::<Seq<(Seq<u8>, Seq<u8>)>, PngError>(
                    recs + rest,
                ),
                Err(e) => spec_frame(bytes@) == Err::<Seq<(Seq<u8>, Seq<u8>)>, PngError>(e),
            },
        decreases len - index,
    {
        let ghost suffix = bytes@.skip(index as int);
        let remaining = len - index;
        if remaining < 8 {
            return Err(PngError::TruncatedChunk);
        }
        let length_slice = slice_subrange(bytes, index, index + 4);
        proof {
            assert(length_slice@ =~= suffix.subrange(0, 4));
        }
        let l32 = match slice_to_u32(length_slice) {
            Ok(v) => v,
            Err(_) => {
                proof {
                    assert(false);
                }
                return Err(PngError::TruncatedChunk);
            },
        };
        let l = l32 as usize;
        if remaining < 12 || l > remaining - 12 {
            proof {
                assert(suffix.len() < 12 + be32(suffix.subrange(0, 4)) as int);
            }
            return Err(PngError::TruncatedChunk);
        }
        let tag_slice = slice_subrange(bytes, index + 4, index + 8);
        let tag = lossy_string(tag_slice);
        let data_slice = slice_subrange(bytes, index + 8, index + 8 + l);
        let data = slice_to_vec(data_slice);
        let chunk = PngChunk { length: l32, data };
        let ghost rec = (suffix.subrange(4, 8), suffix.subrange(8, 8 + l as int));
        proof {
            assert(tag_slice@ =~= suffix.subrange(4, 8));
            assert(data_slice@ =~= suffix.subrange(8, 8 + l as int));
            assert(tag@ == lossy_of(rec.0));
            assert(chunk.data@ == rec.1);
        }
        table.insert_chunk(tag, chunk);
        proof {
            let stepped = recs.push(rec);
            assert(stepped.drop_last() =~= recs);
            assert(stepped.last() == rec);
            assert(table@ == spec_group(stepped));
            assert(suffix.skip(12 + l as int) =~= bytes@.skip(index as int + 12 + l as int));
            match spec_frame(bytes@.skip(index as int + 12 + l as int)) {
                Ok(rest2) => {
                    assert(spec_frame(suffix) == Ok::<Seq<(Seq<u8>, Seq<u8>)>, PngError>(
                        seq![rec] + rest2,
                    ));
                    assert(recs + (seq![rec] + rest2) =~= stepped + rest2);
                },
                Err(_) => {},
            }
            recs = stepped;
        }
        index = index + 12 + l;
    }
    proof {
        assert(bytes@.skip(index as int) =~= Seq::<u8>::empty());
        assert(spec_frame(bytes@) == Ok::<Seq<(Seq<u8>, Seq<u8>)>, PngError>(
            recs + Seq::<(Seq<u8>, Seq<u8>)>::empty(),
        ));
        assert(recs + Seq::<(Seq<u8>, Seq<u8>)>::empty() =~= recs);
    }
    Ok(table)
}

/// The index of the first zero byte of `d`, or -1 when none occurs.
pub open spec fn find_zero(d: Seq<u8>) -> int
    decreases d.len(),
{
    if d.len() == 0 {
        -1
    } else if d[0] == 0 {
        0
    } else {
        let r = find_zero(d.drop_first());
        if r < 0 {
            -1
        } else {
            r + 1
        }
    }
}

/// `find_zero` names the first zero byte.
proof fn lemma_find_zero_at(d: Seq<u8>, j: int)
    requires
        0 <= j < d.len(),
        d[j] == 0,
        forall|i: int| 0 <= i < j ==> d[i] != 0,
    ensures
        find_zero(d) == j,
    decreases d.len(),
{
    if j > 0 {
        lemma_find_zero_at(d.drop_first(), j - 1);
    }
}

/// A found zero byte lies inside the sequence.
proof fn lemma_find_zero_bounds(d: Seq<u8>)
    ensures
        find_zero(d) == -1 || 0 <= find_zero(d) < d.len(),
    decreases d.len(),
{
    if d.len() > 0 && d[0] != 0 {
        lemma_find_zero_bounds(d.drop_first());
    }
}

/// Without a zero byte, `find_zero` reports none.
proof fn lemma_find_zero_none(d: Seq<u8>)
    requires
        forall|i: int| 0 <= i < d.len() ==> d[i] != 0,
    ensures
        find_zero(d) == -1,
    decreases d.len(),
{
    if d.len() > 0 {
        lemma_find_zero_none(d.drop_first());
    }
}

/// The key/value pairs scanned from one textual-metadata chunk's data, left
/// to right while bytes remain: a key runs to the next zero byte, the zero
/// byte separates, and the value runs to the next zero byte or to the end of
/// the data; then the scan continues, so one chunk can yield several pairs.
/// Both sides are lossy-decoded. A key that the data ends inside is
/// `MalformedChunk` (the scan is bounded; it never reads past the chunk's
/// declared length).
pub open spec fn spec_scan_pairs(d: Seq<u8>) -> Result<Seq<(Seq<char>, Seq<char>)>, PngError>
    decreases d.len(),
    via spec_scan_pairs_decreases
{
    if d.len() == 0 {
        Ok(Seq::empty())
    } else {
        let z = find_zero(d);
        if z < 0 {
            Err(PngError::MalformedChunk)
        } else {
            let key = lossy_of(d.take(z));
            let after = d.skip(z + 1);
            let v = find_zero(after);
            let value = lossy_of(
                if v < 0 {
                    after
                } else {
                    after.take(v)
                },
            );
            let rest = if v < 0 {
                Seq::<u8>::empty()
            } else {
                after.skip(v + 1)
            };
            match spec_scan_pairs(rest) {
                Err(e) => Err(e),
                Ok(tail) => Ok(seq![(key, value)] + tail),
            }
        }
    }
}

/// The scan's remainder is strictly shorter than its input: the key ends
/// inside the data and the value's end is at most the data's.
#[via_fn]
proof fn spec_scan_pairs_decreases(d: Seq<u8>) {
    lemma_find_zero_bounds(d);
    if d.len() > 0 && find_zero(d) >= 0 {
        lemma_find_zero_bounds(d.skip(find_zero(d) + 1));
    }
}

/// The index of the first pair of `pairs` that carries the key `k`, or -1.
pub open spec fn find_key(pairs: Seq<(Seq<char>, Seq<char>)>, k: Seq<char>) -> int
    decreases pairs.len(),
{
    if pairs.len() == 0 {
        -1
    } else if pairs[0].0 == k {
        0
    } else {
        let r = find_key(pairs.drop_first(), k);
        if r < 0 {
            -1
        } else {
            r + 1
        }
    }
}

/// `pairs` with the key `k` now carrying `v`: a later occurrence of a key
/// overwrites the earlier one in place, and a new key goes to the end.
pub open spec fn upsert(
    pairs: Seq<(Seq<char>, Seq<char>)>,
    k: Seq<char>,
    v: Seq<char>,
) -> Seq<(Seq<char>, Seq<char>)> {
    let i = find_key(pairs, k);
    if i < 0 {
        pairs.push((k, v))
    } else {
        pairs.update(i, (k, v))
    }
}

/// `find_key` names the first pair with the key.
proof fn lemma_find_key_at(pairs: Seq<(Seq<char>, Seq<char>)>, k: Seq<char>, j: int)
    requires
        0 <= j < pairs.len(),
        pairs[j].0 == k,
        forall|i: int| 0 <= i < j ==> (#[trigger] pairs[i]).0 != k,
    ensures
        find_key(pairs, k) == j,
    decreases pairs.len(),
{
    if j > 0 {
        lemma_find_key_at(pairs.drop_first(), k, j - 1);
    }
}

/// Without the key, `find_key` reports none.
proof fn lemma_find_key_none(pairs: Seq<(Seq<char>, Seq<char>)>, k: Seq<char>)
    requires
        forall|i: int| 0 <= i < pairs.len() ==> (#[trigger] pairs[i]).0 != k,
    ensures
        find_key(pairs, k) == -1,
    decreases pairs.len(),
{
    if pairs.len() > 0 {
        lemma_find_key_none(pairs.drop_first(), k);
    }
}

/// `pairs` merged into `acc` in order, each binding stored as `upsert` does:
/// a later binding of a key overwrites the earlier one.
pub open spec fn upsert_all(
    acc: Seq<(Seq<char>, Seq<char>)>,
    pairs: Seq<(Seq<char>, Seq<char>)>,
) -> Seq<(Seq<char>, Seq<char>)>
    decreases pairs.len(),
{
    if pairs.len() == 0 {
        acc
    } else {
        upsert(upsert_all(acc, pairs.drop_last()), pairs.last().0, pairs.last().1)
    }
}

/// What decoding a sequence of textual-metadata chunks yields: every chunk's
/// scanned pairs merged in file order, a later occurrence of a key
/// overwriting the earlier one, within one chunk or across chunks.
pub open spec fn spec_parse_text(chunks: Seq<Seq<u8>>) -> Result<
    Seq<(Seq<char>, Seq<char>)>,
    PngError,
>
    decreases chunks.len(),
{
    if chunks.len() == 0 {
        Ok(Seq::empty())
    } else {
        match spec_parse_text(chunks.drop_last()) {
            Err(e) => Err(e),
            Ok(acc) => match spec_scan_pairs(chunks.last()) {
                Err(e) => Err(e),
                Ok(pairs) => Ok(upsert_all(acc, pairs)),
            },
        }
    }
}

/// A failure on a prefix of the chunks is the failure of the whole sequence.
proof fn lemma_parse_text_prefix_err(chunks: Seq<Seq<u8>>, i: int)
    requires
        0 <= i <= chunks.len(),
        spec_parse_text(chunks.subrange(0, i)) is Err,
    ensures
        spec_parse_text(chunks) == spec_parse_text(chunks.subrange(0, i)),
    decreases chunks.len() - i,
{
    if i == chunks.len() {
        assert(chunks.subrange(0, i) =~= chunks);
    } else {
        assert(chunks.subrange(0, i + 1).drop_last() =~= chunks.subrange(0, i));
        lemma_parse_text_prefix_err(chunks, i + 1);
    }
}

/// The views of a sequence of key/value string pairs.
pub open spec fn pairs_view(s: Seq<(String, String)>) -> Seq<(Seq<char>, Seq<char>)> {
    s.map_values(|p: (String, String)| (p.0@, p.1@))
}

/// Stores a key/value entry, overwriting the first entry with the same key
/// in place and appending a new key at the end, as `upsert` states.
fn upsert_entry(entries: &mut Vec<(String, String)>, key: String, value: String)
    ensures
        pairs_view(final (entries)@) == upsert(pairs_view(old(entries)@), key@, value@),
{
    let ghost acc = pairs_view(old(entries)@);
    let m = entries.len();
    let mut j: usize = 0;
    while j < m
        invariant
            *entries == *old(entries),
            acc == pairs_view(entries@),
            m == entries@.len(),
            0 <= j <= m,
            forall|i: int| 0 <= i < j ==> (#[trigger] pairs_view(entries@)[i]).0 != key@,
        decreases m - j,
    {
        if entries[j].0 == key {
            proof {
                assert(acc[j as int].0 == entries@[j as int].0@);
                lemma_find_key_at(acc, key@, j as int);
            }
            entries.remove(j);
            entries.insert(j, (key, value));
            proof {
                assert(pairs_view(entries@) =~= upsert(acc, key@, value@));
            }
            return ;
        }
        proof {
            assert(pairs_view(entries@)[j as int].0 == entries@[j as int].0@);
        }
        j += 1;
    }
    proof {
        lemma_find_key_none(acc, key@);
    }
    entries.push((key, value));
    proof {
        assert(pairs_view(entries@) =~= upsert(acc, key@, value@));
    }
}

/// Decodes the full group of textual-metadata chunks into key/value entries,
/// exactly as `spec_parse_text` states: each chunk is scanned left to right
/// into alternating null-terminated keywords and values (a value also ends
/// at the end of the data), and the pairs are merged in file order, a later
/// occurrence of a key overwriting the earlier one.
#[allow(non_snake_case)]
pub fn parse_tEXt_chunks(chunks: &Vec<PngChunk>) -> (r: Result<Vec<(String, String)>, PngError>)
    ensures
        match r {
            Ok(pairs) => spec_parse_text(datas(chunks@)) == Ok::<
                Seq<(Seq<char>, Seq<char>)>,
                PngError,
            >(pairs_view(pairs@)),
            Err(e) => spec_parse_text(datas(chunks@)) == Err::<
                Seq<(Seq<char>, Seq<char>)>,
                PngError,
            >(e),
        },
{
    let ghost full = datas(chunks@);
    let mut entries: Vec<(String, String)> = Vec::new();
    let n = chunks.len();
    let mut ci: usize = 0;
    proof {
        assert(full.subrange(0, 0) =~= Seq::<Seq<u8>>::empty());
        assert(pairs_view(entries@) =~= Seq::<(Seq<char>, Seq<char>)>::empty());
    }
    while ci < n
        invariant
            n == chunks@.len(),
            0 <= ci <= n,
            full == datas(chunks@),
            spec_parse_text(full.subrange(0, ci as int)) == Ok::<
                Seq<(Seq<char>, Seq<char>)>,
                PngError,
            >(pairs_view(entries@)),
        decreases n - ci,
    {
        let data = &chunks[ci].data;
        proof {
            assert(full.subrange(0, ci as int + 1).drop_last() =~= full.subrange(0, ci as int));
            assert(full.subrange(0, ci as int + 1).last() == data@);
        }
        match scan_text_chunk(data, &mut entries) {
            Ok(_) => {},
            Err(e) => {
                proof {
                    lemma_parse_text_prefix_err(full, ci as int + 1);
                }
                return Err(e);
            },
        }
        ci += 1;
    }
    proof {
        assert(full.subrange(0, n as int) =~= full);
    }
    Ok(entries)
}

/// Scans one textual-metadata chunk's data left to right, storing each
/// key/value pair as `upsert_all` states; fails with `MalformedChunk` when
/// the data ends inside a key, exactly as `spec_scan_pairs` states. On
/// failure the entries already stored are discarded by the caller.
fn scan_text_chunk(data: &Vec<u8>, entries: &mut Vec<(String, String)>) -> (r: Result<
    (),
    PngError,
>)
    ensures
        match r {
            Ok(_) => spec_scan_pairs(data@) is Ok && pairs_view(final (entries)@) == upsert_all(
                pairs_view(old(entries)@),
                spec_scan_pairs(data@)->Ok_0,
            ),
            Err(e) => spec_scan_pairs(data@) == Err::<Seq<(Seq<char>, Seq<char>)>, PngError>(e),
        },
{
    let ghost acc = pairs_view(old(entries)@);
    let dlen = data.len();
    let mut pos: usize = 0;
    let ghost mut pairs_done: Seq<(Seq<char>, Seq<char>)> = Seq::empty();
    proof {
        assert(data@.skip(0) =~= data@);
        match spec_scan_pairs(data@) {
            Ok(ps) => {
                assert(Seq::<(Seq<char>, Seq<char>)>::empty() + ps =~= ps);
            },
            Err(_) => {},
        }
    }
    while pos < dlen
        invariant
            dlen == data@.len(),
            0 <= pos <= dlen,
            acc == pairs_view(old(entries)@),
            pairs_view(entries@) == upsert_all(acc, pairs_done),
            match spec_scan_pairs(data@.skip(pos as int)) {
                Ok(rest) => spec_scan_pairs(data@) == Ok::<Seq<(Seq<char>, Seq<char>)>, PngError>(
                    pairs_done + rest,
                ),
                Err(e) => spec_scan_pairs(data@) == Err::<Seq<(Seq<char>, Seq<char>)>, PngError>(e),
            },
        decreases dlen - pos,
    {
        let ghost suffix = data@.skip(pos as int);
        let mut z = pos;
        while z < dlen && data[z] != 0
            invariant
                dlen == data@.len(),
                pos <= z <= dlen,
                forall|i: int| pos <= i < z ==> data@[i] != 0,
            decreases dlen - z,
        {
            z += 1;
        }
        if z == dlen {
            proof {
                assert forall|i: int| 0 <= i < suffix.len() implies suffix[i] != 0 by {
                    assert(suffix[i] == data@[pos + i]);
                }
                lemma_find_zero_none(suffix);
            }
            return Err(PngError::MalformedChunk);
        }
        proof {
            assert forall|i: int| 0 <= i < z - pos implies suffix[i] != 0 by {
                assert(suffix[i] == data@[pos + i]);
            }
            assert(suffix[z as int - pos as int] == data@[z as int]);
            lemma_find_zero_at(suffix, z as int - pos as int);
        }
        let key_slice = slice_subrange(data.as_slice(), pos, z);
        let key = lossy_string(key_slice);
        proof {
            assert(key_slice@ =~= suffix.take(z as int - pos as int));
        }
        let vstart = z + 1;
        let mut w = vstart;
        while w < dlen && data[w] != 0
            invariant
                dlen == data@.len(),
                vstart <= w <= dlen,
                forall|i: int| vstart <= i < w ==> data@[i] != 0,
            decreases dlen - w,
        {
            w += 1;
        }
        let ghost after = suffix.skip(z as int - pos as int + 1);
        proof {
            assert(after =~= data@.skip(vstart as int));
            assert forall|i: int| 0 <= i < w - vstart implies after[i] != 0 by {
                assert(after[i] == data@[vstart + i]);
            }
            if w < dlen {
                assert(after[w as int - vstart as int] == data@[w as int]);
                lemma_find_zero_at(after, w as int - vstart as int);
            } else {
                lemma_find_zero_none(after);
            }
        }
        let value_slice = slice_subrange(data.as_slice(), vstart, w);
        let value = lossy_string(value_slice);
        proof {
            assert(value_slice@ =~= after.take(w as int - vstart as int));
            if w >= dlen {
                assert(after.take(w as int - vstart as int) =~= after);
            }
        }
        let ghost p = (key@, value@);
        upsert_entry(entries, key, value);
        proof {
            let stepped = pairs_done.push(p);
            assert(stepped.drop_last() =~= pairs_done);
            assert(stepped.last() == p);
            assert(pairs_view(entries@) == upsert_all(acc, stepped));
            let newpos: int = if w < dlen {
                w as int + 1
            } else {
                dlen as int
            };
            let rest_spec = if w < dlen {
                after.skip(w as int - vstart as int + 1)
            } else {
                Seq::<u8>::empty()
            };
            assert(rest_spec =~= data@.skip(newpos));
            match spec_scan_pairs(data@.skip(newpos)) {
                Ok(rest2) => {
                    assert(spec_scan_pairs(suffix) == Ok::<Seq<(Seq<char>, Seq<char>)>, PngError>(
                        seq![p] + rest2,
                    ));
                    assert(pairs_done + (seq![p] + rest2) =~= stepped + rest2);
                },
                Err(_) => {},
            }
            pairs_done = stepped;
        }
        pos = if w < dlen {
            w + 1
        } else {
            dlen
        };
    }
    proof {
        assert(data@.skip(pos as int) =~= Seq::<u8>::empty());
        assert(pairs_done + Seq::<(Seq<char>, Seq<char>)>::empty() =~= pairs_done);
    }
    Ok(())
}

/// The formatted last-modification timestamp: month, day, hour and year in
/// plain decimal, minute and second zero-padded to two digits.
pub open spec fn time_string(y: u16, mo: u8, d: u8, h: u8, mi: u8, s: u8) -> Seq<char> {
    dec_digits(mo as nat) + seq!['/'] + dec_digits(d as nat) + seq!['/'] + dec_digits(y as nat)
        + seq![' '] + dec_digits(h as nat) + seq![':'] + pad2(mi as nat) + seq![':'] + pad2(s as nat)
}

/// What decoding a timestamp chunk's data yields: the big-endian year from
/// the first two bytes, then month, day, hour, minute and second one byte
/// each, formatted by `time_string`. Fewer than 7 bytes is `MalformedChunk`.
pub open spec fn spec_parse_time(d: Seq<u8>) -> Result<Seq<char>, PngError> {
    if d.len() < 7 {
        Err(PngError::MalformedChunk)
    } else {
        Ok(time_string(be16(d.subrange(0, 2)), d[2], d[3], d[4], d[5], d[6]))
    }
}

/// Decodes the timestamp chunk into its formatted string, exactly as
/// `spec_parse_time` states.
#[allow(non_snake_case)]
pub fn parse_tIME_chunk(chunk: &PngChunk) -> (r: Result<String, PngError>)
    ensures
        match r {
            Ok(s) => spec_parse_time(chunk.data@) == Ok::<Seq<char>, PngError>(s@),
            Err(e) => spec_parse_time(chunk.data@) == Err::<Seq<char>, PngError>(e),
        },
{
    if chunk.data.len() < 7 {
        return Err(PngError::MalformedChunk);
    }
    let year_slice = slice_subrange(chunk.data.as_slice(), 0, 2);
    proof {
        assert(year_slice@ =~= chunk.data@.subrange(0, 2));
    }
    let year = match crate::utils::slice_to_u16(year_slice) {
        Ok(v) => v,
        Err(_) => {
            proof {
                assert(false);
            }
            return Err(PngError::MalformedChunk);
        },
    };
    let month = chunk.data[2];
    let day = chunk.data[3];
    let hour = chunk.data[4];
    let minute = chunk.data[5];
    let second = chunk.data[6];
    let mut out = String::new();
    push_decimal(&mut out, month as u16);
    out.append("/");
    push_decimal(&mut out, day as u16);
    out.append("/");
    push_decimal(&mut out, year);
    out.append(" ");
    push_decimal(&mut out, hour as u16);
    out.append(":");
    push_padded2(&mut out, minute);
    out.append(":");
    push_padded2(&mut out, second);
    proof {
        reveal_strlit("/");
        reveal_strlit(" ");
        reveal_strlit(":");
        assert("/"@ =~= seq!['/']);
        assert(" "@ =~= seq![' ']);
        assert(":"@ =~= seq![':']);
        assert(out@ =~= time_string(year, month, day, hour, minute, second));
    }
    Ok(out)
}

/// What decoding a gamma chunk's data yields: the big-endian 32-bit integer
/// that stores the display gamma scaled by 100000. Fewer than 4 bytes is
/// `MalformedChunk`.
pub open spec fn spec_parse_gamma(d: Seq<u8>) -> Result<u32, PngError> {
    if d.len() < 4 {
        Err(PngError::MalformedChunk)
    } else {
        Ok(be32(d.subrange(0, 4)))
    }
}

/// Decodes the gamma chunk into the stored scaled integer, exactly as
/// `spec_parse_gamma` states. The display gamma is this value divided by
/// 100000; that floating-point division is left to the caller.
#[allow(non_snake_case)]
pub fn parse_gAMA_chunk(chunk: &PngChunk) -> (r: Result<u32, PngError>)
    ensures
        r == spec_parse_gamma(chunk.data@),
{
    if chunk.data.len() < 4 {
        return Err(PngError::MalformedChunk);
    }
    let gamma_slice = slice_subrange(chunk.data.as_slice(), 0, 4);
    proof {
        assert(gamma_slice@ =~= chunk.data@.subrange(0, 4));
    }
    match slice_to_u32(gamma_slice) {
        Ok(v) => Ok(v),
        Err(_) => {
            proof {
                assert(false);
            }
            Err(PngError::MalformedChunk)
        },
    }
}

/// The fixed 8-byte signature that opens every PNG file.
pub open spec fn png_signature() -> Seq<u8> {
    seq![0x89u8, 0x50u8, 0x4Eu8, 0x47u8, 0x0Du8, 0x0Au8, 0x1Au8, 0x0Au8]
}

/// The mathematical content of a parsed image descriptor.
pub ghost struct ImageDescView {
    pub width: u32,
    pub height: u32,
    pub bit_depth: u8,
    pub color_type: ColorType,
    pub compression_method: u8,
    pub filter_method: u8,
    pub interlace_method: u8,
    pub text_entries: Option<Seq<(Seq<char>, Seq<char>)>>,
    pub last_changed: Option<Seq<char>>,
    pub gamma: Option<u32>,
}

/// The parse result: the decoded header fields, and the decoded textual
/// metadata, timestamp and gamma, each present only when its chunk type
/// occurred. `gamma` holds the stored integer, the display gamma scaled by
/// 100000; dividing is left to the caller.
pub struct PngImage {
    pub width: u32,
    pub height: u32,
    pub bit_depth: u8,
    pub color_type: ColorType,
    pub compression_method: u8,
    pub filter_method: u8,
    pub interlace_method: u8,
    pub text_entries: Option<Vec<(String, String)>>,
    pub last_changed: Option<String>,
    pub gamma: Option<u32>,
}

impl View for PngImage {
    type V = ImageDescView;

    open spec fn view(&self) -> ImageDescView {
        ImageDescView {
            width: self.width,
            height: self.height,
            bit_depth: self.bit_depth,
            color_type: self.color_type,
            compression_method: self.compression_method,
            filter_method: self.filter_method,
            interlace_method: self.interlace_method,
            text_entries: match self.text_entries {
                Some(ref v) => Some(pairs_view(v@)),
                None => None,
            },
            last_changed: match self.last_changed {
                Some(ref s) => Some(s@),
                None => None,
            },
            gamma: self.gamma,
        }
    }
}

/// What parsing a whole file yields. The buffer must open with the fixed
/// 8-byte signature (`InvalidSignature` otherwise); the rest is framed into
/// chunks and grouped by tag; the mandatory image-header chunk must be
/// present (`MissingRequiredChunk` otherwise) and its first occurrence is
/// decoded; the textual-metadata, timestamp and gamma decoders run only when
/// their tag is present, in that order. Any decoder failure is the failure of
/// the whole parse.
pub open spec fn spec_read_png(bytes: Seq<u8>) -> Result<ImageDescView, PngError> {
    if bytes.len() < 8 || bytes.subrange(0, 8) != png_signature() {
        Err(PngError::InvalidSignature)
    } else {
        match spec_frame(bytes.skip(8)) {
            Err(e) => Err(e),
            Ok(recs) => {
                let table = spec_group(recs);
                if !table.contains_key("IHDR"@) {
                    Err(PngError::MissingRequiredChunk)
                } else {
                    match spec_parse_ihdr(table["IHDR"@][0]) {
                        Err(e) => Err(e),
                        Ok(h) => {
                            let text_r = if table.contains_key("tEXt"@) {
                                match spec_parse_text(table["tEXt"@]) {
                                    Ok(m) => Ok(Some(m)),
                                    Err(e) => Err(e),
                                }
                            } else {
                                Ok(None)
                            };
                            let time_r = if table.contains_key("tIME"@) {
                                match spec_parse_time(table["tIME"@][0]) {
                                    Ok(s) => Ok(Some(s)),
                                    Err(e) => Err(e),
                                }
                            } else {
                                Ok(None)
                            };
                            let gamma_r = if table.contains_key("gAMA"@) {
                                match spec_parse_gamma(table["gAMA"@][0]) {
                                    Ok(g) => Ok(Some(g)),
                                    Err(e) => Err(e),
                                }
                            } else {
                                Ok(None)
                            };
                            match text_r {
                                Err(e) => Err(e),
                                Ok(text) => match time_r {
                                    Err(e) => Err(e),
                                    Ok(time) => match gamma_r {
                                        Err(e) => Err(e),
                                        Ok(gamma) => Ok(
                                            ImageDescView {
                                                width: h.0,
                                                height: h.1,
                                                bit_depth: h.2,
                                                color_type: h.3,
                                                compression_method: h.4,
                                                filter_method: h.5,
                                                interlace_method: h.6,
                                                text_entries: text,
                                                last_changed: time,
                                                gamma,
                                            },
                                        ),
                                    },
                                },
                            }
                        },
                    }
                }
            },
        }
    }
}

/// Parses the full byte content of a PNG file into an image descriptor,
/// exactly as `spec_read_png` states: signature check, chunk framing, the
/// mandatory header, and the optional textual-metadata, timestamp and gamma
/// fields, absent when their chunk type is absent. Any failure aborts the
/// parse; no partial descriptor is returned.
pub fn read_png(bytes: &[u8]) -> (r: Result<PngImage, PngError>)
    ensures
        match r {
            Ok(img) => spec_read_png(bytes@) == Ok::<ImageDescView, PngError>(img@),
            Err(e) => spec_read_png(bytes@) == Err::<ImageDescView, PngError>(e),
        },
{
    if bytes.len() < 8 {
        return Err(PngError::InvalidSignature);
    }
    let sig: [u8; 8] = [0x89, 0x50, 0x4E, 0x47, 0x0D, 0x0A, 0x1A, 0x0A];
    let mut i: usize = 0;
    while i < 8
        invariant
            bytes@.len() >= 8,
            sig@ == png_signature(),
            0 <= i <= 8,
            forall|j: int| 0 <= j < i ==> bytes@[j] == png_signature()[j],
        decreases 8 - i,
    {
        if bytes[i] != sig[i] {
            proof {
                assert(bytes@.subrange(0, 8)[i as int] != png_signature()[i as int]);
            }
            return Err(PngError::InvalidSignature);
        }
        i += 1;
    }
    proof {
        assert(bytes@.subrange(0, 8) =~= png_signature());
    }
    let rest = slice_subrange(bytes, 8, bytes.len());
    proof {
        assert(rest@ =~= bytes@.skip(8));
    }
    let table = match read_png_chunks(rest) {
        Ok(t) => t,
        Err(e) => {
            return Err(e);
        },
    };
    let ihdr_group = match table.get("IHDR") {
        Some(g) => g,
        None => {
            return Err(PngError::MissingRequiredChunk);
        },
    };
    let header = match parse_IHDR_chunk(&ihdr_group[0]) {
        Ok(h) => h,
        Err(e) => {
            return Err(e);
        },
    };
    let text_entries = match table.get("tEXt") {
        Some(g) => match parse_tEXt_chunks(g) {
            Ok(pairs) => Some(pairs),
            Err(e) => {
                return Err(e);
            },
        },
        None => None,
    };
    let last_changed = match table.get("tIME") {
        Some(g) => match parse_tIME_chunk(&g[0]) {
            Ok(s) => Some(s),
            Err(e) => {
                return Err(e);
            },
        },
        None => None,
    };
    let gamma = match table.get("gAMA") {
        Some(g) => match parse_gAMA_chunk(&g[0]) {
            Ok(v) => Some(v),
            Err(e) => {
                return Err(e);
            },
        },
        None => None,
    };
    Ok(
        PngImage {
            width: header.0,
            height: header.1,
            bit_depth: header.2,
            color_type: header.3,
            compression_method: header.4,
            filter_method: header.5,
            interlace_method: header.6,
            text_entries,
            last_changed,
            gamma,
        },
    )
}

/// A buffer whose chunks carry no image-header tag fails with
/// `MissingRequiredChunk`, whatever other chunks are present.
pub proof fn lemma_missing_ihdr_fails(bytes: Seq<u8>)
    requires
        bytes.len() >= 8,
        bytes.subrange(0, 8) == png_signature(),
        spec_frame(bytes.skip(8)) is Ok,
        forall|i: int|
            0 <= i < spec_frame(bytes.skip(8))->Ok_0.len() ==> lossy_of(
                (#[trigger] spec_frame(bytes.skip(8))->Ok_0[i]).0,
            ) != "IHDR"@,
    ensures
        spec_read_png(bytes) == Err::<ImageDescView, PngError>(PngError::MissingRequiredChunk),
{
    lemma_group_membership(spec_frame(bytes.skip(8))->Ok_0, "IHDR"@);
}

/// Parsing is deterministic: the same buffer yields field-for-field identical
/// descriptors, however often it is parsed. Both results of `read_png` equal
/// `spec_read_png` of the buffer, so they equal each other.
pub proof fn lemma_parse_deterministic(
    bytes: Seq<u8>,
    r1: Result<ImageDescView, PngError>,
    r2: Result<ImageDescView, PngError>,
)
    requires
        r1 == spec_read_png(bytes),
        r2 == spec_read_png(bytes),
    ensures
        r1 == r2,
{
}

/// A header whose color-type byte is outside the five defined codes fails
/// with `InvalidColorType`, never a default and never a panic.
pub proof fn lemma_invalid_color_type_fails(data: Seq<u8>)
    requires
        data.len() >= 13,
        data[9] != 0 && data[9] != 2 && data[9] != 3 && data[9] != 4 && data[9] != 6,
    ensures
        spec_parse_ihdr(data) == Err::<IhdrFields, PngError>(PngError::InvalidColorType),
{
}

} // verus!
