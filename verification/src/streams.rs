//! Length-prefixed, compressed chunk streams: the band file format of the
//! time-slicing store.
//!
//! A band file is a sequence of records `[u32 big-endian length][payload]`;
//! each payload is one frame's byte range for that band, compressed with the
//! scheme fixed for the run. Truncated trailing data ends the stream and is
//! not an error.

use vstd::prelude::*;

verus! {

/// Compression scheme and level for band file chunks.
#[derive(Clone, Copy, Debug, PartialEq, Eq, Structural)]
pub enum Compression {
    GZip(u32),
    ZLib(u32),
    Deflate(u32),
}

impl Compression {
    /// Structural invariant: the level lies in the encoder's valid range.
    pub open spec fn wf(self) -> bool {
        match self {
            Compression::GZip(level) => level <= 9,
            Compression::ZLib(level) => level <= 9,
            Compression::Deflate(level) => level <= 9,
        }
    }
}

/// What flate2's gzip decoder returns on the given bytes: the decoded data,
/// or nothing where the bytes are not a well-formed gzip stream.
pub uninterp spec fn gunzip_of(bytes: Seq<u8>) -> Option<Seq<u8>>;

/// What flate2's zlib decoder returns on the given bytes.
pub uninterp spec fn zlib_unpack_of(bytes: Seq<u8>) -> Option<Seq<u8>>;

/// What flate2's raw-deflate decoder returns on the given bytes.
pub uninterp spec fn inflate_of(bytes: Seq<u8>) -> Option<Seq<u8>>;

/// What flate2's gzip encoder produces for the given level and data: the
/// header it writes is fixed (no time stamp), so the stream is a function
/// of the arguments alone.
pub uninterp spec fn gzip_pack_of(level: u32, data: Seq<u8>) -> Seq<u8>;

/// What flate2's zlib encoder produces for the given level and data.
pub uninterp spec fn zlib_pack_of(level: u32, data: Seq<u8>) -> Seq<u8>;

/// What flate2's raw-deflate encoder produces for the given level and data.
pub uninterp spec fn deflate_pack_of(level: u32, data: Seq<u8>) -> Seq<u8>;

/// What compressing a chunk under the given scheme produces.
pub open spec fn spec_pack(c: Compression, data: Seq<u8>) -> Seq<u8> {
    match c {
        Compression::GZip(level) => gzip_pack_of(level, data),
        Compression::ZLib(level) => zlib_pack_of(level, data),
        Compression::Deflate(level) => deflate_pack_of(level, data),
    }
}

/// What decoding a chunk payload under the given scheme returns; the level
/// plays no part in decoding.
pub open spec fn spec_decompress(c: Compression, bytes: Seq<u8>) -> Option<Seq<u8>> {
    match c {
        Compression::GZip(_) => gunzip_of(bytes),
        Compression::ZLib(_) => zlib_unpack_of(bytes),
        Compression::Deflate(_) => inflate_of(bytes),
    }
}

/// Relies on flate2's `write::GzEncoder` writing into a `Vec`: that cannot
/// fail, the header it writes is fixed, and the produced gzip stream
/// decodes back to exactly the input data. Levels above 10 are excluded
/// (the backend asserts against them).
#[verifier::external_body]
fn gzip_compress(data: &[u8], level: u32) -> (r: Vec<u8>)
    requires
        level <= 10,
    ensures
        r@ == gzip_pack_of(level, data@),
        gunzip_of(r@) == Some(data@),
{
    let mut e = flate2::write::GzEncoder::new(Vec::new(), flate2::Compression::new(level));
    std::io::Write::write_all(&mut e, data).expect("writing into a Vec cannot fail");
    e.finish().expect("finishing into a Vec cannot fail")
}

/// Relies on flate2's `write::ZlibEncoder` writing into a `Vec`: that
/// cannot fail, and the produced zlib stream decodes back to exactly the
/// input data. Levels above 10 are excluded (the backend asserts against
/// them).
#[verifier::external_body]
fn zlib_compress(data: &[u8], level: u32) -> (r: Vec<u8>)
    requires
        level <= 10,
    ensures
        r@ == zlib_pack_of(level, data@),
        zlib_unpack_of(r@) == Some(data@),
{
    let mut e = flate2::write::ZlibEncoder::new(Vec::new(), flate2::Compression::new(level));
    std::io::Write::write_all(&mut e, data).expect("writing into a Vec cannot fail");
    e.finish().expect("finishing into a Vec cannot fail")
}

/// Relies on flate2's `write::DeflateEncoder` writing into a `Vec`: that
/// cannot fail, and the produced deflate stream decodes back to exactly the
/// input data. Levels above 10 are excluded (the backend asserts against
/// them).
#[verifier::external_body]
fn deflate_compress(data: &[u8], level: u32) -> (r: Vec<u8>)
    requires
        level <= 10,
    ensures
        r@ == deflate_pack_of(level, data@),
        inflate_of(r@) == Some(data@),
{
    let mut e = flate2::write::DeflateEncoder::new(Vec::new(), flate2::Compression::new(level));
    std::io::Write::write_all(&mut e, data).expect("writing into a Vec cannot fail");
    e.finish().expect("finishing into a Vec cannot fail")
}

/// Relies on flate2's `read::GzDecoder`: decoding is a pure function of the
/// input bytes, and fails exactly where they are not a gzip stream.
#[verifier::external_body]
fn gzip_decompress(data: &[u8]) -> (r: Option<Vec<u8>>)
    ensures
        r matches Some(v) ==> gunzip_of(data@) == Some(v@),
        r is None ==> gunzip_of(data@) is None,
{
    let mut d = flate2::read::GzDecoder::new(data);
    let mut out = Vec::new();
    match std::io::Read::read_to_end(&mut d, &mut out) {
        Ok(_) => Some(out),
        Err(_) => None,
    }
}

/// Relies on flate2's `read::ZlibDecoder`: decoding is a pure function of
/// the input bytes, and fails exactly where they are not a zlib stream.
#[verifier::external_body]
fn zlib_decompress(data: &[u8]) -> (r: Option<Vec<u8>>)
    ensures
        r matches Some(v) ==> zlib_unpack_of(data@) == Some(v@),
        r is None ==> zlib_unpack_of(data@) is None,
{
    let mut d = flate2::read::ZlibDecoder::new(data);
    let mut out = Vec::new();
    match std::io::Read::read_to_end(&mut d, &mut out) {
        Ok(_) => Some(out),
        Err(_) => None,
    }
}

/// Relies on flate2's `read::DeflateDecoder`: decoding is a pure function of
/// the input bytes, and fails exactly where they are not a deflate stream.
#[verifier::external_body]
fn deflate_decompress(data: &[u8]) -> (r: Option<Vec<u8>>)
    ensures
        r matches Some(v) ==> inflate_of(data@) == Some(v@),
        r is None ==> inflate_of(data@) is None,
{
    let mut d = flate2::read::DeflateDecoder::new(data);
    let mut out = Vec::new();
    match std::io::Read::read_to_end(&mut d, &mut out) {
        Ok(_) => Some(out),
        Err(_) => None,
    }
}

/// Compresses data under the given scheme.
fn compress(c: &Compression, data: &[u8]) -> (r: Vec<u8>)
    requires
        c.wf(),
    ensures
        r@ == spec_pack(*c, data@),
        spec_decompress(*c, r@) == Some(data@),
{
    match c {
        Compression::GZip(level) => gzip_compress(data, *level),
        Compression::ZLib(level) => zlib_compress(data, *level),
        Compression::Deflate(level) => deflate_compress(data, *level),
    }
}

/// Decompresses a chunk payload under the given scheme.
fn decompress(c: &Compression, data: &[u8]) -> (r: Option<Vec<u8>>)
    ensures
        r matches Some(v) ==> spec_decompress(*c, data@) == Some(v@),
        r is None ==> spec_decompress(*c, data@) is None,
{
    match c {
        Compression::GZip(_) => gzip_decompress(data),
        Compression::ZLib(_) => zlib_decompress(data),
        Compression::Deflate(_) => deflate_decompress(data),
    }
}

/// The value of four big-endian bytes.
pub open spec fn spec_be_value(b0: u8, b1: u8, b2: u8, b3: u8) -> int {
    (b0 as int) * 0x1000000 + (b1 as int) * 0x10000 + (b2 as int) * 0x100 + (b3 as int)
}

/// The four big-endian bytes of a 32-bit value.
pub open spec fn spec_be_bytes(n: int) -> Seq<u8> {
    seq![
        ((n / 0x1000000) % 256) as u8,
        ((n / 0x10000) % 256) as u8,
        ((n / 0x100) % 256) as u8,
        (n % 256) as u8,
    ]
}

/// Writing a 32-bit value as four big-endian bytes and reading them back
/// yields the value.
pub proof fn lemma_be_round_trip(n: int)
    requires
        0 <= n < 0x100000000,
    ensures
        spec_be_value(
            spec_be_bytes(n)[0],
            spec_be_bytes(n)[1],
            spec_be_bytes(n)[2],
            spec_be_bytes(n)[3],
        ) == n,
{
    let q1 = n / 0x100;
    let q2 = n / 0x10000;
    let q3 = n / 0x1000000;
    vstd::arithmetic::div_mod::lemma_fundamental_div_mod(n, 0x100);
    vstd::arithmetic::div_mod::lemma_div_denominator(n, 0x100, 0x100);
    assert(q1 / 0x100 == q2);
    vstd::arithmetic::div_mod::lemma_fundamental_div_mod(q1, 0x100);
    vstd::arithmetic::div_mod::lemma_div_denominator(n, 0x10000, 0x100);
    assert(q2 / 0x100 == q3);
    vstd::arithmetic::div_mod::lemma_fundamental_div_mod(q2, 0x100);
    vstd::arithmetic::div_mod::lemma_div_pos_is_pos(n, 0x1000000);
    vstd::arithmetic::div_mod::lemma_multiply_divide_lt(n, 0x1000000, 0x100);
    vstd::arithmetic::div_mod::lemma_small_mod(q3 as nat, 0x100);
}

/// One band file record: the payload's length as four big-endian bytes,
/// then the payload.
pub open spec fn spec_chunk_record(payload: Seq<u8>) -> Seq<u8> {
    spec_be_bytes(payload.len() as int) + payload
}

/// The payloads of the complete records at the head of a band file;
/// truncated trailing data ends the sequence.
pub open spec fn spec_chunks(data: Seq<u8>) -> Seq<Seq<u8>>
    decreases data.len(),
{
    if data.len() < 4 {
        Seq::empty()
    } else {
        let len = spec_be_value(data[0], data[1], data[2], data[3]);
        if data.len() < 4 + len {
            Seq::empty()
        } else {
            seq![data.subrange(4, 4 + len)] + spec_chunks(
                data.subrange(4 + len, data.len() as int),
            )
        }
    }
}

/// Whether the data consists of complete records only.
pub open spec fn is_chunked(data: Seq<u8>) -> bool
    decreases data.len(),
{
    data.len() == 0 || {
        &&& data.len() >= 4
        &&& {
            let len = spec_be_value(data[0], data[1], data[2], data[3]);
            data.len() >= 4 + len && is_chunked(data.subrange(4 + len, data.len() as int))
        }
    }
}

/// Appending a complete record to fully-chunked data appends its payload to
/// the parsed chunk sequence.
pub proof fn lemma_chunks_append(data: Seq<u8>, payload: Seq<u8>)
    requires
        is_chunked(data),
        payload.len() < 0x100000000,
    ensures
        is_chunked(data + spec_chunk_record(payload)),
        spec_chunks(data + spec_chunk_record(payload)) == spec_chunks(data).push(payload),
    decreases data.len(),
{
    let rec = spec_chunk_record(payload);
    let whole = data + rec;
    lemma_be_round_trip(payload.len() as int);
    if data.len() == 0 {
        assert(whole =~= rec);
        assert(spec_be_value(whole[0], whole[1], whole[2], whole[3]) == payload.len());
        assert(whole.subrange(4, 4 + payload.len() as int) =~= payload);
        let tail = whole.subrange(4 + payload.len() as int, whole.len() as int);
        assert(tail =~= Seq::<u8>::empty());
        assert(spec_chunks(Seq::<u8>::empty()) == Seq::<Seq<u8>>::empty());
        assert(is_chunked(Seq::<u8>::empty()));
        assert(whole.len() == 4 + payload.len());
        assert(spec_chunks(whole) =~~= spec_chunks(data).push(payload));
        assert(is_chunked(whole));
    } else {
        let len0 = spec_be_value(data[0], data[1], data[2], data[3]);
        let rest = data.subrange(4 + len0, data.len() as int);
        lemma_chunks_append(rest, payload);
        assert(whole[0] == data[0] && whole[1] == data[1] && whole[2] == data[2] && whole[3]
            == data[3]);
        assert(whole.len() >= 4 + len0);
        assert(whole.subrange(4, 4 + len0) =~= data.subrange(4, 4 + len0));
        assert(whole.subrange(4 + len0, whole.len() as int) =~= rest + rec);
        assert(spec_chunks(whole) =~~= spec_chunks(data).push(payload));
    }
}

/// The record at the given position of a band file: its payload and the
/// position after it, or nothing at end-of-stream (fewer than four bytes
/// left, or a truncated payload).
pub open spec fn spec_next_chunk(data: Seq<u8>, pos: int) -> Option<(Seq<u8>, int)> {
    let rest = data.skip(pos);
    if rest.len() < 4 {
        None
    } else {
        let len = spec_be_value(rest[0], rest[1], rest[2], rest[3]);
        if rest.len() < 4 + len {
            None
        } else {
            Some((rest.subrange(4, 4 + len), pos + 4 + len))
        }
    }
}

/// Reading one record advances through the parsed chunk sequence.
pub proof fn lemma_next_chunk_step(data: Seq<u8>, pos: int)
    requires
        0 <= pos <= data.len(),
        spec_next_chunk(data, pos) is Some,
    ensures
        ({
            let (payload, newpos) = spec_next_chunk(data, pos)->0;
            &&& pos < newpos <= data.len()
            &&& spec_chunks(data.skip(pos)) == seq![payload] + spec_chunks(data.skip(newpos))
        }),
{
    let rest = data.skip(pos);
    let len = spec_be_value(rest[0], rest[1], rest[2], rest[3]);
    let (payload, newpos) = spec_next_chunk(data, pos)->0;
    assert(rest.subrange(4 + len, rest.len() as int) =~= data.skip(newpos));
    assert(spec_chunks(data.skip(pos)) =~~= seq![payload] + spec_chunks(data.skip(newpos)));
}

/// Error of compressing a chunk, or of a compressed chunk too large for its
/// length prefix.
#[derive(Debug, Clone, PartialEq, Eq, Structural)]
pub struct CompressError;

/// Error of a chunk payload that does not decode under the stream's scheme.
#[derive(Debug, Clone, PartialEq, Eq, Structural)]
pub struct ChunkDecodeError;

/// An in-memory band file under construction: chunks are appended as
/// length-prefixed compressed records. The caller persists the buffer.
pub struct PixelOutputStream {
    pub buffer: Vec<u8>,
    pub compression: Compression,
    pub chunks: Ghost<Seq<Seq<u8>>>,
}

impl PixelOutputStream {
    /// Structural invariant: a valid compression level, and a buffer of
    /// complete records whose payloads decode to exactly the written chunks.
    pub open spec fn wf(self) -> bool {
        &&& self.compression.wf()
        &&& is_chunked(self.buffer@)
        &&& spec_chunks(self.buffer@).len() == self.chunks@.len()
        &&& forall|i: int|
            0 <= i < self.chunks@.len() ==> spec_decompress(
                self.compression,
                #[trigger] spec_chunks(self.buffer@)[i],
            ) == Some(self.chunks@[i])
    }

    /// Creates an empty band file stream.
    pub fn new(compression: Compression) -> (r: Self)
        requires
            compression.wf(),
        ensures
            r.wf(),
            r.compression == compression,
            r.chunks@ == Seq::<Seq<u8>>::empty(),
            r.buffer@ == Seq::<u8>::empty(),
    {
        PixelOutputStream { buffer: Vec::new(), compression, chunks: Ghost(Seq::empty()) }
    }

    /// Compresses one chunk and appends it to the band file as a
    /// length-prefixed record; returns the compressed size. The band file
    /// is append-only: the buffer changes by exactly one record at its end.
    /// Fails if and only if the compressed chunk is too large for its
    /// length prefix.
    pub fn write_chunk(&mut self, bytes: &[u8]) -> (r: Result<usize, CompressError>)
        requires
            old(self).wf(),
        ensures
            final(self).wf(),
            final(self).compression == old(self).compression,
            r is Ok <==> spec_pack(old(self).compression, bytes@).len() <= 0xFFFF_FFFF,
            r matches Ok(m) ==> {
                let packed = spec_pack(old(self).compression, bytes@);
                &&& m == packed.len()
                &&& final(self).buffer@ == old(self).buffer@ + spec_chunk_record(packed)
                &&& final(self).chunks@ == old(self).chunks@.push(bytes@)
            },
            r is Err ==> *final(self) == *old(self),
    {
        let compressed = compress(&self.compression, bytes);
        if compressed.len() > 0xFFFF_FFFFusize {
            return Err(CompressError);
        }
        let n = compressed.len() as u32;
        let ghost buffer0 = self.buffer@;
        let b0 = (n / 0x1000000) as u8;
        let b1 = ((n / 0x10000) % 256) as u8;
        let b2 = ((n / 0x100) % 256) as u8;
        let b3 = (n % 256) as u8;
        proof {
            vstd::arithmetic::div_mod::lemma_div_pos_is_pos(n as int, 0x1000000);
            vstd::arithmetic::div_mod::lemma_multiply_divide_lt(n as int, 0x1000000, 0x100);
            vstd::arithmetic::div_mod::lemma_small_mod((n as int / 0x1000000) as nat, 0x100);
        }
        self.buffer.push(b0);
        self.buffer.push(b1);
        self.buffer.push(b2);
        self.buffer.push(b3);
        self.buffer.extend_from_slice(compressed.as_slice());
        proof {
            assert(self.buffer@ =~= buffer0 + spec_chunk_record(compressed@));
            lemma_chunks_append(buffer0, compressed@);
        }
        self.chunks = Ghost(self.chunks@.push(bytes@));
        Ok(compressed.len())
    }
}

/// Provides a stream of image file paths from a file search pattern; the
/// caller decodes each file in turn.
pub struct ImageStream {
    pub files: Vec<String>,
    pub pos: usize,
}

impl ImageStream {
    /// Structural invariant: the cursor lies within the file list.
    pub open spec fn wf(self) -> bool {
        self.pos <= self.files@.len()
    }

    /// Creates an ImageStream from a file search pattern, restricted to the
    /// frame window where one is set.
    pub fn from_pattern(pattern: &str, frames: &Option<crate::flist::FrameRange>) -> (r: Result<
        Self,
        glob::PatternError,
    >)
        requires
            match frames {
                Some(fr) => fr.wf(),
                None => true,
            },
        ensures
            r matches Ok(s) ==> s.wf() && s.pos == 0,
    {
        let lister = crate::flist::FileLister::new(pattern, frames);
        match lister.files_vec() {
            Ok(files) => Ok(ImageStream { files, pos: 0 }),
            Err(e) => Err(e),
        }
    }

    /// The number of images left in this stream.
    pub fn len(&self) -> (r: usize)
        requires
            self.wf(),
        ensures
            r == self.files@.len() - self.pos,
    {
        self.files.len() - self.pos
    }

    /// Skips the next image without decoding it.
    pub fn skip(&mut self) -> (r: Option<()>)
        requires
            old(self).wf(),
        ensures
            final(self).wf(),
            final(self).files == old(self).files,
            old(self).pos == old(self).files@.len() ==> r is None && final(self).pos == old(
                self,
            ).pos,
            old(self).pos < old(self).files@.len() ==> r is Some && final(self).pos == old(
                self,
            ).pos + 1,
    {
        if self.pos < self.files.len() {
            self.pos = self.pos + 1;
            Some(())
        } else {
            None
        }
    }

    /// The path of the next image, advancing the stream; `None` at the end.
    pub fn next_path(&mut self) -> (r: Option<String>)
        requires
            old(self).wf(),
        ensures
            final(self).wf(),
            final(self).files == old(self).files,
            old(self).pos == old(self).files@.len() ==> r is None && final(self).pos == old(
                self,
            ).pos,
            old(self).pos < old(self).files@.len() ==> final(self).pos == old(self).pos + 1 && (
            r matches Some(p) && p@ == old(self).files@[old(self).pos as int]@),
    {
        if self.pos < self.files.len() {
            let p = self.files[self.pos].clone();
            self.pos = self.pos + 1;
            Some(p)
        } else {
            None
        }
    }
}

/// Whether every chunk decodes under the scheme.
pub open spec fn spec_all_decode(c: Compression, chunks: Seq<Seq<u8>>) -> bool {
    forall|i: int| 0 <= i < chunks.len() ==> (#[trigger] spec_decompress(c, chunks[i])) is Some
}

/// The decoded form of each chunk.
pub open spec fn spec_decoded(c: Compression, chunks: Seq<Seq<u8>>) -> Seq<Seq<u8>> {
    chunks.map_values(|p: Seq<u8>| spec_decompress(c, p)->0)
}

/// The concatenation of a sequence of byte sequences.
pub open spec fn spec_concat(parts: Seq<Seq<u8>>) -> Seq<u8>
    decreases parts.len(),
{
    if parts.len() == 0 {
        Seq::empty()
    } else {
        spec_concat(parts.drop_last()) + parts.last()
    }
}

/// The chunk indices an ascending selection keeps of `n` chunks: the
/// longest prefix of the list whose entries lie below `n` (a later entry
/// runs past the end of the stream and ends the read).
pub open spec fn spec_selected(idxs: Seq<usize>, n: int) -> Seq<int>
    decreases idxs.len(),
{
    if idxs.len() == 0 {
        Seq::empty()
    } else if (idxs[0] as int) < n {
        seq![idxs[0] as int] + spec_selected(idxs.drop_first(), n)
    } else {
        Seq::empty()
    }
}

/// The concatenation of the decoded chunks at the selected indices.
pub open spec fn spec_concat_selected(c: Compression, chunks: Seq<Seq<u8>>, sel: Seq<int>) -> Seq<
    u8,
>
    decreases sel.len(),
{
    if sel.len() == 0 {
        Seq::empty()
    } else {
        spec_concat_selected(c, chunks, sel.drop_last()) + spec_decompress(
            c,
            chunks[sel.last()],
        )->0
    }
}

/// Where the first `k` selection entries lie below `n`, the selection
/// begins with exactly those entries.
pub proof fn lemma_selected_extends(idxs: Seq<usize>, n: int, k: int)
    requires
        0 <= k <= idxs.len(),
        forall|j: int| 0 <= j < k ==> ((#[trigger] idxs[j]) as int) < n,
    ensures
        spec_selected(idxs, n).len() >= k,
        forall|j: int| 0 <= j < k ==> #[trigger] spec_selected(idxs, n)[j] == idxs[j] as int,
    decreases idxs.len(),
{
    if idxs.len() == 0 || k == 0 {
    } else {
        lemma_selected_extends(idxs.drop_first(), n, k - 1);
        assert forall|j: int| 0 <= j < k implies #[trigger] spec_selected(idxs, n)[j] == idxs[j]
            as int by {
            if j >= 1 {
                assert(spec_selected(idxs, n)[j] == spec_selected(idxs.drop_first(), n)[j - 1]);
                assert(idxs.drop_first()[j - 1] == idxs[j]);
            }
        }
    }
}

/// Where the first `k` selection entries lie below `n` and the next does
/// not, the selection is exactly those `k` entries.
pub proof fn lemma_selected_prefix(idxs: Seq<usize>, n: int, k: int)
    requires
        0 <= k <= idxs.len(),
        forall|j: int| 0 <= j < k ==> ((#[trigger] idxs[j]) as int) < n,
        k < idxs.len() ==> (idxs[k] as int) >= n,
    ensures
        spec_selected(idxs, n) =~= Seq::new(k as nat, |j: int| idxs[j] as int),
    decreases idxs.len(),
{
    if idxs.len() == 0 {
    } else if k == 0 {
    } else {
        lemma_selected_prefix(idxs.drop_first(), n, k - 1);
        assert(seq![idxs[0] as int] + Seq::new(
            (k - 1) as nat,
            |j: int| idxs.drop_first()[j] as int,
        ) =~= Seq::new(k as nat, |j: int| idxs[j] as int));
    }
}

/// An in-memory band file being read: length-prefixed compressed records are
/// decoded in order from a byte buffer the caller loaded.
pub struct PixelInputStream {
    pub data: Vec<u8>,
    pub pos: usize,
    pub compression: Compression,
}

impl PixelInputStream {
    /// Opens a band file image for reading.
    pub fn new(data: Vec<u8>, compression: Compression) -> (r: Self)
        ensures
            r.data@ == data@,
            r.pos == 0,
            r.compression == compression,
    {
        PixelInputStream { data, pos: 0, compression }
    }

    /// Reads the next record, decompresses it, and appends the decoded bytes
    /// to `out`; returns their number. Returns `Ok(None)` at end-of-stream
    /// (a normal termination signal), and an error for a payload that does
    /// not decode.
    pub fn read_chunk(&mut self, out: &mut Vec<u8>) -> (r: Result<Option<usize>, ChunkDecodeError>)
        requires
            old(self).pos <= old(self).data@.len(),
        ensures
            final(self).data == old(self).data,
            final(self).compression == old(self).compression,
            final(self).pos <= final(self).data@.len(),
            spec_next_chunk(old(self).data@, old(self).pos as int) is None ==> {
                &&& r == Ok::<Option<usize>, ChunkDecodeError>(None)
                &&& final(self).pos == old(self).pos
                &&& final(out)@ == old(out)@
            },
            spec_next_chunk(old(self).data@, old(self).pos as int) matches Some(pc) ==> {
                match spec_decompress(old(self).compression, pc.0) {
                    Some(d) => {
                        &&& r matches Ok(rr) && rr matches Some(nn) && nn == d.len()
                        &&& final(out)@ == old(out)@ + d
                        &&& final(self).pos == pc.1
                    },
                    None => r is Err && final(self).pos == old(self).pos && final(out)@ == old(
                        out,
                    )@,
                }
            },
    {
        let rest_len = self.data.len() - self.pos;
        if rest_len < 4 {
            return Ok(None);
        }
        let b0 = self.data[self.pos];
        let b1 = self.data[self.pos + 1];
        let b2 = self.data[self.pos + 2];
        let b3 = self.data[self.pos + 3];
        let len = ((b0 as u32) * 0x1000000 + (b1 as u32) * 0x10000 + (b2 as u32) * 0x100 + (
        b3 as u32)) as usize;
        proof {
            let rest = self.data@.skip(self.pos as int);
            assert(rest[0] == b0 && rest[1] == b1 && rest[2] == b2 && rest[3] == b3);
        }
        if rest_len - 4 < len {
            return Ok(None);
        }
        let start = self.pos + 4;
        let payload: &[u8] = &self.data.as_slice()[start..start + len];
        proof {
            let rest = self.data@.skip(self.pos as int);
            assert(payload@ =~= rest.subrange(4, 4 + len as int));
        }
        match decompress(&self.compression, payload) {
            Some(d) => {
                let sz = d.len();
                let mut d = d;
                out.append(&mut d);
                self.pos = start + len;
                Ok(Some(sz))
            },
            None => Err(ChunkDecodeError),
        }
    }

    /// Skips the next record without decompressing it: whenever a 4-byte
    /// length is readable, seeks past the record (clamped to the end of the
    /// data, where the payload is truncated) and returns `Some(0)`. Returns
    /// `None` only at end-of-stream at the record header.
    pub fn skip_chunk(&mut self) -> (r: Option<usize>)
        requires
            old(self).pos <= old(self).data@.len(),
        ensures
            final(self).data == old(self).data,
            final(self).compression == old(self).compression,
            final(self).pos <= final(self).data@.len(),
            old(self).data@.len() - old(self).pos < 4 ==> r == None::<usize> && final(self).pos
                == old(self).pos,
            old(self).data@.len() - old(self).pos >= 4 ==> {
                let rest = old(self).data@.skip(old(self).pos as int);
                let len = spec_be_value(rest[0], rest[1], rest[2], rest[3]);
                &&& r == Some(0usize)
                &&& final(self).pos as int == if old(self).pos + 4 + len > old(
                    self,
                ).data@.len() {
                    old(self).data@.len() as int
                } else {
                    old(self).pos + 4 + len
                }
            },
    {
        let rest_len = self.data.len() - self.pos;
        if rest_len < 4 {
            return None;
        }
        let b0 = self.data[self.pos];
        let b1 = self.data[self.pos + 1];
        let b2 = self.data[self.pos + 2];
        let b3 = self.data[self.pos + 3];
        let len = ((b0 as u32) * 0x1000000 + (b1 as u32) * 0x10000 + (b2 as u32) * 0x100 + (
        b3 as u32)) as usize;
        proof {
            let rest = self.data@.skip(self.pos as int);
            assert(rest[0] == b0 && rest[1] == b1 && rest[2] == b2 && rest[3] == b3);
        }
        if rest_len - 4 < len {
            self.pos = self.data.len();
        } else {
            self.pos = self.pos + 4 + len;
        }
        Some(0)
    }
}

} // verus!
