//! The chunked pipeline: a buffer is cut into one chunk per worker, every
//! chunk is packed (and encrypted) or (decrypted and) unpacked on its own,
//! and the outputs are joined in chunk order behind or without the header.
//!
//! The functions here do the work of all workers in turn. A caller that
//! wants the chunks processed in parallel takes the bounds from
//! `chunk_bounds`, hands each chunk to `process_encode` or `process_decode`
//! on a thread of its own, and gives the outcomes, in chunk order, to
//! `join_chunks`. What it then holds goes to `frame_stream` behind the
//! header, or with the dimensions of the header to `sized_raster`.

use vstd::prelude::*;
use vstd::slice::{slice_subrange, slice_to_vec};
use crate::chunks::{
    chunk_bounds, chunk_size, chunk_start, chunks_aligned, chunks_of, concat_parts,
    lemma_chunk_of_concat, lemma_chunks_partition, lemma_chunks_tile, lemma_concat_agrees,
    lemma_concat_scaled, spec_chunk,
};
use crate::cipher::{decrypt, encrypt, result_view, spec_decrypt, spec_encrypt};
use crate::codec::{
    all_palette_entries, decode, encode, encoded_len, lemma_decode_concat,
    lemma_decode_encode_padded, padding_pixel, pixel_at, pixel_count, spec_decode, spec_encode,
};
use crate::error::CodecError;
use crate::header::{
    dimensions_fit, lemma_unpack_pack, pack_dimensions, spec_pack, spec_unpack, unpack_dimensions,
    HEADER_LEN, MAX_DIMENSION,
};
use crate::palette::is_palette_entry;

verus! {

/// A picture as plain values: its dimensions and its pixels, row by row,
/// three bytes to a pixel.
#[derive(Debug, PartialEq, Eq)]
pub struct Raster {
    pub height: u32,
    pub width: u32,
    pub pixels: Vec<u8>,
}

/// A picture in contracts.
pub struct RasterView {
    pub height: int,
    pub width: int,
    pub pixels: Seq<u8>,
}

/// Number of bytes that the pixels of a picture of these dimensions take.
pub open spec fn pixel_bytes(height: int, width: int) -> int {
    3 * height * width
}

/// The pixel buffer of a picture of these dimensions out of what a body
/// unpacked to: its first bytes, as many as the dimensions call for. What
/// lies behind them, such as the padding pixel of an odd pixel count, is cut
/// off. Where fewer bytes were unpacked than the dimensions call for, the
/// buffer is all of them.
pub open spec fn sized_by(unpacked: Seq<u8>, height: int, width: int) -> Seq<u8> {
    if unpacked.len() >= pixel_bytes(height, width) {
        unpacked.take(pixel_bytes(height, width))
    } else {
        unpacked
    }
}

/// Length of the pixel buffer of a picture of these dimensions out of a
/// body of `body_len` bytes, which unpacks to six times as many.
pub open spec fn sized_len(body_len: int, height: int, width: int) -> int {
    if 6 * body_len >= pixel_bytes(height, width) {
        pixel_bytes(height, width)
    } else {
        6 * body_len
    }
}

impl RasterView {
    /// Whether the buffer holds exactly the pixels that the dimensions call
    /// for.
    pub open spec fn is_complete(self) -> bool {
        self.pixels.len() == pixel_bytes(self.height, self.width)
    }
}

impl View for Raster {
    type V = RasterView;

    open spec fn view(&self) -> RasterView {
        RasterView { height: self.height as int, width: self.width as int, pixels: self.pixels@ }
    }
}

/// The key string, if there is one, as a sequence of characters.
pub open spec fn key_view(key_opt: Option<String>) -> Option<Seq<char>> {
    match key_opt {
        Some(key) => Some(key@),
        None => None,
    }
}

/// The outcome of decoding a stream, with the picture as its view.
pub open spec fn raster_result_view(r: Result<Raster, CodecError>) -> Result<
    RasterView,
    CodecError,
> {
    match r {
        Ok(img) => Ok(img@),
        Err(e) => Err(e),
    }
}

/// The outcomes of the workers, each with its bytes as a sequence.
pub open spec fn results_view(results: Seq<Result<Vec<u8>, CodecError>>) -> Seq<
    Result<Seq<u8>, CodecError>,
> {
    Seq::new(results.len(), |i: int| result_view(results[i]))
}

/// What a worker makes of a chunk of pixels: its packed form, encrypted
/// where there is a key.
pub open spec fn spec_process_encode(chunk: Seq<u8>, key: Option<Seq<char>>) -> Result<
    Seq<u8>,
    CodecError,
> {
    match key {
        Some(code) => spec_encrypt(spec_encode(chunk), code),
        None => Ok(spec_encode(chunk)),
    }
}

/// What a worker makes of a chunk of a stream's body: the pixels of the
/// chunk, decrypted first where there is a key.
pub open spec fn spec_process_decode(chunk: Seq<u8>, key: Option<Seq<char>>) -> Result<
    Seq<u8>,
    CodecError,
> {
    match key {
        Some(code) => match spec_decrypt(chunk, code) {
            Ok(plain) => Ok(spec_decode(plain)),
            Err(e) => Err(e),
        },
        None => Ok(spec_decode(chunk)),
    }
}

/// Whether `out` is an output of the encoding worker for `chunk` that the
/// decoding worker takes back: it is as long as the packed chunk, and under
/// the same key it unpacks to what the packed chunk unpacks to.
pub open spec fn undoes(out: Seq<u8>, chunk: Seq<u8>, key: Option<Seq<char>>) -> bool {
    &&& out.len() == encoded_len(chunk.len() as int)
    &&& spec_process_decode(out, key) == Ok::<Seq<u8>, CodecError>(
        spec_decode(spec_encode(chunk)),
    )
}

/// The first `n` outcomes joined in order. One failed worker fails the
/// whole, and the failure is reported as an invalid key.
pub open spec fn join_results(results: Seq<Result<Seq<u8>, CodecError>>, n: int) -> Result<
    Seq<u8>,
    CodecError,
>
    decreases n,
{
    if n <= 0 {
        Ok(Seq::empty())
    } else {
        match (join_results(results, n - 1), results[n - 1]) {
            (Ok(head), Ok(tail)) => Ok(head + tail),
            _ => Err(CodecError::InvalidKey),
        }
    }
}

/// The parts of outcomes: the bytes of every success.
pub open spec fn parts_of(results: Seq<Result<Seq<u8>, CodecError>>) -> Seq<Seq<u8>> {
    Seq::new(results.len(), |i: int| results[i]->Ok_0)
}

/// The outcomes of the workers that encode `data`, in chunk order.
pub open spec fn encode_outcomes(data: Seq<u8>, key: Option<Seq<char>>, workers: int) -> Seq<
    Result<Seq<u8>, CodecError>,
> {
    Seq::new(workers as nat, |i: int| spec_process_encode(spec_chunk(data, workers, i), key))
}

/// The outcomes of the workers that decode `body`, in chunk order.
pub open spec fn decode_outcomes(body: Seq<u8>, key: Option<Seq<char>>, workers: int) -> Seq<
    Result<Seq<u8>, CodecError>,
> {
    Seq::new(workers as nat, |i: int| spec_process_decode(spec_chunk(body, workers, i), key))
}

/// The stream of a picture: nothing for dimensions that do not fit, else
/// the header and behind it the joined outputs of the workers.
pub open spec fn spec_encode_image(img: RasterView, key: Option<Seq<char>>, workers: int) -> Result<
    Seq<u8>,
    CodecError,
> {
    if !dimensions_fit(img.height, img.width) {
        Err(CodecError::DimensionOverflow)
    } else {
        match join_results(encode_outcomes(img.pixels, key, workers), workers) {
            Ok(body) => Ok(spec_pack(img.height, img.width) + body),
            Err(e) => Err(e),
        }
    }
}

/// The picture of a stream: nothing for a stream shorter than its header,
/// else the dimensions of the header and, out of the joined outputs of the
/// workers on what follows it, the pixel buffer sized by those dimensions.
pub open spec fn spec_decode_image(bytes: Seq<u8>, key: Option<Seq<char>>, workers: int) -> Result<
    RasterView,
    CodecError,
> {
    if bytes.len() < HEADER_LEN {
        Err(CodecError::MalformedHeader)
    } else {
        match join_results(decode_outcomes(bytes.skip(3), key, workers), workers) {
            Ok(unpacked) => {
                let dims = spec_unpack(bytes[0], bytes[1], bytes[2]);
                Ok(
                    RasterView {
                        height: dims.0,
                        width: dims.1,
                        pixels: sized_by(unpacked, dims.0, dims.1),
                    },
                )
            },
            Err(e) => Err(e),
        }
    }
}

/// Whether `stream` decodes to the picture `img` again where that can be
/// asked for: the buffer holds exactly the pixels of the picture, all of
/// them colours of the code table, the chunks fall apart between pixel
/// pairs, and key and number of workers are those of the encoding.
pub open spec fn decodes_back(
    stream: Seq<u8>,
    img: RasterView,
    key: Option<Seq<char>>,
    workers: int,
) -> bool {
    img.is_complete() && chunks_aligned(img.pixels.len() as int, workers) && all_palette_entries(
        img.pixels,
    ) ==> spec_decode_image(stream, key, workers) == Ok::<RasterView, CodecError>(img)
}

/// Once one of the first outcomes has failed, so has every longer join.
proof fn lemma_join_fails(results: Seq<Result<Seq<u8>, CodecError>>, bad: int, n: int)
    requires
        0 <= bad < n,
        results[bad] is Err,
    ensures
        join_results(results, n) == Err::<Seq<u8>, CodecError>(CodecError::InvalidKey),
    decreases n,
{
    if bad < n - 1 {
        lemma_join_fails(results, bad, n - 1);
    }
}

/// Outcomes that are all successes join to their parts one behind the
/// other.
proof fn lemma_join_all_ok(results: Seq<Result<Seq<u8>, CodecError>>, parts: Seq<Seq<u8>>, n: int)
    requires
        0 <= n <= results.len(),
        n <= parts.len(),
        forall|i: int| 0 <= i < n ==> results[i] == Ok::<Seq<u8>, CodecError>(parts[i]),
    ensures
        join_results(results, n) == Ok::<Seq<u8>, CodecError>(concat_parts(parts, n)),
    decreases n,
{
    if n > 0 {
        lemma_join_all_ok(results, parts, n - 1);
    }
}

/// A join that succeeded had only successes to join, and is their parts one
/// behind the other.
proof fn lemma_join_ok(results: Seq<Result<Seq<u8>, CodecError>>, n: int)
    requires
        0 <= n <= results.len(),
        join_results(results, n) is Ok,
    ensures
        forall|i: int| 0 <= i < n ==> (#[trigger] results[i]) is Ok,
        join_results(results, n) == Ok::<Seq<u8>, CodecError>(concat_parts(parts_of(results), n)),
    decreases n,
{
    if n > 0 {
        lemma_join_ok(results, n - 1);
    }
}

/// A chunk out of a buffer of colours of the code table that falls apart
/// between pixel pairs holds whole pixels, all of them colours of the code
/// table, and every chunk but the last an even number of them.
proof fn lemma_chunk_of_palette_entries(pixels: Seq<u8>, workers: int, i: int)
    requires
        0 < workers,
        0 <= i < workers,
        chunks_aligned(pixels.len() as int, workers),
        all_palette_entries(pixels),
    ensures
        spec_chunk(pixels, workers, i).len() % 3 == 0,
        all_palette_entries(spec_chunk(pixels, workers, i)),
        i < workers - 1 ==> spec_chunk(pixels, workers, i).len() == chunk_size(
            pixels.len() as int,
            workers,
        ) && chunk_size(pixels.len() as int, workers) % 6 == 0,
{
    let len = pixels.len() as int;
    let size = chunk_size(len, workers);
    let chunk = spec_chunk(pixels, workers, i);
    let start = chunk_start(len, workers, i);
    lemma_chunks_tile(len, workers, i);
    if workers > 1 {
        let sixth = size / 6;
        assert(start == 6 * (i * sixth)) by (nonlinear_arith)
            requires
                start == i * size,
                size == 6 * sixth,
        ;
    }
    assert forall|p: int| 0 <= p < pixel_count(chunk.len() as int) implies is_palette_entry(
        #[trigger] pixel_at(chunk, p),
    ) by {
        assert(pixel_at(chunk, p) =~= pixel_at(pixels, start / 3 + p));
    }
}

/// A stream put together from the outputs of the encoding workers decodes,
/// with the same key and the same number of workers, to the picture that
/// was encoded, where the buffer holds exactly the pixels of the picture,
/// all of them colours of the code table, and the chunks fall apart between
/// pixel pairs. The padding pixel behind an odd number of pixels is cut off
/// again.
pub proof fn lemma_stream_decodes(
    img: RasterView,
    key: Option<Seq<char>>,
    workers: int,
    parts: Seq<Seq<u8>>,
)
    requires
        0 < workers,
        dimensions_fit(img.height, img.width),
        img.is_complete(),
        chunks_aligned(img.pixels.len() as int, workers),
        all_palette_entries(img.pixels),
        parts.len() == workers,
        forall|i: int|
            0 <= i < workers ==> undoes(#[trigger] parts[i], spec_chunk(img.pixels, workers, i), key),
    ensures
        spec_decode_image(
            spec_pack(img.height, img.width) + concat_parts(parts, workers),
            key,
            workers,
        ) == Ok::<RasterView, CodecError>(img),
{
    let len = img.pixels.len() as int;
    let last = workers - 1;
    let header = spec_pack(img.height, img.width);
    let body = concat_parts(parts, workers);
    let stream = header + body;
    let chunks = chunks_of(img.pixels, workers);
    let unpacked = Seq::new(workers as nat, |i: int| spec_decode(spec_encode(chunks[i])));
    let outcomes = decode_outcomes(body, key, workers);
    assert(stream.skip(3) =~= body);
    lemma_unpack_pack(img.height, img.width);
    // the body is cut into the parts that it was put together from
    let size = if workers == 1 {
        parts[0].len() as int
    } else {
        chunk_size(len, workers) / 6
    };
    lemma_chunk_of_palette_entries(img.pixels, workers, last);
    lemma_chunks_tile(len, workers, last);
    if workers > 1 {
        assert(0 <= chunks[last].len() - chunk_size(len, workers) < workers) by (nonlinear_arith)
            requires
                chunks[last].len() == len - (workers - 1) * chunk_size(len, workers),
                chunk_size(len, workers) == len / workers,
                0 < workers,
                0 <= len,
        ;
    }
    assert forall|j: int| 0 <= j < last implies (#[trigger] parts[j]).len() == size by {
        lemma_chunk_of_palette_entries(img.pixels, workers, j);
    }
    // every part unpacks to its chunk, the last one with its padding
    assert forall|i: int| 0 <= i < workers implies outcomes[i] == Ok::<Seq<u8>, CodecError>(
        unpacked[i],
    ) && unpacked[i] == chunks[i] + padding_pixel(chunks[i].len() as int) by {
        lemma_chunk_of_concat(parts, workers, size, i);
        lemma_chunk_of_palette_entries(img.pixels, workers, i);
        lemma_decode_encode_padded(chunks[i]);
    }
    lemma_join_all_ok(outcomes, unpacked, workers);
    assert forall|i: int| 0 <= i < last implies unpacked[i] == chunks[i] by {
        lemma_chunk_of_palette_entries(img.pixels, workers, i);
        assert(chunks[i] + padding_pixel(chunks[i].len() as int) =~= chunks[i]);
    }
    lemma_concat_agrees(unpacked, chunks, last);
    lemma_chunks_partition(img.pixels, workers);
    let joined = concat_parts(unpacked, workers);
    assert(joined =~= img.pixels + padding_pixel(chunks[last].len() as int));
    assert(sized_by(joined, img.height, img.width) =~= img.pixels);
}

/// With one worker the whole buffer is the one chunk: the stream is the
/// header and what the worker makes of all pixels, and the picture of a
/// stream holds, sized by its dimensions, what the worker makes of the
/// whole body.
pub proof fn lemma_one_worker(img: RasterView, bytes: Seq<u8>, key: Option<Seq<char>>)
    ensures
        dimensions_fit(img.height, img.width) ==> spec_encode_image(img, key, 1) == match spec_process_encode(
            img.pixels,
            key,
        ) {
            Ok(body) => Ok::<Seq<u8>, CodecError>(spec_pack(img.height, img.width) + body),
            Err(_) => Err(CodecError::InvalidKey),
        },
        bytes.len() >= HEADER_LEN ==> spec_decode_image(bytes, key, 1) == match spec_process_decode(
            bytes.skip(3),
            key,
        ) {
            Ok(unpacked) => Ok::<RasterView, CodecError>(
                RasterView {
                    height: spec_unpack(bytes[0], bytes[1], bytes[2]).0,
                    width: spec_unpack(bytes[0], bytes[1], bytes[2]).1,
                    pixels: sized_by(
                        unpacked,
                        spec_unpack(bytes[0], bytes[1], bytes[2]).0,
                        spec_unpack(bytes[0], bytes[1], bytes[2]).1,
                    ),
                },
            ),
            Err(_) => Err(CodecError::InvalidKey),
        },
{
    reveal_with_fuel(join_results, 2);
    assert(spec_chunk(img.pixels, 1, 0) =~= img.pixels);
    assert(spec_chunk(bytes.skip(3), 1, 0) =~= bytes.skip(3));
    if let Ok(body) = spec_process_encode(img.pixels, key) {
        assert(Seq::<u8>::empty() + body =~= body);
    }
    if let Ok(pixels) = spec_process_decode(bytes.skip(3), key) {
        assert(Seq::<u8>::empty() + pixels =~= pixels);
    }
}

/// The first `n` chunks of a buffer, each unpacked and then joined, are
/// what the chunks joined unpack to.
proof fn lemma_decode_chunks(body: Seq<u8>, workers: int, n: int)
    requires
        0 < workers,
        0 <= n <= workers,
    ensures
        concat_parts(parts_of(decode_outcomes(body, None, workers)), n) == spec_decode(
            concat_parts(chunks_of(body, workers), n),
        ),
    decreases n,
{
    let chunks = chunks_of(body, workers);
    if n > 0 {
        lemma_decode_chunks(body, workers, n - 1);
        lemma_decode_concat(concat_parts(chunks, n - 1), chunks[n - 1]);
    }
}

/// Without a key the number of workers makes no difference to decoding: the
/// pixels are what the whole body unpacks to, sized by the dimensions of
/// the header.
pub proof fn lemma_unkeyed_decode(bytes: Seq<u8>, workers: int)
    requires
        0 < workers,
        bytes.len() >= HEADER_LEN,
    ensures
        spec_decode_image(bytes, None, workers) == Ok::<RasterView, CodecError>(
            RasterView {
                height: spec_unpack(bytes[0], bytes[1], bytes[2]).0,
                width: spec_unpack(bytes[0], bytes[1], bytes[2]).1,
                pixels: sized_by(
                    spec_decode(bytes.skip(3)),
                    spec_unpack(bytes[0], bytes[1], bytes[2]).0,
                    spec_unpack(bytes[0], bytes[1], bytes[2]).1,
                ),
            },
        ),
{
    let body = bytes.skip(3);
    let outcomes = decode_outcomes(body, None, workers);
    lemma_join_all_ok(outcomes, parts_of(outcomes), workers);
    lemma_decode_chunks(body, workers, workers);
    lemma_chunks_partition(body, workers);
}

/// The number of logical CPUs, from `num_cpus::get`.
///
/// Assumed, as its documentation promises: the count is at least 1. It
/// differs from machine to machine, so nothing else is said of it.
#[verifier::external_body]
fn cpu_count() -> (count: usize)
    ensures
        count >= 1,
{
    num_cpus::get()
}

/// Puts the bytes of `part` behind those of `out`.
fn append_bytes(out: &mut Vec<u8>, part: &[u8])
    ensures
        final(out)@ == old(out)@ + part@,
{
    let mut i: usize = 0;
    while i < part.len()
        invariant
            i <= part@.len(),
            out@ == old(out)@ + part@.subrange(0, i as int),
        decreases part@.len() - i,
    {
        out.push(part[i]);
        i += 1;
    }
}

/// The work of one encoding worker: packs the chunk and, where there is a
/// key, encrypts the packed bytes.
///
/// What comes out is as long as the packed chunk, and the decoding worker
/// with the same key unpacks it to what the packed chunk unpacks to.
pub fn process_encode(chunk: Vec<u8>, key_opt: Option<String>) -> (r: Result<Vec<u8>, CodecError>)
    ensures
        result_view(r) == spec_process_encode(chunk@, key_view(key_opt)),
        r matches Ok(out) ==> undoes(out@, chunk@, key_view(key_opt)),
{
    let packed = encode(chunk.as_slice());
    match key_opt {
        Some(key) => encrypt(packed.as_slice(), key.as_str()),
        None => Ok(packed),
    }
}

/// The work of one decoding worker: decrypts the chunk where there is a key,
/// and unpacks the bytes into pixels, six bytes for each byte of the chunk.
pub fn process_decode(chunk: Vec<u8>, key_opt: Option<String>) -> (r: Result<Vec<u8>, CodecError>)
    ensures
        result_view(r) == spec_process_decode(chunk@, key_view(key_opt)),
        r matches Ok(out) ==> out@.len() == 6 * chunk@.len(),
{
    match key_opt {
        Some(key) => match decrypt(chunk.as_slice(), key.as_str()) {
            Ok(plain) => Ok(decode(plain)),
            Err(e) => Err(e),
        },
        None => Ok(decode(chunk)),
    }
}

/// Joins the outcomes of the workers in chunk order. If any worker failed,
/// nothing is joined and an invalid key is reported.
pub fn join_chunks(results: Vec<Result<Vec<u8>, CodecError>>) -> (r: Result<Vec<u8>, CodecError>)
    ensures
        result_view(r) == join_results(results_view(results@), results@.len() as int),
{
    let mut out: Vec<u8> = Vec::new();
    let mut i: usize = 0;
    while i < results.len()
        invariant
            i <= results@.len(),
            join_results(results_view(results@), i as int) == Ok::<Seq<u8>, CodecError>(out@),
        decreases results@.len() - i,
    {
        match &results[i] {
            Ok(part) => {
                append_bytes(&mut out, part.as_slice());
            },
            Err(_) => {
                proof {
                    lemma_join_fails(results_view(results@), i as int, results@.len() as int);
                }
                return Err(CodecError::InvalidKey);
            },
        }
        i += 1;
    }
    Ok(out)
}

/// The header of a picture with these dimensions. A dimension above 4095
/// is rejected.
pub fn image_header(height: u32, width: u32) -> (r: Result<[u8; 3], CodecError>)
    ensures
        dimensions_fit(height as int, width as int) ==> r is Ok && r->Ok_0@ == spec_pack(
            height as int,
            width as int,
        ),
        !dimensions_fit(height as int, width as int) ==> r == Err::<[u8; 3], CodecError>(
            CodecError::DimensionOverflow,
        ),
{
    if height > MAX_DIMENSION as u32 || width > MAX_DIMENSION as u32 {
        Err(CodecError::DimensionOverflow)
    } else {
        pack_dimensions(height as u16, width as u16)
    }
}

/// The dimensions, height first, that the header of a stream carries. A
/// stream shorter than three bytes has no header.
pub fn read_header(bytes: &[u8]) -> (r: Result<(u32, u32), CodecError>)
    ensures
        bytes@.len() < HEADER_LEN ==> r == Err::<(u32, u32), CodecError>(
            CodecError::MalformedHeader,
        ),
        bytes@.len() >= HEADER_LEN ==> r is Ok && (r->Ok_0.0 as int, r->Ok_0.1 as int)
            == spec_unpack(bytes@[0], bytes@[1], bytes@[2]),
{
    if bytes.len() < HEADER_LEN {
        Err(CodecError::MalformedHeader)
    } else {
        Ok(unpack_dimensions(bytes))
    }
}

/// A stream: the header and behind it the body.
pub fn frame_stream(header: [u8; 3], body: Vec<u8>) -> (stream: Vec<u8>)
    ensures
        stream@ == header@ + body@,
{
    let mut stream: Vec<u8> = Vec::new();
    stream.push(header[0]);
    stream.push(header[1]);
    stream.push(header[2]);
    append_bytes(&mut stream, body.as_slice());
    stream
}

/// Number of bytes that the pixels of a picture of these dimensions take.
fn pixel_byte_count(height: u32, width: u32) -> (count: u128)
    ensures
        count == pixel_bytes(height as int, width as int),
{
    let rows: u128 = 3 * (height as u128);
    assert(rows * width <= 0x3_0000_0000 * 0x1_0000_0000) by (nonlinear_arith)
        requires
            0 <= rows <= 0x3_0000_0000,
            0 <= width <= 0x1_0000_0000,
    ;
    rows * (width as u128)
}

impl Raster {
    /// Whether the buffer holds exactly the pixels that the dimensions call
    /// for. A picture out of a stream whose body is too short for its header
    /// does not.
    pub fn is_complete(&self) -> (complete: bool)
        ensures
            complete == self@.is_complete(),
    {
        self.pixels.len() as u128 == pixel_byte_count(self.height, self.width)
    }
}

/// The picture of these dimensions out of what a body unpacked to: the
/// buffer is cut down to the pixels that the dimensions call for, and stays
/// as it is where it holds fewer.
pub fn sized_raster(height: u32, width: u32, unpacked: Vec<u8>) -> (img: Raster)
    ensures
        img@ == (RasterView {
            height: height as int,
            width: width as int,
            pixels: sized_by(unpacked@, height as int, width as int),
        }),
{
    let mut pixels = unpacked;
    let owed = pixel_byte_count(height, width);
    if pixels.len() as u128 > owed {
        pixels.truncate(owed as usize);
    }
    assert(pixels@ =~= sized_by(unpacked@, height as int, width as int));
    Raster { height, width, pixels }
}

/// Encodes a picture whose pixels are already colours of the code table
/// into a stream, with the work cut for `workers` workers.
///
/// The dimensions are checked before anything else. Chunks are cut by byte
/// count alone, so a chunk may begin or end inside a pixel, and the stream
/// then does not decode to the picture. Where the chunks fall apart between
/// pixel pairs it does, for an odd number of pixels too.
pub fn encode_with_workers(img: Raster, key_opt: Option<String>, workers: usize) -> (r: Result<
    Vec<u8>,
    CodecError,
>)
    requires
        workers > 0,
    ensures
        result_view(r) == spec_encode_image(img@, key_view(key_opt), workers as int),
        r matches Ok(stream) ==> decodes_back(stream@, img@, key_view(key_opt), workers as int),
{
    let header = match image_header(img.height, img.width) {
        Ok(header) => header,
        Err(e) => {
            return Err(e);
        },
    };
    let data = img.pixels.as_slice();
    let ghost outcomes = encode_outcomes(img.pixels@, key_view(key_opt), workers as int);
    let mut results: Vec<Result<Vec<u8>, CodecError>> = Vec::new();
    let mut i: usize = 0;
    while i < workers
        invariant
            i <= workers,
            data@ == img.pixels@,
            outcomes == encode_outcomes(img.pixels@, key_view(key_opt), workers as int),
            results@.len() == i,
            forall|j: int| 0 <= j < i ==> result_view(#[trigger] results@[j]) == outcomes[j],
            forall|j: int|
                0 <= j < i ==> ((#[trigger] results@[j]) matches Ok(out) ==> undoes(
                    out@,
                    spec_chunk(img.pixels@, workers as int, j),
                    key_view(key_opt),
                )),
        decreases workers - i,
    {
        let (start, end) = chunk_bounds(data.len(), workers, i);
        let chunk = slice_to_vec(slice_subrange(data, start, end));
        let key_bind = key_opt.clone();
        results.push(process_encode(chunk, key_bind));
        i += 1;
    }
    assert(results_view(results@) =~= outcomes);
    let ghost produced = results@;
    match join_chunks(results) {
        Ok(body) => {
            proof {
                lemma_join_ok(outcomes, workers as int);
                if img@.is_complete() && chunks_aligned(img.pixels@.len() as int, workers as int)
                    && all_palette_entries(img.pixels@) {
                    assert forall|j: int| 0 <= j < workers implies undoes(
                        #[trigger] parts_of(outcomes)[j],
                        spec_chunk(img.pixels@, workers as int, j),
                        key_view(key_opt),
                    ) by {
                        assert(result_view(produced[j]) == outcomes[j]);
                    }
                    lemma_stream_decodes(
                        img@,
                        key_view(key_opt),
                        workers as int,
                        parts_of(outcomes),
                    );
                }
            }
            Ok(frame_stream(header, body))
        },
        Err(e) => Err(e),
    }
}

/// Decodes a stream into a picture, with the work cut for `workers`
/// workers. The pixel buffer is sized by the dimensions of the header: what
/// the body unpacks to beyond them is cut off. A body too short for its
/// header gives all that it unpacks to, a picture that is not complete.
///
/// The header is checked before anything else. A keyed stream decodes to
/// what was encoded only with the worker count that encoded it.
pub fn decode_with_workers(bytes: Vec<u8>, key_opt: Option<String>, workers: usize) -> (r: Result<
    Raster,
    CodecError,
>)
    requires
        workers > 0,
    ensures
        raster_result_view(r) == spec_decode_image(bytes@, key_view(key_opt), workers as int),
        r matches Ok(img) ==> img@.pixels.len() == sized_len(
            bytes@.len() - 3,
            img@.height,
            img@.width,
        ),
        key_opt is None && bytes@.len() >= HEADER_LEN ==> (r matches Ok(img) && img@.pixels
            == sized_by(spec_decode(bytes@.skip(3)), img@.height, img@.width)),
{
    let (height, width) = match read_header(bytes.as_slice()) {
        Ok(dims) => dims,
        Err(e) => {
            return Err(e);
        },
    };
    proof {
        if key_opt is None {
            lemma_unkeyed_decode(bytes@, workers as int);
        }
    }
    let data = slice_subrange(bytes.as_slice(), HEADER_LEN, bytes.len());
    let ghost outcomes = decode_outcomes(bytes@.skip(3), key_view(key_opt), workers as int);
    let mut results: Vec<Result<Vec<u8>, CodecError>> = Vec::new();
    let mut i: usize = 0;
    while i < workers
        invariant
            i <= workers,
            data@ == bytes@.skip(3),
            outcomes == decode_outcomes(bytes@.skip(3), key_view(key_opt), workers as int),
            results@.len() == i,
            forall|j: int| 0 <= j < i ==> result_view(#[trigger] results@[j]) == outcomes[j],
            forall|j: int|
                0 <= j < i ==> ((#[trigger] results@[j]) matches Ok(out) ==> out@.len() == 6
                    * spec_chunk(bytes@.skip(3), workers as int, j).len()),
        decreases workers - i,
    {
        let (start, end) = chunk_bounds(data.len(), workers, i);
        let chunk = slice_to_vec(slice_subrange(data, start, end));
        let key_bind = key_opt.clone();
        results.push(process_decode(chunk, key_bind));
        i += 1;
    }
    assert(results_view(results@) =~= outcomes);
    let ghost produced = results@;
    match join_chunks(results) {
        Ok(unpacked) => {
            proof {
                let body = bytes@.skip(3);
                lemma_join_ok(outcomes, workers as int);
                assert forall|j: int| 0 <= j < workers implies (#[trigger] parts_of(
                    outcomes,
                )[j]).len() == 6 * chunks_of(body, workers as int)[j].len() by {
                    assert(result_view(produced[j]) == outcomes[j]);
                }
                lemma_concat_scaled(
                    parts_of(outcomes),
                    chunks_of(body, workers as int),
                    6,
                    workers as int,
                );
                lemma_chunks_partition(body, workers as int);
            }
            Ok(sized_raster(height, width, unpacked))
        },
        Err(e) => Err(e),
    }
}

/// Encodes a picture into a stream, with one worker for each logical CPU
/// of this machine.
///
/// The number of workers is not written into the stream. A keyed stream
/// decodes to the picture only with the same number of workers, so on a
/// machine with as many logical CPUs, or through `decode_with_workers`.
pub fn do_encode(img: Raster, key_opt: Option<String>) -> (r: Result<Vec<u8>, CodecError>)
    ensures
        exists|workers: int|
            {
                &&& workers >= 1
                &&& result_view(r) == #[trigger] spec_encode_image(img@, key_view(key_opt), workers)
                &&& r matches Ok(stream) ==> decodes_back(stream@, img@, key_view(key_opt), workers)
            },
{
    let workers = cpu_count();
    encode_with_workers(img, key_opt, workers)
}

/// Decodes a stream into a picture, with one worker for each logical CPU
/// of this machine. The pixel buffer is sized by the dimensions of the
/// header, as in `decode_with_workers`.
///
/// Without a key the picture is the same on every machine. A keyed stream
/// that was encoded with another number of workers gives other pixels or an
/// error here, and nothing in the stream tells.
pub fn do_decode(bytes: Vec<u8>, key_opt: Option<String>) -> (r: Result<Raster, CodecError>)
    ensures
        exists|workers: int|
            workers >= 1 && raster_result_view(r) == #[trigger] spec_decode_image(
                bytes@,
                key_view(key_opt),
                workers,
            ),
        r matches Ok(img) ==> img@.pixels.len() == sized_len(
            bytes@.len() - 3,
            img@.height,
            img@.width,
        ),
        key_opt is None && bytes@.len() >= HEADER_LEN ==> (r matches Ok(img) && img@.pixels
            == sized_by(spec_decode(bytes@.skip(3)), img@.height, img@.width)),
{
    let workers = cpu_count();
    decode_with_workers(bytes, key_opt, workers)
}

} // verus!
