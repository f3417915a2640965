//! The container of a variant file: plain text, gzip, or block gzip (BGZF).
//!
//! A BGZF file is a run of blocks. Each block begins with an 18-byte header:
//! the gzip magic, the deflate method and the flag for an extra field, and in
//! its last two bytes the size of the whole block less one, low byte first.
//! The rest of the block is the compressed payload.

use vstd::prelude::*;
use vstd::slice::{slice_subrange, slice_to_vec};
use std::io::Read;
use crate::error::FormatError;

verus! {

/// The first byte of every gzip member.
pub const MAGIC_0: u8 = 0x1f;

/// The second byte of every gzip member.
pub const MAGIC_1: u8 = 0x8b;

/// The third byte of a gzip member: the deflate method.
pub const METHOD_DEFLATE: u8 = 8;

/// The fourth byte of a block header: the flag for an extra field.
pub const FLAG_EXTRA: u8 = 4;

/// The length of a block header.
pub const BLOCK_HEADER_LEN: usize = 18;

/// How the bytes of a variant file are packed.
#[derive(Clone, Copy, Debug, PartialEq, Eq, Structural)]
pub enum Compression {
    /// Uncompressed text.
    Plain,
    /// A gzip stream of one or more members.
    Gzip,
    /// Block gzip: independently compressed blocks with sized headers.
    Bgzf,
}

/// Whether the bytes begin with the three bytes of the gzip magic.
pub open spec fn has_gzip_magic(data: Seq<u8>) -> bool {
    data.len() >= 3 && data[0] == MAGIC_0 && data[1] == MAGIC_1 && data[2] == METHOD_DEFLATE
}

/// Whether the bytes begin with the four bytes of the block magic.
pub open spec fn has_block_magic(data: Seq<u8>) -> bool {
    data.len() >= 4 && has_gzip_magic(data) && data[3] == FLAG_EXTRA
}

/// The container that the first bytes of a file announce. The block magic is
/// tried first, then the gzip magic; a file too short for either is plain.
pub open spec fn compression_of(data: Seq<u8>) -> Compression {
    if has_block_magic(data) {
        Compression::Bgzf
    } else if has_gzip_magic(data) {
        Compression::Gzip
    } else {
        Compression::Plain
    }
}

impl Compression {
    /// Classifies a file by its first bytes; it looks at four bytes at most.
    pub fn detect(head: &[u8]) -> (out: Compression)
        ensures
            out == compression_of(head@),
    {
        if head.len() >= 3 && head[0] == MAGIC_0 && head[1] == MAGIC_1 && head[2] == METHOD_DEFLATE {
            if head.len() >= 4 && head[3] == FLAG_EXTRA {
                Compression::Bgzf
            } else {
                Compression::Gzip
            }
        } else {
            Compression::Plain
        }
    }
}

/// Only the first four bytes decide the container.
pub proof fn lemma_compression_reads_head(data: Seq<u8>, n: int)
    requires
        4 <= n <= data.len(),
    ensures
        compression_of(data.take(n)) == compression_of(data),
{
}

/// The size of the block whose header `block` begins with: the number that
/// its last two header bytes write, low byte first, plus one.
pub open spec fn block_size(block: Seq<u8>) -> int
    recommends
        block.len() >= BLOCK_HEADER_LEN,
{
    block[16] + 256 * block[17] + 1
}

/// The bytes that the raw deflate stream at the front of `payload` inflates
/// to, or nothing if there is no well-formed stream there.
pub uninterp spec fn inflated(payload: Seq<u8>) -> Option<Seq<u8>>;

/// The bytes that a gzip stream of one or more members inflates to, or
/// nothing if the stream is not well-formed.
pub uninterp spec fn gunzipped(data: Seq<u8>) -> Option<Seq<u8>>;

/// Inflates a raw deflate stream with `flate2::read::DeflateDecoder`, read to
/// its end. The result is the crate's and is only named here: it depends on
/// the payload alone.
#[verifier::external_body]
pub(crate) fn inflate(payload: &[u8]) -> (out: Option<Vec<u8>>)
    ensures
        out.is_some() == inflated(payload@).is_some(),
        out.is_some() ==> out.unwrap()@ == inflated(payload@).unwrap(),
{
    let mut bytes = Vec::new();
    match flate2::read::DeflateDecoder::new(payload).read_to_end(&mut bytes) {
        Ok(_) => Some(bytes),
        Err(_) => None,
    }
}

/// Inflates a gzip stream with `flate2::read::MultiGzDecoder`, read to its
/// end. The result is the crate's and is only named here: it depends on the
/// data alone.
#[verifier::external_body]
pub(crate) fn gunzip(data: &[u8]) -> (out: Option<Vec<u8>>)
    ensures
        out.is_some() == gunzipped(data@).is_some(),
        out.is_some() ==> out.unwrap()@ == gunzipped(data@).unwrap(),
{
    let mut bytes = Vec::new();
    match flate2::read::MultiGzDecoder::new(data).read_to_end(&mut bytes) {
        Ok(_) => Some(bytes),
        Err(_) => None,
    }
}

/// Where the payload of a block lies in a file.
#[derive(Clone, Copy, Debug, PartialEq, Eq, Structural)]
pub struct BlockSpan {
    /// The offset of the first payload byte, right after the header.
    pub payload_start: usize,
    /// The offset after the last byte of the block, where the next block begins.
    pub end: usize,
}

/// The block that begins at the front of `rest`, which lies at offset `at` of
/// a file: nothing at the clean end of the file; an error if the header is cut
/// short, does not begin with the block magic, states a size smaller than
/// itself, or states more bytes than are left.
pub open spec fn block_at(rest: Seq<u8>, at: int) -> Result<Option<BlockSpan>, FormatError> {
    if rest.len() == 0 {
        Ok(None)
    } else if rest.len() < BLOCK_HEADER_LEN {
        Err(FormatError::MalformedBlock)
    } else if !has_block_magic(rest) {
        Err(FormatError::BadMagic)
    } else if block_size(rest) < BLOCK_HEADER_LEN || block_size(rest) > rest.len() {
        Err(FormatError::MalformedBlock)
    } else {
        Ok(
            Some(
                BlockSpan {
                    payload_start: (at + BLOCK_HEADER_LEN) as usize,
                    end: (at + block_size(rest)) as usize,
                },
            ),
        )
    }
}

/// Reads the header of the block that begins at offset `at`.
pub fn read_block_header(data: &[u8], at: usize) -> (out: Result<Option<BlockSpan>, FormatError>)
    requires
        at <= data@.len(),
    ensures
        out == block_at(data@.skip(at as int), at as int),
        out matches Ok(Some(span)) ==> at + BLOCK_HEADER_LEN == span.payload_start <= span.end
            <= data@.len() && span.end == at + block_size(data@.skip(at as int)),
{
    let left = data.len() - at;
    if left == 0 {
        return Ok(None);
    }
    if left < BLOCK_HEADER_LEN {
        return Err(FormatError::MalformedBlock);
    }
    if data[at] != MAGIC_0 || data[at + 1] != MAGIC_1 || data[at + 2] != METHOD_DEFLATE || data[at
        + 3] != FLAG_EXTRA {
        return Err(FormatError::BadMagic);
    }
    let low: usize = data[at + 16] as usize;
    let high: usize = data[at + 17] as usize;
    let size: usize = low + 256 * high + 1;
    if size < BLOCK_HEADER_LEN || size > left {
        return Err(FormatError::MalformedBlock);
    }
    Ok(Some(BlockSpan { payload_start: at + BLOCK_HEADER_LEN, end: at + size }))
}

/// What a run of blocks decodes to: the inflated payloads of its blocks, one
/// after the other. The first block that is malformed or does not inflate
/// makes the whole run an error.
pub open spec fn block_stream(data: Seq<u8>) -> Result<Seq<u8>, FormatError>
    decreases data.len(),
{
    match block_at(data, 0) {
        Err(e) => Err(e),
        Ok(None) => Ok(Seq::empty()),
        Ok(Some(span)) => match inflated(data.subrange(span.payload_start as int, span.end as int)) {
            None => Err(FormatError::InflateFailed),
            Some(bytes) => if 0 < span.end <= data.len() {
                match block_stream(data.skip(span.end as int)) {
                    Err(e) => Err(e),
                    Ok(rest) => Ok(bytes + rest),
                }
            } else {
                Err(FormatError::MalformedBlock)
            },
        },
    }
}

/// What the blocks before the first broken block decode to; if no block is
/// broken, what the whole run decodes to.
pub open spec fn decodable_prefix(data: Seq<u8>) -> Seq<u8>
    decreases data.len(),
{
    match block_at(data, 0) {
        Ok(Some(span)) => match inflated(data.subrange(span.payload_start as int, span.end as int)) {
            Some(bytes) => if 0 < span.end <= data.len() {
                bytes + decodable_prefix(data.skip(span.end as int))
            } else {
                Seq::empty()
            },
            None => Seq::empty(),
        },
        _ => Seq::empty(),
    }
}

/// A run without a broken block decodes to its decodable prefix.
pub proof fn lemma_whole_run_is_decodable(data: Seq<u8>)
    requires
        block_stream(data) is Ok,
    ensures
        decodable_prefix(data) == block_stream(data)->Ok_0,
    decreases data.len(),
{
    if let Ok(Some(span)) = block_at(data, 0) {
        lemma_whole_run_is_decodable(data.skip(span.end as int));
    }
}

/// The bytes of a decoding result, as values.
pub open spec fn bytes_of(r: Result<Vec<u8>, FormatError>) -> Result<Seq<u8>, FormatError> {
    match r {
        Ok(v) => Ok(v@),
        Err(e) => Err(e),
    }
}

/// What was decoded so far, followed by what the rest of the run decodes to.
pub open spec fn prepend(done: Seq<u8>, rest: Result<Seq<u8>, FormatError>) -> Result<
    Seq<u8>,
    FormatError,
> {
    match rest {
        Ok(bytes) => Ok(done + bytes),
        Err(e) => Err(e),
    }
}

/// Decodes a run of blocks, block by block.
pub fn decode_blocks(data: &[u8]) -> (out: Result<Vec<u8>, FormatError>)
    ensures
        bytes_of(out) == block_stream(data@),
{
    let mut bytes: Vec<u8> = Vec::new();
    let mut at: usize = 0;
    proof {
        assert(data@.skip(0) =~= data@);
        assert(prepend(bytes@, block_stream(data@)) == block_stream(data@)) by {
            if let Ok(b) = block_stream(data@) {
                assert(bytes@ + b =~= b);
            }
        }
    }
    loop
        invariant
            0 <= at <= data@.len(),
            block_stream(data@) == prepend(bytes@, block_stream(data@.skip(at as int))),
        decreases data@.len() - at,
    {
        let ghost rest = data@.skip(at as int);
        let span = match read_block_header(data, at) {
            Err(e) => {
                return Err(e);
            },
            Ok(None) => {
                proof {
                    assert(bytes@ + Seq::<u8>::empty() =~= bytes@);
                }
                return Ok(bytes);
            },
            Ok(Some(span)) => span,
        };
        let ghost size = block_size(rest);
        proof {
            assert(rest.subrange(BLOCK_HEADER_LEN as int, size) =~= data@.subrange(
                span.payload_start as int,
                span.end as int,
            ));
            assert(rest.skip(size) =~= data@.skip(span.end as int));
        }
        let payload = slice_subrange(data, span.payload_start, span.end);
        match inflate(payload) {
            None => {
                return Err(FormatError::InflateFailed);
            },
            Some(mut block) => {
                let ghost before = bytes@;
                let ghost added = block@;
                bytes.append(&mut block);
                proof {
                    if let Ok(tail) = block_stream(data@.skip(span.end as int)) {
                        assert(before + (added + tail) =~= (before + added) + tail);
                    }
                }
            },
        }
        at = span.end;
    }
}

/// A decoder that hands out the content of a run of blocks piece by piece.
///
/// Between reads it either holds decoded bytes of the current block that are
/// not handed out yet, or awaits the header of the next block. A read drains
/// the current block; when that is exhausted, the next block is read, checked
/// and inflated. The decoder is at its end when no block is left.
pub struct BlockReader<'a> {
    data: &'a [u8],
    at: usize,
    buffer: Vec<u8>,
    drained: usize,
    delivered: Ghost<Seq<u8>>,
}

impl<'a> BlockReader<'a> {
    /// The bytes of the file that is decoded.
    pub closed spec fn data(&self) -> Seq<u8> {
        self.data@
    }

    /// All the bytes that were handed out so far.
    pub closed spec fn delivered(&self) -> Seq<u8> {
        self.delivered@
    }

    /// The decoded bytes of the current block that are not handed out yet.
    pub closed spec fn pending(&self) -> Seq<u8> {
        self.buffer@.skip(self.drained as int)
    }

    /// The invariant of the decoder: what was handed out, then what is
    /// pending, then what the blocks not yet read decode to, is what the
    /// whole run decodes to.
    pub closed spec fn wf(&self) -> bool {
        &&& self.at <= self.data@.len()
        &&& self.drained <= self.buffer@.len()
        &&& block_stream(self.data@) == prepend(
            self.delivered@ + self.buffer@.skip(self.drained as int),
            block_stream(self.data@.skip(self.at as int)),
        )
        &&& decodable_prefix(self.data@) == (self.delivered@ + self.buffer@.skip(
            self.drained as int,
        )) + decodable_prefix(self.data@.skip(self.at as int))
    }

    /// What was handed out is the beginning of what the blocks before the
    /// first broken block decode to.
    pub proof fn lemma_delivered_is_prefix(&self)
        requires
            self.wf(),
        ensures
            self.delivered().is_prefix_of(decodable_prefix(self.data())),
    {
        let whole = decodable_prefix(self.data@);
        assert(whole.subrange(0, self.delivered@.len() as int) =~= self.delivered@);
    }

    /// A decoder at the start of a run of blocks.
    pub fn new(data: &'a [u8]) -> (out: BlockReader<'a>)
        ensures
            out.wf(),
            out.data() == data@,
            out.delivered() == Seq::<u8>::empty(),
    {
        let out = BlockReader {
            data,
            at: 0,
            buffer: Vec::new(),
            drained: 0,
            delivered: Ghost(Seq::empty()),
        };
        proof {
            assert(data@.skip(0) =~= data@);
            assert(out.delivered@ + out.buffer@.skip(0) =~= Seq::<u8>::empty());
            if let Ok(b) = block_stream(data@) {
                assert(Seq::<u8>::empty() + b =~= b);
            }
            assert(Seq::<u8>::empty() + decodable_prefix(data@) =~= decodable_prefix(data@));
        }
        out
    }

    /// Hands out the next bytes of the decoded content, `max` at most. It
    /// hands out no byte only if `max` is zero or the run is at its end,
    /// which then decodes to exactly what was handed out. A block that is
    /// malformed or does not inflate is an error, and stays one; the error
    /// comes when all that the blocks before it decode to was handed out,
    /// and not before.
    pub fn read(&mut self, max: usize) -> (out: Result<Vec<u8>, FormatError>)
        requires
            old(self).wf(),
        ensures
            final(self).wf(),
            final(self).data() == old(self).data(),
            match out {
                Ok(bytes) => {
                    &&& final(self).delivered() == old(self).delivered() + bytes@
                    &&& bytes@.len() <= max
                    &&& bytes@.len() == 0 && max > 0 ==> block_stream(old(self).data()) == Ok::<
                        Seq<u8>,
                        FormatError,
                    >(old(self).delivered())
                },
                Err(e) => {
                    &&& final(self).delivered() == old(self).delivered()
                    &&& block_stream(old(self).data()) == Err::<Seq<u8>, FormatError>(e)
                    &&& decodable_prefix(old(self).data()) == old(self).delivered()
                    &&& max > 0
                },
            },
    {
        if max == 0 {
            proof {
                assert(self.delivered@ + Seq::<u8>::empty() =~= self.delivered@);
            }
            return Ok(Vec::new());
        }
        while self.drained >= self.buffer.len()
            invariant
                max > 0,
                self.wf(),
                self.data == old(self).data,
                self.delivered@ == old(self).delivered@,
            decreases self.data@.len() - self.at,
        {
            let ghost rest = self.data@.skip(self.at as int);
            proof {
                assert(self.delivered@ + self.buffer@.skip(self.drained as int) =~= self.delivered@);
                assert(self.delivered@ + Seq::<u8>::empty() =~= self.delivered@);
            }
            let ghost so_far = self.delivered@ + self.buffer@.skip(self.drained as int);
            let span = match read_block_header(self.data, self.at) {
                Err(e) => {
                    proof {
                        assert(so_far + decodable_prefix(rest) =~= self.delivered@);
                    }
                    return Err(e);
                },
                Ok(None) => {
                    return Ok(Vec::new());
                },
                Ok(Some(span)) => span,
            };
            let ghost size = block_size(rest);
            proof {
                assert(rest.subrange(BLOCK_HEADER_LEN as int, size) =~= self.data@.subrange(
                    span.payload_start as int,
                    span.end as int,
                ));
                assert(rest.skip(size) =~= self.data@.skip(span.end as int));
            }
            let payload = slice_subrange(self.data, span.payload_start, span.end);
            match inflate(payload) {
                None => {
                    proof {
                        assert(so_far + decodable_prefix(rest) =~= self.delivered@);
                    }
                    return Err(FormatError::InflateFailed);
                },
                Some(block) => {
                    proof {
                        assert(block@.skip(0) =~= block@);
                        if let Ok(tail) = block_stream(self.data@.skip(span.end as int)) {
                            assert(self.delivered@ + (block@ + tail) =~= (self.delivered@ + block@)
                                + tail);
                        }
                        let more = decodable_prefix(self.data@.skip(span.end as int));
                        assert(self.delivered@ + (block@ + more) =~= (self.delivered@ + block@)
                            + more);
                    }
                    self.buffer = block;
                    self.drained = 0;
                    self.at = span.end;
                },
            }
        }
        let left = self.buffer.len() - self.drained;
        let n = if max < left {
            max
        } else {
            left
        };
        let bytes = slice_to_vec(
            slice_subrange(self.buffer.as_slice(), self.drained, self.drained + n),
        );
        proof {
            assert((self.delivered@ + bytes@) + self.buffer@.skip(self.drained + n)
                =~= self.delivered@ + self.buffer@.skip(self.drained as int));
            self.delivered@ = self.delivered@ + bytes@;
        }
        self.drained = self.drained + n;
        Ok(bytes)
    }
}

/// What a file decodes to, by its container: plain text is its own content, a
/// gzip stream is inflated as a whole, a run of blocks block by block.
pub open spec fn decoded(data: Seq<u8>) -> Result<Seq<u8>, FormatError> {
    match compression_of(data) {
        Compression::Plain => Ok(data),
        Compression::Gzip => match gunzipped(data) {
            Some(bytes) => Ok(bytes),
            None => Err(FormatError::InflateFailed),
        },
        Compression::Bgzf => block_stream(data),
    }
}

/// Decodes a file to its text, whatever its container.
pub fn decode(data: &[u8]) -> (out: Result<Vec<u8>, FormatError>)
    ensures
        bytes_of(out) == decoded(data@),
{
    match Compression::detect(data) {
        Compression::Plain => Ok(slice_to_vec(data)),
        Compression::Gzip => match gunzip(data) {
            Some(bytes) => Ok(bytes),
            None => Err(FormatError::InflateFailed),
        },
        Compression::Bgzf => decode_blocks(data),
    }
}

/// A source of decoded bytes, whatever the container: the container is told
/// once, when the source is opened, and every read goes straight to the
/// decoder of that container.
pub enum Decoder<'a> {
    /// Plain text, handed out as it stands.
    Plain {
        /// The text.
        data: &'a [u8],
        /// The number of bytes handed out.
        at: usize,
    },
    /// A gzip stream, inflated as a whole when it was opened.
    Gzip {
        /// The file.
        data: &'a [u8],
        /// The inflated text.
        text: Vec<u8>,
        /// The number of bytes handed out.
        at: usize,
    },
    /// A run of blocks, inflated block by block as it is read.
    Bgzf(BlockReader<'a>),
}

impl<'a> Decoder<'a> {
    /// The bytes of the file that is decoded.
    pub open spec fn data(&self) -> Seq<u8> {
        match self {
            Decoder::Plain { data, at } => data@,
            Decoder::Gzip { data, text, at } => data@,
            Decoder::Bgzf(reader) => reader.data(),
        }
    }

    /// All the bytes that were handed out so far.
    pub open spec fn delivered(&self) -> Seq<u8> {
        match self {
            Decoder::Plain { data, at } => data@.take(*at as int),
            Decoder::Gzip { data, text, at } => text@.take(*at as int),
            Decoder::Bgzf(reader) => reader.delivered(),
        }
    }

    /// The invariant of the source: it is of the kind that its file
    /// announces, and what it has handed out belongs to what the file
    /// decodes to.
    pub open spec fn wf(&self) -> bool {
        match self {
            Decoder::Plain { data, at } => compression_of(data@) == Compression::Plain && *at
                <= data@.len(),
            Decoder::Gzip { data, text, at } => compression_of(data@) == Compression::Gzip
                && gunzipped(data@) == Some(text@) && *at <= text@.len(),
            Decoder::Bgzf(reader) => compression_of(reader.data()) == Compression::Bgzf
                && reader.wf(),
        }
    }

    /// Opens a file for decoding. A gzip stream is inflated here, as a whole,
    /// and is an error if it does not inflate.
    pub fn open(data: &'a [u8]) -> (out: Result<Decoder<'a>, FormatError>)
        ensures
            match out {
                Ok(decoder) => decoder.wf() && decoder.data() == data@ && decoder.delivered()
                    == Seq::<u8>::empty(),
                Err(e) => e == FormatError::InflateFailed && compression_of(data@)
                    == Compression::Gzip && gunzipped(data@).is_none(),
            },
    {
        match Compression::detect(data) {
            Compression::Plain => {
                assert(data@.take(0) =~= Seq::<u8>::empty());
                Ok(Decoder::Plain { data, at: 0 })
            },
            Compression::Gzip => match gunzip(data) {
                Some(text) => {
                    assert(text@.take(0) =~= Seq::<u8>::empty());
                    Ok(Decoder::Gzip { data, text, at: 0 })
                },
                None => Err(FormatError::InflateFailed),
            },
            Compression::Bgzf => Ok(Decoder::Bgzf(BlockReader::new(data))),
        }
    }

    /// Hands out the next bytes of the decoded content, `max` at most. It
    /// hands out no byte only if `max` is zero or the content is at its end,
    /// which then is exactly what was handed out.
    pub fn read(&mut self, max: usize) -> (out: Result<Vec<u8>, FormatError>)
        requires
            old(self).wf(),
        ensures
            final(self).wf(),
            final(self).data() == old(self).data(),
            match out {
                Ok(bytes) => {
                    &&& final(self).delivered() == old(self).delivered() + bytes@
                    &&& bytes@.len() <= max
                    &&& bytes@.len() == 0 && max > 0 ==> decoded(old(self).data()) == Ok::<
                        Seq<u8>,
                        FormatError,
                    >(old(self).delivered())
                },
                Err(e) => {
                    &&& final(self).delivered() == old(self).delivered()
                    &&& decoded(old(self).data()) == Err::<Seq<u8>, FormatError>(e)
                    &&& compression_of(old(self).data()) == Compression::Bgzf
                    &&& decodable_prefix(old(self).data()) == old(self).delivered()
                    &&& max > 0
                },
            },
    {
        match self {
            Decoder::Plain { data, at } => {
                let (bytes, next) = take_from(*data, *at, max);
                *at = next;
                Ok(bytes)
            },
            Decoder::Gzip { data, text, at } => {
                let (bytes, next) = take_from(text.as_slice(), *at, max);
                *at = next;
                Ok(bytes)
            },
            Decoder::Bgzf(reader) => reader.read(max),
        }
    }
}

/// Copies the bytes that follow `at`, `max` at most, and tells where the copy ends.
fn take_from(text: &[u8], at: usize, max: usize) -> (out: (Vec<u8>, usize))
    requires
        at <= text@.len(),
    ensures
        at <= out.1 <= text@.len(),
        out.0@ == text@.subrange(at as int, out.1 as int),
        out.1 - at == if max < text@.len() - at {
            max as int
        } else {
            text@.len() - at
        },
        text@.take(out.1 as int) == text@.take(at as int) + out.0@,
        out.0@.len() == 0 && max > 0 ==> text@.take(at as int) == text@,
{
    let left = text.len() - at;
    let n = if max < left {
        max
    } else {
        left
    };
    let bytes = slice_to_vec(slice_subrange(text, at, at + n));
    proof {
        assert(text@.take(at + n) =~= text@.take(at as int) + bytes@);
        if n == 0 && max > 0 {
            assert(text@.take(at as int) =~= text@);
        }
    }
    (bytes, at + n)
}

} // verus!
