//! The binary layout in which point chunks travel to a client.
//!
//! All multi-byte fields are little-endian. A buffer is a 32-bit chunk
//! count followed by the chunks; each chunk is
//!
//! ```text
//! [u32]        length of the node id in bytes
//! [bytes]      node id, UTF-8
//! [0..3 bytes] zeros up to a multiple of four
//! [3 x f64]    centre
//! [u32]        level
//! [f32]        spacing
//! [u32]        point count n
//! [3n x f32]   positions, x y z of each point in turn
//! [3n x u8]    colours, r g b of each point in turn
//! [n x u16]    intensities
//! [n x u8]     classifications
//! [0..3 bytes] zeros up to a multiple of four
//! ```
//!
//! Floating-point fields are carried as their IEEE-754 bit patterns.

use vstd::prelude::*;
use vstd::utf8::encode_utf8;
use crate::bytes::le_u16;
use crate::bytes::le_u32;
use crate::bytes::le_u64;
use crate::bytes::lemma_le_u16_round_trip;
use crate::bytes::lemma_le_u32_round_trip;
use crate::bytes::lemma_le_u64_round_trip;
use crate::bytes::le_bytes_u16;
use crate::bytes::le_bytes_u32;
use crate::bytes::le_bytes_u64;
use crate::bytes::put_u16;
use crate::bytes::put_u32;
use crate::bytes::put_u64;
use crate::ieee::f32_bits;
use crate::ieee::f32_bits_of;
use crate::ieee::f32_bits_unsigned;
use crate::ieee::f64_bits;
use crate::ieee::f64_bits_of;
use crate::types::PointChunk;

verus! {

/// One chunk as it is packed: the floating-point fields are bit patterns
/// (`center` of doubles, `spacing` and `positions` of single-precision
/// floats).
#[derive(Debug, Clone)]
pub struct ChunkFrame {
    pub node_id: String,
    pub center: [u64; 3],
    pub level: u8,
    pub spacing: u32,
    pub positions: Vec<u32>,
    pub colors: Vec<u8>,
    pub intensities: Vec<u16>,
    pub classifications: Vec<u8>,
    pub point_count: u32,
}

/// `n` zero bytes.
pub open spec fn zeros(n: int) -> Seq<u8> {
    Seq::new(n as nat, |i: int| 0u8)
}

/// Bytes that bring a length of `len` up to a multiple of four.
pub open spec fn pad4(len: int) -> int {
    (4 - len % 4) % 4
}

/// The little-endian bytes of a sequence of 32-bit words.
pub open spec fn words_le(s: Seq<u32>) -> Seq<u8>
    decreases s.len(),
{
    if s.len() == 0 {
        Seq::empty()
    } else {
        words_le(s.drop_last()) + le_bytes_u32(s.last() as int)
    }
}

/// The little-endian bytes of a sequence of 16-bit words.
pub open spec fn halves_le(s: Seq<u16>) -> Seq<u8>
    decreases s.len(),
{
    if s.len() == 0 {
        Seq::empty()
    } else {
        halves_le(s.drop_last()) + le_bytes_u16(s.last() as int)
    }
}

impl ChunkFrame {
    /// The node id as UTF-8 bytes.
    pub open spec fn id_bytes(&self) -> Seq<u8> {
        encode_utf8(self.node_id@)
    }

    /// The id field: its length, its bytes, and zeros up to a multiple of
    /// four.
    pub open spec fn id_field(&self) -> Seq<u8> {
        le_bytes_u32(self.id_bytes().len() as int) + self.id_bytes() + zeros(
            pad4(self.id_bytes().len() as int),
        )
    }

    /// Centre, level, spacing and point count: 36 bytes.
    pub open spec fn fixed_field(&self) -> Seq<u8> {
        le_bytes_u64(self.center[0] as int) + le_bytes_u64(self.center[1] as int) + le_bytes_u64(
            self.center[2] as int,
        ) + le_bytes_u32(self.level as int) + le_bytes_u32(self.spacing as int) + le_bytes_u32(
            self.point_count as int,
        )
    }

    /// Positions, colours, intensities and classifications.
    pub open spec fn payload(&self) -> Seq<u8> {
        words_le(self.positions@) + self.colors@ + halves_le(self.intensities@)
            + self.classifications@
    }

    /// The chunk before its closing padding.
    #[verifier::opaque]
    pub open spec fn body(&self) -> Seq<u8> {
        self.id_field() + self.fixed_field() + self.payload()
    }

    /// The chunk as packed: a multiple of four bytes.
    #[verifier::opaque]
    pub open spec fn bytes(&self) -> Seq<u8> {
        self.body() + zeros(pad4(self.body().len() as int))
    }

    /// The arrays have the lengths that the point count calls for.
    pub open spec fn consistent(&self) -> bool {
        &&& self.positions@.len() == 3 * self.point_count
        &&& self.colors@.len() == 3 * self.point_count
        &&& self.intensities@.len() == self.point_count
        &&& self.classifications@.len() == self.point_count
    }
}

/// The chunks one after the other.
pub open spec fn frames_bytes(chunks: Seq<ChunkFrame>) -> Seq<u8>
    decreases chunks.len(),
{
    if chunks.len() == 0 {
        Seq::empty()
    } else {
        frames_bytes(chunks.drop_last()) + chunks.last().bytes()
    }
}

/// The whole buffer: the chunk count, then the chunks.
pub open spec fn packed(chunks: Seq<ChunkFrame>) -> Seq<u8> {
    le_bytes_u32(chunks.len() as int) + frames_bytes(chunks)
}

/// Padding brings a length up to the next multiple of four.
pub proof fn lemma_pad4(len: int)
    requires
        0 <= len,
    ensures
        0 <= pad4(len) < 4,
        (len + pad4(len)) % 4 == 0,
        len % 4 == 0 ==> pad4(len) == 0,
{
}

/// A packed chunk is a multiple of four bytes long.
pub proof fn lemma_frame_aligned(chunk: ChunkFrame)
    ensures
        chunk.bytes().len() % 4 == 0,
        chunk.bytes().len() == chunk.body().len() + pad4(chunk.body().len() as int),
{
    reveal(ChunkFrame::bytes);
    lemma_pad4(chunk.body().len() as int);
}

/// Packed chunks are a multiple of four bytes long.
pub proof fn lemma_frames_aligned(chunks: Seq<ChunkFrame>)
    ensures
        frames_bytes(chunks).len() % 4 == 0,
    decreases chunks.len(),
{
    if chunks.len() > 0 {
        lemma_frames_aligned(chunks.drop_last());
        lemma_frame_aligned(chunks.last());
        let a = frames_bytes(chunks.drop_last());
        let b = chunks.last().bytes();
        assert(frames_bytes(chunks) == a + b);
        assert((a + b).len() == a.len() + b.len());
    }
}

/// What a packed chunk says, field by field.
pub struct FrameView {
    pub id: Seq<u8>,
    pub center: Seq<u64>,
    pub level: u32,
    pub spacing: u32,
    pub point_count: u32,
    pub positions: Seq<u32>,
    pub colors: Seq<u8>,
    pub intensities: Seq<u16>,
    pub classifications: Seq<u8>,
}

impl View for ChunkFrame {
    type V = FrameView;

    open spec fn view(&self) -> FrameView {
        FrameView {
            id: self.id_bytes(),
            center: self.center@,
            level: self.level as u32,
            spacing: self.spacing,
            point_count: self.point_count,
            positions: self.positions@,
            colors: self.colors@,
            intensities: self.intensities@,
            classifications: self.classifications@,
        }
    }
}

/// The `n` little-endian 32-bit words from `at` on.
pub open spec fn read_words(s: Seq<u8>, at: int, n: int) -> Seq<u32> {
    Seq::new(n as nat, |j: int| le_u32(s, at + 4 * j) as u32)
}

/// The `n` little-endian 16-bit words from `at` on.
pub open spec fn read_halves(s: Seq<u8>, at: int, n: int) -> Seq<u16> {
    Seq::new(n as nat, |j: int| le_u16(s, at + 2 * j) as u16)
}

/// Where the fixed fields of the chunk at `at` begin: after the id and its
/// padding.
pub open spec fn fixed_start(s: Seq<u8>, at: int) -> int {
    at + 4 + le_u32(s, at) + pad4(le_u32(s, at))
}

/// Where the chunk at `at` ends, its closing padding included.
pub open spec fn frame_end(s: Seq<u8>, at: int) -> int {
    let p = fixed_start(s, at);
    let end = p + 36 + 18 * le_u32(s, p + 32);
    end + pad4(end - at)
}

/// Reads the chunk that begins at `at`: what it says and where it ends;
/// `None` where the buffer ends before the chunk does.
#[verifier::opaque]
pub open spec fn parse_frame(s: Seq<u8>, at: int) -> Option<(FrameView, int)> {
    if at + 4 > s.len() {
        None
    } else if fixed_start(s, at) + 36 > s.len() {
        None
    } else if frame_end(s, at) > s.len() {
        None
    } else {
        let p = fixed_start(s, at);
        let n = le_u32(s, p + 32);
        let q = p + 36;
        Some(
            (
                FrameView {
                    id: s.subrange(at + 4, at + 4 + le_u32(s, at)),
                    center: seq![
                        le_u64(s, p) as u64,
                        le_u64(s, p + 8) as u64,
                        le_u64(s, p + 16) as u64,
                    ],
                    level: le_u32(s, p + 24) as u32,
                    spacing: le_u32(s, p + 28) as u32,
                    point_count: n as u32,
                    positions: read_words(s, q, 3 * n),
                    colors: s.subrange(q + 12 * n, q + 15 * n),
                    intensities: read_halves(s, q + 15 * n, n),
                    classifications: s.subrange(q + 17 * n, q + 18 * n),
                },
                frame_end(s, at),
            ),
        )
    }
}

/// Reads `count` chunks from `at` on, which must end where the buffer
/// ends.
pub open spec fn parse_frames(s: Seq<u8>, at: int, count: nat) -> Option<Seq<FrameView>>
    decreases count,
{
    if count == 0 {
        if at == s.len() {
            Some(Seq::empty())
        } else {
            None
        }
    } else {
        match parse_frame(s, at) {
            None => None,
            Some((f, next)) => match parse_frames(s, next, (count - 1) as nat) {
                None => None,
                Some(rest) => Some(seq![f] + rest),
            },
        }
    }
}

/// Reads a whole buffer: the chunk count, then that many chunks.
pub open spec fn unpacked(s: Seq<u8>) -> Option<Seq<FrameView>> {
    if s.len() < 4 {
        None
    } else {
        parse_frames(s, 4, le_u32(s, 0) as nat)
    }
}

/// The bytes of a sequence of words are four for each, in order.
pub proof fn lemma_words_le(p: Seq<u32>, j: int)
    ensures
        words_le(p).len() == 4 * p.len(),
        0 <= j < p.len() ==> words_le(p).subrange(4 * j, 4 * j + 4) == le_bytes_u32(p[j] as int),
    decreases p.len(),
{
    if p.len() > 0 {
        lemma_words_le(p.drop_last(), j);
        lemma_words_le(p.drop_last(), 0);
        let front = words_le(p.drop_last());
        let last = le_bytes_u32(p.last() as int);
        assert(last.len() == 4);
        if 0 <= j < p.len() {
            if j < p.len() - 1 {
                assert((front + last).subrange(4 * j, 4 * j + 4) =~= front.subrange(
                    4 * j,
                    4 * j + 4,
                ));
                assert(p.drop_last()[j] == p[j]);
            } else {
                assert((front + last).subrange(4 * j, 4 * j + 4) =~= last);
            }
        }
    }
}

/// The bytes of a sequence of 16-bit words are two for each, in order.
pub proof fn lemma_halves_le(p: Seq<u16>, j: int)
    ensures
        halves_le(p).len() == 2 * p.len(),
        0 <= j < p.len() ==> halves_le(p).subrange(2 * j, 2 * j + 2) == le_bytes_u16(p[j] as int),
    decreases p.len(),
{
    if p.len() > 0 {
        lemma_halves_le(p.drop_last(), j);
        lemma_halves_le(p.drop_last(), 0);
        let front = halves_le(p.drop_last());
        let last = le_bytes_u16(p.last() as int);
        assert(last.len() == 2);
        if 0 <= j < p.len() {
            if j < p.len() - 1 {
                assert((front + last).subrange(2 * j, 2 * j + 2) =~= front.subrange(
                    2 * j,
                    2 * j + 2,
                ));
                assert(p.drop_last()[j] == p[j]);
            } else {
                assert((front + last).subrange(2 * j, 2 * j + 2) =~= last);
            }
        }
    }
}

/// A part of a part: where `whole` stands in `s` from `at` on, and `part`
/// in `whole` from `offset` on, `part` stands in `s` from `at + offset`
/// on.
pub proof fn lemma_part(s: Seq<u8>, at: int, whole: Seq<u8>, offset: int, part: Seq<u8>)
    requires
        0 <= at,
        at + whole.len() <= s.len(),
        s.subrange(at, at + whole.len()) == whole,
        0 <= offset,
        offset + part.len() <= whole.len(),
        whole.subrange(offset, offset + part.len()) == part,
    ensures
        s.subrange(at + offset, at + offset + part.len()) == part,
{
    let a = s.subrange(at + offset, at + offset + part.len());
    assert forall|i: int| 0 <= i < part.len() implies a[i] == part[i] by {
        assert(a[i] == s[at + offset + i]);
        assert(whole[offset + i] == s.subrange(at, at + whole.len())[offset + i]);
        assert(part[i] == whole.subrange(offset, offset + part.len())[i]);
    }
    assert(a =~= part);
}

/// The layout of the id field.
proof fn lemma_id_field(c: ChunkFrame)
    ensures
        c.id_field().len() == 4 + c.id_bytes().len() + pad4(c.id_bytes().len() as int),
        c.id_field().subrange(0, 4) == le_bytes_u32(c.id_bytes().len() as int),
        c.id_field().subrange(4, 4 + c.id_bytes().len() as int) == c.id_bytes(),
{
    let l = c.id_bytes().len() as int;
    lemma_pad4(l);
    assert(le_bytes_u32(l).len() == 4);
    assert(c.id_field().subrange(0, 4) =~= le_bytes_u32(l));
    assert(c.id_field().subrange(4, 4 + l) =~= c.id_bytes());
}

/// The layout of the fixed fields.
proof fn lemma_fixed_field(c: ChunkFrame)
    ensures
        c.fixed_field().len() == 36,
        c.fixed_field().subrange(0, 8) == le_bytes_u64(c.center[0] as int),
        c.fixed_field().subrange(8, 16) == le_bytes_u64(c.center[1] as int),
        c.fixed_field().subrange(16, 24) == le_bytes_u64(c.center[2] as int),
        c.fixed_field().subrange(24, 28) == le_bytes_u32(c.level as int),
        c.fixed_field().subrange(28, 32) == le_bytes_u32(c.spacing as int),
        c.fixed_field().subrange(32, 36) == le_bytes_u32(c.point_count as int),
{
    let f = c.fixed_field();
    assert(le_bytes_u64(c.center[0] as int).len() == 8);
    assert(le_bytes_u64(c.center[1] as int).len() == 8);
    assert(le_bytes_u64(c.center[2] as int).len() == 8);
    assert(le_bytes_u32(c.level as int).len() == 4);
    assert(le_bytes_u32(c.spacing as int).len() == 4);
    assert(le_bytes_u32(c.point_count as int).len() == 4);
    assert(f.subrange(0, 8) =~= le_bytes_u64(c.center[0] as int));
    assert(f.subrange(8, 16) =~= le_bytes_u64(c.center[1] as int));
    assert(f.subrange(16, 24) =~= le_bytes_u64(c.center[2] as int));
    assert(f.subrange(24, 28) =~= le_bytes_u32(c.level as int));
    assert(f.subrange(28, 32) =~= le_bytes_u32(c.spacing as int));
    assert(f.subrange(32, 36) =~= le_bytes_u32(c.point_count as int));
}

/// The layout of the payload.
proof fn lemma_payload(c: ChunkFrame)
    requires
        c.consistent(),
    ensures
        c.payload().len() == 18 * c.point_count,
        c.payload().subrange(0, 12 * c.point_count) == words_le(c.positions@),
        c.payload().subrange(12 * c.point_count, 15 * c.point_count) == c.colors@,
        c.payload().subrange(15 * c.point_count, 17 * c.point_count) == halves_le(c.intensities@),
        c.payload().subrange(17 * c.point_count, 18 * c.point_count) == c.classifications@,
{
    let n = c.point_count as int;
    let w = c.payload();
    lemma_words_le(c.positions@, 0);
    lemma_halves_le(c.intensities@, 0);
    assert(w.subrange(0, 12 * n) =~= words_le(c.positions@));
    assert(w.subrange(12 * n, 15 * n) =~= c.colors@);
    assert(w.subrange(15 * n, 17 * n) =~= halves_le(c.intensities@));
    assert(w.subrange(17 * n, 18 * n) =~= c.classifications@);
}

/// The layout of a chunk: the id field, the fixed fields, the payload,
/// and the closing padding.
#[verifier::rlimit(40)]
proof fn lemma_frame_parts(c: ChunkFrame)
    requires
        c.consistent(),
    ensures
        ({
            let a = c.id_field().len() as int;
            let n = c.point_count as int;
            &&& c.body().len() == a + 36 + 18 * n
            &&& c.bytes().len() == c.body().len() + pad4(c.body().len() as int)
            &&& c.bytes().subrange(0, a) == c.id_field()
            &&& c.bytes().subrange(a, a + 36) == c.fixed_field()
            &&& c.bytes().subrange(a + 36, a + 36 + 18 * n) == c.payload()
        }),
{
    reveal(ChunkFrame::body);
    reveal(ChunkFrame::bytes);
    lemma_fixed_field(c);
    lemma_payload(c);
    let a = c.id_field().len() as int;
    let n = c.point_count as int;
    lemma_pad4(c.body().len() as int);
    assert(c.bytes().subrange(0, a) =~= c.id_field());
    assert(c.bytes().subrange(a, a + 36) =~= c.fixed_field());
    assert(c.bytes().subrange(a + 36, a + 36 + 18 * n) =~= c.payload());
}

/// A 32-bit field of a chunk that stands in a buffer reads as its value.
proof fn lemma_read_u32(s: Seq<u8>, at: int, whole: Seq<u8>, offset: int, v: int)
    requires
        0 <= at,
        at + whole.len() <= s.len(),
        s.subrange(at, at + whole.len()) == whole,
        0 <= offset,
        offset + 4 <= whole.len(),
        0 <= v < 0x1_0000_0000,
        whole.subrange(offset, offset + 4) == le_bytes_u32(v),
    ensures
        le_u32(s, at + offset) == v,
{
    assert(le_bytes_u32(v).len() == 4);
    lemma_part(s, at, whole, offset, le_bytes_u32(v));
    lemma_le_u32_round_trip(s, at + offset, v);
}

/// A 64-bit field of a chunk that stands in a buffer reads as its value.
proof fn lemma_read_u64(s: Seq<u8>, at: int, whole: Seq<u8>, offset: int, v: int)
    requires
        0 <= at,
        at + whole.len() <= s.len(),
        s.subrange(at, at + whole.len()) == whole,
        0 <= offset,
        offset + 8 <= whole.len(),
        0 <= v < 0x1_0000_0000_0000_0000,
        whole.subrange(offset, offset + 8) == le_bytes_u64(v),
    ensures
        le_u64(s, at + offset) == v,
{
    assert(le_bytes_u64(v).len() == 8);
    lemma_part(s, at, whole, offset, le_bytes_u64(v));
    lemma_le_u64_round_trip(s, at + offset, v);
}

/// Words that stand in a buffer read as themselves.
proof fn lemma_read_words(s: Seq<u8>, at: int, p: Seq<u32>)
    requires
        0 <= at,
        at + 4 * p.len() <= s.len(),
        s.subrange(at, at + 4 * p.len()) == words_le(p),
    ensures
        read_words(s, at, p.len() as int) == p,
{
    lemma_words_le(p, 0);
    assert forall|j: int| 0 <= j < p.len() implies read_words(s, at, p.len() as int)[j]
        == p[j] by {
        lemma_words_le(p, j);
        lemma_read_u32(s, at, words_le(p), 4 * j, p[j] as int);
    }
    assert(read_words(s, at, p.len() as int) =~= p);
}

/// 16-bit words that stand in a buffer read as themselves.
proof fn lemma_read_halves(s: Seq<u8>, at: int, p: Seq<u16>)
    requires
        0 <= at,
        at + 2 * p.len() <= s.len(),
        s.subrange(at, at + 2 * p.len()) == halves_le(p),
    ensures
        read_halves(s, at, p.len() as int) == p,
{
    lemma_halves_le(p, 0);
    assert forall|j: int| 0 <= j < p.len() implies read_halves(s, at, p.len() as int)[j]
        == p[j] by {
        lemma_halves_le(p, j);
        assert(le_bytes_u16(p[j] as int).len() == 2);
        lemma_part(s, at, halves_le(p), 2 * j, le_bytes_u16(p[j] as int));
        lemma_le_u16_round_trip(s, at + 2 * j, p[j] as int);
    }
    assert(read_halves(s, at, p.len() as int) =~= p);
}

/// The id field of a chunk that stands in a buffer from `at` on reads as
/// the id, and the fixed fields begin behind it.
proof fn lemma_parse_id(s: Seq<u8>, at: int, c: ChunkFrame)
    requires
        c.id_bytes().len() <= u32::MAX,
        0 <= at,
        at + c.id_field().len() <= s.len(),
        s.subrange(at, at + c.id_field().len()) == c.id_field(),
    ensures
        le_u32(s, at) == c.id_bytes().len(),
        s.subrange(at + 4, at + 4 + c.id_bytes().len()) == c.id_bytes(),
        fixed_start(s, at) == at + c.id_field().len(),
{
    let l = c.id_bytes().len() as int;
    lemma_id_field(c);
    lemma_pad4(l);
    lemma_read_u32(s, at, c.id_field(), 0, l);
    lemma_part(s, at, c.id_field(), 4, c.id_bytes());
}

/// The fixed fields of a chunk that stand in a buffer from `p` on read as
/// their values.
proof fn lemma_parse_fixed(s: Seq<u8>, p: int, c: ChunkFrame)
    requires
        0 <= p,
        p + 36 <= s.len(),
        s.subrange(p, p + 36) == c.fixed_field(),
    ensures
        le_u64(s, p) == c.center[0],
        le_u64(s, p + 8) == c.center[1],
        le_u64(s, p + 16) == c.center[2],
        le_u32(s, p + 24) == c.level,
        le_u32(s, p + 28) == c.spacing,
        le_u32(s, p + 32) == c.point_count,
{
    lemma_fixed_field(c);
    lemma_read_u64(s, p, c.fixed_field(), 0, c.center[0] as int);
    lemma_read_u64(s, p, c.fixed_field(), 8, c.center[1] as int);
    lemma_read_u64(s, p, c.fixed_field(), 16, c.center[2] as int);
    lemma_read_u32(s, p, c.fixed_field(), 24, c.level as int);
    lemma_read_u32(s, p, c.fixed_field(), 28, c.spacing as int);
    lemma_read_u32(s, p, c.fixed_field(), 32, c.point_count as int);
}

/// The payload of a chunk that stands in a buffer from `q` on reads as
/// the four arrays.
proof fn lemma_parse_payload(s: Seq<u8>, q: int, c: ChunkFrame)
    requires
        c.consistent(),
        0 <= q,
        q + 18 * c.point_count <= s.len(),
        s.subrange(q, q + 18 * c.point_count) == c.payload(),
    ensures
        read_words(s, q, 3 * c.point_count) == c.positions@,
        s.subrange(q + 12 * c.point_count, q + 15 * c.point_count) == c.colors@,
        read_halves(s, q + 15 * c.point_count, c.point_count as int) == c.intensities@,
        s.subrange(q + 17 * c.point_count, q + 18 * c.point_count) == c.classifications@,
{
    let n = c.point_count as int;
    lemma_payload(c);
    lemma_words_le(c.positions@, 0);
    lemma_halves_le(c.intensities@, 0);
    lemma_part(s, q, c.payload(), 0, words_le(c.positions@));
    lemma_part(s, q, c.payload(), 12 * n, c.colors@);
    lemma_part(s, q, c.payload(), 15 * n, halves_le(c.intensities@));
    lemma_part(s, q, c.payload(), 17 * n, c.classifications@);
    lemma_read_words(s, q, c.positions@);
    lemma_read_halves(s, q + 15 * n, c.intensities@);
}

/// A packed chunk that stands in a buffer from `at` on reads as the chunk,
/// and ends where its bytes end.
#[verifier::rlimit(40)]
pub proof fn lemma_parse_frame(s: Seq<u8>, at: int, c: ChunkFrame)
    requires
        c.consistent(),
        c.id_bytes().len() <= u32::MAX,
        0 <= at,
        at % 4 == 0,
        at + c.bytes().len() <= s.len(),
        s.subrange(at, at + c.bytes().len()) == c.bytes(),
    ensures
        parse_frame(s, at) == Some((c@, at + c.bytes().len())),
{
    let b = c.bytes();
    let n = c.point_count as int;
    let a = c.id_field().len() as int;
    lemma_frame_parts(c);
    lemma_pad4(c.body().len() as int);
    lemma_part(s, at, b, 0, c.id_field());
    lemma_part(s, at, b, a, c.fixed_field());
    lemma_part(s, at, b, a + 36, c.payload());
    lemma_parse_id(s, at, c);
    let p = at + a;
    lemma_parse_fixed(s, p, c);
    let q = p + 36;
    lemma_parse_payload(s, q, c);
    let end = q + 18 * n;
    assert(end - at == c.body().len());
    assert(fixed_start(s, at) == p);
    assert(le_u32(s, p + 32) == n);
    assert(frame_end(s, at) == at + b.len());
    lemma_parse_assemble(s, at, c@, at + b.len());
}

/// What `parse_frame` yields where the fields of a chunk read as `f`.
#[verifier::rlimit(40)]
proof fn lemma_parse_assemble(s: Seq<u8>, at: int, f: FrameView, next: int)
    requires
        0 <= at,
        at + 4 <= s.len(),
        fixed_start(s, at) + 36 <= s.len(),
        frame_end(s, at) <= s.len(),
        next == frame_end(s, at),
        f.center.len() == 3,
        ({
            let p = fixed_start(s, at);
            let n = le_u32(s, p + 32);
            let q = p + 36;
            &&& f.id == s.subrange(at + 4, at + 4 + le_u32(s, at))
            &&& f.center[0] == le_u64(s, p)
            &&& f.center[1] == le_u64(s, p + 8)
            &&& f.center[2] == le_u64(s, p + 16)
            &&& f.level == le_u32(s, p + 24)
            &&& f.spacing == le_u32(s, p + 28)
            &&& f.point_count == n
            &&& f.positions == read_words(s, q, 3 * n)
            &&& f.colors == s.subrange(q + 12 * n, q + 15 * n)
            &&& f.intensities == read_halves(s, q + 15 * n, n)
            &&& f.classifications == s.subrange(q + 17 * n, q + 18 * n)
        }),
    ensures
        parse_frame(s, at) == Some((f, next)),
{
    reveal(parse_frame);
    let g = parse_frame(s, at).unwrap().0;
    assert(g.center =~= f.center);
}

/// The bytes of a first chunk and of those after it.
proof fn lemma_frames_front(c: ChunkFrame, rest: Seq<ChunkFrame>)
    ensures
        frames_bytes(seq![c] + rest) == c.bytes() + frames_bytes(rest),
    decreases rest.len(),
{
    let all = seq![c] + rest;
    if rest.len() == 0 {
        assert(all.drop_last() =~= Seq::<ChunkFrame>::empty());
        assert(all.last() == c);
        assert(frames_bytes(all.drop_last()) =~= Seq::<u8>::empty());
        assert(frames_bytes(rest) =~= Seq::<u8>::empty());
        assert(frames_bytes(all) == frames_bytes(all.drop_last()) + c.bytes());
        assert(frames_bytes(all) =~= c.bytes() + frames_bytes(rest));
    } else {
        lemma_frames_front(c, rest.drop_last());
        assert(all.drop_last() =~= seq![c] + rest.drop_last());
        assert(all.last() == rest.last());
        assert(frames_bytes(all) =~= c.bytes() + frames_bytes(rest));
    }
}

/// Whether every chunk has arrays of the lengths that its point count
/// calls for, and an id whose length fits 32 bits.
pub open spec fn all_consistent(chunks: Seq<ChunkFrame>) -> bool {
    forall|i: int|
        0 <= i < chunks.len() ==> (#[trigger] chunks[i]).consistent() && chunks[i].id_bytes().len()
            <= u32::MAX
}

/// Packed chunks that fill a buffer from `at` on read as the chunks.
#[verifier::rlimit(40)]
proof fn lemma_parse_frames(s: Seq<u8>, at: int, chunks: Seq<ChunkFrame>)
    requires
        all_consistent(chunks),
        0 <= at,
        at % 4 == 0,
        at + frames_bytes(chunks).len() == s.len(),
        s.subrange(at, s.len() as int) == frames_bytes(chunks),
    ensures
        parse_frames(s, at, chunks.len()) == Some(chunks.map_values(|c: ChunkFrame| c@)),
    decreases chunks.len(),
{
    let want = chunks.map_values(|c: ChunkFrame| c@);
    if chunks.len() == 0 {
        assert(want =~= Seq::<FrameView>::empty());
    } else {
        let c = chunks[0];
        let rest = chunks.subrange(1, chunks.len() as int);
        assert(chunks =~= seq![c] + rest);
        lemma_frames_front(c, rest);
        lemma_frame_aligned(c);
        let whole = frames_bytes(chunks);
        let next = at + c.bytes().len();
        assert(whole.subrange(0, c.bytes().len() as int) =~= c.bytes());
        lemma_part(s, at, whole, 0, c.bytes());
        lemma_parse_frame(s, at, c);
        assert(whole.subrange(c.bytes().len() as int, whole.len() as int) =~= frames_bytes(rest));
        lemma_part(s, at, whole, c.bytes().len() as int, frames_bytes(rest));
        assert(s.subrange(next, s.len() as int) == frames_bytes(rest));
        assert(all_consistent(rest)) by {
            assert forall|i: int| 0 <= i < rest.len() implies (#[trigger] rest[i]).consistent()
                && rest[i].id_bytes().len() <= u32::MAX by {
                assert(rest[i] == chunks[i + 1]);
            }
        }
        lemma_parse_frames(s, next, rest);
        let rest_views = rest.map_values(|c: ChunkFrame| c@);
        assert(seq![c@] + rest_views =~= want);
    }
}

/// Reading a packed buffer gives the chunks back, field by field and in
/// order, with nothing left over.
pub proof fn lemma_pack_round_trip(chunks: Seq<ChunkFrame>)
    requires
        chunks.len() <= u32::MAX,
        all_consistent(chunks),
    ensures
        unpacked(packed(chunks)) == Some(chunks.map_values(|c: ChunkFrame| c@)),
{
    let s = packed(chunks);
    let count = le_bytes_u32(chunks.len() as int);
    assert(count.len() == 4);
    assert(s.subrange(0, 4) =~= count);
    lemma_le_u32_round_trip(s, 0, chunks.len() as int);
    assert(s.subrange(4, s.len() as int) =~= frames_bytes(chunks));
    lemma_parse_frames(s, 4, chunks);
}

fn put_bytes(buf: &mut Vec<u8>, src: &[u8])
    ensures
        final(buf)@ == old(buf)@ + src@,
{
    let mut i: usize = 0;
    while i < src.len()
        invariant
            i <= src@.len(),
            buf@ == old(buf)@ + src@.subrange(0, i as int),
        decreases src@.len() - i,
    {
        buf.push(src[i]);
        i = i + 1;
        assert(buf@ =~= old(buf)@ + src@.subrange(0, i as int));
    }
    assert(src@.subrange(0, i as int) =~= src@);
}

fn put_words(buf: &mut Vec<u8>, src: &[u32])
    ensures
        final(buf)@ == old(buf)@ + words_le(src@),
{
    let mut i: usize = 0;
    assert(buf@ =~= old(buf)@ + words_le(src@.subrange(0, 0)));
    while i < src.len()
        invariant
            i <= src@.len(),
            buf@ == old(buf)@ + words_le(src@.subrange(0, i as int)),
        decreases src@.len() - i,
    {
        put_u32(buf, src[i]);
        proof {
            let s1 = src@.subrange(0, i + 1);
            assert(s1.drop_last() =~= src@.subrange(0, i as int));
            assert(s1.last() == src@[i as int]);
            assert(buf@ =~= old(buf)@ + words_le(s1));
        }
        i = i + 1;
    }
    assert(src@.subrange(0, i as int) =~= src@);
}

fn put_halves(buf: &mut Vec<u8>, src: &[u16])
    ensures
        final(buf)@ == old(buf)@ + halves_le(src@),
{
    let mut i: usize = 0;
    assert(buf@ =~= old(buf)@ + halves_le(src@.subrange(0, 0)));
    while i < src.len()
        invariant
            i <= src@.len(),
            buf@ == old(buf)@ + halves_le(src@.subrange(0, i as int)),
        decreases src@.len() - i,
    {
        put_u16(buf, src[i]);
        proof {
            let s1 = src@.subrange(0, i + 1);
            assert(s1.drop_last() =~= src@.subrange(0, i as int));
            assert(s1.last() == src@[i as int]);
            assert(buf@ =~= old(buf)@ + halves_le(s1));
        }
        i = i + 1;
    }
    assert(src@.subrange(0, i as int) =~= src@);
}

/// Appends zeros until the length of `buf` is a multiple of four.
fn put_padding(buf: &mut Vec<u8>, Ghost(start): Ghost<int>)
    requires
        0 <= start <= old(buf)@.len(),
        start % 4 == 0,
    ensures
        final(buf)@ == old(buf)@ + zeros(pad4(old(buf)@.len() - start)),
{
    let rem: usize = buf.len() % 4;
    if rem != 0 {
        let mut k: usize = rem;
        while k < 4
            invariant
                rem <= k <= 4,
                rem == old(buf)@.len() % 4,
                buf@ == old(buf)@ + zeros(k - rem),
            decreases 4 - k,
        {
            buf.push(0);
            k = k + 1;
            assert(buf@ =~= old(buf)@ + zeros(k - rem));
        }
    } else {
        assert(buf@ =~= old(buf)@ + zeros(0));
    }
}

/// Appends the id field of a chunk to a buffer whose length is a multiple
/// of four.
fn pack_id(buf: &mut Vec<u8>, chunk: &ChunkFrame)
    requires
        old(buf)@.len() % 4 == 0,
        chunk.id_bytes().len() <= u32::MAX,
    ensures
        final(buf)@ == old(buf)@ + chunk.id_field(),
{
    let ghost start = buf@.len() as int;
    let id = chunk.node_id.as_str().as_bytes();
    put_u32(buf, id.len() as u32);
    put_bytes(buf, id);
    put_padding(buf, Ghost(start));
    assert(buf@ =~= old(buf)@ + chunk.id_field());
}

/// Appends the fixed fields of a chunk.
fn pack_fixed(buf: &mut Vec<u8>, chunk: &ChunkFrame)
    ensures
        final(buf)@ == old(buf)@ + chunk.fixed_field(),
{
    put_u64(buf, chunk.center[0]);
    put_u64(buf, chunk.center[1]);
    put_u64(buf, chunk.center[2]);
    put_u32(buf, chunk.level as u32);
    put_u32(buf, chunk.spacing);
    put_u32(buf, chunk.point_count);
    assert(buf@ =~= old(buf)@ + chunk.fixed_field());
}

/// Appends the payload of a chunk.
fn pack_payload(buf: &mut Vec<u8>, chunk: &ChunkFrame)
    ensures
        final(buf)@ == old(buf)@ + chunk.payload(),
{
    put_words(buf, chunk.positions.as_slice());
    put_bytes(buf, chunk.colors.as_slice());
    put_halves(buf, chunk.intensities.as_slice());
    put_bytes(buf, chunk.classifications.as_slice());
    assert(buf@ =~= old(buf)@ + chunk.payload());
}

/// Appends one chunk to a buffer whose length is a multiple of four.
#[verifier::rlimit(40)]
fn pack_chunk(buf: &mut Vec<u8>, chunk: &ChunkFrame)
    requires
        old(buf)@.len() % 4 == 0,
        chunk.id_bytes().len() <= u32::MAX,
    ensures
        final(buf)@ == old(buf)@ + chunk.bytes(),
{
    let ghost start = buf@.len() as int;
    pack_id(buf, chunk);
    pack_fixed(buf, chunk);
    pack_payload(buf, chunk);
    assert(buf@ =~= old(buf)@ + chunk.body()) by {
        reveal(ChunkFrame::body);
    }
    put_padding(buf, Ghost(start));
    assert(buf@ =~= old(buf)@ + chunk.bytes()) by {
        reveal(ChunkFrame::bytes);
    }
}

/// Whether `frame` is `chunk` with its numbers as floats: the centre as
/// the nearest doubles, the spacing and the positions as the nearest
/// single-precision floats.
pub open spec fn frame_of(frame: ChunkFrame, chunk: PointChunk) -> bool {
    &&& frame.node_id@ == chunk.node_id@
    &&& frame.center[0] as int == f64_bits_of(chunk.center[0] as int)
    &&& frame.center[1] as int == f64_bits_of(chunk.center[1] as int)
    &&& frame.center[2] as int == f64_bits_of(chunk.center[2] as int)
    &&& frame.level == chunk.level
    &&& frame.spacing as int == f32_bits_of(chunk.spacing as int)
    &&& frame.positions@.len() == chunk.positions@.len()
    &&& forall|i: int|
        0 <= i < chunk.positions@.len() ==> (#[trigger] frame.positions@[i]) as int == f32_bits_of(
            chunk.positions@[i] as int,
        )
    &&& frame.colors@ == chunk.colors@
    &&& frame.intensities@ == chunk.intensities@
    &&& frame.classifications@ == chunk.classifications@
    &&& frame.point_count == chunk.point_count
}

/// Whether the frames are the chunks with their numbers as floats, one
/// for one.
pub open spec fn frames_of(frames: Seq<ChunkFrame>, chunks: Seq<PointChunk>) -> bool {
    &&& frames.len() == chunks.len()
    &&& forall|i: int| 0 <= i < frames.len() ==> frame_of(#[trigger] frames[i], chunks[i])
}

fn copy_bytes(src: &Vec<u8>) -> (r: Vec<u8>)
    ensures
        r@ == src@,
{
    let mut out: Vec<u8> = Vec::new();
    put_bytes(&mut out, src.as_slice());
    assert(Seq::<u8>::empty() + src@ =~= src@);
    out
}

/// The chunk with its numbers as floats.
pub fn chunk_frame(chunk: &PointChunk) -> (frame: ChunkFrame)
    ensures
        frame_of(frame, *chunk),
{
    let mut positions: Vec<u32> = Vec::new();
    let mut i: usize = 0;
    while i < chunk.positions.len()
        invariant
            i <= chunk.positions@.len(),
            positions@.len() == i,
            forall|j: int|
                0 <= j < i ==> (#[trigger] positions@[j]) as int == f32_bits_of(
                    chunk.positions@[j] as int,
                ),
        decreases chunk.positions@.len() - i,
    {
        positions.push(f32_bits(chunk.positions[i]));
        i = i + 1;
    }
    let mut intensities: Vec<u16> = Vec::new();
    let mut k: usize = 0;
    while k < chunk.intensities.len()
        invariant
            k <= chunk.intensities@.len(),
            intensities@ == chunk.intensities@.subrange(0, k as int),
        decreases chunk.intensities@.len() - k,
    {
        intensities.push(chunk.intensities[k]);
        k = k + 1;
        assert(intensities@ =~= chunk.intensities@.subrange(0, k as int));
    }
    assert(chunk.intensities@.subrange(0, k as int) =~= chunk.intensities@);
    ChunkFrame {
        node_id: chunk.node_id.clone(),
        center: [f64_bits(chunk.center[0]), f64_bits(chunk.center[1]), f64_bits(chunk.center[2])],
        level: chunk.level,
        spacing: f32_bits_unsigned(chunk.spacing),
        positions,
        colors: copy_bytes(&chunk.colors),
        intensities,
        classifications: copy_bytes(&chunk.classifications),
        point_count: chunk.point_count,
    }
}

/// The chunks with their numbers as floats.
pub fn chunk_frames(chunks: &Vec<PointChunk>) -> (frames: Vec<ChunkFrame>)
    ensures
        frames_of(frames@, chunks@),
{
    let mut frames: Vec<ChunkFrame> = Vec::new();
    let mut i: usize = 0;
    while i < chunks.len()
        invariant
            i <= chunks@.len(),
            frames@.len() == i,
            forall|j: int| 0 <= j < i ==> frame_of(#[trigger] frames@[j], chunks@[j]),
        decreases chunks@.len() - i,
    {
        frames.push(chunk_frame(&chunks[i]));
        i = i + 1;
    }
    frames
}

/// Packs the chunks into one buffer, in the layout of this module.
pub fn pack_chunks_binary(chunks: &[ChunkFrame]) -> (buf: Vec<u8>)
    requires
        chunks@.len() <= u32::MAX,
        forall|i: int| 0 <= i < chunks@.len() ==> (#[trigger] chunks@[i]).id_bytes().len() <= u32::MAX,
    ensures
        buf@ == packed(chunks@),
        buf@.len() % 4 == 0,
{
    let mut buf: Vec<u8> = Vec::new();
    put_u32(&mut buf, chunks.len() as u32);
    let mut i: usize = 0;
    assert(buf@ =~= le_bytes_u32(chunks@.len() as int) + frames_bytes(chunks@.subrange(0, 0)));
    while i < chunks.len()
        invariant
            i <= chunks@.len(),
            forall|k: int|
                0 <= k < chunks@.len() ==> (#[trigger] chunks@[k]).id_bytes().len() <= u32::MAX,
            buf@ == le_bytes_u32(chunks@.len() as int) + frames_bytes(
                chunks@.subrange(0, i as int),
            ),
        decreases chunks@.len() - i,
    {
        proof {
            lemma_frames_aligned(chunks@.subrange(0, i as int));
        }
        pack_chunk(&mut buf, &chunks[i]);
        proof {
            let s1 = chunks@.subrange(0, i + 1);
            assert(s1.drop_last() =~= chunks@.subrange(0, i as int));
            assert(s1.last() == chunks@[i as int]);
            assert(buf@ =~= le_bytes_u32(chunks@.len() as int) + frames_bytes(s1));
        }
        i = i + 1;
    }
    proof {
        assert(chunks@.subrange(0, i as int) =~= chunks@);
        lemma_frames_aligned(chunks@);
        assert(le_bytes_u32(chunks@.len() as int).len() == 4);
    }
    buf
}

} // verus!
