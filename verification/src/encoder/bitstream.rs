//! Packets: units of the bitstream with their headers and sizes, and groups of
//! tiles.

use vstd::arithmetic::power2::*;
use vstd::prelude::*;

use crate::encoder::sequence::bit_length;
use crate::outside::{
    align_bits, bits_of, into_bytes, lemma_bits_injective, lemma_bits_join, low_first, new_bits, push_bit, push_bytes, written_bits, BitBuffer,
};
use crate::util::{lemma_floor_log2, u64log2};

verus! {

/// The unit that starts each temporal unit.
pub const TEMPORAL_DELIMITER: [u8; 2] = [0x12, 0x00];

/// The type of a unit of the bitstream.
#[allow(non_camel_case_types)]
#[derive(Clone, Copy, Debug, PartialEq, Eq, Structural)]
pub enum ObuType {
    OBU_SEQUENCE_HEADER,
    OBU_TEMPORAL_DELIMITER,
    OBU_FRAME_HEADER,
    OBU_METADATA,
    OBU_FRAME,
}

impl ObuType {
    /// The number that codes the type.
    pub open spec fn code(self) -> int {
        match self {
            ObuType::OBU_SEQUENCE_HEADER => 1,
            ObuType::OBU_TEMPORAL_DELIMITER => 2,
            ObuType::OBU_FRAME_HEADER => 3,
            ObuType::OBU_METADATA => 5,
            ObuType::OBU_FRAME => 6,
        }
    }

    fn to_code(self) -> (r: u8)
        ensures
            r == self.code(),
            1 <= r <= 6,
    {
        match self {
            ObuType::OBU_SEQUENCE_HEADER => 1,
            ObuType::OBU_TEMPORAL_DELIMITER => 2,
            ObuType::OBU_FRAME_HEADER => 3,
            ObuType::OBU_METADATA => 5,
            ObuType::OBU_FRAME => 6,
        }
    }
}

/// A number in groups of seven bits, the lowest first; the top bit of a byte says
/// that another follows.
pub open spec fn uleb128(v: nat) -> Seq<u8>
    decreases v,
{
    if v < 128 { seq![v as u8] } else { seq![(v % 128 + 128) as u8] + uleb128(v / 128) }
}

/// The number that groups of seven bits code.
pub open spec fn from_uleb128(s: Seq<u8>) -> nat
    decreases s.len(),
{
    if s.len() == 0 {
        0
    } else if s[0] < 128 {
        s[0] as nat
    } else {
        ((s[0] - 128) + 128 * from_uleb128(s.subrange(1, s.len() as int))) as nat
    }
}

/// A size reads back as it was written.
pub proof fn law_uleb128_round_trip(v: nat)
    ensures
        from_uleb128(uleb128(v)) == v,
        uleb128(v).len() >= 1,
    decreases v,
{
    if v >= 128 {
        law_uleb128_round_trip(v / 128);
        let s = uleb128(v);
        assert(s.subrange(1, s.len() as int) =~= uleb128(v / 128));
        assert(s[0] == (v % 128 + 128) as u8);
    }
}

/// Adds a number in groups of seven bits.
pub fn write_uleb128(packet: &mut Vec<u8>, value: u64)
    ensures
        final(packet)@ == old(packet)@ + uleb128(value as nat),
{
    let ghost before = packet@;
    let mut v: u64 = value;
    while v >= 128
        invariant
            before + uleb128(value as nat) =~= packet@ + uleb128(v as nat),
        decreases v,
    {
        packet.push((v % 128 + 128) as u8);
        v = v / 128;
    }
    packet.push(v as u8);
    assert(packet@ =~= before + uleb128(value as nat));
}

/// The header byte of a unit with a size field and without extension.
pub open spec fn obu_header(t: ObuType) -> u8 {
    (t.code() * 8 + 2) as u8
}

/// A whole unit.
pub open spec fn obu(t: ObuType, payload: Seq<u8>) -> Seq<u8> {
    seq![obu_header(t)] + uleb128(payload.len()) + payload
}

/// The header byte of a unit: a zero bit, the type in four bits, no extension, a
/// size field, and a reserved zero bit.
fn write_obu_header(packet: &mut Vec<u8>, t: ObuType)
    ensures
        final(packet)@ == old(packet)@.push(obu_header(t)),
{
    let code: u8 = t.to_code();
    let mut bw: BitBuffer = new_bits();
    push_bit(&mut bw, false);
    push_bit(&mut bw, code & 8 != 0);
    push_bit(&mut bw, code & 4 != 0);
    push_bit(&mut bw, code & 2 != 0);
    push_bit(&mut bw, code & 1 != 0);
    push_bit(&mut bw, false);
    push_bit(&mut bw, true);
    push_bit(&mut bw, false);
    let ghost h = obu_header(t);
    let ghost bits = written_bits(bw);
    proof {
        assert(h == code * 8 + 2);
        assert(!(h & 128 != 0) && (h & 64 != 0) == (code & 8 != 0) && (h & 32 != 0) == (code & 4 != 0) && (h & 16 != 0) == (code & 2 != 0) && (h & 8 != 0) == (code & 1
            != 0) && !(h & 4 != 0) && (h & 2 != 0) && !(h & 1 != 0)) by (bit_vector)
            requires h == code * 8 + 2, code <= 6;
        assert(bits_of(seq![h]) =~= bits);
    }
    let bytes: Vec<u8> = into_bytes(bw);
    proof {
        lemma_bits_injective(bytes@, seq![h]);
    }
    packet.push(bytes[0]);
}

fn append(packet: &mut Vec<u8>, bytes: &[u8])
    ensures
        final(packet)@ == old(packet)@ + bytes@,
{
    let ghost before = packet@;
    let mut i: usize = 0;
    while i < bytes.len()
        invariant
            i <= bytes.len(),
            packet@ =~= before + bytes@.subrange(0, i as int),
        decreases bytes.len() - i,
    {
        packet.push(bytes[i]);
        i = i + 1;
    }
    assert(bytes@.subrange(0, i as int) =~= bytes@);
}

/// Adds a whole unit.
pub fn write_obu(packet: &mut Vec<u8>, t: ObuType, payload: &[u8])
    ensures
        final(packet)@ == old(packet)@ + obu(t, payload@),
{
    let ghost before = packet@;
    write_obu_header(packet, t);
    write_uleb128(packet, payload.len() as u64);
    append(packet, payload);
    assert(packet@ =~= before + obu(t, payload@));
}

/// Adds the unit that starts a temporal unit.
pub fn write_temporal_delimiter(packet: &mut Vec<u8>)
    ensures
        final(packet)@ == old(packet)@ + seq![0x12u8, 0x00u8],
{
    let ghost before = packet@;
    packet.push(TEMPORAL_DELIMITER[0]);
    packet.push(TEMPORAL_DELIMITER[1]);
    assert(packet@ =~= before + seq![0x12u8, 0x00u8]);
}

/// The delimiter is an empty unit of its type.
pub proof fn law_temporal_delimiter_is_an_empty_unit()
    ensures
        obu(ObuType::OBU_TEMPORAL_DELIMITER, Seq::empty()) =~= seq![0x12u8, 0x00u8],
{
    assert(uleb128(0) =~= seq![0u8]);
}

/// A writer of bits without bits.
pub fn start_bits() -> (r: BitBuffer)
    ensures
        written_bits(r) == Seq::<bool>::empty(),
{
    new_bits()
}

/// The lowest `n` bits of a number, the highest of them first.
pub open spec fn literal_bits(v: nat, n: nat) -> Seq<bool>
    decreases n,
{
    if n == 0 { seq![] } else { literal_bits(v / 2, (n - 1) as nat).push(v % 2 == 1) }
}

/// Adds the lowest `n` bits of a number, the highest of them first.
pub fn write_literal(w: &mut BitBuffer, value: u64, n: u32)
    requires
        n <= 64,
    ensures
        written_bits(*final(w)) == written_bits(*old(w)) + literal_bits(value as nat, n as nat),
    decreases n,
{
    let ghost before = written_bits(*w);
    if n > 0 {
        write_literal(w, value / 2, n - 1);
        push_bit(w, value % 2 == 1);
    }
    assert(written_bits(*w) =~= before + literal_bits(value as nat, n as nat));
}

/// Zero bits up to the next whole byte.
pub open spec fn to_whole_byte(bits: Seq<bool>) -> Seq<bool> {
    bits + Seq::new(((8 - bits.len() % 8) % 8) as nat, |i: int| false)
}

/// Ends a payload with a one and zeros up to the next whole byte.
pub fn close_payload(bw: BitBuffer) -> (r: Vec<u8>)
    ensures
        bits_of(r@) == to_whole_byte(written_bits(bw).push(true)),
{
    let mut w: BitBuffer = bw;
    push_bit(&mut w, true);
    align_bits(&mut w);
    into_bytes(w)
}

/// The group header: one flag in a byte of its own.
pub fn write_tile_group_header(tile_start_and_end_present_flag: bool) -> (r: Vec<u8>)
    ensures
        r@ =~= seq![if tile_start_and_end_present_flag { 0x80u8 } else { 0x00u8 }],
{
    let mut bw: BitBuffer = new_bits();
    push_bit(&mut bw, tile_start_and_end_present_flag);
    align_bits(&mut bw);
    let ghost h: u8 = if tile_start_and_end_present_flag { 0x80 } else { 0x00 };
    let ghost bits = written_bits(bw);
    proof {
        lemma_flag_byte();
        if tile_start_and_end_present_flag {
            assert(bits =~= Seq::new(8, |i: int| i == 0));
        } else {
            assert(bits =~= Seq::new(8, |i: int| false));
        }
    }
    let out: Vec<u8> = into_bytes(bw);
    proof {
        lemma_bits_injective(out@, seq![h]);
    }
    out
}

proof fn lemma_flag_byte()
    ensures
        bits_of(seq![0x80u8]) == Seq::new(8, |i: int| i == 0),
        bits_of(seq![0x00u8]) == Seq::new(8, |i: int| false),
{
    assert(0x80u8 & 128 != 0 && !(0x80u8 & 64 != 0) && !(0x80u8 & 32 != 0) && !(0x80u8 & 16 != 0) && !(0x80u8 & 8 != 0) && !(0x80u8 & 4 != 0) && !(0x80u8 & 2 != 0)
        && !(0x80u8 & 1 != 0)) by (bit_vector);
    assert(!(0x00u8 & 128 != 0) && !(0x00u8 & 64 != 0) && !(0x00u8 & 32 != 0) && !(0x00u8 & 16 != 0) && !(0x00u8 & 8 != 0) && !(0x00u8 & 4 != 0) && !(0x00u8 & 2
        != 0) && !(0x00u8 & 1 != 0)) by (bit_vector);
    assert(bits_of(seq![0x80u8]) =~= Seq::new(8, |i: int| i == 0));
    assert(bits_of(seq![0x00u8]) =~= Seq::new(8, |i: int| false));
}

/// The lowest `n` bytes of a number, the lowest first.
fn le_bytes(v: u64, n: u32) -> (r: Vec<u8>)
    ensures
        r@ == low_first(v as int, n as nat),
{
    let mut out: Vec<u8> = Vec::new();
    let mut rest: u64 = v;
    let mut i: u32 = 0;
    while i < n
        invariant
            i <= n,
            low_first(v as int, n as nat) =~= out@ + low_first(rest as int, (n - i) as nat),
        decreases n - i,
    {
        out.push((rest % 256) as u8);
        rest = rest / 256;
        i = i + 1;
    }
    out
}

/// The tiles of a group one after the other; all but the last are preceded by their
/// size less one, in `n` bytes.
pub open spec fn joined_tiles(tiles: Seq<Vec<u8>>, n: nat, from: int) -> Seq<u8>
    decreases tiles.len() - from,
{
    if from >= tiles.len() {
        seq![]
    } else if from == tiles.len() - 1 {
        tiles[from]@
    } else {
        low_first(tiles[from].len() - 1, n) + tiles[from]@ + joined_tiles(tiles, n, from + 1)
    }
}

/// A group of tiles: where a frame has several, a byte with the flag that the first
/// and last are not named, then the tiles.
pub open spec fn tile_group(tiles: Seq<Vec<u8>>, several: bool, n: nat) -> Seq<u8> {
    (if several { seq![0x00u8] } else { seq![] }) + joined_tiles(tiles, n, 0)
}

/// Puts the tiles of a frame together.
pub fn build_raw_tile_group(cols: usize, rows: usize, raw_tiles: &[Vec<u8>], max_tile_size_bytes: u32) -> (r: Vec<u8>)
    requires
        cols * rows <= usize::MAX,
        forall|i: int| 0 <= i < raw_tiles.len() - 1 ==> (#[trigger] raw_tiles@[i]).len() >= 1,
    ensures
        r@ == tile_group(raw_tiles@, cols * rows > 1, max_tile_size_bytes as nat),
{
    let mut bw: BitBuffer = new_bits();
    let several: bool = cols * rows > 1;
    if several {
        push_bit(&mut bw, false);
    }
    align_bits(&mut bw);
    let ghost head: Seq<u8> = if several { seq![0x00u8] } else { seq![] };
    proof {
        lemma_flag_byte();
        if several {
            assert(written_bits(bw) =~= Seq::new(8, |i: int| false));
        } else {
            assert(written_bits(bw) =~= bits_of(head));
        }
    }
    let ghost mut sent: Seq<u8> = head;
    let ghost want = tile_group(raw_tiles@, several, max_tile_size_bytes as nat);
    assert(want == sent + joined_tiles(raw_tiles@, max_tile_size_bytes as nat, 0));
    let mut i: usize = 0;
    while i < raw_tiles.len()
        invariant
            i <= raw_tiles.len(),
            forall|i: int| 0 <= i < raw_tiles.len() - 1 ==> (#[trigger] raw_tiles@[i]).len() >= 1,
            written_bits(bw) == bits_of(sent),
            want == sent + joined_tiles(raw_tiles@, max_tile_size_bytes as nat, i as int),
        decreases raw_tiles.len() - i,
    {
        let last: usize = raw_tiles.len() - 1;
        let ghost before = sent;
        if i != last {
            assert(raw_tiles@[i as int].len() >= 1);
            let size: Vec<u8> = le_bytes((raw_tiles[i].len() - 1) as u64, max_tile_size_bytes);
            push_bytes(&mut bw, size.as_slice());
            proof {
                lemma_bits_join(sent, size@);
                sent = sent + size@;
            }
        }
        push_bytes(&mut bw, raw_tiles[i].as_slice());
        proof {
            lemma_bits_join(sent, raw_tiles@[i as int]@);
            sent = sent + raw_tiles@[i as int]@;
            assert(want =~= sent + joined_tiles(raw_tiles@, max_tile_size_bytes as nat, i + 1));
        }
        i = i + 1;
    }
    proof {
        assert(want =~= sent);
    }
    let out: Vec<u8> = into_bytes(bw);
    proof {
        lemma_bits_injective(out@, want);
    }
    out
}

/// The number that bytes code, the lowest first.
pub open spec fn from_low_first(s: Seq<u8>) -> int
    decreases s.len(),
{
    if s.len() == 0 { 0 } else { s[0] + 256 * from_low_first(s.subrange(1, s.len() as int)) }
}

/// `256^n`.
pub open spec fn bytes_range(n: nat) -> int {
    pow2(8 * n) as int
}

/// A number that fits its bytes reads back as it was written.
pub proof fn law_low_first_round_trip(v: int, n: nat)
    requires
        0 <= v < bytes_range(n),
    ensures
        from_low_first(low_first(v, n)) == v,
        low_first(v, n).len() == n,
    decreases n,
{
    lemma2_to64();
    if n > 0 {
        lemma_pow2_adds(8 * (n - 1) as nat, 8);
        assert(8 * (n - 1) as nat + 8 == 8 * n);
        assert(v / 256 < bytes_range((n - 1) as nat)) by (nonlinear_arith)
            requires 0 <= v < bytes_range((n - 1) as nat) * 256;
        law_low_first_round_trip(v / 256, (n - 1) as nat);
        let s = low_first(v, n);
        assert(s.subrange(1, s.len() as int) =~= low_first(v / 256, (n - 1) as nat));
    }
}

/// Takes `count` tiles apart: each but the last is preceded by its size less one.
pub open spec fn split_tiles(data: Seq<u8>, count: int, n: nat) -> Seq<Seq<u8>>
    decreases count,
{
    if count <= 0 {
        seq![]
    } else if count == 1 {
        seq![data]
    } else {
        let size = from_low_first(data.subrange(0, n as int)) + 1;
        seq![data.subrange(n as int, n + size)] + split_tiles(data.subrange(n + size, data.len() as int), count - 1, n)
    }
}

/// The tiles of a group come apart as they were put together, if the sizes fit
/// their bytes.
pub proof fn law_tile_group_round_trip(tiles: Seq<Vec<u8>>, n: nat, from: int)
    requires
        0 <= from <= tiles.len(),
        forall|i: int| 0 <= i < tiles.len() - 1 ==> 1 <= (#[trigger] tiles[i]).len() <= bytes_range(n),
    ensures
        ({
            let parts = split_tiles(joined_tiles(tiles, n, from), tiles.len() - from, n);
            &&& parts.len() == tiles.len() - from
            &&& forall|i: int| 0 <= i < parts.len() ==> #[trigger] parts[i] == tiles[from + i]@
        }),
    decreases tiles.len() - from,
{
    let data = joined_tiles(tiles, n, from);
    let count = tiles.len() - from;
    if count > 1 {
        let t = tiles[from]@;
        law_low_first_round_trip(t.len() - 1, n);
        let size = low_first(t.len() - 1, n);
        let rest = joined_tiles(tiles, n, from + 1);
        assert(data == size + t + rest);
        assert(data.subrange(0, n as int) =~= size);
        assert(data.subrange(n as int, n as int + t.len()) =~= t);
        assert(data.subrange(n as int + t.len(), data.len() as int) =~= rest);
        law_tile_group_round_trip(tiles, n, from + 1);
        let parts = split_tiles(data, count, n);
        let tail = split_tiles(rest, count - 1, n);
        assert(parts == seq![t] + tail);
        assert forall|i: int| 0 <= i < parts.len() implies #[trigger] parts[i] == tiles[from + i]@ by {
            if i > 0 {
                assert(parts[i] == tail[i - 1]);
            }
        }
    }
}

/// How many bytes hold the size of the largest tile.
pub open spec fn size_bytes(len: nat) -> nat {
    ((bit_length(len) + 7) / 8) as nat
}

/// How many bytes hold the size of the largest tile.
pub fn tile_size_bytes(max_len: usize) -> (r: u32)
    ensures
        r == size_bytes(max_len as nat),
{
    if max_len == 0 {
        0
    } else {
        (u64log2(max_len as u64) as u32 + 1 + 7) / 8
    }
}

/// The size of every tile up to the largest fits the bytes that the largest needs.
pub proof fn law_tile_sizes_fit(len: nat, max_len: nat)
    requires
        1 <= len <= max_len,
    ensures
        len <= bytes_range(size_bytes(max_len)),
{
    lemma_floor_log2(max_len);
    let b = bit_length(max_len);
    let n = size_bytes(max_len);
    assert(b <= 8 * n);
    if b < 8 * n {
        lemma_pow2_strictly_increases(b, 8 * n);
    }
}

/// `i` is the last of the largest tiles.
pub open spec fn is_largest(tiles: Seq<Vec<u8>>, i: int) -> bool {
    &&& 0 <= i < tiles.len()
    &&& forall|j: int| 0 <= j < tiles.len() ==> (#[trigger] tiles[j]).len() <= tiles[i].len()
    &&& forall|j: int| i < j < tiles.len() ==> (#[trigger] tiles[j]).len() < tiles[i].len()
}

/// The last of the largest tiles, whose probabilities later frames start from, and
/// its size.
pub fn largest_tile(raw_tiles: &[Vec<u8>]) -> (r: (usize, usize))
    requires
        raw_tiles.len() > 0,
    ensures
        is_largest(raw_tiles@, r.0 as int),
        r.1 == raw_tiles@[r.0 as int].len(),
{
    let mut best: usize = 0;
    let mut i: usize = 1;
    while i < raw_tiles.len()
        invariant
            0 <= best < i <= raw_tiles.len(),
            forall|j: int| 0 <= j < i ==> (#[trigger] raw_tiles@[j]).len() <= raw_tiles@[best as int].len(),
            forall|j: int| best < j < i ==> (#[trigger] raw_tiles@[j]).len() < raw_tiles@[best as int].len(),
        decreases raw_tiles.len() - i,
    {
        if raw_tiles[i].len() >= raw_tiles[best].len() {
            best = i;
        }
        i = i + 1;
    }
    (best, raw_tiles[best].len())
}

/// What precedes a key frame: the sequence header, and metadata where the sequence
/// has it.
pub open spec fn key_frame_units(header: Seq<u8>, content_light: Option<Seq<u8>>, mastering_display: Option<Seq<u8>>) -> Seq<u8> {
    obu(ObuType::OBU_SEQUENCE_HEADER, header) + (match content_light {
        Some(s) => s,
        None => seq![],
    }) + (match mastering_display {
        Some(s) => s,
        None => seq![],
    })
}

/// The view of optional bytes.
pub open spec fn optional(s: Option<Vec<u8>>) -> Option<Seq<u8>> {
    match s {
        Some(v) => Some(v@),
        None => None,
    }
}

/// Adds what precedes a key frame. `header` is the payload of the sequence header;
/// the metadata are whole units.
pub fn write_key_frame_obus(packet: &mut Vec<u8>, header: &[u8], content_light: &Option<Vec<u8>>, mastering_display: &Option<Vec<u8>>)
    ensures
        final(packet)@ == old(packet)@ + key_frame_units(header@, optional(*content_light), optional(*mastering_display)),
{
    let ghost before = packet@;
    write_obu(packet, ObuType::OBU_SEQUENCE_HEADER, header);
    if let Some(v) = content_light {
        append(packet, v.as_slice());
    }
    if let Some(v) = mastering_display {
        append(packet, v.as_slice());
    }
    assert(packet@ =~= before + key_frame_units(header@, optional(*content_light), optional(*mastering_display)));
}

/// What precedes a key frame.
pub struct KeyFrameUnits {
    pub header: Vec<u8>,
    pub content_light: Option<Vec<u8>>,
    pub mastering_display: Option<Vec<u8>>,
}

/// Units one after the other.
pub open spec fn joined_units(s: Seq<Vec<u8>>, n: int) -> Seq<u8>
    decreases n,
{
    if n <= 0 { seq![] } else { joined_units(s, n - 1) + s[n - 1]@ }
}

/// What precedes the frame itself in a packet: the units of a key frame, and
/// metadata.
pub open spec fn packet_head(key: Option<KeyFrameUnits>, metadata: Seq<Vec<u8>>) -> Seq<u8> {
    (match key {
        Some(k) => key_frame_units(k.header@, optional(k.content_light), optional(k.mastering_display)),
        None => seq![],
    }) + joined_units(metadata, metadata.len() as int)
}

fn start_packet(key: &Option<KeyFrameUnits>, metadata: &[Vec<u8>]) -> (r: Vec<u8>)
    ensures
        r@ == packet_head(*key, metadata@),
{
    let mut packet: Vec<u8> = Vec::new();
    if let Some(k) = key {
        write_key_frame_obus(&mut packet, k.header.as_slice(), &k.content_light, &k.mastering_display);
    }
    let ghost head = packet@;
    let mut i: usize = 0;
    while i < metadata.len()
        invariant
            i <= metadata.len(),
            packet@ =~= head + joined_units(metadata@, i as int),
        decreases metadata.len() - i,
    {
        append(&mut packet, metadata[i].as_slice());
        i = i + 1;
    }
    assert(packet@ =~= packet_head(*key, metadata@));
    packet
}

/// The packet of a coded frame: what precedes it, and one unit with the frame header
/// and the tiles.
pub fn encode_frame(key: &Option<KeyFrameUnits>, metadata: &[Vec<u8>], frame_header: &[u8], tile_group: &[u8]) -> (r: Vec<u8>)
    requires
        frame_header.len() + tile_group.len() <= usize::MAX,
    ensures
        r@ == packet_head(*key, metadata@) + obu(ObuType::OBU_FRAME, frame_header@ + tile_group@),
{
    let mut packet: Vec<u8> = start_packet(key, metadata);
    let ghost head = packet@;
    write_obu_header(&mut packet, ObuType::OBU_FRAME);
    write_uleb128(&mut packet, (frame_header.len() + tile_group.len()) as u64);
    append(&mut packet, frame_header);
    append(&mut packet, tile_group);
    assert((frame_header@ + tile_group@).len() == frame_header.len() + tile_group.len());
    assert(packet@ =~= head + obu(ObuType::OBU_FRAME, frame_header@ + tile_group@));
    packet
}

/// The packet that shows a frame that is coded already: what precedes it, and one
/// unit with the frame header.
pub fn encode_show_existing_frame(key: &Option<KeyFrameUnits>, metadata: &[Vec<u8>], frame_header: &[u8]) -> (r: Vec<u8>)
    ensures
        r@ == packet_head(*key, metadata@) + obu(ObuType::OBU_FRAME_HEADER, frame_header@),
{
    let mut packet: Vec<u8> = start_packet(key, metadata);
    write_obu(&mut packet, ObuType::OBU_FRAME_HEADER, frame_header);
    packet
}

/// The types of units have the numbers of the format.
pub proof fn law_units_have_their_numbers(t: ObuType)
    ensures
        t.code() == 1 <==> t == ObuType::OBU_SEQUENCE_HEADER,
        t.code() == 2 <==> t == ObuType::OBU_TEMPORAL_DELIMITER,
        t.code() == 3 <==> t == ObuType::OBU_FRAME_HEADER,
        t.code() == 5 <==> t == ObuType::OBU_METADATA,
        t.code() == 6 <==> t == ObuType::OBU_FRAME,
{
}

/// A size ends with its first byte below 128, so that it reads back whatever follows it.
pub proof fn law_sizes_end_by_themselves(v: nat, rest: Seq<u8>, i: int)
    requires
        0 <= i < uleb128(v).len(),
    ensures
        uleb128(v)[i] < 128 <==> i == uleb128(v).len() - 1,
        from_uleb128(uleb128(v) + rest) == v,
    decreases v,
{
    let s = uleb128(v);
    if v >= 128 {
        assert(v / 128 < v);
        let t = uleb128(v / 128);
        law_uleb128_round_trip(v / 128);
        assert((s + rest).subrange(1, (s + rest).len() as int) =~= t + rest);
        if i > 0 {
            law_sizes_end_by_themselves(v / 128, rest, i - 1);
            assert(s[i] == t[i - 1]);
        } else {
            law_sizes_end_by_themselves(v / 128, rest, 0);
        }
        assert((s + rest)[0] == (v % 128 + 128) as u8);
    } else {
        assert((s + rest)[0] == v as u8);
    }
}

/// A unit reads back: its type from four bits of its first byte, which says besides that
/// there is no extension and that a size follows; then the size, then as many bytes of
/// payload. What follows the unit makes no difference.
pub proof fn law_units_read_back(t: ObuType, payload: Seq<u8>, rest: Seq<u8>)
    ensures
        ({
            let s = obu(t, payload) + rest;
            let m = uleb128(payload.len()).len() as int;
            &&& (s[0] as int / 8) % 16 == t.code()
            &&& s[0] as int / 128 == 0
            &&& (s[0] as int / 4) % 2 == 0
            &&& (s[0] as int / 2) % 2 == 1
            &&& s[0] as int % 2 == 0
            &&& from_uleb128(s.subrange(1, s.len() as int)) == payload.len()
            &&& s.subrange(1 + m, 1 + m + payload.len()) == payload
            &&& s.subrange(1 + m + payload.len(), s.len() as int) == rest
        }),
{
    let s = obu(t, payload) + rest;
    let u = uleb128(payload.len());
    let m = u.len() as int;
    law_uleb128_round_trip(payload.len());
    law_sizes_end_by_themselves(payload.len(), payload + rest, 0);
    assert(s.subrange(1, s.len() as int) =~= u + (payload + rest));
    assert(s.subrange(1 + m, 1 + m + payload.len()) =~= payload);
    assert(s.subrange(1 + m + payload.len(), s.len() as int) =~= rest);
    assert(s[0] == obu_header(t));
}

/// The number that bits code, the highest first.
pub open spec fn from_bits(s: Seq<bool>) -> int
    decreases s.len(),
{
    if s.len() == 0 { 0 } else { 2 * from_bits(s.drop_last()) + if s.last() { 1int } else { 0 } }
}

/// A number that is written in bits reads back, but for the bits that were left out.
pub proof fn law_literals_read_back(v: nat, n: nat)
    ensures
        literal_bits(v, n).len() == n,
        from_bits(literal_bits(v, n)) == v as int % pow2(n) as int,
        v < pow2(n) ==> from_bits(literal_bits(v, n)) == v,
    decreases n,
{
    lemma2_to64();
    lemma_pow2_pos(n);
    if n > 0 {
        let m = (n - 1) as nat;
        law_literals_read_back(v / 2, m);
        let s = literal_bits(v, n);
        assert(s.drop_last() =~= literal_bits(v / 2, m));
        assert(s.last() == (v % 2 == 1));
        lemma_pow2_unfold(n);
        let p = pow2(m) as int;
        let h = v as int / 2;
        lemma_pow2_pos(m);
        vstd::arithmetic::div_mod::lemma_fundamental_div_mod(h, p);
        vstd::arithmetic::div_mod::lemma_mod_bound(h, p);
        let q = h / p;
        let r = 2 * (h % p) + v as int % 2;
        assert(v as int == q * (2 * p) + r) by (nonlinear_arith)
            requires h == p * q + h % p, v as int == 2 * h + v as int % 2, r == 2 * (h % p) + v as int % 2;
        vstd::arithmetic::div_mod::lemma_fundamental_div_mod_converse(v as int, 2 * p, q, r);
    }
    if v < pow2(n) {
        vstd::arithmetic::div_mod::lemma_small_mod(v, pow2(n));
    }
}

/// Bits are brought to whole bytes with as few zeros as it takes.
pub proof fn law_bits_are_filled_with_zeros(bits: Seq<bool>, i: int)
    requires
        0 <= i < to_whole_byte(bits).len(),
    ensures
        to_whole_byte(bits).len() % 8 == 0,
        bits.len() <= to_whole_byte(bits).len() < bits.len() + 8,
        i < bits.len() ==> to_whole_byte(bits)[i] == bits[i],
        i >= bits.len() ==> !to_whole_byte(bits)[i],
{
}

/// Sizes are given in as few bytes as hold that of the largest tile.
pub proof fn law_size_bytes_are_as_few_as_hold(len: nat)
    requires
        len >= 1,
    ensures
        len < bytes_range(size_bytes(len)),
        size_bytes(len) >= 1,
        len >= bytes_range((size_bytes(len) - 1) as nat),
{
    lemma_floor_log2(len);
    let b = bit_length(len);
    let n = size_bytes(len);
    assert(b <= 8 * n < b + 8);
    if b < 8 * n {
        lemma_pow2_strictly_increases(b, 8 * n);
    }
    let low = (8 * (n - 1)) as nat;
    assert(low <= b - 1);
    if low < b - 1 {
        lemma_pow2_strictly_increases(low, (b - 1) as nat);
    }
    assert(8 * ((n - 1) as nat) == low);
}

/// A packet starts with the sequence header of a key frame, then the light levels and the
/// display's, where there are any; metadata follow, one unit after the other.
pub proof fn law_packets_start_with_their_headers(header: Seq<u8>, a: Seq<u8>, b: Seq<u8>, s: Seq<Vec<u8>>, u: Vec<u8>)
    ensures
        ({
            let h = obu(ObuType::OBU_SEQUENCE_HEADER, header);
            &&& key_frame_units(header, None, None) == h
            &&& key_frame_units(header, Some(a), None) == h + a
            &&& key_frame_units(header, None, Some(b)) == h + b
            &&& key_frame_units(header, Some(a), Some(b)) == h + a + b
            &&& joined_units(s.push(u), s.len() as int + 1) == joined_units(s, s.len() as int) + u@
            &&& joined_units(s, 0) == Seq::<u8>::empty()
            &&& packet_head(None, s) == joined_units(s, s.len() as int)
        }),
{
    let h = obu(ObuType::OBU_SEQUENCE_HEADER, header);
    assert(key_frame_units(header, None, None) =~= h);
    assert(key_frame_units(header, Some(a), None) =~= h + a);
    assert(key_frame_units(header, None, Some(b)) =~= h + b);
    assert(key_frame_units(header, Some(a), Some(b)) =~= h + a + b);
    lemma_same_units(s.push(u), s, s.len() as int);
    assert(packet_head(None, s) =~= joined_units(s, s.len() as int));
}

proof fn lemma_same_units(s: Seq<Vec<u8>>, t: Seq<Vec<u8>>, n: int)
    requires
        n <= s.len(),
        n <= t.len(),
        forall|i: int| 0 <= i < n ==> #[trigger] s[i] == t[i],
    ensures
        joined_units(s, n) == joined_units(t, n),
    decreases n,
{
    if n > 0 {
        lemma_same_units(s, t, n - 1);
        assert(s[n - 1] == t[n - 1]);
    }
}

/// The tile whose probabilities are kept is not shorter than any other, and every one after
/// it is shorter, so there is just one such tile.
pub proof fn law_last_of_the_largest_is_kept(tiles: Seq<Vec<u8>>, i: int, j: int)
    requires
        is_largest(tiles, i),
        0 <= j < tiles.len(),
    ensures
        tiles[j].len() <= tiles[i].len(),
        tiles[j].len() == tiles[i].len() ==> j <= i,
        is_largest(tiles, j) ==> j == i,
{
}

/// A frame of several tiles has one byte more than its tiles, a zero that comes first. A
/// tile alone is the whole of its group.
pub proof fn law_several_tiles_are_announced(tiles: Seq<Vec<u8>>, n: nat)
    ensures
        tile_group(tiles, true, n).len() == tile_group(tiles, false, n).len() + 1,
        tile_group(tiles, true, n)[0] == 0,
        forall|i: int| 0 <= i < tile_group(tiles, false, n).len() ==> tile_group(tiles, true, n)[i + 1] == #[trigger] tile_group(tiles, false, n)[i],
        tiles.len() == 1 ==> tile_group(tiles, false, n) == tiles[0]@,
{
    if tiles.len() == 1 {
        assert(tile_group(tiles, false, n) =~= tiles[0]@);
    }
}

} // verus!
