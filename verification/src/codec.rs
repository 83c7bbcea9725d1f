//! Probe codec: the fixed 18-byte echo packet, big-endian on the wire.

use vstd::prelude::*;

verus! {

/// Leading word of every probe packet.
pub const PACKAGE_MAGIC: u32 = 0x13720D0B;

/// Wire size of a probe packet: magic, version, id, type.
pub const PACKAGE_SIZE: usize = 18;

#[derive(Debug, Clone, Copy, PartialEq, Eq, Structural)]
pub enum PacketType {
    Req,
    Resp,
}

/// One probe packet: either a request or its echoed response.
#[derive(Debug, Clone, Copy)]
pub struct Packet {
    version: u32,
    id: u64,
    packet_type: PacketType,
}

/// Mathematical image of a [`Packet`].
pub ghost struct PacketModel {
    pub version: u32,
    pub id: u64,
    pub packet_type: PacketType,
}

impl View for Packet {
    type V = PacketModel;

    closed spec fn view(&self) -> PacketModel {
        PacketModel { version: self.version, id: self.id, packet_type: self.packet_type }
    }
}

/// Why a byte string fails to parse as a probe packet.
#[derive(Debug, Clone, Copy, PartialEq, Eq, Structural)]
pub enum PacketError {
    InvalidSize,
    InvalidMagic,
    UnknownType,
}

/// Wire code of a packet type.
pub open spec fn type_code(t: PacketType) -> u16 {
    match t {
        PacketType::Req => 1u16,
        PacketType::Resp => 2u16,
    }
}

/// Big-endian bytes of a 16-bit word.
pub open spec fn spec_be_u16(x: u16) -> Seq<u8> {
    seq![(x / 0x100) as u8, (x % 0x100) as u8]
}

/// Big-endian bytes of a 32-bit word.
pub open spec fn spec_be_u32(x: u32) -> Seq<u8> {
    seq![
        (x / 0x1000000) as u8,
        ((x / 0x10000) % 0x100) as u8,
        ((x / 0x100) % 0x100) as u8,
        (x % 0x100) as u8,
    ]
}

/// Big-endian bytes of a 64-bit word.
pub open spec fn spec_be_u64(x: u64) -> Seq<u8> {
    seq![
        (x / 0x100000000000000) as u8,
        ((x / 0x1000000000000) % 0x100) as u8,
        ((x / 0x10000000000) % 0x100) as u8,
        ((x / 0x100000000) % 0x100) as u8,
        ((x / 0x1000000) % 0x100) as u8,
        ((x / 0x10000) % 0x100) as u8,
        ((x / 0x100) % 0x100) as u8,
        (x % 0x100) as u8,
    ]
}

/// The 16-bit word read big-endian at offset `i`.
pub open spec fn read_be_u16(s: Seq<u8>, i: int) -> int {
    s[i] * 0x100 + s[i + 1]
}

/// The 32-bit word read big-endian at offset `i`.
pub open spec fn read_be_u32(s: Seq<u8>, i: int) -> int {
    s[i] * 0x1000000 + s[i + 1] * 0x10000 + s[i + 2] * 0x100 + s[i + 3]
}

/// The 64-bit word read big-endian at offset `i`.
pub open spec fn read_be_u64(s: Seq<u8>, i: int) -> int {
    s[i] * 0x100000000000000 + s[i + 1] * 0x1000000000000 + s[i + 2] * 0x10000000000 + s[i + 3]
        * 0x100000000 + s[i + 4] * 0x1000000 + s[i + 5] * 0x10000 + s[i + 6] * 0x100 + s[i + 7]
}

/// The exact byte string that `to_bytes` produces for a packet.
pub open spec fn spec_encode(version: u32, id: u64, t: PacketType) -> Seq<u8> {
    spec_be_u32(PACKAGE_MAGIC) + spec_be_u32(version) + spec_be_u64(id) + spec_be_u16(type_code(t))
}

/// What parsing a byte string yields: the packet, or the first failing check.
/// Trailing bytes beyond the fixed size are ignored.
pub open spec fn spec_decode(s: Seq<u8>) -> Result<PacketModel, PacketError> {
    if s.len() < PACKAGE_SIZE {
        Err(PacketError::InvalidSize)
    } else if read_be_u32(s, 0) != PACKAGE_MAGIC {
        Err(PacketError::InvalidMagic)
    } else if read_be_u16(s, 16) != 1 && read_be_u16(s, 16) != 2 {
        Err(PacketError::UnknownType)
    } else {
        Ok(
            PacketModel {
                version: read_be_u32(s, 4) as u32,
                id: read_be_u64(s, 8) as u64,
                packet_type: if read_be_u16(s, 16) == 1 {
                    PacketType::Req
                } else {
                    PacketType::Resp
                },
            },
        )
    }
}

proof fn lemma_be_u32_roundtrip(x: u32)
    ensures
        read_be_u32(spec_be_u32(x), 0) == x,
{
    assert(read_be_u32(spec_be_u32(x), 0) == x) by (bit_vector);
}

proof fn lemma_be_u64_roundtrip(x: u64)
    ensures
        read_be_u64(spec_be_u64(x), 0) == x,
{
    assert(read_be_u64(spec_be_u64(x), 0) == x) by (bit_vector);
}

proof fn lemma_be_u16_roundtrip(x: u16)
    ensures
        read_be_u16(spec_be_u16(x), 0) == x,
{
    assert(read_be_u16(spec_be_u16(x), 0) == x) by (bit_vector);
}

/// Encoding a packet and parsing the bytes gives the packet back.
pub proof fn lemma_decode_encode(version: u32, id: u64, t: PacketType)
    ensures
        spec_decode(spec_encode(version, id, t)) == Ok::<PacketModel, PacketError>(
            PacketModel { version, id, packet_type: t },
        ),
{
    let s = spec_encode(version, id, t);
    assert(s.len() == PACKAGE_SIZE);
    lemma_be_u32_roundtrip(PACKAGE_MAGIC);
    lemma_be_u32_roundtrip(version);
    lemma_be_u64_roundtrip(id);
    lemma_be_u16_roundtrip(type_code(t));
    assert(s.subrange(0, 4) =~= spec_be_u32(PACKAGE_MAGIC));
    assert(read_be_u32(s, 0) == PACKAGE_MAGIC);
    assert(read_be_u32(s, 4) == version);
    assert(read_be_u64(s, 8) == id);
    assert(read_be_u16(s, 16) == type_code(t));
}

impl Packet {
    /// A request probe with the given id.
    pub fn new_req(id: u64) -> (r: Self)
        ensures
            r@ == (PacketModel { version: 1u32, id, packet_type: PacketType::Req }),
    {
        Packet { version: 1, id, packet_type: PacketType::Req }
    }

    /// A response probe with the given id.
    pub fn new_resp(id: u64) -> (r: Self)
        ensures
            r@ == (PacketModel { version: 1u32, id, packet_type: PacketType::Resp }),
    {
        Packet { version: 1, id, packet_type: PacketType::Resp }
    }

    pub fn get_version(&self) -> (r: u32)
        ensures
            r == self@.version,
    {
        self.version
    }

    pub fn get_id(&self) -> (r: u64)
        ensures
            r == self@.id,
    {
        self.id
    }

    pub fn get_type(&self) -> (r: &PacketType)
        ensures
            *r == self@.packet_type,
    {
        &self.packet_type
    }

    /// Serialize to the fixed 18-byte wire form.
    pub fn to_bytes(self) -> (r: Vec<u8>)
        ensures
            r@ == spec_encode(self@.version, self@.id, self@.packet_type),
            r@.len() == PACKAGE_SIZE,
    {
        let mut buf: Vec<u8> = Vec::new();
        push_be_u32(&mut buf, PACKAGE_MAGIC);
        push_be_u32(&mut buf, self.version);
        push_be_u64(&mut buf, self.id);
        let code: u16 = match self.packet_type {
            PacketType::Req => 1,
            PacketType::Resp => 2,
        };
        push_be_u16(&mut buf, code);
        assert(buf@ =~= spec_encode(self@.version, self@.id, self@.packet_type));
        buf
    }

    /// Parse a received byte string; trailing bytes are ignored.
    pub fn new_from_raw(data: &[u8]) -> (r: Result<Self, PacketError>)
        ensures
            match r {
                Ok(p) => spec_decode(data@) == Ok::<PacketModel, PacketError>(p@),
                Err(e) => spec_decode(data@) == Err::<PacketModel, PacketError>(e),
            },
    {
        if data.len() < PACKAGE_SIZE {
            return Err(PacketError::InvalidSize);
        }

        let magic = get_be_u32(data, 0);
        if magic != PACKAGE_MAGIC {
            return Err(PacketError::InvalidMagic);
        }

        let version = get_be_u32(data, 4);
        let id = get_be_u64(data, 8);
        let code = get_be_u16(data, 16);
        let packet_type = match code {
            1u16 => PacketType::Req,
            2u16 => PacketType::Resp,
            _ => {
                return Err(PacketError::UnknownType);
            },
        };

        Ok(Packet { version, id, packet_type })
    }
}

fn push_be_u16(buf: &mut Vec<u8>, x: u16)
    ensures
        final(buf)@ == old(buf)@ + spec_be_u16(x),
{
    buf.push((x / 0x100) as u8);
    buf.push((x % 0x100) as u8);
    assert(buf@ =~= old(buf)@ + spec_be_u16(x));
}

fn push_be_u32(buf: &mut Vec<u8>, x: u32)
    ensures
        final(buf)@ == old(buf)@ + spec_be_u32(x),
{
    buf.push((x / 0x1000000) as u8);
    buf.push(((x / 0x10000) % 0x100) as u8);
    buf.push(((x / 0x100) % 0x100) as u8);
    buf.push((x % 0x100) as u8);
    assert(buf@ =~= old(buf)@ + spec_be_u32(x));
}

fn push_be_u64(buf: &mut Vec<u8>, x: u64)
    ensures
        final(buf)@ == old(buf)@ + spec_be_u64(x),
{
    buf.push((x / 0x100000000000000) as u8);
    buf.push(((x / 0x1000000000000) % 0x100) as u8);
    buf.push(((x / 0x10000000000) % 0x100) as u8);
    buf.push(((x / 0x100000000) % 0x100) as u8);
    buf.push(((x / 0x1000000) % 0x100) as u8);
    buf.push(((x / 0x10000) % 0x100) as u8);
    buf.push(((x / 0x100) % 0x100) as u8);
    buf.push((x % 0x100) as u8);
    assert(buf@ =~= old(buf)@ + spec_be_u64(x));
}

fn get_be_u16(data: &[u8], i: usize) -> (r: u16)
    requires
        i + 2 <= data@.len(),
    ensures
        r == read_be_u16(data@, i as int),
{
    let n: usize = data.len();
    assert(i + 2 <= n);
    let b0 = *vstd::slice::slice_index_get(data, i);
    let b1 = *vstd::slice::slice_index_get(data, i + 1);
    (b0 as u16) * 0x100 + (b1 as u16)
}

fn get_be_u32(data: &[u8], i: usize) -> (r: u32)
    requires
        i + 4 <= data@.len(),
    ensures
        r == read_be_u32(data@, i as int),
{
    let n: usize = data.len();
    assert(i + 4 <= n);
    let b0 = *vstd::slice::slice_index_get(data, i);
    let b1 = *vstd::slice::slice_index_get(data, i + 1);
    let b2 = *vstd::slice::slice_index_get(data, i + 2);
    let b3 = *vstd::slice::slice_index_get(data, i + 3);
    (b0 as u32) * 0x1000000 + (b1 as u32) * 0x10000 + (b2 as u32) * 0x100 + (b3 as u32)
}

fn get_be_u64(data: &[u8], i: usize) -> (r: u64)
    requires
        i + 8 <= data@.len(),
    ensures
        r == read_be_u64(data@, i as int),
{
    let n: usize = data.len();
    assert(i + 8 <= n);
    let b0 = *vstd::slice::slice_index_get(data, i);
    let b1 = *vstd::slice::slice_index_get(data, i + 1);
    let b2 = *vstd::slice::slice_index_get(data, i + 2);
    let b3 = *vstd::slice::slice_index_get(data, i + 3);
    let b4 = *vstd::slice::slice_index_get(data, i + 4);
    let b5 = *vstd::slice::slice_index_get(data, i + 5);
    let b6 = *vstd::slice::slice_index_get(data, i + 6);
    let b7 = *vstd::slice::slice_index_get(data, i + 7);
    (b0 as u64) * 0x100000000000000 + (b1 as u64) * 0x1000000000000 + (b2 as u64) * 0x10000000000
        + (b3 as u64) * 0x100000000 + (b4 as u64) * 0x1000000 + (b5 as u64) * 0x10000 + (b6
        as u64) * 0x100 + (b7 as u64)
}

} // verus!
