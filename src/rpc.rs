use vstd::prelude::*;
use vstd::utf8::encode_utf8;

verus! {

/// Little-endian bytes of `v`, as a two's-complement 32-bit word.
pub open spec fn i32_le(v: i32) -> Seq<u8> {
    let u = v as u32;
    seq![
        (u % 256) as u8,
        ((u / 256) % 256) as u8,
        ((u / 65536) % 256) as u8,
        ((u / 16777216) % 256) as u8,
    ]
}

/// Appends `v` to `stream` in little-endian order.
pub fn write_i32(stream: &mut Vec<u8>, v: i32)
    ensures
        final(stream)@ == old(stream)@ + i32_le(v),
{
    let u = v as u32;
    stream.push((u % 256) as u8);
    stream.push(((u / 256) % 256) as u8);
    stream.push(((u / 65536) % 256) as u8);
    stream.push(((u / 16777216) % 256) as u8);
    assert(stream@ =~= old(stream)@ + i32_le(v));
}

/// Appends the length of `bytes` as a 32-bit word, then the bytes.
pub fn write_bytes(stream: &mut Vec<u8>, bytes: &[u8])
    requires
        bytes@.len() <= i32::MAX,
    ensures
        final(stream)@ == old(stream)@ + i32_le(bytes@.len() as i32) + bytes@,
{
    write_i32(stream, bytes.len() as i32);
    let ghost start = stream@;
    let mut i: usize = 0;
    while i < bytes.len()
        invariant
            i <= bytes@.len(),
            stream@ == start + bytes@.take(i as int),
        decreases bytes@.len() - i,
    {
        stream.push(bytes[i]);
        i = i + 1;
        assert(stream@ =~= start + bytes@.take(i as int));
    }
    assert(bytes@.take(i as int) =~= bytes@);
}

/// Keep-alive packet: its identifier alone.
#[derive(Clone, Copy, Debug)]
pub struct KeepAlive {}

impl KeepAlive {
    pub const SVUID: i32 = 2;

    pub fn serialize_to_stream(&self, stream: &mut Vec<u8>)
        ensures
            final(stream)@ == old(stream)@ + i32_le(Self::SVUID),
    {
        write_i32(stream, Self::SVUID);
    }
}

/// Node-information packet: its identifier, then the node's name.
#[derive(Clone, Debug)]
pub struct GetInfo {
    pub name: String,
}

impl GetInfo {
    pub const SVUID: i32 = 342834823;

    pub fn serialize_to_stream(&self, stream: &mut Vec<u8>)
        requires
            encode_utf8(self.name@).len() <= i32::MAX,
        ensures
            final(stream)@ == old(stream)@ + i32_le(Self::SVUID) + i32_le(
                encode_utf8(self.name@).len() as i32,
            ) + encode_utf8(self.name@),
    {
        write_i32(stream, Self::SVUID);
        write_bytes(stream, self.name.as_str().as_bytes());
    }
}

} // verus!
