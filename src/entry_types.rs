use crate::entry::{from_le16, le16, lemma_le16, wire_bytes, Entry, Id};
use vstd::prelude::*;

verus! {

/// Temperature in kelvin times ten, carried as a little-endian `u16` under
/// `Id::Temperature`.
#[derive(Debug, Clone, Copy)]
pub struct Temperature {
    temp: u16,
}

impl Entry for Temperature {
    type Stored = u16;

    closed spec fn value(&self) -> u16 {
        self.temp
    }

    open spec fn spec_id() -> Id {
        Id::Temperature
    }

    open spec fn payload(&self) -> Seq<u8> {
        le16(self.value())
    }

    open spec fn payload_len() -> nat {
        2
    }

    fn new(input: u16) -> (r: Self) {
        Temperature { temp: input }
    }

    fn id() -> (r: Id) {
        Id::Temperature
    }

    fn size(&self) -> (r: usize) {
        5
    }

    fn data_size(&self) -> (r: usize) {
        2
    }

    fn data(&self) -> (r: u16) {
        self.temp
    }

    fn into_buffer(&self, buf: &mut [u8]) {
        write_u16_entry(Id::Temperature, self.temp, buf);
    }

    fn from_bytes(bytes: &[u8]) -> (r: Self) {
        Temperature { temp: read_u16_payload(bytes) }
    }
}

/// Pressure in pascal times ten, carried as a little-endian `u16` under
/// `Id::Pressure`.
#[derive(Debug, Clone, Copy)]
pub struct Pressure {
    pressure: u16,
}

impl Entry for Pressure {
    type Stored = u16;

    closed spec fn value(&self) -> u16 {
        self.pressure
    }

    open spec fn spec_id() -> Id {
        Id::Pressure
    }

    open spec fn payload(&self) -> Seq<u8> {
        le16(self.value())
    }

    open spec fn payload_len() -> nat {
        2
    }

    fn new(input: u16) -> (r: Self) {
        Pressure { pressure: input }
    }

    fn id() -> (r: Id) {
        Id::Pressure
    }

    fn size(&self) -> (r: usize) {
        5
    }

    fn data_size(&self) -> (r: usize) {
        2
    }

    fn data(&self) -> (r: u16) {
        self.pressure
    }

    fn into_buffer(&self, buf: &mut [u8]) {
        write_u16_entry(Id::Pressure, self.pressure, buf);
    }

    fn from_bytes(bytes: &[u8]) -> (r: Self) {
        Pressure { pressure: read_u16_payload(bytes) }
    }
}

/// Writes an entry with a two-byte payload holding `v` to the front of `buf`.
fn write_u16_entry(id: Id, v: u16, buf: &mut [u8])
    requires
        old(buf)@.len() >= 5,
    ensures
        final(buf)@ == wire_bytes(id, le16(v)) + old(buf)@.skip(5),
{
    buf[0] = id.tag();
    buf[1] = 2;
    buf[2] = 0;
    buf[3] = (v % 256) as u8;
    buf[4] = (v / 256) as u8;
    assert(final(buf)@ =~= wire_bytes(id, le16(v)) + old(buf)@.skip(5));
}

/// Reads the little-endian `u16` payload of a two-byte entry.
fn read_u16_payload(bytes: &[u8]) -> (r: u16)
    requires
        bytes@.len() >= 5,
    ensures
        le16(r) == bytes@.subrange(3, 5),
{
    let r = bytes[3] as u16 + bytes[4] as u16 * 256;
    proof {
        lemma_le16(r, bytes@[3], bytes@[4]);
        assert(r == from_le16(bytes@[3], bytes@[4]));
        assert(bytes@.subrange(3, 5) =~= seq![bytes@[3], bytes@[4]]);
    }
    r
}

} // verus!
