use vstd::prelude::*;

verus! {

/// Failures of the entry codec.
#[derive(Debug, Clone, Copy, PartialEq, Eq, Structural)]
pub enum EntryError {
    /// The input is not usable for the requested operation.
    InvalidInput,
    /// A fixed-size id was given a payload of another size, or a payload
    /// does not fit the 16-bit length field.
    LengthMismatch,
    /// The destination buffer cannot hold the serialized entry.
    BufferTooSmall,
    /// Fewer bytes were available than the header declares.
    Truncated,
    /// The id byte names no kind of the catalog.
    UnknownId,
}

/// Identifier expressing information about the data in an entry.
#[derive(Debug, Copy, Clone, PartialEq, Eq, PartialOrd, Ord, Structural)]
pub enum Id {
    /// Raw binary data; variable size. Tag 0.
    Raw,
    /// Raw UTF-8 text data; variable size. Tag 1.
    Text,
    /// Command information; 2 bytes. Tag 2.
    Command,
    /// Temperature in kelvin times ten, as a `u16`. Tag 10.
    Temperature,
    /// Pressure in pascal times ten, as a `u16`. Tag 11.
    Pressure,
}

/// Largest payload that the 16-bit length field can describe.
pub const MAX_PAYLOAD: usize = 65535;

impl Id {
    /// The byte that stands for this id on the wire.
    pub open spec fn spec_tag(self) -> u8 {
        match self {
            Id::Raw => 0,
            Id::Text => 1,
            Id::Command => 2,
            Id::Temperature => 10,
            Id::Pressure => 11,
        }
    }

    /// The id that a wire byte stands for, if any.
    pub open spec fn spec_from_tag(b: u8) -> Option<Id> {
        if b == 0 {
            Some(Id::Raw)
        } else if b == 1 {
            Some(Id::Text)
        } else if b == 2 {
            Some(Id::Command)
        } else if b == 10 {
            Some(Id::Temperature)
        } else if b == 11 {
            Some(Id::Pressure)
        } else {
            None
        }
    }

    /// The payload size fixed by this id, or `None` for a variable size.
    pub open spec fn spec_length(self) -> Option<usize> {
        match self {
            Id::Raw => None,
            Id::Text => None,
            Id::Command => Some(2),
            Id::Temperature => Some(2),
            Id::Pressure => Some(2),
        }
    }

    /// Length of the id variant in bytes. If the variant has variable size,
    /// `None` is returned.
    pub fn length(&self) -> (r: Option<usize>)
        ensures
            r == self.spec_length(),
    {
        match self {
            Id::Raw => None,
            Id::Text => None,
            Id::Command => Some(2),
            Id::Temperature => Some(2),
            Id::Pressure => Some(2),
        }
    }

    /// The byte that stands for this id on the wire.
    pub fn tag(&self) -> (r: u8)
        ensures
            r == self.spec_tag(),
    {
        match self {
            Id::Raw => 0,
            Id::Text => 1,
            Id::Command => 2,
            Id::Temperature => 10,
            Id::Pressure => 11,
        }
    }

    /// The id that a wire byte stands for; `None` for a byte outside the catalog.
    pub fn from_tag(b: u8) -> (r: Option<Id>)
        ensures
            r == Id::spec_from_tag(b),
    {
        if b == 0 {
            Some(Id::Raw)
        } else if b == 1 {
            Some(Id::Text)
        } else if b == 2 {
            Some(Id::Command)
        } else if b == 10 {
            Some(Id::Temperature)
        } else if b == 11 {
            Some(Id::Pressure)
        } else {
            None
        }
    }
}

/// Two little-endian bytes of a 16-bit value.
pub open spec fn le16(v: u16) -> Seq<u8> {
    seq![(v % 256) as u8, (v / 256) as u8]
}

/// The 16-bit value of two little-endian bytes.
pub open spec fn from_le16(lo: u8, hi: u8) -> u16 {
    (lo as nat + 256 * hi as nat) as u16
}

/// Little-endian encoding and decoding of 16-bit values undo each other.
pub proof fn lemma_le16(v: u16, lo: u8, hi: u8)
    ensures
        from_le16(le16(v)[0], le16(v)[1]) == v,
        le16(v) == seq![lo, hi] <==> v == from_le16(lo, hi),
{
    assert(((v % 256) as u8) as nat + 256 * ((v / 256) as u8) as nat == v as nat) by (nonlinear_arith);
    if v == from_le16(lo, hi) {
        assert(v as nat == lo as nat + 256 * hi as nat);
        assert((v % 256) as u8 == lo && (v / 256) as u8 == hi) by (nonlinear_arith)
            requires v as nat == lo as nat + 256 * hi as nat;
        assert(le16(v) =~= seq![lo, hi]);
    }
}

/// Whether `payload` is a legal payload for `id`: it fits the length field
/// and, for an id with a fixed size, has exactly that size.
pub open spec fn valid_payload(id: Id, payload: Seq<u8>) -> bool {
    &&& payload.len() <= MAX_PAYLOAD
    &&& match id.spec_length() {
        Some(n) => payload.len() == n,
        None => true,
    }
}

/// Serialized form of an entry: id byte, little-endian 16-bit length, payload.
pub open spec fn wire_bytes(id: Id, payload: Seq<u8>) -> Seq<u8> {
    seq![id.spec_tag()] + le16(payload.len() as u16) + payload
}

/// A data kind with a typed value that serializes as one entry.
pub trait Entry: Sized {
    type Stored;

    /// The value held.
    spec fn value(&self) -> Self::Stored;

    /// The id that every value of this kind carries.
    spec fn spec_id() -> Id;

    /// The payload bytes of the held value.
    spec fn payload(&self) -> Seq<u8>;

    /// The payload size, the same for every value of this kind.
    spec fn payload_len() -> nat;

    /// Create a new entry from the provided input type.
    fn new(input: Self::Stored) -> (r: Self)
        ensures
            r.value() == input,
    ;

    /// The entry's id.
    fn id() -> (r: Id)
        ensures
            r == Self::spec_id(),
    ;

    /// Size in bytes of the serialized entry.
    fn size(&self) -> (r: usize)
        ensures
            r == Self::payload_len() + 3,
    ;

    /// Size of the payload in bytes.
    fn data_size(&self) -> (r: usize)
        ensures
            r == Self::payload_len(),
    ;

    /// Returns the stored value as the input type.
    fn data(&self) -> (r: Self::Stored)
        ensures
            r == self.value(),
    ;

    /// Write the entry as bytes into the front of a buffer.
    fn into_buffer(&self, buf: &mut [u8])
        requires
            old(buf)@.len() >= Self::payload_len() + 3,
        ensures
            final(buf)@ == wire_bytes(Self::spec_id(), self.payload()) + old(buf)@.skip(
                (Self::payload_len() + 3) as int,
            ),
    ;

    /// Read an entry from the front of a byte buffer.
    fn from_bytes(bytes: &[u8]) -> (r: Self)
        requires
            bytes@.len() >= Self::payload_len() + 3,
        ensures
            r.payload() == bytes@.subrange(3, (Self::payload_len() + 3) as int),
    ;
}

} // verus!
