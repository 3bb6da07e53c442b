pub use crate::entry::{EntryError, Id};
use crate::entry::{from_le16, le16, lemma_le16, valid_payload, wire_bytes, MAX_PAYLOAD};
use vstd::prelude::*;
use vstd::slice::{slice_subrange, slice_to_vec};

verus! {

/// What decoding an entry from the front of `b` yields: its id and payload,
/// or the reason it fails.
pub open spec fn parse_entry(b: Seq<u8>) -> Result<(Id, Seq<u8>), EntryError> {
    if b.len() < 3 {
        Err(EntryError::Truncated)
    } else if Id::spec_from_tag(b[0]).is_none() {
        Err(EntryError::UnknownId)
    } else {
        let id = Id::spec_from_tag(b[0]).unwrap();
        let n = from_le16(b[1], b[2]) as int;
        if b.len() < 3 + n {
            Err(EntryError::Truncated)
        } else if !valid_payload(id, b.subrange(3, 3 + n)) {
            Err(EntryError::LengthMismatch)
        } else {
            Ok((id, b.subrange(3, 3 + n)))
        }
    }
}

/// Decoding the serialized form of a legal entry, followed by any bytes,
/// gives back its id and payload.
pub proof fn lemma_round_trip(id: Id, payload: Seq<u8>, rest: Seq<u8>)
    requires
        valid_payload(id, payload),
    ensures
        parse_entry(wire_bytes(id, payload) + rest) == Ok::<(Id, Seq<u8>), EntryError>((id, payload)),
{
    let b = wire_bytes(id, payload) + rest;
    let len16 = payload.len() as u16;
    lemma_le16(len16, 0, 0);
    assert(b[0] == id.spec_tag());
    assert(b[1] == le16(len16)[0] && b[2] == le16(len16)[1]);
    assert(from_le16(b[1], b[2]) == payload.len());
    assert(b.subrange(3, 3 + payload.len() as int) =~= payload);
}

/// One data record: an id and its payload.
#[derive(Debug)]
pub struct Entry {
    id: Id,
    length: u16,
    data: Vec<u8>,
}

impl View for Entry {
    type V = (Id, Seq<u8>);

    closed spec fn view(&self) -> (Id, Seq<u8>) {
        (self.id, self.data@)
    }
}

impl Entry {
    #[verifier::type_invariant]
    closed spec fn inv(&self) -> bool {
        &&& self.length as nat == self.data@.len()
        &&& valid_payload(self.id, self.data@)
    }

    /// The id of the data.
    pub fn id(&self) -> (r: &Id)
        ensures
            *r == self@.0,
    {
        &self.id
    }

    /// The length of the contained data.
    pub fn data_size(&self) -> (r: usize)
        ensures
            r == self@.1.len(),
    {
        proof {
            use_type_invariant(self);
        }
        self.length as usize
    }

    /// The size of the serialized entry in bytes.
    pub fn size(&self) -> (r: usize)
        ensures
            r == self@.1.len() + 3,
            r == wire_bytes(self@.0, self@.1).len(),
            valid_payload(self@.0, self@.1),
    {
        proof {
            use_type_invariant(self);
        }
        self.length as usize + 3
    }

    /// Gets the contained raw data, consuming the entry.
    pub fn into_data(self) -> (r: Vec<u8>)
        ensures
            r@ == self@.1,
    {
        self.data
    }

    /// Gets a reference into the contained raw data.
    pub fn data(&self) -> (r: &[u8])
        ensures
            r@ == self@.1,
    {
        self.data.as_slice()
    }

    /// Writes the serialized entry into the front of `buf`; bytes past it are
    /// left as they were. Fails, writing nothing, if `buf` is too small.
    pub fn into_buf(&self, buf: &mut [u8]) -> (r: Result<(), EntryError>)
        ensures
            r is Ok <==> old(buf)@.len() >= self@.1.len() + 3,
            r is Err ==> r == Err::<(), EntryError>(EntryError::BufferTooSmall) && final(buf)@
                == old(buf)@,
            r is Ok ==> final(buf)@ == wire_bytes(self@.0, self@.1) + old(buf)@.skip(
                (self@.1.len() + 3) as int,
            ),
    {
        proof {
            use_type_invariant(self);
        }
        let size = self.size();
        if buf.len() < size {
            return Err(EntryError::BufferTooSmall);
        }
        let ghost before = buf@;
        buf[0] = self.id.tag();
        buf[1] = (self.length % 256) as u8;
        buf[2] = (self.length / 256) as u8;
        let n = self.data.len();
        let mut i: usize = 0;
        while i < n
            invariant
                n == self.data@.len(),
                n <= MAX_PAYLOAD,
                n + 3 <= buf@.len(),
                buf@.len() == before.len(),
                i <= n,
                buf@[0] == self.id.spec_tag(),
                buf@[1] == le16(self.length)[0],
                buf@[2] == le16(self.length)[1],
                forall|k: int| 0 <= k < i ==> buf@[3 + k] == self.data@[k],
                forall|k: int| 3 + n <= k < buf@.len() ==> buf@[k] == before[k],
            decreases n - i,
        {
            buf[3 + i] = self.data[i];
            i = i + 1;
        }
        assert(buf@ =~= wire_bytes(self@.0, self@.1) + before.skip(n + 3));
        Ok(())
    }

    /// Creates a new entry from an id and its payload. Fails with
    /// `LengthMismatch` if the payload does not fit the length field or the
    /// size that the id fixes.
    pub fn from_array(id: Id, data: &[u8]) -> (r: Result<Entry, EntryError>)
        ensures
            r is Ok <==> valid_payload(id, data@),
            r matches Ok(e) ==> e@ == (id, data@),
            r is Err ==> r == Err::<Entry, EntryError>(EntryError::LengthMismatch),
    {
        if data.len() > MAX_PAYLOAD {
            return Err(EntryError::LengthMismatch);
        }
        match id.length() {
            Some(n) => {
                if n != data.len() {
                    return Err(EntryError::LengthMismatch);
                }
            },
            None => {},
        }
        Ok(Entry { id, length: data.len() as u16, data: slice_to_vec(data) })
    }

    /// Decodes an entry from the front of `bytes`: the id byte, the
    /// little-endian length and that many payload bytes.
    pub fn from_bytes(bytes: &[u8]) -> (r: Result<Entry, EntryError>)
        ensures
            r matches Ok(e) ==> parse_entry(bytes@) == Ok::<(Id, Seq<u8>), EntryError>(e@),
            r matches Err(k) ==> parse_entry(bytes@) == Err::<(Id, Seq<u8>), EntryError>(k),
    {
        if bytes.len() < 3 {
            return Err(EntryError::Truncated);
        }
        let id = match Id::from_tag(bytes[0]) {
            Some(id) => id,
            None => return Err(EntryError::UnknownId),
        };
        let n = bytes[1] as usize + bytes[2] as usize * 256;
        assert(n == from_le16(bytes@[1], bytes@[2]));
        if bytes.len() - 3 < n {
            return Err(EntryError::Truncated);
        }
        let payload = slice_subrange(bytes, 3, 3 + n);
        Entry::from_array(id, payload)
    }
}

} // verus!
