use crate::data_entry::{lemma_round_trip, parse_entry, Entry};
use crate::entry::{from_le16, le16, lemma_le16, valid_payload, wire_bytes, EntryError, Id};
use vstd::prelude::*;
use vstd::slice::{slice_subrange, slice_to_vec};

verus! {

/// Failures of the packet container.
#[derive(Debug, Clone, Copy, PartialEq, Eq, Structural)]
pub enum PacketError {
    /// The offset table already holds the largest number of entries.
    TableFull,
    /// The data buffer cannot hold the entry.
    DataOverflow,
    /// No entry stands at the requested index.
    IndexOutOfRange,
    /// The offset table points at bytes that are no well-formed entry.
    CorruptOffset,
    /// The destination buffer cannot hold the frame.
    BufferTooSmall,
    /// Fewer bytes were received than the frame declares.
    Truncated,
    /// The received checksum does not match the received bytes.
    CrcMismatch,
    /// The data of a received frame is not a sequence of well-formed entries.
    MalformedEntry,
}

/// Protocol version written by this implementation.
pub const VERSION: u8 = 1;

/// Largest number of entries that one packet holds.
pub const MAX_ENTRIES: u8 = 255;

/// Largest data capacity that the 16-bit length field of a frame describes.
pub const MAX_CAPACITY: usize = 65535;

/// The CRC-16/USB checksum of a byte sequence.
pub uninterp spec fn crc16_usb(bytes: Seq<u8>) -> u16;

/// Relies on `crc::Crc::<u16>::checksum` with the `CRC_16_USB` catalog
/// algorithm: the checksum is a function of the bytes alone.
#[verifier::external_body]
fn crc16_usb_of(bytes: &[u8]) -> (r: u16)
    ensures
        r == crc16_usb(bytes@),
{
    crc::Crc::<u16>::new(&crc::CRC_16_USB).checksum(bytes)
}

/// Computes the CRC-16/USB checksum of `bytes`.
pub fn checksum(bytes: &[u8]) -> (r: u16)
    ensures
        r == crc16_usb(bytes@),
{
    crc16_usb_of(bytes)
}

/// The serialized entries of `es`, one after another.
pub open spec fn serialized(es: Seq<(Id, Seq<u8>)>) -> Seq<u8>
    decreases es.len(),
{
    if es.len() == 0 {
        Seq::empty()
    } else {
        serialized(es.drop_last()) + wire_bytes(es.last().0, es.last().1)
    }
}

/// Byte offset of the `i`-th entry of `es` within `serialized(es)`.
pub open spec fn offset_of(es: Seq<(Id, Seq<u8>)>, i: int) -> nat {
    serialized(es.take(i)).len()
}

/// Whether every entry of `es` has a legal payload.
pub open spec fn all_valid(es: Seq<(Id, Seq<u8>)>) -> bool {
    forall|i: int| 0 <= i < es.len() ==> valid_payload(#[trigger] es[i].0, es[i].1)
}

/// The wire frame of a packet: version, little-endian data length, data, and
/// the little-endian CRC-16/USB of everything before it.
pub open spec fn frame(version: u8, data: Seq<u8>) -> Seq<u8> {
    let head = seq![version] + le16(data.len() as u16) + data;
    head + le16(crc16_usb(head))
}

/// What validating the received bytes `b` yields.
pub open spec fn check_frame(b: Seq<u8>) -> Result<(), PacketError> {
    if b.len() < 5 {
        Err(PacketError::Truncated)
    } else {
        let n = from_le16(b[1], b[2]) as int;
        if b.len() < n + 5 {
            Err(PacketError::Truncated)
        } else if crc16_usb(b.take(n + 3)) == from_le16(b[n + 3], b[n + 4]) {
            Ok(())
        } else {
            Err(PacketError::CrcMismatch)
        }
    }
}

/// The entries read one after another from the front of `d` until it is
/// used up, at most `limit` of them.
pub open spec fn scan(d: Seq<u8>, limit: nat) -> Result<Seq<(Id, Seq<u8>)>, PacketError>
    decreases d.len(),
{
    if d.len() == 0 {
        Ok(Seq::empty())
    } else {
        match parse_entry(d) {
            Err(_) => Err(PacketError::MalformedEntry),
            Ok(e) => if limit == 0 {
                Err(PacketError::TableFull)
            } else {
                match scan(d.skip(3 + e.1.len() as int), (limit - 1) as nat) {
                    Ok(rest) => Ok(seq![e] + rest),
                    Err(k) => Err(k),
                }
            },
        }
    }
}

/// `r` with the entries `es` put in front of its entries.
pub open spec fn prepend(
    es: Seq<(Id, Seq<u8>)>,
    r: Result<Seq<(Id, Seq<u8>)>, PacketError>,
) -> Result<Seq<(Id, Seq<u8>)>, PacketError> {
    match r {
        Ok(rest) => Ok(es + rest),
        Err(k) => Err(k),
    }
}

/// The data bytes that received frame bytes `b` declare.
pub open spec fn frame_data(b: Seq<u8>) -> Seq<u8> {
    b.subrange(3, 3 + from_le16(b[1], b[2]) as int)
}

/// Serializing entries one in front of others puts its bytes in front.
pub proof fn lemma_serialized_front(e: (Id, Seq<u8>), es: Seq<(Id, Seq<u8>)>)
    ensures
        serialized(seq![e] + es) == wire_bytes(e.0, e.1) + serialized(es),
    decreases es.len(),
{
    if es.len() == 0 {
        let one = seq![e] + es;
        assert(one.drop_last() =~= Seq::<(Id, Seq<u8>)>::empty());
        assert(one.last() == e);
        assert(serialized(one) == serialized(one.drop_last()) + wire_bytes(e.0, e.1));
        assert(serialized(es) == Seq::<u8>::empty());
        assert(serialized(Seq::<(Id, Seq<u8>)>::empty()) == Seq::<u8>::empty());
        assert(serialized(seq![e] + es) =~= wire_bytes(e.0, e.1) + serialized(es));
    } else {
        lemma_serialized_front(e, es.drop_last());
        let all = seq![e] + es;
        assert(all.drop_last() =~= seq![e] + es.drop_last());
        assert(all.last() == es.last());
        assert(serialized(all) == serialized(all.drop_last()) + wire_bytes(es.last().0, es.last().1));
        assert(serialized(es) == serialized(es.drop_last()) + wire_bytes(es.last().0, es.last().1));
        assert(serialized(seq![e] + es) =~= wire_bytes(e.0, e.1) + serialized(es));
    }
}

/// Scanning the serialized form of legal entries, no more of them than the
/// limit, gives back exactly those entries.
pub proof fn lemma_scan_serialized(es: Seq<(Id, Seq<u8>)>, limit: nat)
    requires
        all_valid(es),
        es.len() <= limit,
    ensures
        scan(serialized(es), limit) == Ok::<Seq<(Id, Seq<u8>)>, PacketError>(es),
    decreases es.len(),
{
    if es.len() == 0 {
        assert(es =~= Seq::<(Id, Seq<u8>)>::empty());
        assert(serialized(es).len() == 0);
    } else {
        let e = es[0];
        let tail = es.skip(1);
        assert(es =~= seq![e] + tail);
        lemma_serialized_front(e, tail);
        let d = serialized(es);
        assert(valid_payload(es[0].0, es[0].1));
        lemma_round_trip(e.0, e.1, serialized(tail));
        assert(d == wire_bytes(e.0, e.1) + serialized(tail));
        assert(d.len() > 0);
        assert(parse_entry(d) == Ok::<(Id, Seq<u8>), EntryError>(e));
        assert(d.skip(3 + e.1.len() as int) =~= serialized(tail));
        assert(all_valid(tail)) by {
            assert forall|i: int| 0 <= i < tail.len() implies valid_payload(
                #[trigger] tail[i].0,
                tail[i].1,
            ) by {
                assert(tail[i] == es[i + 1]);
            }
        }
        lemma_scan_serialized(tail, (limit - 1) as nat);
        assert(limit > 0);
        assert(scan(d, limit) == Ok::<Seq<(Id, Seq<u8>)>, PacketError>(seq![e] + tail));
    }
}

/// The serialized entries of a prefix of `es` are a prefix of the serialized
/// entries of `es`.
pub proof fn lemma_serialized_prefix(es: Seq<(Id, Seq<u8>)>, j: int)
    requires
        0 <= j <= es.len(),
    ensures
        serialized(es.take(j)).len() <= serialized(es).len(),
        serialized(es).take(serialized(es.take(j)).len() as int) == serialized(es.take(j)),
    decreases es.len(),
{
    if j == es.len() {
        assert(es.take(j) =~= es);
        assert(serialized(es).take(serialized(es).len() as int) =~= serialized(es));
    } else {
        let d = es.drop_last();
        lemma_serialized_prefix(d, j);
        assert(d.take(j) =~= es.take(j));
        let p = serialized(es.take(j));
        assert(serialized(es).take(p.len() as int) =~= serialized(d).take(p.len() as int));
    }
}

/// The offset table locates each entry: the bytes at `offset_of(es, i)` are
/// the serialized `i`-th entry, whatever the sizes of the entries before it.
pub proof fn lemma_offset_lookup(es: Seq<(Id, Seq<u8>)>, i: int)
    requires
        0 <= i < es.len(),
    ensures
        offset_of(es, i) + wire_bytes(es[i].0, es[i].1).len() <= serialized(es).len(),
        serialized(es).subrange(
            offset_of(es, i) as int,
            (offset_of(es, i) + wire_bytes(es[i].0, es[i].1).len()) as int,
        ) == wire_bytes(es[i].0, es[i].1),
{
    let t = es.take(i + 1);
    assert(t.drop_last() =~= es.take(i));
    lemma_serialized_prefix(es, i + 1);
    let w = wire_bytes(es[i].0, es[i].1);
    let o = offset_of(es, i) as int;
    assert(serialized(t) == serialized(es.take(i)) + w);
    assert(serialized(es).subrange(o, o + w.len()) =~= serialized(t).subrange(o, o + w.len()));
    assert(serialized(t).subrange(o, o + w.len()) =~= w);
}

/// A finalized frame passes validation, whatever bytes follow it.
pub proof fn lemma_frame_validates(version: u8, data: Seq<u8>, rest: Seq<u8>)
    requires
        data.len() <= MAX_CAPACITY,
    ensures
        check_frame(frame(version, data) + rest) == Ok::<(), PacketError>(()),
{
    let b = frame(version, data) + rest;
    let n = data.len() as int;
    let head = seq![version] + le16(n as u16) + data;
    lemma_le16(n as u16, 0, 0);
    lemma_le16(crc16_usb(head), 0, 0);
    assert(b[1] == le16(n as u16)[0] && b[2] == le16(n as u16)[1]);
    assert(b.take(n + 3) =~= head);
    assert(b[n + 3] == le16(crc16_usb(head))[0] && b[n + 4] == le16(crc16_usb(head))[1]);
}

/// Writes `src` over the front of `out`, leaving the rest of `out` as it was.
fn copy_into(out: &mut [u8], src: &[u8])
    requires
        old(out)@.len() >= src@.len(),
    ensures
        final(out)@ == src@ + old(out)@.skip(src@.len() as int),
{
    let ghost before = out@;
    let n = src.len();
    let mut i: usize = 0;
    while i < n
        invariant
            n == src@.len(),
            n <= out@.len(),
            out@.len() == before.len(),
            i <= n,
            forall|k: int| 0 <= k < i ==> out@[k] == src@[k],
            forall|k: int| n <= k < out@.len() ==> out@[k] == before[k],
        decreases n - i,
    {
        out[i] = src[i];
        i = i + 1;
    }
    assert(out@ =~= src@ + before.skip(n as int));
}

/// Writes the serialized `entry` into `buf` at `start`, leaving the other
/// bytes of `buf` as they were.
fn write_entry_at(buf: &mut Vec<u8>, start: usize, entry: &Entry)
    requires
        start + entry@.1.len() + 3 <= old(buf)@.len(),
        old(buf)@.len() <= MAX_CAPACITY,
    ensures
        final(buf)@ == old(buf)@.take(start as int) + wire_bytes(entry@.0, entry@.1) + old(
            buf,
        )@.skip(start + entry@.1.len() + 3),
{
    let ghost before = buf@;
    let size = entry.size();
    let n = entry.data_size();
    let payload = entry.data();
    let w = Ghost(wire_bytes(entry@.0, entry@.1));
    buf.set(start, entry.id().tag());
    buf.set(start + 1, (n % 256) as u8);
    buf.set(start + 2, (n / 256) as u8);
    let mut i: usize = 0;
    while i < n
        invariant
            n == payload@.len(),
            payload@ == entry@.1,
            w@ == wire_bytes(entry@.0, entry@.1),
            start + n + 3 <= buf@.len(),
            buf@.len() == before.len(),
            before.len() <= MAX_CAPACITY,
            i <= n,
            buf@[start as int] == w@[0],
            buf@[start + 1] == w@[1],
            buf@[start + 2] == w@[2],
            forall|k: int| 0 <= k < i ==> buf@[start + 3 + k] == payload@[k],
            forall|k: int| 0 <= k < start ==> buf@[k] == before[k],
            forall|k: int| start + n + 3 <= k < buf@.len() ==> buf@[k] == before[k],
        decreases n - i,
    {
        buf.set(start + 3 + i, payload[i]);
        i = i + 1;
    }
    assert(buf@ =~= before.take(start as int) + w@ + before.skip(start + n + 3));
}

/// A framed collection of entries over a fixed-capacity data buffer, with an
/// offset table for indexed access.
pub struct Packet {
    version: u8,
    entry_count: u8,
    table: Vec<u16>,
    total_length: usize,
    data: Vec<u8>,
    entries: Ghost<Seq<(Id, Seq<u8>)>>,
}

impl View for Packet {
    type V = Seq<(Id, Seq<u8>)>;

    /// The id and payload of each pushed entry, in push order.
    closed spec fn view(&self) -> Seq<(Id, Seq<u8>)> {
        self.entries@
    }
}

impl Packet {
    /// The packet's internal consistency: the data buffer starts with the
    /// serialized entries, and the table holds the offset of each.
    pub closed spec fn wf(&self) -> bool {
        &&& self.version == VERSION
        &&& self.data@.len() <= MAX_CAPACITY
        &&& self.entry_count as nat == self.entries@.len()
        &&& self.table@.len() == self.entries@.len()
        &&& self.entries@.len() <= MAX_ENTRIES
        &&& all_valid(self.entries@)
        &&& self.total_length as nat == serialized(self.entries@).len()
        &&& self.total_length <= self.data@.len()
        &&& self.data@.take(self.total_length as int) == serialized(self.entries@)
        &&& forall|i: int|
            0 <= i < self.table@.len() ==> #[trigger] self.table@[i] as nat == offset_of(
                self.entries@,
                i,
            )
    }

    /// Size of the data buffer that the packet was created over.
    pub closed spec fn spec_capacity(&self) -> nat {
        self.data@.len()
    }

    /// Creates an empty packet over `buffer`, whose length is the capacity.
    pub fn new(buffer: Vec<u8>) -> (r: Packet)
        requires
            buffer@.len() <= MAX_CAPACITY,
        ensures
            r.wf(),
            r@ == Seq::<(Id, Seq<u8>)>::empty(),
            r.spec_capacity() == buffer@.len(),
    {
        let r = Packet {
            version: VERSION,
            entry_count: 0,
            table: Vec::new(),
            total_length: 0,
            data: buffer,
            entries: Ghost(Seq::empty()),
        };
        assert(r.data@.take(0) =~= Seq::<u8>::empty());
        r
    }

    /// Appends `entry`: its bytes go at the end of the data and its offset
    /// into the table. Fails, changing nothing, when the table is full or the
    /// data buffer has no room for the entry.
    pub fn push(&mut self, entry: &Entry) -> (r: Result<(), PacketError>)
        requires
            old(self).wf(),
        ensures
            final(self).wf(),
            final(self).spec_capacity() == old(self).spec_capacity(),
            r == Err::<(), PacketError>(PacketError::TableFull) <==> old(self)@.len()
                == MAX_ENTRIES,
            r == Err::<(), PacketError>(PacketError::DataOverflow) <==> old(self)@.len()
                < MAX_ENTRIES && serialized(old(self)@).len() + entry@.1.len() + 3 > old(
                self,
            ).spec_capacity(),
            r is Ok <==> old(self)@.len() < MAX_ENTRIES && serialized(old(self)@).len()
                + entry@.1.len() + 3 <= old(self).spec_capacity(),
            r is Ok ==> final(self)@ == old(self)@.push(entry@),
            r is Err ==> *final(self) == *old(self),
    {
        if self.entry_count == MAX_ENTRIES {
            return Err(PacketError::TableFull);
        }
        let size = entry.size();
        if size > self.data.len() - self.total_length {
            return Err(PacketError::DataOverflow);
        }
        let start = self.total_length;
        let ghost old_es = self.entries@;
        let ghost new_es = old_es.push(entry@);
        write_entry_at(&mut self.data, start, entry);
        self.table.push(start as u16);
        self.entry_count = self.entry_count + 1;
        self.total_length = start + size;
        self.entries = Ghost(new_es);
        proof {
            assert(new_es.drop_last() =~= old_es);
            assert(serialized(new_es) == serialized(old_es) + wire_bytes(entry@.0, entry@.1));
            assert(self.data@.take(self.total_length as int) =~= serialized(new_es));
            assert forall|i: int| 0 <= i < self.table@.len() implies #[trigger] self.table@[i] as nat
                == offset_of(new_es, i) by {
                if i < old_es.len() {
                    assert(new_es.take(i) =~= old_es.take(i));
                } else {
                    assert(new_es.take(i) =~= old_es);
                }
            }
            assert(all_valid(new_es));
        }
        Ok(())
    }

    /// Returns a copy of the entry pushed at position `index`.
    pub fn get_entry(&self, index: u8) -> (r: Result<Entry, PacketError>)
        requires
            self.wf(),
        ensures
            r is Ok <==> (index as nat) < self@.len(),
            r matches Ok(e) ==> e@ == self@[index as int],
            r is Err ==> r == Err::<Entry, PacketError>(PacketError::IndexOutOfRange),
    {
        if index >= self.entry_count {
            return Err(PacketError::IndexOutOfRange);
        }
        let off = self.table[index as usize] as usize;
        proof {
            let es = self.entries@;
            let i = index as int;
            lemma_offset_lookup(es, i);
            let w = wire_bytes(es[i].0, es[i].1);
            let s = serialized(es);
            let rest = s.subrange(off + w.len(), s.len() as int);
            assert(s.subrange(off as int, s.len() as int) =~= w + rest);
            crate::data_entry::lemma_round_trip(es[i].0, es[i].1, rest);
        }
        if off > self.total_length {
            return Err(PacketError::CorruptOffset);
        }
        let bytes = slice_subrange(self.data.as_slice(), off, self.total_length);
        assert(bytes@ =~= serialized(self@).subrange(off as int, serialized(self@).len() as int));
        match Entry::from_bytes(bytes) {
            Ok(e) => Ok(e),
            Err(_) => Err(PacketError::CorruptOffset),
        }
    }

    /// Empties the packet; later pushes overwrite the old bytes.
    pub fn clear(&mut self)
        requires
            old(self).wf(),
        ensures
            final(self).wf(),
            final(self)@ == Seq::<(Id, Seq<u8>)>::empty(),
            final(self).spec_capacity() == old(self).spec_capacity(),
    {
        self.table.clear();
        self.entry_count = 0;
        self.total_length = 0;
        self.entries = Ghost(Seq::empty());
        assert(self.data@.take(0) =~= Seq::<u8>::empty());
    }

    /// Writes the frame of the packet to the front of `out`: version,
    /// little-endian data length, data, and little-endian CRC-16/USB of the
    /// bytes before it. Fails, writing nothing, if `out` is too small.
    pub fn finalize(&self, out: &mut [u8]) -> (r: Result<(), PacketError>)
        requires
            self.wf(),
        ensures
            r is Ok <==> old(out)@.len() >= serialized(self@).len() + 5,
            r is Ok ==> final(out)@ == frame(VERSION, serialized(self@)) + old(out)@.skip(
                (serialized(self@).len() + 5) as int,
            ),
            r is Err ==> r == Err::<(), PacketError>(PacketError::BufferTooSmall) && final(out)@
                == old(out)@,
    {
        let tl = self.total_length;
        if out.len() < tl + 5 {
            return Err(PacketError::BufferTooSmall);
        }
        let mut frame_bytes: Vec<u8> = vec![self.version, (tl % 256) as u8, (tl / 256) as u8];
        let mut body = slice_to_vec(slice_subrange(self.data.as_slice(), 0, tl));
        frame_bytes.append(&mut body);
        proof {
            let d = serialized(self@);
            assert(self.data@.subrange(0, tl as int) =~= d);
            assert(le16(d.len() as u16) =~= seq![(tl % 256) as u8, (tl / 256) as u8]);
            assert(frame_bytes@ =~= seq![VERSION] + le16(d.len() as u16) + d);
        }
        let crc = checksum(frame_bytes.as_slice());
        frame_bytes.push((crc % 256) as u8);
        frame_bytes.push((crc / 256) as u8);
        proof {
            let d = serialized(self@);
            let head = seq![VERSION] + le16(d.len() as u16) + d;
            assert(le16(crc16_usb(head)) =~= seq![(crc % 256) as u8, (crc / 256) as u8]);
            assert(frame_bytes@ =~= head + le16(crc16_usb(head)));
        }
        copy_into(out, frame_bytes.as_slice());
        Ok(())
    }

    /// Checks received frame bytes: the declared data must be present and
    /// the trailing checksum must match the version, length and data.
    pub fn validate(bytes: &[u8]) -> (r: Result<(), PacketError>)
        ensures
            r == check_frame(bytes@),
    {
        if bytes.len() < 5 {
            return Err(PacketError::Truncated);
        }
        let n = bytes[1] as usize + bytes[2] as usize * 256;
        assert(n == from_le16(bytes@[1], bytes@[2]));
        if bytes.len() - 5 < n {
            return Err(PacketError::Truncated);
        }
        let crc = checksum(slice_subrange(bytes, 0, n + 3));
        let stored = bytes[n + 3] as u16 + bytes[n + 4] as u16 * 256;
        assert(bytes@.subrange(0, n + 3) =~= bytes@.take(n + 3));
        if crc == stored {
            Ok(())
        } else {
            Err(PacketError::CrcMismatch)
        }
    }

    /// Rebuilds a packet from received frame bytes: checks them as
    /// `validate` does, then reads the entries of the data one after another
    /// into a packet whose capacity is the data length.
    pub fn from_frame(bytes: &[u8]) -> (r: Result<Packet, PacketError>)
        ensures
            check_frame(bytes@) matches Err(k) ==> r == Err::<Packet, PacketError>(k),
            check_frame(bytes@) is Ok ==> match scan(frame_data(bytes@), MAX_ENTRIES as nat) {
                Ok(es) => r matches Ok(p) && p.wf() && p@ == es && p.spec_capacity()
                    == frame_data(bytes@).len(),
                Err(k) => r == Err::<Packet, PacketError>(k),
            },
    {
        match Packet::validate(bytes) {
            Err(k) => {
                return Err(k);
            },
            Ok(()) => {},
        }
        let n = bytes[1] as usize + bytes[2] as usize * 256;
        assert(n == from_le16(bytes@[1], bytes@[2]));
        let data = slice_subrange(bytes, 3, 3 + n);
        let mut p = Packet::new(slice_to_vec(data));
        let mut pos: usize = 0;
        assert(data@.skip(0) =~= data@);
        assert(prepend(p@, scan(data@, MAX_ENTRIES as nat)) == scan(data@, MAX_ENTRIES as nat)) by {
            match scan(data@, MAX_ENTRIES as nat) {
                Ok(rest) => {
                    assert(p@ + rest =~= rest);
                },
                Err(_) => {},
            }
        }
        while pos < n
            invariant
                check_frame(bytes@) == Ok::<(), PacketError>(()),
                p.wf(),
                p.spec_capacity() == n,
                n == data@.len(),
                data@ == frame_data(bytes@),
                pos <= n,
                serialized(p@).len() == pos,
                scan(data@, MAX_ENTRIES as nat) == prepend(
                    p@,
                    scan(data@.skip(pos as int), (MAX_ENTRIES - p@.len()) as nat),
                ),
            decreases n - pos,
        {
            let rest = slice_subrange(data, pos, n);
            assert(rest@ =~= data@.skip(pos as int));
            let e = match Entry::from_bytes(rest) {
                Ok(e) => e,
                Err(_) => {
                    return Err(PacketError::MalformedEntry);
                },
            };
            let size = e.size();
            let ghost before = p@;
            let ghost lim = (MAX_ENTRIES - before.len()) as nat;
            match p.push(&e) {
                Ok(()) => {},
                Err(k) => {
                    return Err(k);
                },
            }
            proof {
                assert(before.push(e@).drop_last() =~= before);
                let s = data@.skip(pos as int);
                assert(s.skip(size as int) =~= data@.skip(pos + size));
                let later = scan(s.skip(size as int), (lim - 1) as nat);
                match later {
                    Ok(tail) => {
                        assert(before + (seq![e@] + tail) =~= before.push(e@) + tail);
                    },
                    Err(_) => {},
                }
            }
            pos = pos + size;
        }
        assert(data@.skip(n as int) =~= Seq::<u8>::empty());
        assert(p@ + Seq::<(Id, Seq<u8>)>::empty() =~= p@);
        Ok(p)
    }

    /// What `finalize` writes for a packet passes `validate`, and
    /// `from_frame` reads back from it the same entries in the same order.
    pub proof fn lemma_frame_round_trip(&self, rest: Seq<u8>)
        requires
            self.wf(),
        ensures
            check_frame(frame(VERSION, serialized(self@)) + rest) == Ok::<(), PacketError>(()),
            scan(frame_data(frame(VERSION, serialized(self@)) + rest), MAX_ENTRIES as nat)
                == Ok::<Seq<(Id, Seq<u8>)>, PacketError>(self@),
    {
        let d = serialized(self@);
        let b = frame(VERSION, d) + rest;
        lemma_frame_validates(VERSION, d, rest);
        lemma_le16(d.len() as u16, 0, 0);
        assert(b[1] == le16(d.len() as u16)[0] && b[2] == le16(d.len() as u16)[1]);
        assert(frame_data(b) =~= d);
        lemma_scan_serialized(self@, MAX_ENTRIES as nat);
    }

    /// The protocol version of the packet.
    pub fn version(&self) -> (r: u8)
        requires
            self.wf(),
        ensures
            r == VERSION,
    {
        self.version
    }

    /// The number of entries pushed.
    pub fn entry_count(&self) -> (r: u8)
        requires
            self.wf(),
        ensures
            r == self@.len(),
    {
        self.entry_count
    }

    /// The number of data bytes that the pushed entries fill.
    pub fn total_length(&self) -> (r: usize)
        requires
            self.wf(),
        ensures
            r == serialized(self@).len(),
    {
        self.total_length
    }

    /// The size of the data buffer.
    pub fn capacity(&self) -> (r: usize)
        ensures
            r == self.spec_capacity(),
    {
        self.data.len()
    }

    /// The data offset of the entry at `index`, if there is one.
    pub fn offset(&self, index: u8) -> (r: Option<u16>)
        requires
            self.wf(),
        ensures
            (index as nat) < self@.len() ==> r == Some(offset_of(self@, index as int) as u16),
            (index as nat) >= self@.len() ==> r is None,
    {
        if index >= self.entry_count {
            None
        } else {
            Some(self.table[index as usize])
        }
    }

    /// Size of the frame without its checksum.
    pub fn size(&self) -> (r: usize)
        requires
            self.wf(),
        ensures
            r == serialized(self@).len() + 3,
    {
        self.total_length + 3
    }

    /// Size of the frame including its checksum.
    pub fn size_crc(&self) -> (r: usize)
        requires
            self.wf(),
        ensures
            r == serialized(self@).len() + 5,
            r == frame(VERSION, serialized(self@)).len(),
    {
        self.total_length + 5
    }
}

} // verus!
