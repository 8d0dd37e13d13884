//! Milter packets on the wire: four bytes of length, most significant first, then that many
//! bytes, of which the first is the command.
//!
//! The streams here hold bytes. Moving them to and from a socket is the caller's part.

use vstd::prelude::*;
use vstd::slice::*;

verus! {

/// The longest packet that is read.
pub const MAX_PACKET: usize = 1_048_576;

/// The number that four bytes write, most significant first.
pub open spec fn number_of(s: Seq<u8>) -> u32 {
    (s[0] * 0x100_0000 + s[1] * 0x1_0000 + s[2] * 0x100 + s[3]) as u32
}

/// The four bytes of a number, most significant first.
pub open spec fn number_bytes(n: u32) -> Seq<u8> {
    seq![
        (n / 0x100_0000) as u8,
        (n / 0x1_0000 % 0x100) as u8,
        (n / 0x100 % 0x100) as u8,
        (n % 0x100) as u8,
    ]
}

/// The number that four bytes write.
pub fn parse_number(s: &[u8]) -> (r: u32)
    requires
        s@.len() == 4,
    ensures
        r == number_of(s@),
{
    s[0] as u32 * 0x100_0000 + s[1] as u32 * 0x1_0000 + s[2] as u32 * 0x100 + s[3] as u32
}

/// The four bytes of a number.
pub fn format_number(n: u32) -> (r: [u8; 4])
    ensures
        r@ == number_bytes(n),
{
    let r: [u8; 4] = [
        (n / 0x100_0000) as u8,
        (n / 0x1_0000 % 0x100) as u8,
        (n / 0x100 % 0x100) as u8,
        (n % 0x100) as u8,
    ];
    assert(r@ =~= number_bytes(n));
    r
}

pub proof fn lemma_number(n: u32)
    ensures
        number_bytes(n).len() == 4,
        number_of(number_bytes(n)) == n,
{
}

// Reading.

/// What came in from the peer and was not read yet.
pub struct Incoming {
    pending: Vec<u8>,
    closed: bool,
}

pub struct IncomingView {
    /// The bytes that were not read yet.
    pub pending: Seq<u8>,
    /// Whether the peer will send no more.
    pub closed: bool,
}

impl View for Incoming {
    type V = IncomingView;

    closed spec fn view(&self) -> IncomingView {
        IncomingView { pending: self.pending@, closed: self.closed }
    }
}

impl Incoming {
    /// A stream on which nothing came in yet.
    pub fn new() -> (r: Self)
        ensures
            r@ == (IncomingView { pending: Seq::empty(), closed: false }),
    {
        Incoming { pending: Vec::new(), closed: false }
    }

    /// A stream that gives these bytes and then ends.
    pub fn from_bytes(bytes: &[u8]) -> (r: Self)
        ensures
            r@ == (IncomingView { pending: bytes@, closed: true }),
    {
        Incoming { pending: slice_to_vec(bytes), closed: true }
    }

    /// Takes what came in.
    pub fn receive(&mut self, data: &[u8])
        ensures
            final(self)@ == (IncomingView { pending: old(self)@.pending + data@, ..old(self)@ }),
    {
        self.pending.extend_from_slice(data);
        assert(self@.pending =~= old(self)@.pending + data@);
    }

    /// Notes that the peer will send no more.
    pub fn close(&mut self)
        ensures
            final(self)@ == (IncomingView { closed: true, ..old(self)@ }),
    {
        self.closed = true;
    }
}

/// What reading one packet comes to.
pub enum Reading {
    /// This many bytes are awaited.
    Await(nat),
    /// The stream ended between packets, or within a length.
    End,
    /// The stream ended within a packet.
    CutOff,
    /// The length is zero or too large.
    BadLength,
    Packet(Seq<u8>),
}

pub open spec fn reading(from: IncomingView) -> Reading {
    let have = from.pending.len();
    if have < 4 {
        if from.closed {
            Reading::End
        } else {
            Reading::Await((4 - have) as nat)
        }
    } else {
        let len = number_of(from.pending.take(4));
        if len == 0 || len > MAX_PACKET {
            Reading::BadLength
        } else if have < 4 + len {
            if from.closed {
                Reading::CutOff
            } else {
                Reading::Await((4 + len - have) as nat)
            }
        } else {
            Reading::Packet(from.pending.subrange(4, 4 + len))
        }
    }
}

/// The stream after a packet was read, or could not be. A bad length is taken off the stream, and
/// at the end of the stream so is all that is left of it. Where more is awaited, all stays.
pub open spec fn after_reading(from: IncomingView) -> IncomingView {
    match reading(from) {
        Reading::Await(_) => from,
        Reading::End => IncomingView { pending: Seq::empty(), ..from },
        Reading::CutOff => IncomingView { pending: Seq::empty(), ..from },
        Reading::BadLength => IncomingView { pending: from.pending.skip(4), ..from },
        Reading::Packet(bytes) => IncomingView {
            pending: from.pending.skip(4int + bytes.len()),
            ..from
        },
    }
}

/// Whether `packet` may be what is left of a packet that was cut off: as long as was announced,
/// and starting with what came of it.
pub open spec fn is_cut_off(from: IncomingView, packet: Seq<u8>) -> bool {
    let came = from.pending.skip(4);
    &&& packet.len() == number_of(from.pending.take(4))
    &&& came.len() <= packet.len()
    &&& packet.take(came.len() as int) == came
}

/// Why no packet was read.
#[derive(Debug, PartialEq, Eq, Clone, Copy, Structural)]
pub enum ReadError {
    /// So many bytes are awaited.
    WouldBlock { missing: usize },
    UnexpectedEof,
    InvalidData,
}

impl ReadError {
    pub open spec fn text(self) -> Seq<char> {
        match self {
            ReadError::WouldBlock { missing } => "milter packet is incomplete"@,
            ReadError::UnexpectedEof => "failed to fill whole buffer"@,
            ReadError::InvalidData => "invalid milter packet length"@,
        }
    }

    pub fn message(&self) -> (r: String)
        ensures
            r@ == self.text(),
    {
        match self {
            ReadError::WouldBlock { .. } => "milter packet is incomplete".to_owned(),
            ReadError::UnexpectedEof => "failed to fill whole buffer".to_owned(),
            ReadError::InvalidData => "invalid milter packet length".to_owned(),
        }
    }
}

/// Reads a packet into `packet`, whose memory is used again; `None` is the end of the stream. A
/// bad length is refused before any of the packet is awaited.
pub fn read_packet_into(stream: &mut Incoming, packet: &mut Vec<u8>) -> (r: Result<
    Option<()>,
    ReadError,
>)
    ensures
        final(stream)@ == after_reading(old(stream)@),
        match reading(old(stream)@) {
            Reading::Await(n) => r == Err::<Option<()>, ReadError>(
                ReadError::WouldBlock { missing: n as usize },
            ) && n <= usize::MAX && final(packet)@ == old(packet)@,
            Reading::End => r == Ok::<Option<()>, ReadError>(None) && final(packet)@ == old(packet)@,
            Reading::CutOff => r == Err::<Option<()>, ReadError>(ReadError::UnexpectedEof)
                && is_cut_off(old(stream)@, final(packet)@),
            Reading::BadLength => r == Err::<Option<()>, ReadError>(ReadError::InvalidData)
                && final(packet)@ == old(packet)@,
            Reading::Packet(bytes) => r == Ok::<Option<()>, ReadError>(Some(())) && final(packet)@
                == bytes,
        },
{
    let ghost from = stream@;
    let have: usize = stream.pending.len();
    if have < 4 {
        if stream.closed {
            stream.pending.clear();
            assert(stream@.pending =~= Seq::empty());
            return Ok(None);
        }
        return Err(ReadError::WouldBlock { missing: 4 - have });
    }
    let prefix = slice_subrange(stream.pending.as_slice(), 0, 4);
    assert(prefix@ =~= from.pending.take(4));
    let length: u32 = parse_number(prefix);
    if length == 0 || length as usize > MAX_PACKET {
        stream.pending = slice_to_vec(slice_subrange(stream.pending.as_slice(), 4, have));
        assert(stream@.pending =~= from.pending.skip(4));
        return Err(ReadError::InvalidData);
    }
    let len: usize = length as usize;
    if have - 4 < len {
        if stream.closed {
            packet.clear();
            packet.extend_from_slice(slice_subrange(stream.pending.as_slice(), 4, have));
            assert(packet@ =~= from.pending.skip(4));
            while packet.len() < len
                invariant
                    have - 4 <= packet@.len() <= len,
                    from.pending.len() == have >= 4,
                    packet@.take(have - 4) == from.pending.skip(4),
                decreases len - packet@.len(),
            {
                let ghost before = packet@;
                packet.push(0);
                assert(packet@.take(have - 4) =~= before.take(have - 4));
            }
            stream.pending.clear();
            assert(stream@.pending =~= Seq::empty());
            return Err(ReadError::UnexpectedEof);
        }
        return Err(ReadError::WouldBlock { missing: len - (have - 4) });
    }
    let bytes = slice_subrange(stream.pending.as_slice(), 4, 4 + len);
    packet.clear();
    packet.extend_from_slice(bytes);
    assert(packet@ =~= from.pending.subrange(4, 4 + len));
    if have - 4 == len {
        stream.pending.clear();
    } else {
        stream.pending = slice_to_vec(slice_subrange(stream.pending.as_slice(), 4 + len, have));
    }
    assert(stream@.pending =~= from.pending.skip(4 + len));
    Ok(Some(()))
}

/// Reads a packet; `None` is the end of the stream.
pub fn read_packet(stream: &mut Incoming) -> (r: Result<Option<Vec<u8>>, ReadError>)
    ensures
        final(stream)@ == after_reading(old(stream)@),
        match reading(old(stream)@) {
            Reading::Await(n) => r matches Err(error) && error == (ReadError::WouldBlock {
                missing: n as usize,
            }) && n <= usize::MAX,
            Reading::End => r == Ok::<Option<Vec<u8>>, ReadError>(None),
            Reading::CutOff => r matches Err(error) && error == ReadError::UnexpectedEof,
            Reading::BadLength => r matches Err(error) && error == ReadError::InvalidData,
            Reading::Packet(bytes) => r matches Ok(Some(packet)) && packet@ == bytes,
        },
{
    let mut packet: Vec<u8> = Vec::new();
    match read_packet_into(stream, &mut packet) {
        Ok(Some(())) => Ok(Some(packet)),
        Ok(None) => Ok(None),
        Err(error) => Err(error),
    }
}

/// Reads one packet from bytes that may be anything.
pub fn fuzz_milter_frame(data: &[u8]) -> (r: Result<Option<Vec<u8>>, ReadError>)
    ensures
        match reading(IncomingView { pending: data@, closed: true }) {
            Reading::Await(_) => false,
            Reading::End => r == Ok::<Option<Vec<u8>>, ReadError>(None),
            Reading::CutOff => r matches Err(error) && error == ReadError::UnexpectedEof,
            Reading::BadLength => r matches Err(error) && error == ReadError::InvalidData,
            Reading::Packet(bytes) => r matches Ok(Some(packet)) && packet@ == bytes,
        },
{
    let mut stream = Incoming::from_bytes(data);
    read_packet(&mut stream)
}

// Writing.

/// The bytes of a packet.
pub open spec fn frame(command: u8, payload: Seq<u8>) -> Seq<u8> {
    number_bytes((1 + payload.len()) as u32) + seq![command] + payload
}

/// Whether the length of a packet can be written.
pub open spec fn fits(payload: Seq<u8>) -> bool {
    1 + payload.len() <= u32::MAX
}

/// The packets that are to be sent. Each is one piece, to be written at once.
pub struct Outgoing {
    frames: Vec<Vec<u8>>,
}

impl View for Outgoing {
    type V = Seq<Seq<u8>>;

    closed spec fn view(&self) -> Seq<Seq<u8>> {
        Seq::new(self.frames@.len(), |i: int| self.frames@[i]@)
    }
}

impl Outgoing {
    /// A stream on which nothing is to be sent.
    pub fn new() -> (r: Self)
        ensures
            r@ == Seq::<Seq<u8>>::empty(),
    {
        let r = Outgoing { frames: Vec::new() };
        assert(r@ =~= Seq::empty());
        r
    }

    fn push(&mut self, bytes: Vec<u8>)
        ensures
            final(self)@ == old(self)@.push(bytes@),
    {
        let ghost before = self@;
        self.frames.push(bytes);
        assert(self@ =~= before.push(bytes@));
    }

    /// Hands over the packets, in order.
    pub fn take(&mut self) -> (r: Vec<Vec<u8>>)
        ensures
            Seq::new(r@.len(), |i: int| r@[i]@) == old(self)@,
            final(self)@ == Seq::<Seq<u8>>::empty(),
    {
        let mut frames: Vec<Vec<u8>> = Vec::new();
        core::mem::swap(&mut self.frames, &mut frames);
        assert(self@ =~= Seq::empty());
        frames
    }
}

/// Sends a packet.
pub fn write_packet(stream: &mut Outgoing, command: u8, payload: &[u8]) -> (r: Result<(), String>)
    ensures
        match r {
            Ok(()) => fits(payload@) && final(stream)@ == old(stream)@.push(
                frame(command, payload@),
            ),
            Err(error) => !fits(payload@) && error@ == "milter response is too large"@ && final(stream)@ == old(stream)@,
        },
{
    let len: usize = payload.len();
    if len as u64 >= u32::MAX as u64 {
        return Err("milter response is too large".to_owned());
    }
    let length: u32 = 1 + len as u32;
    let mut packet: Vec<u8> = Vec::new();
    packet.extend_from_slice(&format_number(length));
    packet.push(command);
    packet.extend_from_slice(payload);
    assert(packet@ =~= frame(command, payload@));
    stream.push(packet);
    Ok(())
}

/// Sends a packet that is a command alone.
pub fn write_status(stream: &mut Outgoing, status: u8)
    ensures
        final(stream)@ == old(stream)@.push(frame(status, Seq::empty())),
{
    let mut packet: Vec<u8> = vec![0, 0, 0, 1, status];
    assert(packet@ =~= frame(status, Seq::empty()));
    stream.push(packet);
}

// What holds of both.

/// A packet that was written is read again, and nothing after it is touched.
pub proof fn law_packets_come_back(command: u8, payload: Seq<u8>, after: Seq<u8>, closed: bool)
    requires
        1 + payload.len() <= 1_048_576,
    ensures
        reading(IncomingView { pending: frame(command, payload) + after, closed })
            == Reading::Packet(seq![command] + payload),
        (frame(command, payload) + after).skip(4int + (seq![command] + payload).len()) == after,
{
    let len = (1 + payload.len()) as u32;
    let all = frame(command, payload) + after;
    lemma_number(len);
    assert(all.take(4) =~= number_bytes(len));
    assert(all.subrange(4, 4 + len) =~= seq![command] + payload);
    assert(all.skip(4int + (seq![command] + payload).len()) =~= after);
}

/// Nothing is read twice: what is left of a stream is its end, and only where more is awaited
/// is it all of it.
pub proof fn law_reading_goes_forward(from: IncomingView)
    ensures
        ({
            let left = after_reading(from).pending;
            let taken = from.pending.len() - left.len();
            &&& 0 <= taken && left == from.pending.skip(taken)
            &&& taken == 0 ==> reading(from) is Await || from.pending.len() == 0
        }),
{
    let left = after_reading(from).pending;
    assert(left =~= from.pending.skip(from.pending.len() - left.len()));
}

/// A packet that has come in only in part is awaited, never read early, and no more is awaited
/// than the rest of it.
pub proof fn law_partial_packets_are_awaited(command: u8, payload: Seq<u8>, have: int)
    requires
        1 + payload.len() <= 1_048_576,
        0 <= have < frame(command, payload).len(),
    ensures
        reading(IncomingView { pending: frame(command, payload).take(have), closed: false }) matches
            Reading::Await(n) && 0 < n <= frame(command, payload).len() - have,
{
    let len = (1 + payload.len()) as u32;
    lemma_number(len);
    if have >= 4 {
        assert(frame(command, payload).take(have).take(4) =~= number_bytes(len));
    }
}

/// No packet that is read is empty or longer than the limit.
pub proof fn law_packets_are_bounded(from: IncomingView)
    ensures
        reading(from) matches Reading::Packet(bytes) ==> 0 < bytes.len() <= 1_048_576,
{
}

/// A packet is its length in four bytes, the most significant first, where the command counts as
/// one, then the command and the payload.
pub proof fn law_packets_have_three_parts(command: u8, payload: Seq<u8>)
    requires
        1 + payload.len() < 0x1_0000_0000,
    ensures
        ({
            let bytes = frame(command, payload);
            &&& bytes.len() == 5 + payload.len()
            &&& bytes[0] * 0x100_0000 + bytes[1] * 0x1_0000 + bytes[2] * 0x100 + bytes[3] == 1
                + payload.len()
            &&& bytes[4] == command
            &&& bytes.skip(5) == payload
        }),
{
    let bytes = frame(command, payload);
    assert(bytes.skip(5) =~= payload);
}

/// What comes of a stream is told by its first four bytes. With fewer, more is awaited, or the
/// stream is over. A length of zero or over a megabyte is bad, whatever follows. Else a packet of
/// that length is read as soon as it is there.
pub proof fn law_lengths_decide_what_is_read(from: IncomingView)
    ensures
        from.pending.len() < 4 ==> reading(from) == if from.closed {
            Reading::End
        } else {
            Reading::Await((4 - from.pending.len()) as nat)
        },
        from.pending.len() >= 4 ==> {
            let s = from.pending;
            let n = s[0] * 0x100_0000 + s[1] * 0x1_0000 + s[2] * 0x100 + s[3];
            reading(from) == if n == 0 || n > 1_048_576 {
                Reading::BadLength
            } else if s.len() >= 4 + n {
                Reading::Packet(s.subrange(4, 4 + n))
            } else if from.closed {
                Reading::CutOff
            } else {
                Reading::Await((4 + n - s.len()) as nat)
            }
        },
{
}

/// A number is written in four bytes, the most significant first, and read so.
pub proof fn law_numbers_have_four_bytes(n: u32, s: Seq<u8>)
    ensures
        number_bytes(n).len() == 4,
        number_bytes(n)[0] * 0x100_0000 + number_bytes(n)[1] * 0x1_0000 + number_bytes(n)[2] * 0x100
            + number_bytes(n)[3] == n,
        s.len() == 4 ==> number_of(s) == s[0] * 0x100_0000 + s[1] * 0x1_0000 + s[2] * 0x100 + s[3],
{
}

/// What is taken off a stream: a packet with its length, a bad length alone, and all that is left
/// where the stream is over.
pub proof fn law_streams_lose_what_was_read(from: IncomingView)
    ensures
        after_reading(from).closed == from.closed,
        match reading(from) {
            Reading::Await(_) => after_reading(from) == from,
            Reading::End => after_reading(from).pending.len() == 0,
            Reading::CutOff => after_reading(from).pending.len() == 0,
            Reading::BadLength => from.pending == from.pending.take(4) + after_reading(from).pending,
            Reading::Packet(bytes) => from.pending == from.pending.take(4) + bytes + after_reading(
                from,
            ).pending,
        },
{
    match reading(from) {
        Reading::BadLength => {
            assert(from.pending =~= from.pending.take(4) + after_reading(from).pending);
        },
        Reading::Packet(bytes) => {
            assert(from.pending =~= from.pending.take(4) + bytes + after_reading(from).pending);
        },
        _ => {},
    }
}

} // verus!
