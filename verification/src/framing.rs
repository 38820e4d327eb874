//! Length-prefixed frames, so that several messages can share one stream.
//!
//! A frame is the length of its payload as four bytes, least significant first, and the
//! payload.

use vstd::arithmetic::power2::{lemma2_to64, pow2};
use vstd::prelude::*;
use vstd::slice::slice_subrange;
use vstd::slice::slice_to_vec;

verus! {

/// The number of bytes before the payload.
pub const FRAME_HEADER: usize = 4;

/// One more than the greatest length that a header can spell.
pub const FRAME_LENGTHS: u64 = 0x1_0000_0000;

/// The four bytes of a number, least significant first. A greater number loses its higher
/// bytes.
pub open spec fn le_bytes(n: nat) -> Seq<u8> {
    seq![
        (n % 256) as u8,
        (n / 0x100 % 256) as u8,
        (n / 0x1_0000 % 256) as u8,
        (n / 0x100_0000 % 256) as u8,
    ]
}

/// The number that four bytes spell, least significant first.
pub open spec fn le_value(bytes: Seq<u8>) -> nat {
    (bytes[0] + bytes[1] * 0x100 + bytes[2] * 0x1_0000 + bytes[3] * 0x100_0000) as nat
}

/// The frame of a payload.
pub open spec fn framed(data: Seq<u8>) -> Seq<u8> {
    le_bytes(data.len()) + data
}

/// The frames of some payloads, one after the other.
pub open spec fn framed_all(list: Seq<Seq<u8>>) -> Seq<u8>
    decreases list.len(),
{
    if list.len() == 0 {
        Seq::empty()
    } else {
        framed(list[0]) + framed_all(list.drop_first())
    }
}

/// Why no frame can be read.
#[derive(Debug, PartialEq, Eq)]
pub enum FrameError {
    /// The stream ends before the payload does.
    UnexpectedEnd,
}

/// Spells the length of a payload as the header of its frame.
pub fn frame_header(len: usize) -> (header: [u8; 4])
    ensures
        header@ == le_bytes(len as nat),
{
    let n = len as u64;
    let header: [u8; 4] = [
        (n % 256) as u8,
        (n / 0x100 % 256) as u8,
        (n / 0x1_0000 % 256) as u8,
        (n / 0x100_0000 % 256) as u8,
    ];
    assert(header@ =~= le_bytes(len as nat));
    header
}

/// The length that a header spells.
pub fn frame_length(header: &[u8; 4]) -> (len: u32)
    ensures
        len == le_value(header@),
{
    header[0] as u32 + header[1] as u32 * 0x100 + header[2] as u32 * 0x1_0000 + header[3] as u32
        * 0x100_0000
}

/// Appends the frame of a payload to a stream.
pub fn write_frame(stream: &mut Vec<u8>, data: &[u8])
    ensures
        final(stream)@ == old(stream)@ + framed(data@),
{
    let header = frame_header(data.len());
    let ghost before = stream@;
    for i in 0..FRAME_HEADER
        invariant
            stream@ == before + header@.take(i as int),
    {
        stream.push(header[i]);
        assert(header@.take(i + 1) =~= header@.take(i as int).push(header@[i as int]));
        assert(stream@ =~= before + header@.take(i + 1));
    }
    assert(header@.take(4) =~= header@);
    for i in 0..data.len()
        invariant
            header@ == le_bytes(data@.len()),
            stream@ == before + header@ + data@.take(i as int),
    {
        stream.push(data[i]);
        assert(data@.take(i + 1) =~= data@.take(i as int).push(data@[i as int]));
        assert(stream@ =~= before + header@ + data@.take(i + 1));
    }
    assert(data@.take(data@.len() as int) =~= data@);
    assert(stream@ =~= before + framed(data@));
}

/// Whether a stream ends before a whole header.
pub open spec fn is_over(stream: Seq<u8>) -> bool {
    stream.len() < FRAME_HEADER
}

/// Reads the frame at the start of a stream: its payload and how many bytes it takes. There is
/// none where the stream ends before a whole header.
pub fn read_frame(stream: &[u8]) -> (frame: Result<Option<(Vec<u8>, usize)>, FrameError>)
    ensures
        match frame {
            Ok(None) => is_over(stream@),
            Ok(Some((payload, taken))) => {
                &&& !is_over(stream@)
                &&& taken == FRAME_HEADER + le_value(stream@.take(4))
                &&& taken <= stream@.len()
                &&& payload@ == stream@.subrange(FRAME_HEADER as int, taken as int)
            },
            Err(FrameError::UnexpectedEnd) => {
                &&& !is_over(stream@)
                &&& FRAME_HEADER + le_value(stream@.take(4)) > stream@.len()
            },
        },
{
    if stream.len() < FRAME_HEADER {
        return Ok(None);
    }
    let header: [u8; 4] = [stream[0], stream[1], stream[2], stream[3]];
    assert(header@ =~= stream@.take(4));
    let len = frame_length(&header);
    if (stream.len() - FRAME_HEADER) as u64 >= len as u64 {
        let taken = FRAME_HEADER + len as usize;
        let payload = slice_to_vec(slice_subrange(stream, FRAME_HEADER, taken));
        Ok(Some((payload, taken)))
    } else {
        Err(FrameError::UnexpectedEnd)
    }
}

/// A header spells every length that fits in four bytes.
pub proof fn lemma_header_spells_length(n: nat)
    requires
        n < FRAME_LENGTHS,
    ensures
        le_value(le_bytes(n)) == n,
{
    assert(n == n % 256 + n / 0x100 % 256 * 0x100 + n / 0x1_0000 % 256 * 0x1_0000 + n / 0x100_0000
        % 256 * 0x100_0000) by (nonlinear_arith)
        requires
            n < 0x1_0000_0000,
    ;
}

/// What was written is read back: a stream of frames starts with the first payload, and behind
/// it is the stream of the other frames. This holds of payloads whose length fits in four
/// bytes.
pub proof fn lemma_frames_read_back(list: Seq<Seq<u8>>)
    requires
        list.len() > 0,
        list[0].len() < FRAME_LENGTHS,
    ensures
        ({
            let stream = framed_all(list);
            let taken = FRAME_HEADER + le_value(stream.take(4));
            &&& !is_over(stream)
            &&& taken <= stream.len()
            &&& stream.subrange(FRAME_HEADER as int, taken) == list[0]
            &&& stream.skip(taken) == framed_all(list.drop_first())
        }),
{
    let stream = framed_all(list);
    let header = le_bytes(list[0].len());
    lemma_header_spells_length(list[0].len());
    assert(stream.take(4) =~= header);
    let taken = FRAME_HEADER + list[0].len();
    assert(stream.subrange(FRAME_HEADER as int, taken) =~= list[0]);
    assert(stream.skip(taken) =~= framed_all(list.drop_first()));
}

/// Writing a frame behind some others makes it the last of them.
pub proof fn lemma_frames_append(list: Seq<Seq<u8>>, data: Seq<u8>)
    ensures
        framed_all(list) + framed(data) == framed_all(list.push(data)),
    decreases list.len(),
{
    let all = list.push(data);
    if list.len() == 0 {
        assert(all.drop_first() =~= Seq::empty());
        assert(framed_all(all.drop_first()) == Seq::<u8>::empty());
        assert(framed_all(list) + framed(data) =~= framed_all(all));
    } else {
        lemma_frames_append(list.drop_first(), data);
        assert(all.drop_first() =~= list.drop_first().push(data));
        assert(framed_all(list) + framed(data) =~= framed_all(all));
    }
}

/// A header is little-endian: its byte at place `i` counts the 256-to-the-`i`s of the length.
pub proof fn lemma_header_is_little_endian(n: nat, i: nat)
    requires
        i < 4,
    ensures
        le_bytes(n).len() == 4,
        le_bytes(n)[i as int] == n / pow2(8 * i) % 256,
{
    lemma2_to64();
    if i == 0 {
        assert(pow2(8 * i) == 1);
    } else if i == 1 {
        assert(pow2(8 * i) == 0x100);
    } else if i == 2 {
        assert(pow2(8 * i) == 0x1_0000);
    } else {
        assert(pow2(8 * i) == 0x100_0000);
    }
}

/// Reading the frames of a stream, one behind the other, gives back the payloads that were
/// written, in their order.
pub proof fn lemma_whole_stream_reads_back(list: Seq<Seq<u8>>)
    requires
        forall|i: int| 0 <= i < list.len() ==> (#[trigger] list[i]).len() < FRAME_LENGTHS,
    ensures
        payloads(framed_all(list)) == list,
    decreases list.len(),
{
    let stream = framed_all(list);
    if list.len() > 0 {
        lemma_frames_read_back(list);
        let rest = list.drop_first();
        assert forall|i: int| 0 <= i < rest.len() implies (#[trigger] rest[i]).len()
            < FRAME_LENGTHS by {
            assert(rest[i] == list[i + 1]);
        }
        lemma_whole_stream_reads_back(rest);
        let taken = FRAME_HEADER + le_value(stream.take(4));
        assert(list[0].len() < FRAME_LENGTHS);
        assert(payloads(stream) == seq![list[0]] + payloads(stream.skip(taken)));
        assert(seq![list[0]] + rest =~= list);
    } else {
        assert(payloads(stream) =~= list);
    }
}

/// The payloads of the whole frames at the start of a stream.
pub open spec fn payloads(stream: Seq<u8>) -> Seq<Seq<u8>>
    decreases stream.len(),
{
    if is_over(stream) {
        Seq::empty()
    } else {
        let taken = FRAME_HEADER + le_value(stream.take(4));
        if taken > stream.len() {
            Seq::empty()
        } else {
            seq![stream.subrange(FRAME_HEADER as int, taken)] + payloads(stream.skip(taken))
        }
    }
}

} // verus!
