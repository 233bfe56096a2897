//! Input events and the frame in which one travels.
//!
//! A frame holds eight bytes, little-endian: type, code, value. It is the
//! kernel's `input_event` without the timestamp.

use crate::bytes::{
    from_le16, from_le32_signed, le16, le32_signed, lemma_from_le16, lemma_from_le32_signed,
    lemma_le16, lemma_le32_signed, push_le16, push_le32_signed, read_le16, read_le32_signed,
    unsigned_bits,
};
use crate::stream::{
    exact_step, outcome_bytes, read_exact_or_eof, ByteReader, ExactReader, ReadError, ReadOutcome,
    ReadStep,
};
use vstd::prelude::*;

verus! {

/// The type of key and button events.
pub const EV_KEY: u16 = 1;

/// The type of events that carry a relative movement.
pub const EV_REL: u16 = 2;

/// The axis of horizontal movement.
pub const REL_X: u16 = 0;

/// The axis of vertical movement.
pub const REL_Y: u16 = 1;

/// The key that switches between controlling this machine and forwarding to
/// another one: Scroll Lock, which hardly anything else uses.
pub const TOGGLE_KEY: u16 = 70;

/// The length of a frame.
pub const FRAME_LEN: usize = 8;

/// An input event: what the kernel reports, without the timestamp.
#[derive(Debug, Clone, Copy, PartialEq, Eq, Structural)]
pub struct InputEvent {
    pub event_type: u16,
    pub code: u16,
    pub value: i32,
}

impl InputEvent {
    /// Makes an event of its three parts.
    pub fn new(event_type: u16, code: u16, value: i32) -> (r: InputEvent)
        ensures
            r == (InputEvent { event_type, code, value }),
    {
        InputEvent { event_type, code, value }
    }

    /// The type.
    pub fn event_type(&self) -> (r: u16)
        ensures
            r == self.event_type,
    {
        self.event_type
    }

    /// The code within the type.
    pub fn code(&self) -> (r: u16)
        ensures
            r == self.code,
    {
        self.code
    }

    /// The value.
    pub fn value(&self) -> (r: i32)
        ensures
            r == self.value,
    {
        self.value
    }
}

/// The frame of an event.
pub open spec fn frame(ev: InputEvent) -> Seq<u8> {
    le16(ev.event_type) + le16(ev.code) + le32_signed(ev.value)
}

/// The event in a frame.
pub open spec fn event_in(bytes: Seq<u8>) -> InputEvent {
    InputEvent {
        event_type: from_le16(bytes.subrange(0, 2)),
        code: from_le16(bytes.subrange(2, 4)),
        value: from_le32_signed(bytes.subrange(4, 8)),
    }
}

/// A frame holds the event it was made of, in `FRAME_LEN` bytes.
pub proof fn law_frame_reads_back(ev: InputEvent)
    ensures
        frame(ev).len() == FRAME_LEN,
        event_in(frame(ev)) == ev,
{
    lemma_le16(ev.event_type);
    lemma_le16(ev.code);
    lemma_le32_signed(ev.value);
    assert(frame(ev).subrange(0, 2) =~= le16(ev.event_type));
    assert(frame(ev).subrange(2, 4) =~= le16(ev.code));
    assert(frame(ev).subrange(4, 8) =~= le32_signed(ev.value));
}

/// Eight bytes are the frame of the event in them.
pub proof fn lemma_event_in(bytes: Seq<u8>)
    requires
        bytes.len() == FRAME_LEN,
    ensures
        frame(event_in(bytes)) == bytes,
{
    lemma_from_le16(bytes.subrange(0, 2));
    lemma_from_le16(bytes.subrange(2, 4));
    lemma_from_le32_signed(bytes.subrange(4, 8));
    assert(bytes =~= bytes.subrange(0, 2) + bytes.subrange(2, 4) + bytes.subrange(4, 8));
}

/// Appends the frame of an event to what is to be sent.
pub fn write_event(out: &mut Vec<u8>, ev: &InputEvent)
    ensures
        final(out)@ == old(out)@ + frame(*ev),
{
    push_le16(out, ev.event_type);
    push_le16(out, ev.code);
    push_le32_signed(out, ev.value);
    assert(out@ =~= old(out)@ + frame(*ev));
}

/// The event in a complete frame.
pub fn event_of_frame(bytes: &[u8]) -> (r: InputEvent)
    requires
        bytes@.len() == FRAME_LEN,
    ensures
        r == event_in(bytes@),
{
    let event_type: u16 = read_le16(bytes[0], bytes[1]);
    let code: u16 = read_le16(bytes[2], bytes[3]);
    let value: i32 = read_le32_signed(bytes[4], bytes[5], bytes[6], bytes[7]);
    proof {
        assert(bytes@.subrange(0, 2) =~= seq![bytes@[0], bytes@[1]]);
        assert(bytes@.subrange(2, 4) =~= seq![bytes@[2], bytes@[3]]);
        assert(bytes@.subrange(4, 8) =~= seq![bytes@[4], bytes@[5], bytes@[6], bytes@[7]]);
    }
    InputEvent::new(event_type, code, value)
}

/// Reads the next event: `None` where the stream ends between two frames, an
/// error where it ends inside one.
pub fn read_event(stream: &mut ByteReader) -> (r: Result<Option<InputEvent>, ReadError>)
    requires
        old(stream).wf(),
    ensures
        final(stream).wf(),
        match r {
            Ok(Some(ev)) => {
                &&& FRAME_LEN <= old(stream).rest().len()
                &&& ev == event_in(old(stream).rest().take(FRAME_LEN as int))
                &&& final(stream).rest() == old(stream).rest().skip(FRAME_LEN as int)
            },
            Ok(None) => old(stream).rest().len() == 0 && final(stream).rest() == old(
                stream,
            ).rest(),
            Err(e) => {
                &&& 0 < old(stream).rest().len() < FRAME_LEN
                &&& e == (ReadError::Truncated {
                    read: old(stream).rest().len() as usize,
                    len: FRAME_LEN,
                })
                &&& final(stream).rest().len() == 0
            },
        },
{
    match stream.read_exact(FRAME_LEN) {
        Ok(Some(bytes)) => Ok(Some(event_of_frame(bytes.as_slice()))),
        Ok(None) => Ok(None),
        Err(e) => Err(e),
    }
}

/// How the reading of an event stands.
#[derive(Debug, Clone, Copy, PartialEq, Eq, Structural)]
pub enum EventStep {
    /// Read again.
    More,
    /// An event is complete.
    Event(InputEvent),
    /// The stream ended between two frames.
    Closed,
}

/// Takes the outcome of one read of a socket into account. After an event the
/// reader is ready for the next one.
pub fn read_event_step(reader: &mut ExactReader, outcome: ReadOutcome) -> (r: Result<
    EventStep,
    ReadError,
>)
    requires
        old(reader).wf(),
        old(reader).total() == FRAME_LEN,
        old(reader).received().len() < FRAME_LEN,
        outcome_bytes(outcome).len() <= FRAME_LEN - old(reader).received().len(),
    ensures
        final(reader).wf(),
        final(reader).total() == FRAME_LEN,
        final(reader).received().len() < FRAME_LEN,
        ({
            let bytes = old(reader).received() + outcome_bytes(outcome);
            match exact_step(old(reader).received(), FRAME_LEN as nat, outcome) {
                Ok(ReadStep::More) => {
                    &&& r == Ok::<EventStep, ReadError>(EventStep::More)
                    &&& final(reader).received() == bytes
                },
                Ok(ReadStep::Done) => {
                    &&& r == Ok::<EventStep, ReadError>(EventStep::Event(event_in(bytes)))
                    &&& final(reader).received() == Seq::<u8>::empty()
                },
                Ok(ReadStep::Closed) => r == Ok::<EventStep, ReadError>(EventStep::Closed),
                Err(e) => r == Err::<EventStep, ReadError>(e),
            }
        }),
{
    match read_exact_or_eof(reader, outcome) {
        Ok(ReadStep::More) => Ok(EventStep::More),
        Ok(ReadStep::Done) => {
            let mut full = ExactReader::new(FRAME_LEN);
            std::mem::swap(reader, &mut full);
            let bytes = full.into_bytes();
            Ok(EventStep::Event(event_of_frame(bytes.as_slice())))
        },
        Ok(ReadStep::Closed) => Ok(EventStep::Closed),
        Err(e) => Err(e),
    }
}

/// The frames of a run of events, one after the other.
pub open spec fn frames(events: Seq<InputEvent>) -> Seq<u8>
    decreases events.len(),
{
    if events.len() == 0 {
        Seq::empty()
    } else {
        frame(events[0]) + frames(events.skip(1))
    }
}

/// Frames written one after the other are read back one by one: the first
/// `FRAME_LEN` bytes hold the first event, and the rest are the frames of the
/// events after it.
pub proof fn law_frames_read_back_in_order(events: Seq<InputEvent>)
    requires
        events.len() > 0,
    ensures
        frames(events).len() == FRAME_LEN * events.len(),
        event_in(frames(events).take(FRAME_LEN as int)) == events[0],
        frames(events).skip(FRAME_LEN as int) == frames(events.skip(1)),
    decreases events.len(),
{
    law_frame_reads_back(events[0]);
    assert(frames(events).take(FRAME_LEN as int) =~= frame(events[0]));
    assert(frames(events).skip(FRAME_LEN as int) =~= frames(events.skip(1)));
    if events.len() > 1 {
        law_frames_read_back_in_order(events.skip(1));
    } else {
        assert(frames(events.skip(1)) =~= Seq::<u8>::empty());
    }
}

/// Whether the toggle key was pressed: neither released nor repeated.
pub open spec fn toggle_press(ev: InputEvent) -> bool {
    ev.event_type == EV_KEY && ev.code == TOGGLE_KEY && ev.value == 1
}

/// Whether the event presses the toggle key.
pub fn is_toggle_press(ev: &InputEvent) -> (r: bool)
    ensures
        r == toggle_press(*ev),
{
    ev.event_type == EV_KEY && ev.code == TOGGLE_KEY && ev.value == 1
}

/// Where the parts of an event stand in its frame: the type in bytes 0 and 1,
/// the code in 2 and 3, the value in 4 to 7, each with its low byte first, and
/// negative values in two's complement.
pub proof fn law_frame_layout(ev: InputEvent)
    ensures
        ({
            let b = frame(ev);
            let v = b[4] + 256 * b[5] + 65536 * b[6] + 16777216 * b[7];
            &&& b.len() == 8
            &&& b[0] + 256 * b[1] == ev.event_type
            &&& b[2] + 256 * b[3] == ev.code
            &&& v == if ev.value >= 0 {
                ev.value as int
            } else {
                ev.value + 4294967296
            }
        }),
{
    let u = unsigned_bits(ev.value);
    let b = frame(ev);
    assert(b[4] == u % 256);
    assert(b[5] == (u / 256) % 256);
    assert(b[6] == (u / 65536) % 256);
    assert(b[7] == u / 16777216);
}

/// The event that eight bytes hold has as its parts the numbers that the bytes
/// stand for, low byte first.
pub proof fn law_event_in_a_frame(b: Seq<u8>)
    requires
        b.len() == 8,
    ensures
        ({
            let ev = event_in(b);
            let v = b[4] + 256 * b[5] + 65536 * b[6] + 16777216 * b[7];
            &&& ev.event_type == b[0] + 256 * b[1]
            &&& ev.code == b[2] + 256 * b[3]
            &&& ev.value == if v < 2147483648 {
                v
            } else {
                v - 4294967296
            }
        }),
{
    lemma_event_in(b);
    law_frame_layout(event_in(b));
}

/// The toggle key is Scroll Lock, key 70, and counts when it goes down: a key
/// event with the value one.
pub proof fn law_toggle_is_scroll_lock_going_down(ev: InputEvent)
    ensures
        toggle_press(ev) <==> ev.event_type == 1 && ev.code == 70 && ev.value == 1,
{
}

} // verus!
