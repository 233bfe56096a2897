//! The messages between peers. They travel only over an encrypted channel.
//!
//! A message is a tag byte and a payload. The payload of an input event is its
//! frame; of a text, its UTF-8 bytes; of an image, the length of the media type
//! in two bytes (high byte first), the media type, and the image.

use crate::bytes::{be16, from_be16, lemma_be16, lemma_from_be16, low16, push_be16, read_be16};
use crate::event::{
    event_in, event_of_frame, frame, law_frame_reads_back, lemma_event_in, write_event,
    InputEvent, FRAME_LEN,
};
use crate::crypto::Session;
use crate::noise::{
    absorbed, channel_error_text, incoming_after, law_channel_delivers,
    law_what_is_sent_arrives, openable, paired, parts,
    progressed, received, reports, sealed_frames, transmitted, ChannelError, EncryptedChannel, Incoming,
    RecvStep,
};
use crate::stream::{
    frame_event, frame_left, frame_wants, is_read_timeout, outcome_bytes, timed_out, ByteReader,
    FrameEvent, FrameReader, ReadError, ReadOutcome,
};
use crate::text::{
    decimal, decimal_text, ends_with, hex, hex_text, lemma_ends_with, text_of_utf8,
    utf8_error_text,
};
use vstd::prelude::*;
use vstd::slice::*;
use vstd::string::*;
use vstd::utf8::*;

verus! {

const TAG_INPUT_EVENT: u8 = 1;

const TAG_CLIPBOARD_TEXT: u8 = 2;

const TAG_CLIPBOARD_IMAGE: u8 = 3;

const TAG_FOCUS_HANDOFF: u8 = 4;

const TAG_HEARTBEAT: u8 = 5;

/// A message from one peer to another.
#[derive(Debug)]
pub enum WireMessage {
    InputEvent(InputEvent),
    ClipboardText(String),
    ClipboardImage { mime: String, bytes: Vec<u8> },
    FocusHandoff,
    Heartbeat,
}

/// What a message says.
#[verifier::ext_equal]
pub enum WireView {
    InputEvent(InputEvent),
    ClipboardText(Seq<char>),
    ClipboardImage { mime: Seq<char>, bytes: Seq<u8> },
    FocusHandoff,
    Heartbeat,
}

impl View for WireMessage {
    type V = WireView;

    open spec fn view(&self) -> WireView {
        match self {
            WireMessage::InputEvent(ev) => WireView::InputEvent(*ev),
            WireMessage::ClipboardText(text) => WireView::ClipboardText(text@),
            WireMessage::ClipboardImage { mime, bytes } => WireView::ClipboardImage {
                mime: mime@,
                bytes: bytes@,
            },
            WireMessage::FocusHandoff => WireView::FocusHandoff,
            WireMessage::Heartbeat => WireView::Heartbeat,
        }
    }
}

/// Why bytes are not a message.
#[derive(Debug, PartialEq, Eq)]
pub enum DecodeError {
    /// There is no tag.
    Empty,
    /// The payload of an input event has this length.
    EventLength(usize),
    /// A text is not UTF-8; the cause says where.
    TextNotUtf8(String),
    /// The length of the media type is cut off.
    MimeLengthTruncated,
    /// The media type is cut off.
    MimeTruncated,
    /// The media type is not UTF-8; the cause says where.
    MimeNotUtf8(String),
    /// No message has this tag.
    UnknownTag(u8),
}

/// What a `DecodeError` says.
pub enum DecodeFault {
    Empty,
    EventLength(nat),
    TextNotUtf8(Seq<char>),
    MimeLengthTruncated,
    MimeTruncated,
    MimeNotUtf8(Seq<char>),
    UnknownTag(u8),
}

impl View for DecodeError {
    type V = DecodeFault;

    open spec fn view(&self) -> DecodeFault {
        match self {
            DecodeError::Empty => DecodeFault::Empty,
            DecodeError::EventLength(len) => DecodeFault::EventLength(*len as nat),
            DecodeError::TextNotUtf8(cause) => DecodeFault::TextNotUtf8(cause@),
            DecodeError::MimeLengthTruncated => DecodeFault::MimeLengthTruncated,
            DecodeError::MimeTruncated => DecodeFault::MimeTruncated,
            DecodeError::MimeNotUtf8(cause) => DecodeFault::MimeNotUtf8(cause@),
            DecodeError::UnknownTag(tag) => DecodeFault::UnknownTag(*tag),
        }
    }
}

/// The text of a `DecodeError`, with the cause where there is one.
pub open spec fn decode_error_text(e: DecodeFault) -> Seq<char> {
    match e {
        DecodeFault::Empty => "mensagem vazia"@,
        DecodeFault::EventLength(len) => "frame de InputEvent com tamanho inesperado: "@ + decimal(
            len,
        ) + " bytes"@,
        DecodeFault::TextNotUtf8(cause) => "clipboard text não é utf-8: "@ + cause,
        DecodeFault::MimeLengthTruncated => "payload de ClipboardImage truncado (mime_len)"@,
        DecodeFault::MimeTruncated => "payload de ClipboardImage truncado (mime)"@,
        DecodeFault::MimeNotUtf8(cause) => "mime não é utf-8: "@ + cause,
        DecodeFault::UnknownTag(tag) => "tag de WireMessage desconhecida: 0x"@ + hex(tag as nat),
    }
}

impl DecodeError {
    /// The message shown to the user.
    pub fn message(&self) -> (r: String)
        ensures
            r@ == decode_error_text(self@),
    {
        match self {
            DecodeError::Empty => "mensagem vazia".to_string(),
            DecodeError::EventLength(len) => {
                let mut out = "frame de InputEvent com tamanho inesperado: ".to_string();
                out.append(decimal_text(*len as u64).as_str());
                out.append(" bytes");
                out
            },
            DecodeError::TextNotUtf8(cause) => {
                let mut out = "clipboard text não é utf-8: ".to_string();
                out.append(cause.as_str());
                out
            },
            DecodeError::MimeLengthTruncated =>
                "payload de ClipboardImage truncado (mime_len)".to_string(),
            DecodeError::MimeTruncated =>
                "payload de ClipboardImage truncado (mime)".to_string(),
            DecodeError::MimeNotUtf8(cause) => {
                let mut out = "mime não é utf-8: ".to_string();
                out.append(cause.as_str());
                out
            },
            DecodeError::UnknownTag(tag) => {
                let mut out = "tag de WireMessage desconhecida: 0x".to_string();
                out.append(hex_text(*tag).as_str());
                out
            },
        }
    }
}

/// The bytes of a message.
pub open spec fn encoded(msg: WireView) -> Seq<u8> {
    match msg {
        WireView::InputEvent(ev) => seq![1u8] + frame(ev),
        WireView::ClipboardText(text) => seq![2u8] + encode_utf8(text),
        WireView::ClipboardImage { mime, bytes } => seq![3u8] + be16(
            low16(encode_utf8(mime).len()),
        ) + encode_utf8(mime) + bytes,
        WireView::FocusHandoff => seq![4u8],
        WireView::Heartbeat => seq![5u8],
    }
}

/// The image message in a payload.
pub open spec fn decoded_image(payload: Seq<u8>) -> Result<WireView, DecodeFault> {
    if payload.len() < 2 {
        Err(DecodeFault::MimeLengthTruncated)
    } else {
        let mime_len = from_be16(payload.take(2)) as int;
        let rest = payload.skip(2);
        if rest.len() < mime_len {
            Err(DecodeFault::MimeTruncated)
        } else if !valid_utf8(rest.take(mime_len)) {
            Err(DecodeFault::MimeNotUtf8(utf8_error_text(rest.take(mime_len))))
        } else {
            Ok(
                WireView::ClipboardImage {
                    mime: decode_utf8(rest.take(mime_len)),
                    bytes: rest.skip(mime_len),
                },
            )
        }
    }
}

/// The message in a run of bytes.
pub open spec fn decoded(bytes: Seq<u8>) -> Result<WireView, DecodeFault> {
    if bytes.len() == 0 {
        Err(DecodeFault::Empty)
    } else {
        let payload = bytes.skip(1);
        if bytes[0] == 1 {
            if payload.len() == FRAME_LEN {
                Ok(WireView::InputEvent(event_in(payload)))
            } else {
                Err(DecodeFault::EventLength(payload.len()))
            }
        } else if bytes[0] == 2 {
            if valid_utf8(payload) {
                Ok(WireView::ClipboardText(decode_utf8(payload)))
            } else {
                Err(DecodeFault::TextNotUtf8(utf8_error_text(payload)))
            }
        } else if bytes[0] == 3 {
            decoded_image(payload)
        } else if bytes[0] == 4 {
            Ok(WireView::FocusHandoff)
        } else if bytes[0] == 5 {
            Ok(WireView::Heartbeat)
        } else {
            Err(DecodeFault::UnknownTag(bytes[0]))
        }
    }
}

/// The media type of an image is short enough for its length to fit in two
/// bytes; other messages have no such limit.
pub open spec fn representable(msg: WireView) -> bool {
    msg matches WireView::ClipboardImage { mime, .. } ==> encode_utf8(mime).len() < 65536
}

/// The bytes of a message decode to that message.
pub proof fn law_decode_inverts_encode(msg: WireView)
    requires
        representable(msg),
    ensures
        decoded(encoded(msg)) == Ok::<WireView, DecodeFault>(msg),
{
    let bytes = encoded(msg);
    let payload = bytes.skip(1);
    match msg {
        WireView::InputEvent(ev) => {
            law_frame_reads_back(ev);
            assert(payload =~= frame(ev));
        },
        WireView::ClipboardText(text) => {
            encode_utf8_valid_utf8(text);
            encode_utf8_decode_utf8(text);
            assert(payload =~= encode_utf8(text));
        },
        WireView::ClipboardImage { mime, bytes: image } => {
            let coded = encode_utf8(mime);
            encode_utf8_valid_utf8(mime);
            encode_utf8_decode_utf8(mime);
            lemma_be16(low16(coded.len()));
            assert(payload =~= be16(low16(coded.len())) + coded + image);
            assert(payload.take(2) =~= be16(low16(coded.len())));
            assert(payload.skip(2) =~= coded + image);
            assert(payload.skip(2).take(coded.len() as int) =~= coded);
            assert(payload.skip(2).skip(coded.len() as int) =~= image);
        },
        WireView::FocusHandoff => {},
        WireView::Heartbeat => {},
    }
}

/// Bytes that decode to a message are the bytes of that message, except that
/// anything may follow the tag of a message without payload.
pub proof fn law_encode_inverts_decode(bytes: Seq<u8>)
    requires
        decoded(bytes) is Ok,
        bytes[0] == 4 || bytes[0] == 5 ==> bytes.len() == 1,
    ensures
        encoded(decoded(bytes)->Ok_0) == bytes,
{
    let payload = bytes.skip(1);
    if bytes[0] == 1 {
        lemma_event_in(payload);
        assert(bytes =~= seq![1u8] + payload);
    } else if bytes[0] == 2 {
        decode_utf8_encode_utf8(payload);
        assert(bytes =~= seq![2u8] + payload);
    } else if bytes[0] == 3 {
        let mime_len = from_be16(payload.take(2)) as int;
        let rest = payload.skip(2);
        decode_utf8_encode_utf8(rest.take(mime_len));
        lemma_from_be16(payload.take(2));
        assert(bytes =~= seq![3u8] + payload.take(2) + rest.take(mime_len) + rest.skip(mime_len));
    } else {
        assert(bytes =~= seq![bytes[0]]);
    }
}

/// Encodes a message.
pub fn encode(msg: &WireMessage) -> (r: Vec<u8>)
    ensures
        r@ == encoded(msg@),
{
    let mut out: Vec<u8> = Vec::new();
    match msg {
        WireMessage::InputEvent(ev) => {
            out.push(TAG_INPUT_EVENT);
            write_event(&mut out, ev);
        },
        WireMessage::ClipboardText(text) => {
            out.push(TAG_CLIPBOARD_TEXT);
            out.extend_from_slice(text.as_str().as_bytes());
        },
        WireMessage::ClipboardImage { mime, bytes } => {
            let coded = mime.as_str().as_bytes();
            out.push(TAG_CLIPBOARD_IMAGE);
            push_be16(&mut out, (coded.len() % 65536) as u16);
            out.extend_from_slice(coded);
            out.extend_from_slice(bytes.as_slice());
        },
        WireMessage::FocusHandoff => out.push(TAG_FOCUS_HANDOFF),
        WireMessage::Heartbeat => out.push(TAG_HEARTBEAT),
    }
    assert(out@ =~= encoded(msg@));
    out
}

/// A result as its message says it.
pub open spec fn viewed(r: Result<WireMessage, DecodeError>) -> Result<WireView, DecodeFault> {
    match r {
        Ok(msg) => Ok(msg@),
        Err(e) => Err(e@),
    }
}

/// Decodes the payload of an image message.
fn decode_image(payload: &[u8]) -> (r: Result<WireMessage, DecodeError>)
    ensures
        viewed(r) == decoded_image(payload@),
{
    if payload.len() < 2 {
        return Err(DecodeError::MimeLengthTruncated);
    }
    let mime_len: usize = read_be16(payload[0], payload[1]) as usize;
    assert(payload@.take(2) =~= seq![payload@[0], payload@[1]]);
    let rest = slice_subrange(payload, 2, payload.len());
    assert(rest@ =~= payload@.skip(2));
    if rest.len() < mime_len {
        return Err(DecodeError::MimeTruncated);
    }
    let mime = slice_subrange(rest, 0, mime_len);
    assert(mime@ =~= rest@.take(mime_len as int));
    match text_of_utf8(slice_to_vec(mime)) {
        Err(cause) => Err(DecodeError::MimeNotUtf8(cause)),
        Ok(mime) => {
            let image = slice_subrange(rest, mime_len, rest.len());
            assert(image@ =~= rest@.skip(mime_len as int));
            Ok(WireMessage::ClipboardImage { mime, bytes: slice_to_vec(image) })
        },
    }
}

/// Decodes a message.
pub fn decode(bytes: &[u8]) -> (r: Result<WireMessage, DecodeError>)
    ensures
        viewed(r) == decoded(bytes@),
{
    if bytes.len() == 0 {
        return Err(DecodeError::Empty);
    }
    let tag: u8 = bytes[0];
    let payload = slice_subrange(bytes, 1, bytes.len());
    assert(payload@ =~= bytes@.skip(1));
    match tag {
        TAG_INPUT_EVENT => {
            if payload.len() != FRAME_LEN {
                return Err(DecodeError::EventLength(payload.len()));
            }
            Ok(WireMessage::InputEvent(event_of_frame(payload)))
        },
        TAG_CLIPBOARD_TEXT => match text_of_utf8(slice_to_vec(payload)) {
            Ok(text) => Ok(WireMessage::ClipboardText(text)),
            Err(cause) => Err(DecodeError::TextNotUtf8(cause)),
        },
        TAG_CLIPBOARD_IMAGE => decode_image(payload),
        TAG_FOCUS_HANDOFF => Ok(WireMessage::FocusHandoff),
        TAG_HEARTBEAT => Ok(WireMessage::Heartbeat),
        other => Err(DecodeError::UnknownTag(other)),
    }
}

/// A second copy of a message.
pub fn clone_wire_message(msg: &WireMessage) -> (r: WireMessage)
    ensures
        r@ == msg@,
{
    match msg {
        WireMessage::InputEvent(ev) => WireMessage::InputEvent(*ev),
        WireMessage::ClipboardText(text) => WireMessage::ClipboardText(text.clone()),
        WireMessage::ClipboardImage { mime, bytes } => {
            let copy = slice_to_vec(bytes.as_slice());
            assert(copy@ == bytes@);
            WireMessage::ClipboardImage { mime: mime.clone(), bytes: copy }
        },
        WireMessage::FocusHandoff => WireMessage::FocusHandoff,
        WireMessage::Heartbeat => WireMessage::Heartbeat,
    }
}

/// Why a message could not be read.
#[derive(Debug)]
pub enum WireError {
    /// The channel failed.
    Channel(ChannelError),
    /// What arrived is no message.
    Decode(DecodeError),
}

/// The text of a `WireError`.
pub open spec fn wire_error_text(e: WireError) -> Seq<char> {
    match e {
        WireError::Channel(e) => channel_error_text(e),
        WireError::Decode(e) => decode_error_text(e@),
    }
}

impl WireError {
    /// The message shown to the user.
    pub fn message(&self) -> (r: String)
        ensures
            r@ == wire_error_text(*self),
    {
        match self {
            WireError::Channel(e) => e.message(),
            WireError::Decode(e) => e.message(),
        }
    }
}

/// Encrypts a message for a peer and appends its frames to what is to be sent.
pub fn write_message(
    channel: &mut EncryptedChannel,
    out: &mut Vec<u8>,
    msg: &WireMessage,
) -> (r: Result<(), ChannelError>)
    requires
        old(channel).wf(),
    ensures
        final(channel).wf(),
        transmitted(
            old(channel).session(),
            final(channel).session(),
            old(out)@,
            final(out)@,
            encoded(msg@),
            r,
        ),
{
    let bytes = encode(msg);
    channel.send(out, bytes.as_slice())
}

/// What decoding makes of a message that arrived.
pub open spec fn read_as(bytes: Seq<u8>, r: Result<Option<WireMessage>, WireError>) -> bool {
    match decoded(bytes) {
        Ok(msg) => r matches Ok(Some(m)) && m@ == msg,
        Err(e) => r matches Err(WireError::Decode(d)) && d@ == e,
    }
}

/// Decodes what arrived.
fn decode_arrived(bytes: Vec<u8>) -> (r: Result<Option<WireMessage>, WireError>)
    ensures
        read_as(bytes@, r),
{
    match decode(bytes.as_slice()) {
        Ok(msg) => Ok(Some(msg)),
        Err(e) => Err(WireError::Decode(e)),
    }
}

/// Reads the next message of a peer; `None` where the stream ends between two
/// messages.
pub fn read_message(channel: &mut EncryptedChannel, stream: &mut ByteReader) -> (r: Result<
    Option<WireMessage>,
    WireError,
>)
    requires
        old(channel).wf(),
        old(stream).wf(),
    ensures
        final(channel).wf(),
        final(stream).wf(),
        ({
            let expected = received(old(channel).session(), old(stream).rest());
            &&& final(channel).session() == expected.session
            &&& final(stream).rest() == expected.rest
            &&& match expected.result {
                Ok(Some(bytes)) => read_as(bytes, r),
                Ok(None) => r matches Ok(None),
                Err(f) => r matches Err(WireError::Channel(e)) && reports(e, f),
            }
        }),
{
    match channel.recv(stream) {
        Ok(Some(bytes)) => decode_arrived(bytes),
        Ok(None) => Ok(None),
        Err(e) => Err(WireError::Channel(e)),
    }
}

/// How the reading of a message stands.
#[derive(Debug)]
pub enum WireStep {
    /// Read again.
    More,
    /// A message is complete.
    Message(WireMessage),
    /// The stream ended between two messages.
    Closed,
}

/// Takes the outcome of one read of a socket into account.
pub fn read_message_step(
    channel: &mut EncryptedChannel,
    incoming: &mut Incoming,
    reader: &mut FrameReader,
    outcome: ReadOutcome,
) -> (r: Result<WireStep, WireError>)
    requires
        old(channel).wf(),
        old(incoming)@.pending(),
        old(reader).wf(),
        outcome_bytes(outcome).len() <= frame_wants(old(reader).received()),
    ensures
        final(channel).wf(),
        final(reader).wf(),
        final(reader).received() == frame_left(old(reader).received(), outcome),
        final(incoming)@ == incoming_after(
            old(channel).session(),
            old(incoming)@,
            frame_event(old(reader).received(), outcome),
        ),
        final(incoming)@.pending(),
        match frame_event(old(reader).received(), outcome) {
            FrameEvent::Frame(frame) => {
                let (result, after, left) = absorbed(
                    old(channel).session(),
                    old(incoming)@,
                    frame,
                );
                &&& final(channel).session() == after
                &&& match result {
                    Ok(true) => match decoded(left.got) {
                        Ok(msg) => r matches Ok(WireStep::Message(m)) && m@ == msg,
                        Err(e) => r matches Err(WireError::Decode(d)) && d@ == e,
                    },
                    Ok(false) => r matches Ok(WireStep::More),
                    Err(f) => r matches Err(WireError::Channel(e)) && reports(e, f),
                }
            },
            FrameEvent::More => {
                &&& r matches Ok(WireStep::More)
                &&& final(channel).session() == old(channel).session()
            },
            FrameEvent::Closed => {
                &&& final(channel).session() == old(channel).session()
                &&& if old(incoming)@.total is Some {
                    r matches Err(WireError::Channel(ChannelError::Read(ReadError::Ended)))
                } else {
                    r matches Ok(WireStep::Closed)
                }
            },
            FrameEvent::Failed(failure) => {
                &&& final(channel).session() == old(channel).session()
                &&& r matches Err(WireError::Channel(ChannelError::Read(e))) && e == failure
            },
        },
{
    match channel.recv_step(incoming, reader, outcome) {
        Ok(RecvStep::More) => Ok(WireStep::More),
        Ok(RecvStep::Done(bytes)) => match decode(bytes.as_slice()) {
            Ok(msg) => Ok(WireStep::Message(msg)),
            Err(e) => Err(WireError::Decode(e)),
        },
        Ok(RecvStep::Closed) => Ok(WireStep::Closed),
        Err(e) => Err(WireError::Channel(e)),
    }
}

/// Whether a failure is only that nothing arrived in time.
pub open spec fn wire_timed_out(e: WireError) -> bool {
    e matches WireError::Channel(ChannelError::Read(cause)) && timed_out(cause)
}

/// Whether reading a message ran into the read timeout of the socket.
pub fn is_wire_timeout(e: &WireError) -> (r: bool)
    ensures
        r == wire_timed_out(*e),
{
    match e {
        WireError::Channel(ChannelError::Read(cause)) => is_read_timeout(cause),
        _ => false,
    }
}

/// A message that one end writes is read at the other end as it is, and the
/// ends stay paired. `write_message` states that what it appends is `openable`.
pub proof fn law_message_arrives(a: Session, b: Session, msg: WireView, rest: Seq<u8>)
    requires
        paired(a, b),
        representable(msg),
        openable(a.send.key, a.send.nonce, parts(encoded(msg))),
        a.send.nonce + parts(encoded(msg)).len() <= u64::MAX,
        encoded(msg).len() <= u32::MAX,
    ensures
        ({
            let bytes = sealed_frames(a.send.key, a.send.nonce, parts(encoded(msg)));
            let arrived = received(b, bytes + rest);
            &&& arrived.result matches Ok(Some(payload)) && decoded(payload) == Ok::<
                WireView,
                DecodeFault,
            >(msg)
            &&& arrived.rest == rest
            &&& paired(progressed(a, parts(encoded(msg)).len()), arrived.session)
        }),
{
    law_channel_delivers(a, b, encoded(msg), rest);
    law_decode_inverts_encode(msg);
}

/// How messages are laid out: a tag, and behind it the frame of the event, the
/// bytes of the text, or the length of the media type in two bytes with the high
/// one first, the media type and the image.
pub proof fn law_layout_of_messages(ev: InputEvent, text: Seq<char>, image: Seq<u8>)
    ensures
        encoded(WireView::InputEvent(ev))[0] == 1,
        encoded(WireView::InputEvent(ev)).skip(1) == frame(ev),
        encoded(WireView::ClipboardText(text))[0] == 2,
        encoded(WireView::ClipboardText(text)).skip(1) == encode_utf8(text),
        ({
            let b = encoded(WireView::ClipboardImage { mime: text, bytes: image });
            &&& b[0] == 3
            &&& 256 * b[1] + b[2] == encode_utf8(text).len() % 65536
            &&& b.skip(3) == encode_utf8(text) + image
        }),
        encoded(WireView::FocusHandoff) == seq![4u8],
        encoded(WireView::Heartbeat) == seq![5u8],
{
    assert(encoded(WireView::InputEvent(ev)).skip(1) =~= frame(ev));
    assert(encoded(WireView::ClipboardText(text)).skip(1) =~= encode_utf8(text));
    let b = encoded(WireView::ClipboardImage { mime: text, bytes: image });
    assert(b.skip(3) =~= encode_utf8(text) + image);
    lemma_be16(low16(encode_utf8(text).len()));
}

/// Which bytes are a message, and of which kind: the tag tells the kind, an
/// event has eight bytes, a text and a media type are UTF-8, a media type is all
/// there, and behind the tags of a handoff and a heartbeat anything may stand.
pub proof fn law_which_bytes_are_a_message(tag: u8, payload: Seq<u8>)
    ensures
        ({
            let r = decoded(seq![tag] + payload);
            &&& tag == 1 ==> (r is Ok <==> payload.len() == 8)
            &&& tag == 1 && payload.len() != 8 ==> r == Err::<WireView, DecodeFault>(
                DecodeFault::EventLength(payload.len()),
            )
            &&& tag == 2 ==> (r is Ok <==> valid_utf8(payload))
            &&& tag == 2 && !valid_utf8(payload) ==> r == Err::<WireView, DecodeFault>(
                DecodeFault::TextNotUtf8(utf8_error_text(payload)),
            )
            &&& tag == 3 && payload.len() < 2 ==> r == Err::<WireView, DecodeFault>(
                DecodeFault::MimeLengthTruncated,
            )
            &&& tag == 3 && payload.len() >= 2 ==> {
                let n = 256 * payload[0] + payload[1];
                &&& payload.len() < 2 + n ==> r == Err::<WireView, DecodeFault>(
                    DecodeFault::MimeTruncated,
                )
                &&& payload.len() >= 2 + n && !valid_utf8(payload.subrange(2, 2 + n)) ==> r == Err::<
                    WireView,
                    DecodeFault,
                >(DecodeFault::MimeNotUtf8(utf8_error_text(payload.subrange(2, 2 + n))))
                &&& payload.len() >= 2 + n && valid_utf8(payload.subrange(2, 2 + n)) ==> r is Ok
            }
            &&& tag == 4 ==> r == Ok::<WireView, DecodeFault>(WireView::FocusHandoff)
            &&& tag == 5 ==> r == Ok::<WireView, DecodeFault>(WireView::Heartbeat)
            &&& tag == 0 || tag > 5 ==> r == Err::<WireView, DecodeFault>(
                DecodeFault::UnknownTag(tag),
            )
        }),
        decoded(Seq::empty()) == Err::<WireView, DecodeFault>(DecodeFault::Empty),
{
    let bytes = seq![tag] + payload;
    assert(bytes.skip(1) =~= payload);
    if payload.len() >= 2 {
        let n = 256 * payload[0] + payload[1];
        assert(from_be16(payload.take(2)) == n);
        if payload.len() >= 2 + n {
            assert(payload.skip(2).take(n) =~= payload.subrange(2, 2 + n));
        }
    }
}

/// A message written at one end is what a read at the other end returns.
pub proof fn law_written_message_is_read(
    a: Session,
    b: Session,
    a_after: Session,
    out: Seq<u8>,
    out_after: Seq<u8>,
    msg: WireView,
    rest: Seq<u8>,
    r: Result<Option<WireMessage>, WireError>,
)
    requires
        transmitted(a, a_after, out, out_after, encoded(msg), Ok(())),
        paired(a, b),
        representable(msg),
        encoded(msg).len() <= u32::MAX,
        a.send.nonce <= u64::MAX,
        received(b, out_after.skip(out.len() as int) + rest).result matches Ok(Some(bytes))
            ==> read_as(bytes, r),
    ensures
        r matches Ok(Some(m)) && m@ == msg,
{
    law_what_is_sent_arrives(a, b, a_after, out, out_after, encoded(msg), rest);
    law_decode_inverts_encode(msg);
}

/// A read of a message ran into the timeout exactly where the read of the socket
/// did.
pub proof fn law_what_a_timeout_of_a_message_is(e: WireError)
    ensures
        wire_timed_out(e) <==> (e matches WireError::Channel(ChannelError::Read(cause))
            && timed_out(cause)),
{
}

/// A text that is not UTF-8 is reported with what is wrong with it, and every
/// other error as what it is.
pub proof fn law_wire_error_tells_its_cause(cause: Seq<char>, e: ChannelError, d: DecodeError)
    ensures
        ends_with(decode_error_text(DecodeFault::TextNotUtf8(cause)), cause),
        ends_with(decode_error_text(DecodeFault::MimeNotUtf8(cause)), cause),
        wire_error_text(WireError::Channel(e)) == channel_error_text(e),
        wire_error_text(WireError::Decode(d)) == decode_error_text(d@),
{
    lemma_ends_with("clipboard text não é utf-8: "@, cause);
    lemma_ends_with("mime não é utf-8: "@, cause);
}

} // verus!
