//! Encrypted channels, authenticated by a pre-shared key.
//!
//! A channel carries messages of any length. Each travels as a run of frames:
//! first the total length, encrypted; then the message in encrypted blocks of
//! at most `MAX_PLAINTEXT_PER_FRAME` bytes.

use crate::bytes::{be32, from_be32, lemma_be32, low32, push_be32, read_be32};
use crate::crypto::{
    error_text, is_noise_error_text, opened, sealed, session, Direction, Session, MAX_MESSAGE, TAG_LEN,
};
use crate::stream::{
    first_frame, frame_event, frame_left, frame_pending, frame_wants, framed, law_frame_delimits_body,
    outcome_bytes, read_error_text, read_frame_or_eof, write_frame, ByteReader, FrameEvent, FrameReader, FrameStep,
    ReadError, ReadOutcome,
};
use crate::text::{ends_with, lemma_ends_with};
use vstd::prelude::*;
use vstd::slice::*;
use vstd::string::*;

pub use crate::handshake::{
    handshake_as_initiator, handshake_as_responder, Answered, HandshakeError, Initiator,
    PreambleReader, Responder,
};

verus! {

/// The longest block that fits, encrypted, in one frame.
pub const MAX_PLAINTEXT_PER_FRAME: usize = 65519;

/// Why a channel failed.
#[derive(Debug)]
pub enum ChannelError {
    /// Reading failed.
    Read(ReadError),
    /// A block could not be encrypted.
    Encrypt(String),
    /// A frame could not be decrypted.
    Decrypt(String),
    /// The frame that announces a message has fewer than four bytes.
    ShortHeader,
}

/// The text of a `ChannelError`.
pub open spec fn channel_error_text(e: ChannelError) -> Seq<char> {
    match e {
        ChannelError::Read(e) => read_error_text(e),
        ChannelError::Encrypt(text) => "falha cifrando frame: "@ + text@,
        ChannelError::Decrypt(text) => "falha decifrando frame: "@ + text@,
        ChannelError::ShortHeader => "cabeçalho de mensagem com menos de 4 bytes"@,
    }
}

impl ChannelError {
    /// The message shown to the user.
    pub fn message(&self) -> (r: String)
        ensures
            r@ == channel_error_text(*self),
    {
        match self {
            ChannelError::Read(e) => e.message(),
            ChannelError::Encrypt(text) => {
                let mut out = "falha cifrando frame: ".to_string();
                out.append(text.as_str());
                out
            },
            ChannelError::Decrypt(text) => {
                let mut out = "falha decifrando frame: ".to_string();
                out.append(text.as_str());
                out
            },
            ChannelError::ShortHeader => "cabeçalho de mensagem com menos de 4 bytes".to_string(),
        }
    }
}

/// Encryption failed for a reason that the text gives.
pub open spec fn encryption_failed(e: ChannelError) -> bool {
    e matches ChannelError::Encrypt(text) && is_noise_error_text(text@)
}

/// Decryption failed for a reason that the text gives.
pub open spec fn decryption_failed(e: ChannelError) -> bool {
    e matches ChannelError::Decrypt(text) && is_noise_error_text(text@)
}

/// The blocks of a message: full ones, then what is left.
pub open spec fn blocks(message: Seq<u8>) -> Seq<Seq<u8>>
    decreases message.len(),
{
    if message.len() == 0 {
        Seq::empty()
    } else if message.len() <= MAX_PLAINTEXT_PER_FRAME {
        seq![message]
    } else {
        seq![message.take(MAX_PLAINTEXT_PER_FRAME as int)] + blocks(
            message.skip(MAX_PLAINTEXT_PER_FRAME as int),
        )
    }
}

/// What is encrypted for a message, one frame each: its length, then its
/// blocks.
pub open spec fn parts(message: Seq<u8>) -> Seq<Seq<u8>> {
    seq![be32(low32(message.len()))] + blocks(message)
}

/// The frames of the encrypted parts, the first being message number `nonce`.
pub open spec fn sealed_frames(key: Seq<u8>, nonce: nat, parts: Seq<Seq<u8>>) -> Seq<u8>
    decreases parts.len(),
{
    if parts.len() == 0 {
        Seq::empty()
    } else {
        framed(sealed(key, nonce, parts[0])) + sealed_frames(key, nonce + 1, parts.skip(1))
    }
}

/// Every part, encrypted, is as long as it must be and opens to itself.
pub open spec fn openable(key: Seq<u8>, nonce: nat, parts: Seq<Seq<u8>>) -> bool {
    forall|i: int|
        0 <= i < parts.len() ==> {
            &&& opened(key, (nonce + i) as nat, sealed(key, (nonce + i) as nat, #[trigger] parts[i]))
                == Some(parts[i])
            &&& sealed(key, (nonce + i) as nat, parts[i]).len() == parts[i].len() + TAG_LEN
        }
}

proof fn lemma_sealed_frames_push(key: Seq<u8>, nonce: nat, parts: Seq<Seq<u8>>, last: Seq<u8>)
    ensures
        sealed_frames(key, nonce, parts.push(last)) == sealed_frames(key, nonce, parts) + framed(
            sealed(key, (nonce + parts.len()) as nat, last),
        ),
    decreases parts.len(),
{
    let all = parts.push(last);
    if parts.len() == 0 {
        assert(all.skip(1) =~= Seq::<Seq<u8>>::empty());
        assert(sealed_frames(key, nonce + 1, all.skip(1)) =~= Seq::<u8>::empty());
        assert(sealed_frames(key, nonce, parts) =~= Seq::<u8>::empty());
        assert(sealed_frames(key, nonce, all) =~= framed(sealed(key, nonce, last)));
    } else {
        assert(all.skip(1) =~= parts.skip(1).push(last));
        assert(all[0] == parts[0]);
        lemma_sealed_frames_push(key, nonce + 1, parts.skip(1), last);
        assert(sealed_frames(key, nonce, all) =~= sealed_frames(key, nonce, parts) + framed(
            sealed(key, (nonce + parts.len()) as nat, last),
        ));
    }
}

/// The blocks are no longer than a frame allows, and none is empty.
proof fn lemma_blocks(message: Seq<u8>)
    ensures
        forall|i: int|
            0 <= i < blocks(message).len() ==> 0 < (#[trigger] blocks(message)[i]).len()
                <= MAX_PLAINTEXT_PER_FRAME,
        blocks(message).len() <= message.len(),
    decreases message.len(),
{
    if message.len() > MAX_PLAINTEXT_PER_FRAME {
        let rest = message.skip(MAX_PLAINTEXT_PER_FRAME as int);
        lemma_blocks(rest);
        assert forall|i: int| 0 <= i < blocks(message).len() implies 0 < (
        #[trigger] blocks(message)[i]).len() <= MAX_PLAINTEXT_PER_FRAME by {
            if i > 0 {
                assert(blocks(message)[i] == blocks(rest)[i - 1]);
            }
        }
    }
}

/// The parts joined, one behind the other.
pub open spec fn put_together(parts: Seq<Seq<u8>>) -> Seq<u8>
    decreases parts.len(),
{
    if parts.len() == 0 {
        Seq::empty()
    } else {
        parts[0] + put_together(parts.skip(1))
    }
}

/// The blocks put together are the message. None is empty, and each fits,
/// encrypted, in one message of the protocol; all but the last are full.
pub proof fn law_blocks_make_up_the_message(message: Seq<u8>)
    ensures
        put_together(blocks(message)) == message,
        forall|i: int|
            0 <= i < blocks(message).len() ==> 0 < (#[trigger] blocks(message)[i]).len()
                && blocks(message)[i].len() + TAG_LEN <= MAX_MESSAGE,
        forall|i: int|
            0 <= i < blocks(message).len() - 1 ==> (#[trigger] blocks(message)[i]).len()
                == MAX_PLAINTEXT_PER_FRAME,
    decreases message.len(),
{
    lemma_blocks(message);
    let all = blocks(message);
    if message.len() == 0 {
        assert(put_together(all) =~= message);
    } else if message.len() <= MAX_PLAINTEXT_PER_FRAME {
        assert(all.skip(1) =~= Seq::<Seq<u8>>::empty());
        assert(put_together(all.skip(1)) =~= Seq::<u8>::empty());
        assert(put_together(all) =~= message);
    } else {
        let n = MAX_PLAINTEXT_PER_FRAME as int;
        let rest = message.skip(n);
        law_blocks_make_up_the_message(rest);
        assert(all.skip(1) =~= blocks(rest));
        assert(message =~= message.take(n) + rest);
        assert forall|i: int| 0 <= i < all.len() - 1 implies (#[trigger] all[i]).len()
            == MAX_PLAINTEXT_PER_FRAME by {
            if i > 0 {
                assert(all[i] == blocks(rest)[i - 1]);
            }
        }
    }
}

/// What an encrypted frame opens to, as the next message of a direction; `None`
/// where it cannot be one or is not authentic.
pub open spec fn opening(direction: Direction, frame: Seq<u8>) -> Option<Seq<u8>> {
    if TAG_LEN <= frame.len() <= MAX_MESSAGE && direction.nonce < u64::MAX {
        opened(direction.key, direction.nonce, frame)
    } else {
        None
    }
}

/// Why a message could not be received.
pub enum Fault {
    Read(ReadError),
    Decrypt,
    ShortHeader,
}

/// The fault that an error reports. An error of the sending side is none.
pub open spec fn fault(e: ChannelError) -> Option<Fault> {
    match e {
        ChannelError::Read(e) => Some(Fault::Read(e)),
        ChannelError::Decrypt(_) => Some(Fault::Decrypt),
        ChannelError::ShortHeader => Some(Fault::ShortHeader),
        ChannelError::Encrypt(_) => None,
    }
}

/// The error reports the fault, with the reason where decryption failed.
pub open spec fn reports(e: ChannelError, f: Fault) -> bool {
    fault(e) == Some(f) && (e is Decrypt ==> decryption_failed(e))
}

/// What receiving a message gives: the message (`None` at the end of the
/// stream) or a fault, the session after it, and the bytes left over.
pub struct Received {
    pub result: Result<Option<Seq<u8>>, Fault>,
    pub session: Session,
    pub rest: Seq<u8>,
}

/// Receives blocks until `total` bytes are there.
pub open spec fn collected(s: Session, total: nat, got: Seq<u8>, bytes: Seq<u8>) -> Received
    decreases bytes.len(),
{
    if got.len() >= total {
        Received { result: Ok(Some(got)), session: s, rest: bytes }
    } else {
        match first_frame(bytes) {
            Ok(None) => Received {
                result: Err(Fault::Read(ReadError::Ended)),
                session: s,
                rest: bytes,
            },
            Err(e) => Received { result: Err(Fault::Read(e)), session: s, rest: Seq::empty() },
            Ok(Some((frame, rest))) => if rest.len() < bytes.len() {
                match opening(s.receive, frame) {
                    None => Received { result: Err(Fault::Decrypt), session: s, rest },
                    Some(block) => collected(s.received(), total, got + block, rest),
                }
            } else {
                arbitrary()
            },
        }
    }
}

/// Receives a message from the start of a run of bytes.
pub open spec fn received(s: Session, bytes: Seq<u8>) -> Received {
    match first_frame(bytes) {
        Ok(None) => Received { result: Ok(None), session: s, rest: bytes },
        Err(e) => Received { result: Err(Fault::Read(e)), session: s, rest: Seq::empty() },
        Ok(Some((frame, rest))) => match opening(s.receive, frame) {
            None => Received { result: Err(Fault::Decrypt), session: s, rest },
            Some(header) => if header.len() < 4 {
                Received { result: Err(Fault::ShortHeader), session: s.received(), rest }
            } else {
                collected(
                    s.received(),
                    from_be32(header.take(4)) as nat,
                    Seq::empty(),
                    rest,
                )
            },
        },
    }
}

/// A session whose receiving direction has moved on by `n` messages.
pub open spec fn advanced(s: Session, n: nat) -> Session {
    Session {
        receive: Direction { key: s.receive.key, nonce: s.receive.nonce + n },
        ..s
    }
}

/// What is openable is so from the second part on.
proof fn lemma_openable_rest(key: Seq<u8>, nonce: nat, all: Seq<Seq<u8>>)
    requires
        all.len() > 0,
        openable(key, nonce, all),
    ensures
        opened(key, nonce, sealed(key, nonce, all[0])) == Some(all[0]),
        sealed(key, nonce, all[0]).len() == all[0].len() + TAG_LEN,
        openable(key, nonce + 1, all.skip(1)),
{
    let rest = all.skip(1);
    assert((nonce + 0) as nat == nonce);
    assert(all[0] == all[0]);
    assert forall|i: int| 0 <= i < rest.len() implies {
        &&& opened(
            key,
            (nonce + 1 + i) as nat,
            sealed(key, (nonce + 1 + i) as nat, #[trigger] rest[i]),
        ) == Some(rest[i])
        &&& sealed(key, (nonce + 1 + i) as nat, rest[i]).len() == rest[i].len() + TAG_LEN
    } by {
        assert(rest[i] == all[i + 1]);
    }
}

proof fn lemma_collect_blocks(s: Session, got: Seq<u8>, message: Seq<u8>, rest: Seq<u8>)
    requires
        openable(s.receive.key, s.receive.nonce, blocks(message)),
        s.receive.nonce + blocks(message).len() <= u64::MAX,
    ensures
        collected(
            s,
            got.len() + message.len(),
            got,
            sealed_frames(s.receive.key, s.receive.nonce, blocks(message)) + rest,
        ) == (Received {
            result: Ok(Some(got + message)),
            session: advanced(s, blocks(message).len()),
            rest,
        }),
    decreases message.len(),
{
    let key = s.receive.key;
    let nonce = s.receive.nonce;
    let all = blocks(message);
    let bytes = sealed_frames(key, nonce, all) + rest;
    if message.len() == 0 {
        assert(bytes =~= rest);
        assert(got + message =~= got);
        assert(advanced(s, 0) == s);
    } else {
        lemma_blocks(message);
        let block = all[0];
        let tail = message.skip(block.len() as int);
        assert(block.len() <= MAX_PLAINTEXT_PER_FRAME);
        assert(all.skip(1) =~= blocks(tail)) by {
            if message.len() <= MAX_PLAINTEXT_PER_FRAME {
                assert(tail =~= Seq::<u8>::empty());
            }
        }
        assert(message =~= block + tail);
        let frame = sealed(key, nonce, block);
        let left = sealed_frames(key, nonce + 1, all.skip(1)) + rest;
        assert(bytes =~= framed(frame) + left);
        lemma_openable_rest(key, nonce, all);
        law_frame_delimits_body(frame, left);
        assert(opening(s.receive, frame) == Some(block));
        let next = s.received();
        lemma_collect_blocks(next, got + block, tail, rest);
        assert((got + block) + tail =~= got + message);
        assert(advanced(next, blocks(tail).len()) == advanced(s, all.len()));
    }
}

/// A frame that opens to a length starts a message of that length.
proof fn lemma_receive_header(s: Session, frame: Seq<u8>, len: u32, left: Seq<u8>)
    requires
        opening(s.receive, frame) == Some(be32(len)),
    ensures
        received(s, framed(frame) + left) == collected(
            s.received(),
            len as nat,
            Seq::empty(),
            left,
        ),
{
    lemma_be32(len);
    law_frame_delimits_body(frame, left);
    assert(be32(len).take(4) =~= be32(len));
}

/// The first part has the first frame.
proof fn lemma_sealed_frames_front(
    key: Seq<u8>,
    nonce: nat,
    first: Seq<u8>,
    more: Seq<Seq<u8>>,
    rest: Seq<u8>,
)
    ensures
        sealed_frames(key, nonce, seq![first] + more) + rest == framed(sealed(key, nonce, first)) + (
        sealed_frames(key, nonce + 1, more) + rest),
{
    let all = seq![first] + more;
    assert(all[0] == first);
    assert(all.skip(1) =~= more);
    assert(sealed_frames(key, nonce, all) + rest =~= framed(sealed(key, nonce, first)) + (
    sealed_frames(key, nonce + 1, more) + rest));
}

/// The length and the blocks of a message, encrypted, open to themselves.
proof fn lemma_parts_openable(key: Seq<u8>, nonce: nat, message: Seq<u8>)
    requires
        openable(key, nonce, parts(message)),
    ensures
        ({
            let header = be32(low32(message.len()));
            let frame = sealed(key, nonce, header);
            &&& opened(key, nonce, frame) == Some(header)
            &&& frame.len() == 4 + TAG_LEN
        }),
        openable(key, nonce + 1, blocks(message)),
        parts(message).len() == 1 + blocks(message).len(),
{
    let all = parts(message);
    lemma_openable_rest(key, nonce, all);
    lemma_be32(low32(message.len()));
    assert(all.skip(1) =~= blocks(message));
}

/// What one side sends, the other side receives: the frames of a message,
/// under the key and number that the receiving side expects, give the message
/// and leave what follows them.
#[verifier::spinoff_prover]
#[verifier::rlimit(30)]
pub proof fn law_receive_gives_what_was_sent(s: Session, message: Seq<u8>, rest: Seq<u8>)
    requires
        openable(s.receive.key, s.receive.nonce, parts(message)),
        s.receive.nonce + parts(message).len() <= u64::MAX,
        message.len() <= u32::MAX,
    ensures
        received(
            s,
            sealed_frames(s.receive.key, s.receive.nonce, parts(message)) + rest,
        ) == (Received {
            result: Ok(Some(message)),
            session: advanced(s, parts(message).len()),
            rest,
        }),
{
    let key = s.receive.key;
    let nonce = s.receive.nonce;
    let header = be32(low32(message.len()));
    let frame = sealed(key, nonce, header);
    let left = sealed_frames(key, nonce + 1, blocks(message)) + rest;
    let next = s.received();
    lemma_parts_openable(key, nonce, message);
    lemma_sealed_frames_front(key, nonce, header, blocks(message), rest);
    lemma_receive_header(s, frame, low32(message.len()), left);
    lemma_collect_blocks(next, Seq::empty(), message, rest);
    assert(Seq::<u8>::empty() + message =~= message);
    assert(advanced(next, blocks(message).len()) == advanced(s, parts(message).len()));
}

/// A session whose sending direction has moved on by `n` messages.
pub open spec fn progressed(s: Session, n: nat) -> Session {
    Session {
        send: Direction { key: s.send.key, nonce: s.send.nonce + n },
        ..s
    }
}

/// One more part sent.
proof fn lemma_one_more(key: Seq<u8>, nonce: nat, all: Seq<Seq<u8>>, i: nat)
    requires
        i < all.len(),
        openable(key, nonce, all.take(i as int)),
        opened(key, nonce + i, sealed(key, nonce + i, all[i as int])) == Some(all[i as int]),
        sealed(key, nonce + i, all[i as int]).len() == all[i as int].len() + TAG_LEN,
    ensures
        sealed_frames(key, nonce, all.take((i + 1) as int)) == sealed_frames(key, nonce, all.take(i as int))
            + framed(sealed(key, nonce + i, all[i as int])),
        openable(key, nonce, all.take((i + 1) as int)),
{
    assert(all.take((i + 1) as int) =~= all.take(i as int).push(all[i as int]));
    lemma_sealed_frames_push(key, nonce, all.take(i as int), all[i as int]);
    let more = all.take((i + 1) as int);
    assert forall|k: int| 0 <= k < more.len() implies {
        &&& opened(key, (nonce + k) as nat, sealed(key, (nonce + k) as nat, #[trigger] more[k]))
            == Some(more[k])
        &&& sealed(key, (nonce + k) as nat, more[k]).len() == more[k].len() + TAG_LEN
    } by {
        if k < i {
            assert(more[k] == all.take(i as int)[k]);
        }
    }
}

/// A message that is being received.
pub struct Incoming {
    total: Option<usize>,
    got: Vec<u8>,
}

/// What is known of a message that is being received.
#[verifier::ext_equal]
pub struct IncomingView {
    /// The length announced, once known.
    pub total: Option<nat>,
    /// The bytes so far.
    pub got: Seq<u8>,
}

impl IncomingView {
    /// Nothing is known yet.
    pub open spec fn start() -> IncomingView {
        IncomingView { total: None, got: Seq::empty() }
    }

    /// More frames are due.
    pub open spec fn pending(self) -> bool {
        match self.total {
            Some(total) => self.got.len() < total,
            None => self.got.len() == 0,
        }
    }
}

impl View for Incoming {
    type V = IncomingView;

    closed spec fn view(&self) -> IncomingView {
        IncomingView {
            total: match self.total {
                Some(total) => Some(total as nat),
                None => None,
            },
            got: self.got@,
        }
    }
}

impl Incoming {
    /// Nothing of the message is there yet.
    pub fn new() -> (r: Incoming)
        ensures
            r@ == IncomingView::start(),
            r@.pending(),
    {
        Incoming { total: None, got: Vec::new() }
    }

    /// Whether the length is known.
    pub fn started(&self) -> (r: bool)
        ensures
            r == (self@.total is Some),
    {
        self.total.is_some()
    }

    /// The bytes so far.
    pub fn into_bytes(self) -> (r: Vec<u8>)
        ensures
            r@ == self@.got,
    {
        self.got
    }
}

/// How the receiving of a message stands.
#[derive(Debug)]
pub enum RecvStep {
    /// Read again.
    More,
    /// The message is complete.
    Done(Vec<u8>),
    /// The stream ended between two messages.
    Closed,
}

/// What the next frame means for the message: whether the message is then
/// complete or why the frame is refused, the session, and what is known.
pub open spec fn absorbed(s: Session, view: IncomingView, frame: Seq<u8>) -> (
    Result<bool, Fault>,
    Session,
    IncomingView,
) {
    match opening(s.receive, frame) {
        None => (Err(Fault::Decrypt), s, view),
        Some(block) => match view.total {
            None => if block.len() < 4 {
                (Err(Fault::ShortHeader), s.received(), view)
            } else {
                let total = from_be32(block.take(4)) as nat;
                (
                    Ok(view.got.len() >= total),
                    s.received(),
                    IncomingView { total: Some(total), ..view },
                )
            },
            Some(total) => {
                let got = view.got + block;
                (Ok(got.len() >= total), s.received(), IncomingView { got, ..view })
            },
        },
    }
}

/// What is known of a message after a read: a complete one leaves room for the
/// next.
pub open spec fn incoming_after(s: Session, view: IncomingView, event: FrameEvent) -> IncomingView {
    match event {
        FrameEvent::Frame(frame) => {
            let (result, _, left) = absorbed(s, view, frame);
            if result == Ok::<bool, Fault>(true) {
                IncomingView::start()
            } else {
                left
            }
        },
        _ => view,
    }
}

/// The result of a step, errors as their faults.
pub open spec fn outcome_of(r: Result<bool, ChannelError>) -> Result<bool, Fault> {
    match r {
        Ok(done) => Ok(done),
        Err(e) => Err(fault(e)->0),
    }
}

/// Receives the rest of a message from the start of a run of bytes.
pub open spec fn continued(s: Session, view: IncomingView, bytes: Seq<u8>) -> Received {
    match view.total {
        None => received(s, bytes),
        Some(total) => collected(s, total, view.got, bytes),
    }
}

/// Takes in the frames of a run of bytes one by one, as `absorbed` says, until
/// a message is complete.
pub open spec fn fed(s: Session, view: IncomingView, bytes: Seq<u8>) -> Received
    decreases bytes.len(),
{
    match first_frame(bytes) {
        Ok(None) => Received {
            result: if view.total is Some {
                Err(Fault::Read(ReadError::Ended))
            } else {
                Ok(None)
            },
            session: s,
            rest: bytes,
        },
        Err(e) => Received { result: Err(Fault::Read(e)), session: s, rest: Seq::empty() },
        Ok(Some((frame, rest))) => if rest.len() < bytes.len() {
            let (result, after, left) = absorbed(s, view, frame);
            match result {
                Err(f) => Received { result: Err(f), session: after, rest },
                Ok(true) => Received { result: Ok(Some(left.got)), session: after, rest },
                Ok(false) => fed(after, left, rest),
            }
        } else {
            arbitrary()
        },
    }
}

proof fn lemma_fed(s: Session, view: IncomingView, bytes: Seq<u8>)
    requires
        view.pending(),
    ensures
        fed(s, view, bytes) == continued(s, view, bytes),
    decreases bytes.len(),
{
    reveal_with_fuel(collected, 2);
    assert(view.total is None ==> view.got =~= Seq::<u8>::empty());
    if let Ok(Some((frame, rest))) = first_frame(bytes) {
        let (result, after, left) = absorbed(s, view, frame);
        if result == Ok::<bool, Fault>(false) {
            lemma_fed(after, left, rest);
        }
    }
}

/// Taking in the frames one by one gives what `recv` gives.
pub proof fn law_frame_by_frame_gives_what_recv_gives(s: Session, bytes: Seq<u8>)
    ensures
        fed(s, IncomingView::start(), bytes) == received(s, bytes),
{
    lemma_fed(s, IncomingView::start(), bytes);
}

/// A read that completes a frame leaves the bytes behind it.
proof fn lemma_completed_frame(before: Seq<u8>, data: Seq<u8>, rest: Seq<u8>)
    requires
        frame_pending(before),
        0 < data.len() <= frame_wants(before),
        !frame_pending(before + data),
    ensures
        first_frame(before + data + rest) == Ok::<Option<(Seq<u8>, Seq<u8>)>, ReadError>(
            Some(((before + data).skip(4), rest)),
        ),
{
    let whole = before + data;
    let bytes = whole + rest;
    assert(bytes.take(4) =~= whole.take(4));
    if before.len() >= 4 {
        assert(whole.take(4) =~= before.take(4));
    }
    let end = 4 + from_be32(bytes.take(4));
    assert(end == whole.len());
    assert(bytes.subrange(4, end) =~= whole.skip(4));
    assert(bytes.skip(end) =~= rest);
}

/// Reading step by step comes to what `recv` gives on the same bytes, however
/// they are cut into reads: with `before` of a frame there, a read keeps what is
/// received from here on, or completes the message with just that, or fails as
/// that fails.
pub proof fn law_step_by_step_gives_what_recv_gives(
    s: Session,
    view: IncomingView,
    before: Seq<u8>,
    outcome: ReadOutcome,
    rest: Seq<u8>,
)
    requires
        view.pending(),
        frame_pending(before),
        outcome is Data,
        outcome_bytes(outcome).len() <= frame_wants(before),
        outcome_bytes(outcome).len() == 0 ==> rest.len() == 0,
    ensures
        ({
            let whole = continued(s, view, before + outcome_bytes(outcome) + rest);
            match frame_event(before, outcome) {
                FrameEvent::More => whole == continued(
                    s,
                    view,
                    frame_left(before, outcome) + rest,
                ),
                FrameEvent::Frame(frame) => {
                    let (result, after, left) = absorbed(s, view, frame);
                    match result {
                        Ok(false) => whole == continued(after, left, rest),
                        Ok(true) => whole == (Received {
                            result: Ok(Some(left.got)),
                            session: after,
                            rest,
                        }),
                        Err(f) => whole == (Received { result: Err(f), session: after, rest }),
                    }
                },
                FrameEvent::Closed => whole.session == s && whole.result == if view.total is Some {
                    Err::<Option<Seq<u8>>, Fault>(Fault::Read(ReadError::Ended))
                } else {
                    Ok(None)
                },
                FrameEvent::Failed(e) => whole.session == s && whole.result == Err::<
                    Option<Seq<u8>>,
                    Fault,
                >(Fault::Read(e)),
            }
        }),
{
    let data = outcome_bytes(outcome);
    let bytes = before + data + rest;
    lemma_fed(s, view, bytes);
    if data.len() == 0 {
        assert(bytes =~= before);
    } else if !frame_pending(before + data) {
        lemma_completed_frame(before, data, rest);
        let (result, after, left) = absorbed(s, view, (before + data).skip(4));
        if result == Ok::<bool, Fault>(false) {
            lemma_fed(after, left, rest);
        }
    }
}

/// Two sessions are the ends of one channel: what one sends is what the other
/// expects to receive next.
pub open spec fn paired(a: Session, b: Session) -> bool {
    a.send == b.receive && a.receive == b.send
}

/// A message sent at one end of a channel arrives at the other end as it is,
/// and the ends stay paired for the next one. `send` states that what it
/// appends is `openable`.
pub proof fn law_channel_delivers(a: Session, b: Session, message: Seq<u8>, rest: Seq<u8>)
    requires
        paired(a, b),
        openable(a.send.key, a.send.nonce, parts(message)),
        a.send.nonce + parts(message).len() <= u64::MAX,
        message.len() <= u32::MAX,
    ensures
        ({
            let bytes = sealed_frames(a.send.key, a.send.nonce, parts(message));
            let arrived = received(b, bytes + rest);
            &&& arrived.result == Ok::<Option<Seq<u8>>, Fault>(Some(message))
            &&& arrived.rest == rest
            &&& paired(progressed(a, parts(message).len()), arrived.session)
        }),
{
    law_receive_gives_what_was_sent(b, message, rest);
}

/// What sending a message does to a session and to the bytes to be sent. It
/// succeeds exactly where every part gets a number; otherwise the parts that
/// got one are there.
pub open spec fn transmitted(
    before: Session,
    after: Session,
    out: Seq<u8>,
    out_after: Seq<u8>,
    message: Seq<u8>,
    r: Result<(), ChannelError>,
) -> bool {
    let all = parts(message);
    let room = (u64::MAX - before.send.nonce) as nat;
    let n = if all.len() <= room {
        all.len()
    } else {
        room
    };
    &&& r is Ok <==> all.len() <= room
    &&& r matches Err(e) ==> encryption_failed(e)
    &&& out_after == out + sealed_frames(before.send.key, before.send.nonce, all.take(n as int))
    &&& openable(before.send.key, before.send.nonce, all.take(n as int))
    &&& after == progressed(before, n)
}

/// One end of an encrypted channel.
pub struct EncryptedChannel {
    transport: snow::TransportState,
}

impl EncryptedChannel {
    /// The state of the session.
    pub closed spec fn session(&self) -> Session {
        session(self.transport)
    }

    /// The session goes both ways, and its numbers are machine numbers.
    pub open spec fn wf(&self) -> bool {
        &&& self.session().may_send
        &&& self.session().may_receive
        &&& self.session().send.nonce <= u64::MAX
        &&& self.session().receive.nonce <= u64::MAX
    }

    /// The channel that a finished handshake leads to.
    pub(crate) fn new(transport: snow::TransportState) -> (r: EncryptedChannel)
        ensures
            r.session() == session(transport),
    {
        EncryptedChannel { transport }
    }

    /// Encrypts one block.
    fn encrypt_chunk(&mut self, chunk: &[u8]) -> (r: Result<Vec<u8>, ChannelError>)
        requires
            old(self).wf(),
            chunk@.len() <= MAX_PLAINTEXT_PER_FRAME,
        ensures
            r is Ok <==> old(self).session().send.nonce < u64::MAX,
            match r {
                Ok(out) => {
                    let direction = old(self).session().send;
                    &&& out@ == sealed(direction.key, direction.nonce, chunk@)
                    &&& out@.len() == chunk@.len() + TAG_LEN
                    &&& opened(direction.key, direction.nonce, out@) == Some(chunk@)
                    &&& final(self).session() == old(self).session().sent()
                },
                Err(e) => encryption_failed(e) && final(self).session() == old(self).session(),
            },
    {
        let mut buf: Vec<u8> = vec![0u8; chunk.len() + TAG_LEN];
        match self.transport.write_message(chunk, buf.as_mut_slice()) {
            Ok(n) => {
                buf.truncate(n);
                Ok(buf)
            },
            Err(e) => Err(ChannelError::Encrypt(error_text(&e))),
        }
    }

    /// Decrypts one frame.
    fn decrypt_chunk(&mut self, ciphertext: &[u8]) -> (r: Result<Vec<u8>, ChannelError>)
        requires
            old(self).wf(),
        ensures
            match r {
                Ok(out) => {
                    &&& opening(old(self).session().receive, ciphertext@) == Some(out@)
                    &&& final(self).session() == old(self).session().received()
                },
                Err(e) => {
                    &&& decryption_failed(e)
                    &&& opening(old(self).session().receive, ciphertext@) is None
                    &&& final(self).session() == old(self).session()
                },
            },
    {
        let mut buf: Vec<u8> = vec![0u8; ciphertext.len()];
        match self.transport.read_message(ciphertext, buf.as_mut_slice()) {
            Ok(n) => {
                buf.truncate(n);
                Ok(buf)
            },
            Err(e) => Err(ChannelError::Decrypt(error_text(&e))),
        }
    }

    /// Encrypts one part and appends its frame.
    fn send_part(&mut self, out: &mut Vec<u8>, part: &[u8]) -> (r: Result<(), ChannelError>)
        requires
            old(self).wf(),
            part@.len() <= MAX_PLAINTEXT_PER_FRAME,
        ensures
            final(self).wf(),
            r is Ok <==> old(self).session().send.nonce < u64::MAX,
            match r {
                Ok(_) => {
                    let direction = old(self).session().send;
                    let coded = sealed(direction.key, direction.nonce, part@);
                    &&& final(out)@ == old(out)@ + framed(coded)
                    &&& coded.len() == part@.len() + TAG_LEN
                    &&& opened(direction.key, direction.nonce, coded) == Some(part@)
                    &&& final(self).session() == old(self).session().sent()
                },
                Err(e) => {
                    &&& encryption_failed(e)
                    &&& final(out)@ == old(out)@
                    &&& final(self).session() == old(self).session()
                },
            },
    {
        match self.encrypt_chunk(part) {
            Ok(coded) => {
                write_frame(out, coded.as_slice());
                Ok(())
            },
            Err(e) => Err(e),
        }
    }

    /// Encrypts a message and appends its frames to what is to be sent.
    pub fn send(&mut self, out: &mut Vec<u8>, plaintext: &[u8]) -> (r: Result<(), ChannelError>)
        requires
            old(self).wf(),
        ensures
            final(self).wf(),
            transmitted(
                old(self).session(),
                final(self).session(),
                old(out)@,
                final(out)@,
                plaintext@,
                r,
            ),
    {
        let ghost direction = self.session().send;
        let ghost all = parts(plaintext@);
        let ghost before = out@;
        proof {
            lemma_blocks(plaintext@);
            assert(all.skip(1) =~= blocks(plaintext@));
            assert(all.take(0) =~= Seq::<Seq<u8>>::empty());
            assert(out@ =~= before + sealed_frames(direction.key, direction.nonce, all.take(0)));
        }
        let mut header: Vec<u8> = Vec::new();
        push_be32(&mut header, (plaintext.len() as u64 % 4294967296) as u32);
        assert(header@ =~= all[0]);
        match self.send_part(out, header.as_slice()) {
            Ok(()) => {
                proof {
                    lemma_one_more(direction.key, direction.nonce, all, 0);
                    assert(out@ =~= before + sealed_frames(
                        direction.key,
                        direction.nonce,
                        all.take(1),
                    ));
                }
            },
            Err(e) => {
                return Err(e);
            },
        }
        let mut pos: usize = 0;
        let ghost mut i: nat = 1;
        assert(plaintext@.skip(0) =~= plaintext@);
        while pos < plaintext.len()
            invariant
                self.wf(),
                pos <= plaintext@.len(),
                all == parts(plaintext@),
                direction == old(self).session().send,
                direction.nonce <= u64::MAX,
                before == old(out)@,
                1 <= i <= all.len(),
                forall|k: int|
                    1 <= k < all.len() ==> 0 < (#[trigger] all[k]).len()
                        <= MAX_PLAINTEXT_PER_FRAME,
                blocks(plaintext@.skip(pos as int)) == all.skip(i as int),
                out@ == before + sealed_frames(direction.key, direction.nonce, all.take(i as int)),
                openable(direction.key, direction.nonce, all.take(i as int)),
                self.session() == progressed(old(self).session(), i),
            decreases plaintext@.len() - pos,
        {
            let left: usize = plaintext.len() - pos;
            let len: usize = if left <= MAX_PLAINTEXT_PER_FRAME {
                left
            } else {
                MAX_PLAINTEXT_PER_FRAME
            };
            let ghost tail = plaintext@.skip(pos as int);
            let chunk = slice_subrange(plaintext, pos, pos + len);
            proof {
                assert(blocks(tail).len() > 0);
                assert(all[i as int] == all.skip(i as int)[0]);
                if left <= MAX_PLAINTEXT_PER_FRAME {
                    assert(chunk@ =~= tail);
                } else {
                    assert(chunk@ =~= tail.take(MAX_PLAINTEXT_PER_FRAME as int));
                }
                assert(chunk@ == all[i as int]);
                assert(plaintext@.skip(pos + len) =~= tail.skip(len as int));
                assert(all.skip((i + 1) as int) =~= all.skip(i as int).skip(1));
                assert(blocks(tail).skip(1) =~= blocks(tail.skip(len as int)));
            }
            match self.send_part(out, chunk) {
                Ok(()) => {
                    proof {
                        lemma_one_more(direction.key, direction.nonce, all, i);
                        assert(out@ =~= before + sealed_frames(
                            direction.key,
                            direction.nonce,
                            all.take((i + 1) as int),
                        ));
                        i = i + 1;
                    }
                    pos = pos + len;
                },
                Err(e) => {
                    assert(i == u64::MAX - direction.nonce);
                    return Err(e);
                },
            }
        }
        proof {
            assert(plaintext@.skip(pos as int) =~= Seq::<u8>::empty());
            assert(all.skip(i as int).len() == 0);
            assert(i == all.len());
        }
        Ok(())
    }

    /// Takes in the next frame of a message; `true` when the message is
    /// complete.
    pub fn recv_frame(&mut self, incoming: &mut Incoming, frame: &[u8]) -> (r: Result<
        bool,
        ChannelError,
    >)
        requires
            old(self).wf(),
        ensures
            final(self).wf(),
            absorbed(old(self).session(), old(incoming)@, frame@) == (
                outcome_of(r),
                final(self).session(),
                final(incoming)@,
            ),
            r matches Err(e) ==> outcome_of(r) matches Err(f) && reports(e, f),
    {
        let block = match self.decrypt_chunk(frame) {
            Ok(block) => block,
            Err(e) => {
                return Err(e);
            },
        };
        match incoming.total {
            None => {
                if block.len() < 4 {
                    return Err(ChannelError::ShortHeader);
                }
                assert(block@.take(4) =~= seq![block@[0], block@[1], block@[2], block@[3]]);
                let total: usize = read_be32(block[0], block[1], block[2], block[3]) as usize;
                incoming.total = Some(total);
                Ok(incoming.got.len() >= total)
            },
            Some(total) => {
                let mut block = block;
                incoming.got.append(&mut block);
                Ok(incoming.got.len() >= total)
            },
        }
    }

    /// Receives the next message; `None` where the stream ends between two
    /// messages.
    pub fn recv(&mut self, stream: &mut ByteReader) -> (r: Result<Option<Vec<u8>>, ChannelError>)
        requires
            old(self).wf(),
            old(stream).wf(),
        ensures
            final(self).wf(),
            final(stream).wf(),
            ({
                let expected = received(old(self).session(), old(stream).rest());
                &&& final(self).session() == expected.session
                &&& final(stream).rest() == expected.rest
                &&& match r {
                    Ok(Some(message)) => expected.result == Ok::<Option<Seq<u8>>, Fault>(
                        Some(message@),
                    ),
                    Ok(None) => expected.result == Ok::<Option<Seq<u8>>, Fault>(None),
                    Err(e) => expected.result matches Err(f) && reports(e, f),
                }
            }),
    {
        let ghost expected = received(self.session(), stream.rest());
        let mut incoming = Incoming::new();
        loop
            invariant
                self.wf(),
                stream.wf(),
                expected == received(old(self).session(), old(stream).rest()),
                expected == continued(self.session(), incoming@, stream.rest()),
                incoming@.pending(),
            decreases stream.rest().len(),
        {
            proof {
                reveal_with_fuel(collected, 2);
                assert(incoming@.total is None ==> incoming@.got =~= Seq::<u8>::empty());
            }
            match stream.read_frame_or_eof() {
                Ok(Some(frame)) => match self.recv_frame(&mut incoming, frame.as_slice()) {
                    Ok(true) => {
                        return Ok(Some(incoming.into_bytes()));
                    },
                    Ok(false) => {},
                    Err(e) => {
                        return Err(e);
                    },
                },
                Ok(None) => {
                    if incoming.started() {
                        return Err(ChannelError::Read(ReadError::Ended));
                    } else {
                        return Ok(None);
                    }
                },
                Err(e) => {
                    return Err(ChannelError::Read(e));
                },
            }
        }
    }

    /// Takes the outcome of one read of the socket into account.
    pub fn recv_step(
        &mut self,
        incoming: &mut Incoming,
        reader: &mut FrameReader,
        outcome: ReadOutcome,
    ) -> (r: Result<RecvStep, ChannelError>)
        requires
            old(self).wf(),
            old(incoming)@.pending(),
            old(reader).wf(),
            outcome_bytes(outcome).len() <= frame_wants(old(reader).received()),
        ensures
            final(self).wf(),
            final(incoming)@.pending(),
            final(reader).wf(),
            final(reader).received() == frame_left(old(reader).received(), outcome),
            final(incoming)@ == incoming_after(
                old(self).session(),
                old(incoming)@,
                frame_event(old(reader).received(), outcome),
            ),
            match frame_event(old(reader).received(), outcome) {
                FrameEvent::Frame(frame) => {
                    let (result, after, left) = absorbed(
                        old(self).session(),
                        old(incoming)@,
                        frame,
                    );
                    &&& final(self).session() == after
                    &&& match r {
                        Ok(RecvStep::Done(message)) => {
                            &&& result == Ok::<bool, Fault>(true)
                            &&& message@ == left.got
                        },
                        Ok(RecvStep::More) => result == Ok::<bool, Fault>(false),
                        Ok(RecvStep::Closed) => false,
                        Err(e) => result matches Err(f) && reports(e, f),
                    }
                },
                FrameEvent::More => {
                    &&& r matches Ok(RecvStep::More)
                    &&& final(self).session() == old(self).session()
                },
                FrameEvent::Closed => {
                    &&& final(self).session() == old(self).session()
                    &&& if old(incoming)@.total is Some {
                        r matches Err(ChannelError::Read(ReadError::Ended))
                    } else {
                        r matches Ok(RecvStep::Closed)
                    }
                },
                FrameEvent::Failed(failure) => {
                    &&& final(self).session() == old(self).session()
                    &&& r matches Err(ChannelError::Read(e)) && e == failure
                },
            },
    {
        match read_frame_or_eof(reader, outcome) {
            Ok(FrameStep::More) => Ok(RecvStep::More),
            Ok(FrameStep::Frame(frame)) => match self.recv_frame(incoming, frame.as_slice()) {
                Ok(true) => {
                    let mut whole = Incoming::new();
                    std::mem::swap(incoming, &mut whole);
                    Ok(RecvStep::Done(whole.into_bytes()))
                },
                Ok(false) => Ok(RecvStep::More),
                Err(e) => Err(e),
            },
            Ok(FrameStep::Closed) => {
                if incoming.started() {
                    Err(ChannelError::Read(ReadError::Ended))
                } else {
                    Ok(RecvStep::Closed)
                }
            },
            Err(e) => Err(ChannelError::Read(e)),
        }
    }
}

/// What `send` appends arrives: where a message was sent, the bytes that were
/// added to what is to be sent give that message at the other end of the
/// channel, and the ends stay paired. What was there before is left alone.
pub proof fn law_what_is_sent_arrives(
    a: Session,
    b: Session,
    a_after: Session,
    out: Seq<u8>,
    out_after: Seq<u8>,
    message: Seq<u8>,
    rest: Seq<u8>,
)
    requires
        transmitted(a, a_after, out, out_after, message, Ok(())),
        paired(a, b),
        message.len() <= u32::MAX,
        a.send.nonce <= u64::MAX,
    ensures
        out.is_prefix_of(out_after),
        ({
            let arrived = received(b, out_after.skip(out.len() as int) + rest);
            &&& arrived.result == Ok::<Option<Seq<u8>>, Fault>(Some(message))
            &&& arrived.rest == rest
            &&& a_after.send == arrived.session.receive
            &&& a_after.receive == arrived.session.send
        }),
{
    let all = parts(message);
    let added = sealed_frames(a.send.key, a.send.nonce, all);
    assert(all.take(all.len() as int) =~= all);
    assert(out_after.skip(out.len() as int) =~= added);
    assert(out_after.subrange(0, out.len() as int) =~= out);
    law_channel_delivers(a, b, message, rest);
}

/// A message is sent wherever the numbers of the sending direction last for its
/// length and its blocks; otherwise sending fails.
pub proof fn law_when_a_message_is_sent(
    a: Session,
    a_after: Session,
    out: Seq<u8>,
    out_after: Seq<u8>,
    message: Seq<u8>,
    r: Result<(), ChannelError>,
)
    requires
        transmitted(a, a_after, out, out_after, message, r),
        a.send.nonce <= u64::MAX,
    ensures
        r is Ok <==> a.send.nonce + 1 + blocks(message).len() <= u64::MAX,
        a_after.receive == a.receive,
        a_after.send.key == a.send.key,
        a_after.send.nonce >= a.send.nonce,
{
}

/// What is received: nothing at the end of the stream, and nothing but an error
/// where the first frame is not authentic, opens to less than a length, or is
/// cut off.
pub proof fn law_what_is_not_received(s: Session, frame: Seq<u8>, rest: Seq<u8>)
    requires
        frame.len() <= 65535,
        s.receive.nonce < u64::MAX,
    ensures
        received(s, Seq::empty()).result == Ok::<Option<Seq<u8>>, Fault>(None),
        received(s, Seq::empty()).session == s,
        frame.len() < 16 || opened(s.receive.key, s.receive.nonce, frame) is None ==> {
            let r = received(s, framed(frame) + rest);
            r.result == Err::<Option<Seq<u8>>, Fault>(Fault::Decrypt) && r.session == s
        },
        frame.len() >= 16 ==> (opened(s.receive.key, s.receive.nonce, frame) matches Some(header)
            ==> header.len() < 4 ==> received(s, framed(frame) + rest).result == Err::<
            Option<Seq<u8>>,
            Fault,
        >(Fault::ShortHeader)),
{
    law_frame_delimits_body(frame, rest);
}

/// Blocks are taken as they come: one that brings at least what is missing
/// completes the message with all that it holds, and one that brings less leaves
/// the rest to come.
pub proof fn law_blocks_are_taken_as_they_come(
    s: Session,
    total: nat,
    got: Seq<u8>,
    frame: Seq<u8>,
    rest: Seq<u8>,
)
    requires
        got.len() < total,
        16 <= frame.len() <= 65535,
        s.receive.nonce < u64::MAX,
        opened(s.receive.key, s.receive.nonce, frame) is Some,
    ensures
        ({
            let block = opened(s.receive.key, s.receive.nonce, frame)->0;
            let view = IncomingView { total: Some(total), got };
            let r = continued(s, view, framed(frame) + rest);
            let next = Session {
                receive: Direction { key: s.receive.key, nonce: s.receive.nonce + 1 },
                ..s
            };
            &&& got.len() + block.len() >= total ==> r == (Received {
                result: Ok(Some(got + block)),
                session: next,
                rest,
            })
            &&& got.len() + block.len() < total ==> r == continued(
                next,
                IncomingView { total: Some(total), got: got + block },
                rest,
            )
        }),
{
    law_frame_delimits_body(frame, rest);
    reveal_with_fuel(collected, 2);
}

/// An error of a channel is reported with its cause, and a failed read as that
/// read.
pub proof fn law_channel_error_tells_its_cause(cause: String, e: ReadError)
    ensures
        ends_with(channel_error_text(ChannelError::Encrypt(cause)), cause@),
        ends_with(channel_error_text(ChannelError::Decrypt(cause)), cause@),
        channel_error_text(ChannelError::Read(e)) == read_error_text(e),
{
    lemma_ends_with("falha cifrando frame: "@, cause@);
    lemma_ends_with("falha decifrando frame: "@, cause@);
}

} // verus!
