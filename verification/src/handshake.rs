//! How two ends agree on an encrypted channel.
//!
//! The initiator sends its name in clear text, so that the responder can tell
//! which pre-shared key to use. The name is no secret: what authenticates is
//! the key. Then three handshake messages follow, a frame each.

use crate::crypto::{
    agreed, authored, authored_by_peer, build_initiator, build_responder, error_text, exchange,
    generate_private_key, handshake_accepts, handshake_message, is_noise_error_text,
    noise_params, traffic_key, Direction, Exchange, Session, MAX_MESSAGE,
};
use crate::keys::Keyring;
use crate::noise::{paired, EncryptedChannel};
use crate::stream::{
    frame_event, frame_left, frame_wants, framed, outcome_bytes, read_error_text, read_frame,
    write_frame, FrameEvent, FrameReader, IoFailure, IoKind, ReadError, ReadOutcome,
};
use crate::text::{ends_with, lemma_ends_with, text_of_utf8, utf8_error_text};
use vstd::prelude::*;
use vstd::slice::*;
use vstd::string::*;
use vstd::utf8::*;

verus! {

/// Why a handshake failed.
#[derive(Debug)]
pub enum HandshakeError {
    /// The name of the peer could not be read.
    Preamble(IoFailure),
    /// The connection ended inside the name of the peer.
    PreambleEnded,
    /// The name of the peer is not UTF-8; the text says where.
    NameNotUtf8(String),
    /// There is no key for the peer of this name.
    UnknownPeer(String),
    /// A message of the handshake could not be read.
    Read(ReadError),
    /// The cryptography refused.
    Noise(String),
    /// The last message was refused: most likely the keys differ.
    ThirdMessage(String),
}

/// The text of a `HandshakeError`.
pub open spec fn handshake_error_text(e: HandshakeError) -> Seq<char> {
    match e {
        HandshakeError::Preamble(cause) => cause.text@,
        HandshakeError::PreambleEnded => "failed to fill whole buffer"@,
        HandshakeError::NameNotUtf8(cause) => "preâmbulo de identidade inválido (utf-8): "@
            + cause@,
        HandshakeError::UnknownPeer(name) => "peer desconhecido: "@ + name@,
        HandshakeError::Read(e) => read_error_text(e),
        HandshakeError::Noise(text) => text@,
        HandshakeError::ThirdMessage(text) =>
            "falha decifrando a 3a mensagem do handshake (PSK provavelmente divergente): "@ + text@,
    }
}

impl HandshakeError {
    /// The message shown to the user.
    pub fn message(&self) -> (r: String)
        ensures
            r@ == handshake_error_text(*self),
    {
        match self {
            HandshakeError::Preamble(cause) => cause.text.clone(),
            HandshakeError::PreambleEnded => "failed to fill whole buffer".to_string(),
            HandshakeError::NameNotUtf8(cause) => {
                let mut out = "preâmbulo de identidade inválido (utf-8): ".to_string();
                out.append(cause.as_str());
                out
            },
            HandshakeError::UnknownPeer(name) => {
                let mut out = "peer desconhecido: ".to_string();
                out.append(name.as_str());
                out
            },
            HandshakeError::Read(e) => e.message(),
            HandshakeError::Noise(text) => text.clone(),
            HandshakeError::ThirdMessage(text) => {
                let mut out =
                    "falha decifrando a 3a mensagem do handshake (PSK provavelmente divergente): ".to_string();
                out.append(text.as_str());
                out
            },
        }
    }
}

/// The cryptography refused, for a reason that the text gives.
pub open spec fn noise_failed(e: HandshakeError) -> bool {
    e matches HandshakeError::Noise(text) && is_noise_error_text(text@)
}

/// The third message was refused, for a reason that the text gives.
pub open spec fn third_message_failed(e: HandshakeError) -> bool {
    e matches HandshakeError::ThirdMessage(text) && is_noise_error_text(text@)
}

/// The name of the initiator on the wire: the low byte of its length, then its
/// UTF-8 bytes.
pub open spec fn preamble(name: Seq<char>) -> Seq<u8> {
    seq![(encode_utf8(name).len() % 256) as u8] + encode_utf8(name)
}

/// Something of the name is missing.
pub open spec fn preamble_pending(bytes: Seq<u8>) -> bool {
    bytes.len() == 0 || bytes.len() < 1 + bytes[0]
}

/// How many bytes the next read may give at most.
pub open spec fn preamble_wants(bytes: Seq<u8>) -> int {
    if bytes.len() == 0 {
        1
    } else {
        1 + bytes[0] - bytes.len()
    }
}

/// A name of less than 256 bytes is read back: its bytes are complete, no
/// proper start of them is, and they decode to the name.
pub proof fn law_preamble_reads_back(name: Seq<char>)
    requires
        encode_utf8(name).len() < 256,
    ensures
        !preamble_pending(preamble(name)),
        forall|n: int|
            0 <= n < preamble(name).len() ==> #[trigger] preamble_pending(preamble(name).take(n)),
        valid_utf8(preamble(name).skip(1)),
        decode_utf8(preamble(name).skip(1)) == name,
{
    encode_utf8_valid_utf8(name);
    encode_utf8_decode_utf8(name);
    assert(preamble(name).skip(1) =~= encode_utf8(name));
}

/// Appends the name of the initiator to what is to be sent.
pub fn write_preamble(out: &mut Vec<u8>, name: &str)
    ensures
        final(out)@ == old(out)@ + preamble(name@),
{
    let bytes = name.as_bytes();
    out.push((bytes.len() % 256) as u8);
    out.extend_from_slice(bytes);
    assert(out@ =~= old(out)@ + preamble(name@));
}

/// The reading of a name that is under way.
pub struct PreambleReader {
    got: Vec<u8>,
}

impl PreambleReader {
    /// The bytes so far.
    pub closed spec fn received(&self) -> Seq<u8> {
        self.got@
    }

    /// Something of the name is missing.
    pub open spec fn wf(&self) -> bool {
        preamble_pending(self.received())
    }

    /// Starts to read a name.
    pub fn new() -> (r: PreambleReader)
        ensures
            r.wf(),
            r.received() == Seq::<u8>::empty(),
    {
        PreambleReader { got: Vec::new() }
    }

    /// The number of bytes that the next read may give at most.
    pub fn wants(&self) -> (r: usize)
        requires
            self.wf(),
        ensures
            r == preamble_wants(self.received()),
    {
        if self.got.len() == 0 {
            1
        } else {
            1 + self.got[0] as usize - self.got.len()
        }
    }
}

/// Takes the outcome of one read into account. Until the name is complete, the
/// end of the stream is an error.
pub fn read_preamble(reader: &mut PreambleReader, outcome: ReadOutcome) -> (r: Result<
    Option<String>,
    HandshakeError,
>)
    requires
        old(reader).wf(),
        outcome_bytes(outcome).len() <= preamble_wants(old(reader).received()),
    ensures
        final(reader).wf(),
        ({
            let before = old(reader).received();
            match outcome {
                ReadOutcome::Data(data) => if data@.len() == 0 {
                    &&& r matches Err(HandshakeError::PreambleEnded)
                    &&& final(reader).received() == before
                } else if preamble_pending(before + data@) {
                    &&& r matches Ok(None)
                    &&& final(reader).received() == before + data@
                } else {
                    let coded = (before + data@).skip(1);
                    &&& final(reader).received() == Seq::<u8>::empty()
                    &&& if valid_utf8(coded) {
                        r matches Ok(Some(name)) && name@ == decode_utf8(coded)
                    } else {
                        r matches Err(HandshakeError::NameNotUtf8(cause)) && cause@
                            == utf8_error_text(coded)
                    }
                },
                ReadOutcome::Failed(failure) => {
                    &&& final(reader).received() == before
                    &&& if failure.kind == IoKind::Interrupted {
                        r matches Ok(None)
                    } else {
                        r matches Err(HandshakeError::Preamble(f)) && f == failure
                    }
                },
            }
        }),
{
    match outcome {
        ReadOutcome::Data(data) => {
            if data.len() == 0 {
                return Err(HandshakeError::PreambleEnded);
            }
            let mut data = data;
            reader.got.append(&mut data);
            if reader.got.len() < 1 + reader.got[0] as usize {
                return Ok(None);
            }
            let coded = slice_subrange(reader.got.as_slice(), 1, reader.got.len());
            assert(coded@ =~= reader.got@.skip(1));
            let name = text_of_utf8(slice_to_vec(coded));
            reader.got = Vec::new();
            match name {
                Ok(name) => Ok(Some(name)),
                Err(cause) => Err(HandshakeError::NameNotUtf8(cause)),
            }
        },
        ReadOutcome::Failed(failure) => {
            if failure.kind == IoKind::Interrupted {
                Ok(None)
            } else {
                Err(HandshakeError::Preamble(failure))
            }
        },
    }
}

/// The session that a finished handshake leads to.
pub open spec fn fresh(e: Exchange) -> Session {
    Session {
        send: Direction {
            key: traffic_key(e.initiator, e.initiator, e.psk, e.keys, e.log),
            nonce: 0,
        },
        receive: Direction {
            key: traffic_key(!e.initiator, e.initiator, e.psk, e.keys, e.log),
            nonce: 0,
        },
        may_send: true,
        may_receive: true,
    }
}

/// The history after one more message.
pub open spec fn extended(e: Exchange, message: Seq<u8>) -> Exchange {
    Exchange { log: e.log.push(message), ..e }
}

/// The message comes from another side that has the same pre-shared key and
/// saw the same messages.
pub open spec fn genuine(e: Exchange, message: Seq<u8>) -> bool {
    exists|peer: Seq<u8>| #[trigger]
        authored_by_peer(e.initiator, e.psk, peer, e.log.push(message))
}

/// This side accepts the message next.
pub open spec fn accepts(e: Exchange, message: Seq<u8>) -> bool {
    message.len() <= MAX_MESSAGE && handshake_accepts(
        e.initiator,
        e.psk,
        e.keys,
        e.log,
        message,
    )
}

/// The history is that of this protocol, in the given role and after `n`
/// messages, and what this side wrote is what its keys give.
pub open spec fn at(e: Exchange, initiator: bool, n: nat) -> bool {
    &&& e.params == noise_params()
    &&& e.initiator == initiator
    &&& e.log.len() == n
    &&& authored(e.initiator, e.psk, e.keys, e.log)
}

/// An end whose own message has just been written stays the author of all its
/// messages.
proof fn lemma_wrote(e: Exchange)
    requires
        e.log.len() > 0,
        authored(e.initiator, e.psk, e.keys, e.log.drop_last()),
        e.initiator == ((e.log.len() - 1) % 2 == 0),
        e.log.last() == handshake_message(
            e.initiator,
            e.psk,
            e.keys,
            e.log.drop_last(),
            Seq::empty(),
        ),
    ensures
        authored(e.initiator, e.psk, e.keys, e.log),
{
    let log = e.log;
    let old_log = log.drop_last();
    assert forall|i: int| 0 <= i < log.len() && e.initiator == (i % 2 == 0) implies #[trigger] log[i]
        == handshake_message(e.initiator, e.psk, e.keys, log.take(i), Seq::empty()) by {
        assert(log.take(i) =~= old_log.take(i));
        if i == log.len() - 1 {
            assert(log.take(i) =~= old_log);
        } else {
            assert(log[i] == old_log[i]);
        }
    }
}

/// An end that has read a message stays the author of its own ones.
proof fn lemma_read(e: Exchange)
    requires
        e.log.len() > 0,
        authored(e.initiator, e.psk, e.keys, e.log.drop_last()),
        e.initiator != ((e.log.len() - 1) % 2 == 0),
    ensures
        authored(e.initiator, e.psk, e.keys, e.log),
{
    let log = e.log;
    let old_log = log.drop_last();
    assert forall|i: int| 0 <= i < log.len() && e.initiator == (i % 2 == 0) implies #[trigger] log[i]
        == handshake_message(e.initiator, e.psk, e.keys, log.take(i), Seq::empty()) by {
        assert(log.take(i) =~= old_log.take(i));
        assert(log[i] == old_log[i]);
    }
}

/// Writes the next message of a handshake, with an empty payload, and returns
/// it.
fn write_step(noise: &mut snow::HandshakeState) -> (r: Result<Vec<u8>, HandshakeError>)
    requires
        exchange(*old(noise)).params == noise_params(),
    ensures
        ({
            let before = exchange(*old(noise));
            let after = exchange(*final(noise));
            &&& r matches Ok(message) ==> {
                &&& before.may_write()
                &&& message@.len() <= MAX_MESSAGE
                &&& message@ == handshake_message(
                    before.initiator,
                    before.psk,
                    after.keys,
                    before.log,
                    Seq::empty(),
                )
                &&& before.log.len() == 2 ==> after.keys == before.keys
                &&& after == (Exchange { keys: after.keys, ..extended(before, message@) })
            }
            &&& r matches Err(e) ==> noise_failed(e)
            &&& before.may_write() && before.log.len() == 2 ==> r is Ok
        }),
{
    let mut buf: Vec<u8> = vec![0u8; MAX_MESSAGE];
    let payload: Vec<u8> = Vec::new();
    assert(payload@ =~= Seq::<u8>::empty());
    match noise.write_message(payload.as_slice(), buf.as_mut_slice()) {
        Ok(n) => {
            buf.truncate(n);
            Ok(buf)
        },
        Err(e) => Err(HandshakeError::Noise(error_text(&e))),
    }
}

/// Reads the next message of a handshake. The payload is dropped.
fn read_step(noise: &mut snow::HandshakeState, frame: &[u8]) -> (r: Result<(), String>)
    requires
        exchange(*old(noise)).params == noise_params(),
    ensures
        ({
            let before = exchange(*old(noise));
            &&& r is Ok <==> before.may_read() && accepts(before, frame@)
            &&& r is Ok ==> exchange(*final(noise)) == extended(before, frame@)
            &&& r matches Err(text) ==> is_noise_error_text(text@)
            &&& before.may_read() && authored(
                before.initiator,
                before.psk,
                before.keys,
                before.log,
            ) && genuine(before, frame@) && frame@.len() <= MAX_MESSAGE ==> r is Ok
        }),
{
    let mut buf: Vec<u8> = vec![0u8; MAX_MESSAGE];
    match noise.read_message(frame, buf.as_mut_slice()) {
        Ok(_) => Ok(()),
        Err(e) => Err(error_text(&e)),
    }
}

/// Turns a finished handshake into a channel.
fn channel_of(noise: snow::HandshakeState) -> (r: Result<EncryptedChannel, HandshakeError>)
    requires
        exchange(noise).params == noise_params(),
    ensures
        r is Ok <==> exchange(noise).log.len() == 3,
        r matches Ok(channel) ==> {
            &&& channel.session() == fresh(exchange(noise))
            &&& agreed(channel.session(), exchange(noise))
        },
        r matches Err(e) ==> noise_failed(e),
{
    match noise.into_transport_mode() {
        Ok(transport) => Ok(EncryptedChannel::new(transport)),
        Err(e) => Err(HandshakeError::Noise(error_text(&e))),
    }
}

/// An initiator that has sent its first message and waits for the answer.
pub struct Initiator {
    noise: snow::HandshakeState,
}

impl Initiator {
    /// The history of the handshake.
    pub closed spec fn exchange(&self) -> Exchange {
        exchange(self.noise)
    }

    /// One message was written.
    pub open spec fn wf(&self) -> bool {
        at(self.exchange(), true, 1)
    }

    /// Reads the answer, appends the last message, and hands out the channel.
    /// An answer from an end with the same key is accepted.
    pub fn finish(self, out: &mut Vec<u8>, frame: &[u8]) -> (r: Result<
        EncryptedChannel,
        HandshakeError,
    >)
        requires
            self.wf(),
        ensures
            r is Ok <==> accepts(self.exchange(), frame@),
            genuine(self.exchange(), frame@) && frame@.len() <= MAX_MESSAGE ==> r is Ok,
            match r {
                Ok(channel) => {
                    let e = self.exchange();
                    let seen = extended(e, frame@);
                    let last = handshake_message(true, e.psk, e.keys, seen.log, Seq::empty());
                    let done = extended(seen, last);
                    &&& last.len() <= MAX_MESSAGE
                    &&& final(out)@ == old(out)@ + framed(last)
                    &&& at(done, true, 3)
                    &&& channel.session() == fresh(done)
                    &&& agreed(channel.session(), done)
                    &&& channel.wf()
                },
                Err(e) => noise_failed(e) && final(out)@ == old(out)@,
            },
    {
        let mut noise = self.noise;
        let ghost e = exchange(noise);
        match read_step(&mut noise, frame) {
            Ok(()) => {},
            Err(text) => {
                return Err(HandshakeError::Noise(text));
            },
        }
        let ghost seen = exchange(noise);
        proof {
            assert(seen.log.drop_last() =~= e.log);
            lemma_read(seen);
        }
        let last = match write_step(&mut noise) {
            Ok(last) => last,
            Err(e) => {
                return Err(e);
            },
        };
        let ghost done = exchange(noise);
        proof {
            assert(done.log.drop_last() =~= seen.log);
            lemma_wrote(done);
        }
        match channel_of(noise) {
            Ok(channel) => {
                write_frame(out, last.as_slice());
                Ok(channel)
            },
            Err(e) => Err(e),
        }
    }
}

/// Starts a handshake as the end that dialled: appends the name and the first
/// message. It fails only where the cryptography has no random numbers to give;
/// the name is then appended all the same.
pub fn handshake_as_initiator(out: &mut Vec<u8>, local_name: &str, psk: &[u8; 32]) -> (r: Result<
    Initiator,
    HandshakeError,
>)
    ensures
        match r {
            Ok(initiator) => {
                &&& initiator.wf()
                &&& initiator.exchange().psk == psk@
                &&& initiator.exchange().log[0].len() <= MAX_MESSAGE
                &&& final(out)@ == old(out)@ + preamble(local_name@) + framed(
                    initiator.exchange().log[0],
                )
            },
            Err(e) => noise_failed(e) && final(out)@ == old(out)@ + preamble(local_name@),
        },
{
    write_preamble(out, local_name);
    let params = "Noise_XXpsk3_25519_ChaChaPoly_BLAKE2s";
    let private = match generate_private_key(params) {
        Ok(private) => private,
        Err(e) => {
            return Err(HandshakeError::Noise(error_text(&e)));
        },
    };
    let mut noise = match build_initiator(params, private.as_slice(), 3, psk) {
        Ok(noise) => noise,
        Err(e) => {
            return Err(HandshakeError::Noise(error_text(&e)));
        },
    };
    let ghost start = exchange(noise);
    let first = match write_step(&mut noise) {
        Ok(first) => first,
        Err(e) => {
            return Err(e);
        },
    };
    proof {
        let e = exchange(noise);
        assert(e.log.drop_last() =~= start.log);
        lemma_wrote(e);
    }
    write_frame(out, first.as_slice());
    Ok(Initiator { noise })
}

/// A responder that waits for the first message.
pub struct Responder {
    noise: snow::HandshakeState,
}

/// A responder that has answered and waits for the last message.
pub struct Answered {
    noise: snow::HandshakeState,
}

/// Starts a handshake as the end that listens, with the key that goes with the
/// name of the peer. A peer without a key is refused. Otherwise it fails only
/// where the cryptography has no random numbers to give.
pub fn handshake_as_responder(peer_name: &str, psk: Option<[u8; 32]>) -> (r: Result<
    Responder,
    HandshakeError,
>)
    ensures
        match psk {
            None => r matches Err(HandshakeError::UnknownPeer(name)) && name@ == peer_name@,
            Some(psk) => match r {
                Ok(responder) => responder.wf() && responder.exchange().psk == psk@,
                Err(e) => noise_failed(e),
            },
        },
{
    let psk = match psk {
        Some(psk) => psk,
        None => {
            return Err(HandshakeError::UnknownPeer(peer_name.to_string()));
        },
    };
    let params = "Noise_XXpsk3_25519_ChaChaPoly_BLAKE2s";
    let private = match generate_private_key(params) {
        Ok(private) => private,
        Err(e) => {
            return Err(HandshakeError::Noise(error_text(&e)));
        },
    };
    match build_responder(params, private.as_slice(), 3, &psk) {
        Ok(noise) => Ok(Responder { noise }),
        Err(e) => Err(HandshakeError::Noise(error_text(&e))),
    }
}

impl Responder {
    /// The history of the handshake.
    pub closed spec fn exchange(&self) -> Exchange {
        exchange(self.noise)
    }

    /// Nothing was read or written.
    pub open spec fn wf(&self) -> bool {
        at(self.exchange(), false, 0)
    }

    /// Reads the first message and appends the answer. On an error nothing is
    /// appended. The answer needs random numbers, so that success is not owed
    /// even for a genuine first message.
    pub fn answer(self, out: &mut Vec<u8>, frame: &[u8]) -> (r: Result<Answered, HandshakeError>)
        requires
            self.wf(),
        ensures
            r is Ok ==> accepts(self.exchange(), frame@),
            match r {
                Ok(answered) => {
                    let e = answered.exchange();
                    &&& answered.wf()
                    &&& e.psk == self.exchange().psk
                    &&& e.log[0] == frame@
                    &&& e.log[1].len() <= MAX_MESSAGE
                    &&& final(out)@ == old(out)@ + framed(e.log[1])
                },
                Err(e) => noise_failed(e) && final(out)@ == old(out)@,
            },
    {
        let mut noise = self.noise;
        let ghost start = exchange(noise);
        match read_step(&mut noise, frame) {
            Ok(()) => {},
            Err(text) => {
                return Err(HandshakeError::Noise(text));
            },
        }
        let ghost seen = exchange(noise);
        match write_step(&mut noise) {
            Ok(reply) => {
                proof {
                    let e = exchange(noise);
                    assert(e.log.drop_last() =~= seen.log);
                    lemma_wrote(e);
                }
                write_frame(out, reply.as_slice());
                Ok(Answered { noise })
            },
            Err(e) => Err(e),
        }
    }
}

impl Answered {
    /// The history of the handshake.
    pub closed spec fn exchange(&self) -> Exchange {
        exchange(self.noise)
    }

    /// One message was read and one written.
    pub open spec fn wf(&self) -> bool {
        at(self.exchange(), false, 2)
    }

    /// Reads the last message and hands out the channel. A message from an end
    /// with the same key is accepted.
    pub fn finish(self, frame: &[u8]) -> (r: Result<EncryptedChannel, HandshakeError>)
        requires
            self.wf(),
        ensures
            r is Ok <==> accepts(self.exchange(), frame@),
            genuine(self.exchange(), frame@) && frame@.len() <= MAX_MESSAGE ==> r is Ok,
            match r {
                Ok(channel) => {
                    let done = extended(self.exchange(), frame@);
                    &&& at(done, false, 3)
                    &&& channel.session() == fresh(done)
                    &&& agreed(channel.session(), done)
                    &&& channel.wf()
                },
                Err(e) => third_message_failed(e),
            },
    {
        let mut noise = self.noise;
        let ghost e = exchange(noise);
        match read_step(&mut noise, frame) {
            Ok(()) => {},
            Err(text) => {
                return Err(HandshakeError::ThirdMessage(text));
            },
        }
        proof {
            let done = exchange(noise);
            assert(done.log.drop_last() =~= e.log);
            lemma_read(done);
        }
        channel_of(noise)
    }
}

/// A handshake as the end that dialled, fed with what is read.
pub struct InitiatorSession {
    reader: FrameReader,
    initiator: Initiator,
}

/// How the handshake of the end that dialled stands.
pub enum InitiatorStep {
    /// Read again.
    More(InitiatorSession),
    /// The channel is there.
    Done(EncryptedChannel),
}

impl InitiatorSession {
    /// The history of the handshake.
    pub closed spec fn exchange(&self) -> Exchange {
        self.initiator.exchange()
    }

    /// The bytes of the answer so far.
    pub closed spec fn received(&self) -> Seq<u8> {
        self.reader.received()
    }

    /// The first message was sent and the answer is being read.
    pub closed spec fn wf(&self) -> bool {
        self.reader.wf() && self.initiator.wf()
    }

    /// Starts the handshake: appends the name and the first message.
    pub fn start(out: &mut Vec<u8>, local_name: &str, psk: &[u8; 32]) -> (r: Result<
        InitiatorSession,
        HandshakeError,
    >)
        ensures
            match r {
                Ok(s) => {
                    &&& s.wf()
                    &&& s.received() == Seq::<u8>::empty()
                    &&& at(s.exchange(), true, 1)
                    &&& s.exchange().psk == psk@
                    &&& s.exchange().log[0].len() <= MAX_MESSAGE
                    &&& final(out)@ == old(out)@ + preamble(local_name@) + framed(
                        s.exchange().log[0],
                    )
                },
                Err(e) => noise_failed(e) && final(out)@ == old(out)@ + preamble(local_name@),
            },
    {
        match handshake_as_initiator(out, local_name, psk) {
            Ok(initiator) => Ok(InitiatorSession { reader: FrameReader::new(), initiator }),
            Err(e) => Err(e),
        }
    }

    /// The number of bytes that the next read may give at most.
    pub fn wants(&self) -> (r: usize)
        requires
            self.wf(),
        ensures
            r == frame_wants(self.received()),
    {
        self.reader.wants()
    }

    /// Takes the outcome of one read into account. When the answer is complete,
    /// the last message is appended and the channel is there.
    pub fn on_read(self, outcome: ReadOutcome, out: &mut Vec<u8>) -> (r: Result<
        InitiatorStep,
        HandshakeError,
    >)
        requires
            self.wf(),
            outcome_bytes(outcome).len() <= frame_wants(self.received()),
        ensures
            match frame_event(self.received(), outcome) {
                FrameEvent::More => {
                    &&& r matches Ok(InitiatorStep::More(s))
                    &&& s.wf()
                    &&& s.exchange() == self.exchange()
                    &&& s.received() == frame_left(self.received(), outcome)
                    &&& final(out)@ == old(out)@
                },
                FrameEvent::Closed => {
                    &&& r matches Err(HandshakeError::Read(ReadError::Ended))
                    &&& final(out)@ == old(out)@
                },
                FrameEvent::Failed(failure) => {
                    &&& r matches Err(HandshakeError::Read(e)) && e == failure
                    &&& final(out)@ == old(out)@
                },
                FrameEvent::Frame(frame) => {
                    &&& r is Ok <==> accepts(self.exchange(), frame)
                    &&& genuine(self.exchange(), frame) && frame.len() <= MAX_MESSAGE ==> r is Ok
                    &&& match r {
                        Ok(InitiatorStep::Done(channel)) => {
                            let seen = extended(self.exchange(), frame);
                            let last = handshake_message(
                                true,
                                seen.psk,
                                seen.keys,
                                seen.log,
                                Seq::empty(),
                            );
                            let done = extended(seen, last);
                            &&& final(out)@ == old(out)@ + framed(last)
                            &&& at(done, true, 3)
                            &&& channel.session() == fresh(done)
                            &&& agreed(channel.session(), done)
                            &&& channel.wf()
                        },
                        Ok(InitiatorStep::More(_)) => false,
                        Err(e) => noise_failed(e) && final(out)@ == old(out)@,
                    }
                },
            },
    {
        let mut reader = self.reader;
        match read_frame(&mut reader, outcome) {
            Ok(None) => Ok(
                InitiatorStep::More(InitiatorSession { reader, initiator: self.initiator }),
            ),
            Ok(Some(frame)) => match self.initiator.finish(out, frame.as_slice()) {
                Ok(channel) => Ok(InitiatorStep::Done(channel)),
                Err(e) => Err(e),
            },
            Err(e) => Err(HandshakeError::Read(e)),
        }
    }
}

/// The stages of a handshake as the end that listens.
enum ResponderStage {
    Name(PreambleReader),
    First(String, FrameReader, Responder),
    Last(String, FrameReader, Answered),
}

/// A handshake as the end that listens, fed with what is read.
pub struct ResponderSession {
    stage: ResponderStage,
}

/// Where a handshake as the end that listens stands, and what of the next input
/// is there.
pub enum ResponderView {
    /// The name of the peer is being read.
    Name { received: Seq<u8> },
    /// The first message of the peer is being read.
    First { name: Seq<char>, received: Seq<u8>, exchange: Exchange },
    /// The last message of the peer is being read.
    Last { name: Seq<char>, received: Seq<u8>, exchange: Exchange },
}

impl ResponderView {
    /// How many bytes the next read may give at most.
    pub open spec fn wants(self) -> int {
        match self {
            ResponderView::Name { received } => preamble_wants(received),
            ResponderView::First { received, .. } => frame_wants(received),
            ResponderView::Last { received, .. } => frame_wants(received),
        }
    }
}

/// How the handshake of the end that listens stands.
pub enum ResponderStep {
    /// Read again.
    More(ResponderSession),
    /// The channel to the peer of this name is there.
    Done(String, EncryptedChannel),
}

impl View for ResponderSession {
    type V = ResponderView;

    closed spec fn view(&self) -> ResponderView {
        match self.stage {
            ResponderStage::Name(reader) => ResponderView::Name { received: reader.received() },
            ResponderStage::First(name, reader, responder) => ResponderView::First {
                name: name@,
                received: reader.received(),
                exchange: responder.exchange(),
            },
            ResponderStage::Last(name, reader, answered) => ResponderView::Last {
                name: name@,
                received: reader.received(),
                exchange: answered.exchange(),
            },
        }
    }
}

impl ResponderSession {
    /// The handshake has come as far as its stage says.
    pub closed spec fn wf(&self) -> bool {
        match self.stage {
            ResponderStage::Name(reader) => reader.wf(),
            ResponderStage::First(_, reader, responder) => reader.wf() && responder.wf(),
            ResponderStage::Last(_, reader, answered) => reader.wf() && answered.wf(),
        }
    }

    /// Waits for the name of the peer.
    pub fn start() -> (r: ResponderSession)
        ensures
            r.wf(),
            r@ == (ResponderView::Name { received: Seq::empty() }),
    {
        ResponderSession { stage: ResponderStage::Name(PreambleReader::new()) }
    }

    /// The number of bytes that the next read may give at most.
    pub fn wants(&self) -> (r: usize)
        requires
            self.wf(),
        ensures
            r == self@.wants(),
    {
        match &self.stage {
            ResponderStage::Name(reader) => reader.wants(),
            ResponderStage::First(_, reader, _) => reader.wants(),
            ResponderStage::Last(_, reader, _) => reader.wants(),
        }
    }

    /// Takes the outcome of one read into account. The key of the peer is
    /// looked up when its name is complete; the answer is appended when its
    /// first message is.
    pub fn on_read(self, keys: &Keyring, outcome: ReadOutcome, out: &mut Vec<u8>) -> (r: Result<
        ResponderStep,
        HandshakeError,
    >)
        requires
            self.wf(),
            keys.wf(),
            outcome_bytes(outcome).len() <= self@.wants(),
        ensures
            r matches Ok(ResponderStep::More(s)) ==> s.wf(),
            match self@ {
                ResponderView::Name { received } => {
                    &&& final(out)@ == old(out)@
                    &&& name_step(received, outcome, keys.keys(), r)
                },
                ResponderView::First { name, received, exchange } => match frame_event(
                    received,
                    outcome,
                ) {
                    FrameEvent::More => {
                        &&& r matches Ok(ResponderStep::More(s))
                        &&& s@ == (ResponderView::First {
                            name,
                            received: frame_left(received, outcome),
                            exchange,
                        })
                        &&& final(out)@ == old(out)@
                    },
                    FrameEvent::Closed => {
                        &&& r matches Err(HandshakeError::Read(ReadError::Ended))
                        &&& final(out)@ == old(out)@
                    },
                    FrameEvent::Failed(failure) => {
                        &&& r matches Err(HandshakeError::Read(e)) && e == failure
                        &&& final(out)@ == old(out)@
                    },
                    FrameEvent::Frame(frame) => match r {
                        Ok(ResponderStep::More(s)) => {
                            &&& accepts(exchange, frame)
                            &&& s@ matches ResponderView::Last { name: n, received: b, exchange: e }
                            &&& n == name
                            &&& b == Seq::<u8>::empty()
                            &&& at(e, false, 2)
                            &&& e.psk == exchange.psk
                            &&& e.log[0] == frame
                            &&& e.log[1].len() <= MAX_MESSAGE
                            &&& final(out)@ == old(out)@ + framed(e.log[1])
                        },
                        Ok(ResponderStep::Done(..)) => false,
                        Err(e) => noise_failed(e) && final(out)@ == old(out)@,
                    },
                },
                ResponderView::Last { name, received, exchange } => {
                    &&& final(out)@ == old(out)@
                    &&& match frame_event(received, outcome) {
                        FrameEvent::More => {
                            &&& r matches Ok(ResponderStep::More(s))
                            &&& s@ == (ResponderView::Last {
                                name,
                                received: frame_left(received, outcome),
                                exchange,
                            })
                        },
                        FrameEvent::Closed => r matches Err(
                            HandshakeError::Read(ReadError::Ended),
                        ),
                        FrameEvent::Failed(failure) => r matches Err(HandshakeError::Read(e)) && e
                            == failure,
                        FrameEvent::Frame(frame) => {
                            &&& r is Ok <==> accepts(exchange, frame)
                            &&& genuine(exchange, frame) && frame.len() <= MAX_MESSAGE ==> r is Ok
                            &&& match r {
                                Ok(ResponderStep::Done(n, channel)) => {
                                    let done = extended(exchange, frame);
                                    &&& n@ == name
                                    &&& at(done, false, 3)
                                    &&& channel.session() == fresh(done)
                                    &&& agreed(channel.session(), done)
                                    &&& channel.wf()
                                },
                                Ok(ResponderStep::More(_)) => false,
                                Err(e) => third_message_failed(e),
                            }
                        },
                    }
                },
            },
    {
        match self.stage {
            ResponderStage::Name(reader) => {
                let mut reader = reader;
                match read_preamble(&mut reader, outcome) {
                    Ok(None) => {
                        assert(reader.received() + Seq::<u8>::empty() =~= reader.received());
                        Ok(
                            ResponderStep::More(
                                ResponderSession { stage: ResponderStage::Name(reader) },
                            ),
                        )
                    },
                    Ok(Some(name)) => {
                        let psk = keys.get(name.as_str());
                        match handshake_as_responder(name.as_str(), psk) {
                            Ok(responder) => Ok(
                                ResponderStep::More(
                                    ResponderSession {
                                        stage: ResponderStage::First(
                                            name,
                                            FrameReader::new(),
                                            responder,
                                        ),
                                    },
                                ),
                            ),
                            Err(e) => Err(e),
                        }
                    },
                    Err(e) => Err(e),
                }
            },
            ResponderStage::First(name, reader, responder) => {
                let mut reader = reader;
                match read_frame(&mut reader, outcome) {
                    Ok(None) => Ok(
                        ResponderStep::More(
                            ResponderSession {
                                stage: ResponderStage::First(name, reader, responder),
                            },
                        ),
                    ),
                    Ok(Some(frame)) => match responder.answer(out, frame.as_slice()) {
                        Ok(answered) => Ok(
                            ResponderStep::More(
                                ResponderSession {
                                    stage: ResponderStage::Last(
                                        name,
                                        FrameReader::new(),
                                        answered,
                                    ),
                                },
                            ),
                        ),
                        Err(e) => Err(e),
                    },
                    Err(e) => Err(HandshakeError::Read(e)),
                }
            },
            ResponderStage::Last(name, reader, answered) => {
                let mut reader = reader;
                match read_frame(&mut reader, outcome) {
                    Ok(None) => Ok(
                        ResponderStep::More(
                            ResponderSession {
                                stage: ResponderStage::Last(name, reader, answered),
                            },
                        ),
                    ),
                    Ok(Some(frame)) => match answered.finish(frame.as_slice()) {
                        Ok(channel) => Ok(ResponderStep::Done(name, channel)),
                        Err(e) => Err(e),
                    },
                    Err(e) => Err(HandshakeError::Read(e)),
                }
            },
        }
    }
}

/// What a read means while the name of the peer is being read: with the name
/// complete, its key decides whether the handshake goes on.
pub open spec fn name_step(
    received: Seq<u8>,
    outcome: ReadOutcome,
    keys: Map<Seq<char>, Seq<u8>>,
    r: Result<ResponderStep, HandshakeError>,
) -> bool {
    match outcome {
        ReadOutcome::Data(data) => if data@.len() == 0 {
            r matches Err(HandshakeError::PreambleEnded)
        } else if preamble_pending(received + data@) {
            r matches Ok(ResponderStep::More(s)) && s@ == (ResponderView::Name {
                received: received + data@,
            })
        } else if !valid_utf8((received + data@).skip(1)) {
            r matches Err(HandshakeError::NameNotUtf8(cause)) && cause@ == utf8_error_text(
                (received + data@).skip(1),
            )
        } else {
            let name = decode_utf8((received + data@).skip(1));
            if !keys.contains_key(name) {
                r matches Err(HandshakeError::UnknownPeer(n)) && n@ == name
            } else {
                match r {
                    Ok(ResponderStep::More(s)) => {
                        &&& s@ matches ResponderView::First { name: n, received: b, exchange: e }
                        &&& n == name
                        &&& b == Seq::<u8>::empty()
                        &&& at(e, false, 0)
                        &&& e.psk == keys[name]
                    },
                    Ok(ResponderStep::Done(..)) => false,
                    Err(e) => noise_failed(e),
                }
            }
        },
        ReadOutcome::Failed(failure) => if failure.kind == IoKind::Interrupted {
            r matches Ok(ResponderStep::More(s)) && s@ == (ResponderView::Name { received })
        } else {
            r matches Err(HandshakeError::Preamble(f)) && f == failure
        },
    }
}

/// Two ends that have finished one handshake with the same pre-shared key and
/// the same messages hold the two ends of one channel.
pub proof fn law_handshake_pairs_the_ends(i: Exchange, r: Exchange)
    requires
        at(i, true, 3),
        at(r, false, 3),
        i.psk == r.psk,
        i.log == r.log,
        agreed(fresh(i), i),
        agreed(fresh(r), r),
    ensures
        paired(fresh(i), fresh(r)),
{
    assert(authored_by_peer(i.initiator, i.psk, r.keys, i.log));
}

/// With the same pre-shared key, the answer of a responder to the first message
/// is one that the initiator accepts, and the initiator's last message is one
/// that the responder accepts.
pub proof fn law_handshake_with_one_key_succeeds(i: Exchange, r: Exchange)
    requires
        at(i, true, 1),
        at(r, false, 2),
        i.psk == r.psk,
        r.log[0] == i.log[0],
    ensures
        genuine(i, r.log[1]),
        ({
            let seen = extended(i, r.log[1]);
            let last = handshake_message(true, i.psk, i.keys, seen.log, Seq::empty());
            &&& genuine(r, last)
            &&& extended(seen, last).log == extended(r, last).log
        }),
{
    let seen = extended(i, r.log[1]);
    assert(seen.log =~= r.log);
    assert(authored_by_peer(i.initiator, i.psk, r.keys, i.log.push(r.log[1])));
    let last = handshake_message(true, i.psk, i.keys, seen.log, Seq::empty());
    let done = extended(seen, last);
    assert(seen.log.drop_last() =~= i.log);
    lemma_read(seen);
    assert(done.log.drop_last() =~= seen.log);
    lemma_wrote(done);
    assert(authored_by_peer(r.initiator, r.psk, i.keys, r.log.push(last)));
}

/// On the wire a name is its length, of which the low byte counts, and its
/// UTF-8 bytes.
pub proof fn law_layout_of_a_name(name: Seq<char>)
    ensures
        preamble(name).len() == 1 + encode_utf8(name).len(),
        preamble(name)[0] == encode_utf8(name).len() % 256,
        preamble(name).skip(1) == encode_utf8(name),
{
    assert(preamble(name).skip(1) =~= encode_utf8(name));
}

/// The name decides the key: when the last bytes of a name of less than 256
/// bytes have come, the handshake goes on with exactly the key of that name, and
/// a name without a key is refused by that name.
pub proof fn law_name_decides_the_key(
    name: Seq<char>,
    n: int,
    outcome: ReadOutcome,
    keys: Map<Seq<char>, Seq<u8>>,
    r: Result<ResponderStep, HandshakeError>,
)
    requires
        encode_utf8(name).len() < 256,
        0 <= n < preamble(name).len(),
        outcome is Data,
        outcome_bytes(outcome) == preamble(name).skip(n),
        name_step(preamble(name).take(n), outcome, keys, r),
    ensures
        !keys.contains_key(name) ==> (r matches Err(HandshakeError::UnknownPeer(refused))
            && refused@ == name),
        keys.contains_key(name) ==> match r {
            Ok(ResponderStep::More(s)) => s@ matches ResponderView::First {
                name: peer,
                received,
                exchange,
            } && peer == name && received.len() == 0 && exchange.psk == keys[name]
                && !exchange.initiator,
            Ok(ResponderStep::Done(..)) => false,
            Err(e) => noise_failed(e),
        },
{
    law_preamble_reads_back(name);
    let received = preamble(name).take(n);
    assert(received + outcome_bytes(outcome) =~= preamble(name));
}

/// An error of a handshake is reported with its cause, and an unknown peer with
/// its name.
pub proof fn law_handshake_error_tells_its_cause(cause: String, failure: IoFailure, e: ReadError)
    ensures
        ends_with(handshake_error_text(HandshakeError::Preamble(failure)), failure.text@),
        ends_with(handshake_error_text(HandshakeError::NameNotUtf8(cause)), cause@),
        ends_with(handshake_error_text(HandshakeError::UnknownPeer(cause)), cause@),
        handshake_error_text(HandshakeError::Read(e)) == read_error_text(e),
        handshake_error_text(HandshakeError::Noise(cause)) == cause@,
        ends_with(handshake_error_text(HandshakeError::ThirdMessage(cause)), cause@),
{
    lemma_ends_with(Seq::empty(), failure.text@);
    assert(Seq::<char>::empty() + failure.text@ =~= failure.text@);
    lemma_ends_with("preâmbulo de identidade inválido (utf-8): "@, cause@);
    lemma_ends_with("peer desconhecido: "@, cause@);
    lemma_ends_with(
        "falha decifrando a 3a mensagem do handshake (PSK provavelmente divergente): "@,
        cause@,
    );
}

} // verus!
