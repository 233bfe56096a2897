//! What the rest of the crate takes from the `snow` crate.
//!
//! Everything here is believed, not proved. The names without a body stand for
//! what the cryptography computes. A handshake is known by its history
//! (`exchange`), a session by its two directions (`session`).

use vstd::prelude::*;

verus! {

/// `snow::HandshakeState`: one side of a handshake under way.
#[verifier::external_type_specification]
#[verifier::external_body]
pub struct ExHandshakeState(snow::HandshakeState);

/// `snow::TransportState`: one side of an established session.
#[verifier::external_type_specification]
#[verifier::external_body]
pub struct ExTransportState(snow::TransportState);

/// `snow::Error`: why a cryptographic operation failed.
#[verifier::external_type_specification]
#[verifier::external_body]
pub struct ExNoiseError(snow::Error);

/// The protocol: three messages, both sides send their static key, and a
/// pre-shared key is mixed into the third message.
pub open spec fn noise_params() -> Seq<char> {
    "Noise_XXpsk3_25519_ChaChaPoly_BLAKE2s"@
}

/// The number of messages in a handshake.
pub open spec fn handshake_messages() -> nat {
    3
}

/// The number of bytes that encryption adds.
pub const TAG_LEN: usize = 16;

/// The greatest length of an encrypted message.
pub const MAX_MESSAGE: usize = 65535;

/// The history of one side of a handshake.
pub struct Exchange {
    /// The name of the protocol.
    pub params: Seq<char>,
    /// Whether this side writes the first message.
    pub initiator: bool,
    /// The pre-shared key.
    pub psk: Seq<u8>,
    /// The private keys of this side: the static one and, once drawn, the
    /// ephemeral one.
    pub keys: Seq<u8>,
    /// The messages written and read so far, in order.
    pub log: Seq<Seq<u8>>,
}

impl Exchange {
    /// It is this side's turn to write.
    pub open spec fn may_write(self) -> bool {
        self.log.len() < handshake_messages() && self.initiator == (self.log.len() % 2 == 0)
    }

    /// It is this side's turn to read.
    pub open spec fn may_read(self) -> bool {
        self.log.len() < handshake_messages() && self.initiator != (self.log.len() % 2 == 0)
    }
}

/// One direction of a session.
pub struct Direction {
    /// The cipher and its key.
    pub key: Seq<u8>,
    /// The number of messages so far.
    pub nonce: nat,
}

/// The state of one side of a session.
pub struct Session {
    pub send: Direction,
    pub receive: Direction,
    /// Whether the protocol lets this side send.
    pub may_send: bool,
    /// Whether the protocol lets this side receive.
    pub may_receive: bool,
}

impl Session {
    /// The state after one more message sent.
    pub open spec fn sent(self) -> Session {
        Session {
            send: Direction { key: self.send.key, nonce: self.send.nonce + 1 },
            ..self
        }
    }

    /// The state after one more message received.
    pub open spec fn received(self) -> Session {
        Session {
            receive: Direction { key: self.receive.key, nonce: self.receive.nonce + 1 },
            ..self
        }
    }
}

/// The history of a handshake state.
pub uninterp spec fn exchange(state: snow::HandshakeState) -> Exchange;

/// The state of a session.
pub uninterp spec fn session(state: snow::TransportState) -> Session;

/// The handshake message that a side with these keys writes after these
/// messages, with this payload.
pub uninterp spec fn handshake_message(
    initiator: bool,
    psk: Seq<u8>,
    keys: Seq<u8>,
    log: Seq<Seq<u8>>,
    payload: Seq<u8>,
) -> Seq<u8>;

/// Whether a side with these keys accepts a message after these messages.
pub uninterp spec fn handshake_accepts(
    initiator: bool,
    psk: Seq<u8>,
    keys: Seq<u8>,
    log: Seq<Seq<u8>>,
    message: Seq<u8>,
) -> bool;

/// The key of one direction of a session, as a side with these private keys
/// computes it after these handshake messages.
pub uninterp spec fn traffic_key(
    from_initiator: bool,
    initiator: bool,
    psk: Seq<u8>,
    keys: Seq<u8>,
    log: Seq<Seq<u8>>,
) -> Seq<u8>;

/// The encryption of a message as the `nonce`-th one under a key.
pub uninterp spec fn sealed(key: Seq<u8>, nonce: nat, plaintext: Seq<u8>) -> Seq<u8>;

/// The plaintext of the `nonce`-th message under a key; `None` where the
/// message is not authentic.
pub uninterp spec fn opened(key: Seq<u8>, nonce: nat, ciphertext: Seq<u8>) -> Option<Seq<u8>>;

/// The text of an error.
pub uninterp spec fn noise_error_text(e: snow::Error) -> Seq<char>;

/// The text is that of some error.
pub open spec fn is_noise_error_text(text: Seq<char>) -> bool {
    exists|e: snow::Error| text == #[trigger] noise_error_text(e)
}

/// Every message of one side in the log is what that side writes, with an
/// empty payload, given its keys and the messages before.
pub open spec fn authored(
    initiator: bool,
    psk: Seq<u8>,
    keys: Seq<u8>,
    log: Seq<Seq<u8>>,
) -> bool {
    forall|i: int|
        0 <= i < log.len() && initiator == (i % 2 == 0) ==> #[trigger] log[i] == handshake_message(
            initiator,
            psk,
            keys,
            log.take(i),
            Seq::empty(),
        )
}

/// Every message of the other side in the log is what a side with these keys
/// writes.
pub open spec fn authored_by_peer(
    initiator: bool,
    psk: Seq<u8>,
    peer: Seq<u8>,
    log: Seq<Seq<u8>>,
) -> bool {
    authored(!initiator, psk, peer, log)
}

/// The history of a handshake that has not begun.
pub open spec fn started(initiator: bool, psk: Seq<u8>, private: Seq<u8>) -> Exchange {
    Exchange { params: noise_params(), initiator, psk, keys: private, log: Seq::empty() }
}

/// `snow::Builder::generate_keypair`: draws a static key pair. Of the private
/// key, which depends on chance, only the length is known; whether the random
/// source works is left open.
#[verifier::external_body]
pub(crate) fn generate_private_key(params: &str) -> (r: Result<Vec<u8>, snow::Error>)
    requires
        params@ == noise_params(),
    ensures
        r matches Ok(private) ==> private@.len() == 32,
{
    Ok(snow::Builder::new(params.parse()?).generate_keypair()?.private)
}

/// `snow::Builder::build_initiator`: starts a handshake as the side that
/// writes first, with the given static key and pre-shared key. With these
/// parameters and key lengths it succeeds.
#[verifier::external_body]
pub(crate) fn build_initiator(
    params: &str,
    private: &[u8],
    location: u8,
    psk: &[u8; 32],
) -> (r: Result<snow::HandshakeState, snow::Error>)
    requires
        params@ == noise_params(),
        private@.len() == 32,
        location == 3,
    ensures
        r is Ok,
        r matches Ok(state) ==> exchange(state) == started(true, psk@, private@),
{
    snow::Builder::new(params.parse()?)
        .local_private_key(private)?
        .psk(location, psk)?
        .build_initiator()
}

/// `snow::Builder::build_responder`: starts a handshake as the side that reads
/// first, with the given static key and pre-shared key. With these parameters
/// and key lengths it succeeds.
#[verifier::external_body]
pub(crate) fn build_responder(
    params: &str,
    private: &[u8],
    location: u8,
    psk: &[u8; 32],
) -> (r: Result<snow::HandshakeState, snow::Error>)
    requires
        params@ == noise_params(),
        private@.len() == 32,
        location == 3,
    ensures
        r is Ok,
        r matches Ok(state) ==> exchange(state) == started(false, psk@, private@),
{
    snow::Builder::new(params.parse()?)
        .local_private_key(private)?
        .psk(location, psk)?
        .build_responder()
}

/// `HandshakeState::write_message`: writes the next handshake message, out of
/// turn an error. A side draws its ephemeral key with the first message that
/// it writes, so that success there depends on the random source; the third
/// message draws nothing and is written wherever the buffer has room for it. A
/// buffer with room for two keys and two tags never makes it panic. Nothing is
/// claimed of the state after an error.
pub assume_specification[ snow::HandshakeState::write_message ](
    state: &mut snow::HandshakeState,
    payload: &[u8],
    message: &mut [u8],
) -> (r: Result<usize, snow::Error>)
    requires
        exchange(*old(state)).params == noise_params(),
        old(message)@.len() >= 96,
    ensures
        final(message)@.len() == old(message)@.len(),
        r matches Ok(n) ==> {
            let before = exchange(*old(state));
            let after = exchange(*final(state));
            &&& before.may_write()
            &&& n <= old(message)@.len()
            &&& n <= MAX_MESSAGE
            &&& final(message)@.take(n as int) == handshake_message(
                before.initiator,
                before.psk,
                after.keys,
                before.log,
                payload@,
            )
            &&& before.log.len() == 2 ==> after.keys == before.keys
            &&& after == (Exchange {
                keys: after.keys,
                log: before.log.push(final(message)@.take(n as int)),
                ..before
            })
        },
        exchange(*old(state)).may_write() && exchange(*old(state)).log.len() == 2
            && payload@.len() + 64 <= old(message)@.len() <= MAX_MESSAGE ==> r is Ok,
;

/// `HandshakeState::read_message`: reads the next handshake message, out of
/// turn or beyond the greatest length an error. Whether it accepts a message
/// follows from the role, the keys and the messages so far, where the buffer
/// has room. It accepts the message that the other side writes, where both sides
/// have the same pre-shared key and the messages so far are theirs. That a
/// message under another key is refused is a matter of probability and not
/// claimed. Nothing is claimed of the state after an error.
pub assume_specification[ snow::HandshakeState::read_message ](
    state: &mut snow::HandshakeState,
    message: &[u8],
    payload: &mut [u8],
) -> (r: Result<usize, snow::Error>)
    requires
        exchange(*old(state)).params == noise_params(),
    ensures
        final(payload)@.len() == old(payload)@.len(),
        r is Ok ==> {
            let before = exchange(*old(state));
            &&& before.may_read()
            &&& message@.len() <= MAX_MESSAGE
            &&& handshake_accepts(
                before.initiator,
                before.psk,
                before.keys,
                before.log,
                message@,
            )
            &&& exchange(*final(state)) == (Exchange { log: before.log.push(message@), ..before })
        },
        ({
            let before = exchange(*old(state));
            &&& before.may_read()
            &&& message@.len() <= MAX_MESSAGE
            &&& message@.len() <= old(payload)@.len()
            &&& handshake_accepts(
                before.initiator,
                before.psk,
                before.keys,
                before.log,
                message@,
            ) || {
                &&& authored(before.initiator, before.psk, before.keys, before.log)
                &&& exists|peer: Seq<u8>| #[trigger]
                    authored_by_peer(before.initiator, before.psk, peer, before.log.push(message@))
            }
        }) ==> r is Ok,
;

/// `HandshakeState::into_transport_mode`: succeeds exactly after the last
/// message. The keys of the session follow from the private keys and the
/// messages; the other side, where the messages are its own and this side's,
/// computes the same ones.
pub assume_specification[ snow::HandshakeState::into_transport_mode ](
    state: snow::HandshakeState,
) -> (r: Result<snow::TransportState, snow::Error>)
    requires
        exchange(state).params == noise_params(),
    ensures
        r is Ok <==> exchange(state).log.len() == handshake_messages(),
        r matches Ok(transport) ==> {
            let e = exchange(state);
            &&& session(transport) == (Session {
                send: Direction {
                    key: traffic_key(e.initiator, e.initiator, e.psk, e.keys, e.log),
                    nonce: 0,
                },
                receive: Direction {
                    key: traffic_key(!e.initiator, e.initiator, e.psk, e.keys, e.log),
                    nonce: 0,
                },
                may_send: true,
                may_receive: true,
            })
            &&& agreed(session(transport), e)
        },
;

/// The other side of the handshake, where the messages are its own and this
/// side's, computes the same keys.
pub open spec fn agreed(s: Session, e: Exchange) -> bool {
    authored(e.initiator, e.psk, e.keys, e.log) ==> forall|peer: Seq<u8>| #[trigger]
        authored_by_peer(e.initiator, e.psk, peer, e.log) ==> {
            &&& s.send.key == traffic_key(e.initiator, !e.initiator, e.psk, peer, e.log)
            &&& s.receive.key == traffic_key(!e.initiator, !e.initiator, e.psk, peer, e.log)
        }
}

/// `TransportState::write_message`: encrypts a message as the next one in the
/// sending direction. It fails exactly where the protocol does not let this
/// side send, the message or the buffer has no room, or the nonces are used up;
/// the session then stays as it is. What it writes opens to the payload.
pub assume_specification[ snow::TransportState::write_message ](
    state: &mut snow::TransportState,
    payload: &[u8],
    message: &mut [u8],
) -> (r: Result<usize, snow::Error>)
    ensures
        final(message)@.len() == old(message)@.len(),
        r is Ok <==> {
            &&& session(*old(state)).may_send
            &&& payload@.len() + TAG_LEN <= MAX_MESSAGE
            &&& payload@.len() + TAG_LEN <= old(message)@.len()
            &&& session(*old(state)).send.nonce < u64::MAX
        },
        match r {
            Ok(n) => {
                let direction = session(*old(state)).send;
                let out = final(message)@.take(n as int);
                &&& n == payload@.len() + TAG_LEN
                &&& out == sealed(direction.key, direction.nonce, payload@)
                &&& opened(direction.key, direction.nonce, out) == Some(payload@)
                &&& session(*final(state)) == session(*old(state)).sent()
            },
            Err(_) => session(*final(state)) == session(*old(state)),
        },
;

/// `TransportState::read_message`: decrypts the next message in the receiving
/// direction. It fails exactly where the protocol does not let this side
/// receive, the message has no valid length, the buffer has no room, the nonces
/// are used up, or the message is not authentic; the session then stays as it
/// is.
pub assume_specification[ snow::TransportState::read_message ](
    state: &mut snow::TransportState,
    message: &[u8],
    payload: &mut [u8],
) -> (r: Result<usize, snow::Error>)
    ensures
        final(payload)@.len() == old(payload)@.len(),
        r is Ok <==> {
            &&& session(*old(state)).may_receive
            &&& TAG_LEN <= message@.len() <= MAX_MESSAGE
            &&& message@.len() - TAG_LEN <= old(payload)@.len()
            &&& session(*old(state)).receive.nonce < u64::MAX
            &&& opened(
                session(*old(state)).receive.key,
                session(*old(state)).receive.nonce,
                message@,
            ) is Some
        },
        match r {
            Ok(n) => {
                let direction = session(*old(state)).receive;
                &&& n == message@.len() - TAG_LEN
                &&& opened(direction.key, direction.nonce, message@) == Some(
                    final(payload)@.take(n as int),
                )
                &&& session(*final(state)) == session(*old(state)).received()
            },
            Err(_) => session(*final(state)) == session(*old(state)),
        },
;

/// `Display` of `snow::Error`: the text of an error.
#[verifier::external_body]
pub(crate) fn error_text(e: &snow::Error) -> (r: String)
    ensures
        r@ == noise_error_text(*e),
{
    format!("{e}")
}

} // verus!
