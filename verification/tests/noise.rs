use kvm_share::handshake::{
    read_preamble, write_preamble, InitiatorSession, InitiatorStep, ResponderSession,
    ResponderStep,
};
use kvm_share::keys::Keyring;
use kvm_share::noise::{
    handshake_as_initiator, handshake_as_responder, ChannelError, EncryptedChannel,
    HandshakeError, Incoming, PreambleReader, RecvStep,
};
use kvm_share::stream::{
    read_frame, read_frame_or_eof, write_frame, ByteReader, FrameReader, FrameStep, IoFailure, IoKind,
    ReadError, ReadOutcome,
};

fn failure(kind: IoKind) -> IoFailure {
    IoFailure {
        kind,
        text: "causa".into(),
    }
}

fn failed(kind: IoKind) -> ReadOutcome {
    ReadOutcome::Failed(failure(kind))
}

type Ends = (
    Result<EncryptedChannel, HandshakeError>,
    Result<EncryptedChannel, HandshakeError>,
);

/// Reads the name at the start of some bytes; returns it with the rest.
fn split_preamble(bytes: &[u8]) -> (String, Vec<u8>) {
    let mut reader = PreambleReader::new();
    let mut pos = 0;
    loop {
        let n = reader.wants();
        let step = read_preamble(&mut reader, ReadOutcome::Data(bytes[pos..pos + n].to_vec()));
        pos += n;
        if let Some(name) = step.unwrap() {
            return (name, bytes[pos..].to_vec());
        }
    }
}

/// The only frame in some bytes.
fn only_frame(bytes: Vec<u8>) -> Vec<u8> {
    let mut stream = ByteReader::new(bytes);
    let frame = stream.read_frame_or_eof().unwrap().unwrap();
    assert!(stream.read_frame_or_eof().unwrap().is_none());
    frame
}

/// Runs a handshake in memory. The responder finds its key by the name.
fn handshake_between(
    name: &str,
    psk: [u8; 32],
    resolve: impl Fn(&str) -> Option<[u8; 32]>,
) -> Ends {
    let mut out = Vec::new();
    let initiator = handshake_as_initiator(&mut out, name, &psk).unwrap();
    let (peer_name, rest) = split_preamble(&out);
    let responder = match handshake_as_responder(&peer_name, resolve(&peer_name)) {
        Ok(responder) => responder,
        Err(e) => return (Err(HandshakeError::Read(ReadError::Ended)), Err(e)),
    };
    let mut reply = Vec::new();
    let answered = responder.answer(&mut reply, &only_frame(rest)).unwrap();
    let mut last = Vec::new();
    match initiator.finish(&mut last, &only_frame(reply)) {
        Ok(channel) => (Ok(channel), answered.finish(&only_frame(last))),
        Err(e) => (Err(e), Err(HandshakeError::Read(ReadError::Ended))),
    }
}

fn handshake_pair(psk_a: [u8; 32], psk_b: [u8; 32]) -> Ends {
    handshake_between("initiator", psk_a, |name| {
        (name == "initiator").then_some(psk_b)
    })
}

fn connected(psk: [u8; 32]) -> (EncryptedChannel, EncryptedChannel) {
    let (initiator, responder) = handshake_pair(psk, psk);
    (initiator.unwrap(), responder.unwrap())
}

#[test]
fn handshake_succeeds_with_matching_psk() {
    let psk = [7u8; 32];
    let (initiator, responder) = handshake_pair(psk, psk);
    assert!(initiator.is_ok());
    assert!(responder.is_ok());
}

#[test]
fn handshake_fails_when_psks_diverge() {
    let (_initiator, responder) = handshake_pair([1u8; 32], [2u8; 32]);
    let err = responder.err().unwrap();
    assert!(matches!(err, HandshakeError::ThirdMessage(_)));
    assert!(err
        .message()
        .starts_with("falha decifrando a 3a mensagem do handshake (PSK provavelmente divergente): "));
}

#[test]
fn send_recv_roundtrip_small_payload() {
    let (mut initiator, mut responder) = connected([9u8; 32]);
    let mut out = Vec::new();
    initiator.send(&mut out, b"ola mundo cifrado").unwrap();
    let received = responder.recv(&mut ByteReader::new(out)).unwrap().unwrap();
    assert_eq!(received, b"ola mundo cifrado");
}

#[test]
fn send_recv_roundtrip_payload_larger_than_single_noise_frame() {
    let (mut initiator, mut responder) = connected([3u8; 32]);
    let payload: Vec<u8> = (0..200_000u32).map(|i| (i % 256) as u8).collect();
    let mut out = Vec::new();
    initiator.send(&mut out, &payload).unwrap();
    let received = responder.recv(&mut ByteReader::new(out)).unwrap().unwrap();
    assert_eq!(received, payload);
}

#[test]
fn preamble_lets_responder_pick_psk_among_multiple_candidates() {
    let psk_laptop = [11u8; 32];
    let psk_desktop = [22u8; 32];
    let (initiator, responder) = handshake_between("laptop", psk_laptop, |name| match name {
        "laptop" => Some(psk_laptop),
        "desktop" => Some(psk_desktop),
        _ => None,
    });
    assert!(initiator.is_ok());
    assert!(responder.is_ok());
}

#[test]
fn unknown_peer_is_refused_by_name() {
    let (_, responder) = handshake_between("tv", [1u8; 32], |_| None);
    assert_eq!(responder.err().unwrap().message(), "peer desconhecido: tv");
}

#[test]
fn messages_flow_both_ways_and_stay_in_order() {
    let (mut a, mut b) = connected([4u8; 32]);
    let mut to_b = Vec::new();
    a.send(&mut to_b, b"um").unwrap();
    a.send(&mut to_b, b"").unwrap();
    a.send(&mut to_b, b"dois").unwrap();
    let mut stream = ByteReader::new(to_b);
    assert_eq!(b.recv(&mut stream).unwrap().unwrap(), b"um");
    assert_eq!(b.recv(&mut stream).unwrap().unwrap(), b"");
    let mut to_a = Vec::new();
    b.send(&mut to_a, b"resposta").unwrap();
    assert_eq!(b.recv(&mut stream).unwrap().unwrap(), b"dois");
    assert!(b.recv(&mut stream).unwrap().is_none());
    assert_eq!(
        a.recv(&mut ByteReader::new(to_a)).unwrap().unwrap(),
        b"resposta"
    );
}

#[test]
fn number_and_length_of_the_frames() {
    let (mut a, _) = connected([4u8; 32]);
    for (len, expected) in [
        (0usize, vec![20usize]),
        (1, vec![20, 17]),
        (65519, vec![20, 65535]),
        (65520, vec![20, 65535, 17]),
    ] {
        let mut out = Vec::new();
        a.send(&mut out, &vec![7u8; len]).unwrap();
        let mut stream = ByteReader::new(out);
        let mut lens = Vec::new();
        while let Some(frame) = stream.read_frame_or_eof().unwrap() {
            lens.push(frame.len());
        }
        assert_eq!(lens, expected);
    }
}

#[test]
fn ciphertext_differs_from_plaintext_and_each_time() {
    let (mut a, _) = connected([4u8; 32]);
    let mut first = Vec::new();
    a.send(&mut first, b"segredo").unwrap();
    let mut second = Vec::new();
    a.send(&mut second, b"segredo").unwrap();
    assert_ne!(first, second);
    assert!(!first.windows(7).any(|w| w == b"segredo"));
}

#[test]
fn tampered_frame_is_refused() {
    let (mut a, mut b) = connected([4u8; 32]);
    let mut out = Vec::new();
    a.send(&mut out, b"abc").unwrap();
    let n = out.len();
    out[n - 1] ^= 1;
    let err = b.recv(&mut ByteReader::new(out)).unwrap_err();
    assert!(matches!(err, ChannelError::Decrypt(_)));
    assert!(err.message().starts_with("falha decifrando frame: "));
}

#[test]
fn frames_out_of_order_are_refused() {
    let (mut a, mut b) = connected([4u8; 32]);
    let mut first = Vec::new();
    a.send(&mut first, b"um").unwrap();
    let mut second = Vec::new();
    a.send(&mut second, b"dois").unwrap();
    assert!(b.recv(&mut ByteReader::new(second)).is_err());
    assert_eq!(b.recv(&mut ByteReader::new(first)).unwrap().unwrap(), b"um");
}

#[test]
fn stream_that_ends_inside_a_message_is_an_error() {
    let (mut a, mut b) = connected([4u8; 32]);
    let mut out = Vec::new();
    a.send(&mut out, b"abc").unwrap();
    out.truncate(24);
    let err = b.recv(&mut ByteReader::new(out)).unwrap_err();
    assert!(matches!(err, ChannelError::Read(ReadError::Ended)));

    let (mut a, mut b) = connected([4u8; 32]);
    let mut out = Vec::new();
    a.send(&mut out, b"abc").unwrap();
    out.truncate(26);
    let err = b.recv(&mut ByteReader::new(out)).unwrap_err();
    assert!(matches!(
        err,
        ChannelError::Read(ReadError::Truncated { read: 2, len: 4 })
    ));

    let (mut a, mut b) = connected([4u8; 32]);
    let mut out = Vec::new();
    a.send(&mut out, b"abc").unwrap();
    out.truncate(30);
    let err = b.recv(&mut ByteReader::new(out)).unwrap_err();
    assert!(matches!(
        err,
        ChannelError::Read(ReadError::BodyEnded)
    ));
}

#[test]
fn message_is_received_byte_by_byte() {
    let (mut a, mut b) = connected([4u8; 32]);
    let mut out = Vec::new();
    a.send(&mut out, b"devagar").unwrap();
    let mut incoming = Incoming::new();
    let mut reader = FrameReader::new();
    let last = out.len() - 1;
    for (i, byte) in out.iter().enumerate() {
        let step = b
            .recv_step(&mut incoming, &mut reader, ReadOutcome::Data(vec![*byte]))
            .unwrap();
        if i < last {
            assert!(matches!(step, RecvStep::More));
        } else {
            assert!(matches!(step, RecvStep::Done(message) if message == b"devagar"));
        }
    }
    let end = b
        .recv_step(
            &mut Incoming::new(),
            &mut FrameReader::new(),
            ReadOutcome::Data(vec![]),
        )
        .unwrap();
    assert!(matches!(end, RecvStep::Closed));
}

#[test]
fn header_that_is_too_short_is_an_error() {
    let (mut a, mut b) = connected([4u8; 32]);
    // The second frame of a message, taken for the first one, has two bytes.
    let mut first = Vec::new();
    a.send(&mut first, b"").unwrap();
    let mut second = Vec::new();
    a.send(&mut second, b"ab").unwrap();
    let mut stream = ByteReader::new(first);
    b.recv(&mut stream).unwrap();
    let mut frames = ByteReader::new(second);
    let header = frames.read_frame_or_eof().unwrap().unwrap();
    let body = frames.read_frame_or_eof().unwrap().unwrap();
    assert_eq!(b.recv_frame(&mut Incoming::new(), &header).unwrap(), false);
    let err = b.recv_frame(&mut Incoming::new(), &body).unwrap_err();
    assert!(matches!(err, ChannelError::ShortHeader));
    assert_eq!(err.message(), "cabeçalho de mensagem com menos de 4 bytes");
}

#[test]
fn preamble_bytes() {
    let mut out = Vec::new();
    write_preamble(&mut out, "olá");
    assert_eq!(out, vec![4, b'o', b'l', 0xc3, 0xa1]);
    assert_eq!(split_preamble(&out), ("olá".to_string(), vec![]));
}

#[test]
fn preamble_errors() {
    let mut reader = PreambleReader::new();
    assert_eq!(
        read_preamble(&mut reader, ReadOutcome::Data(vec![2]))
            .unwrap(),
        None
    );
    assert_eq!(
        read_preamble(&mut reader, failed(IoKind::Interrupted)).unwrap(),
        None
    );
    let err = read_preamble(&mut reader, failed(IoKind::TimedOut)).unwrap_err();
    assert!(matches!(&err, HandshakeError::Preamble(f) if f.kind == IoKind::TimedOut));
    assert_eq!(err.message(), "causa");
    let err = read_preamble(&mut reader, ReadOutcome::Data(vec![])).unwrap_err();
    assert_eq!(err.message(), "failed to fill whole buffer");
    let err = read_preamble(&mut reader, ReadOutcome::Data(vec![0xff, 0xff])).unwrap_err();
    assert!(matches!(err, HandshakeError::NameNotUtf8(_)));
    assert_eq!(
        err.message(),
        format!(
            "preâmbulo de identidade inválido (utf-8): {}",
            String::from_utf8(vec![0xff, 0xff]).unwrap_err()
        )
    );
    assert_eq!(
        read_preamble(&mut reader, ReadOutcome::Data(vec![0])).unwrap(),
        Some(String::new())
    );
}

#[test]
fn garbage_in_a_handshake_is_refused() {
    let mut out = Vec::new();
    let initiator = handshake_as_initiator(&mut out, "a", &[1u8; 32]).unwrap();
    let before = out.clone();
    let err = initiator.finish(&mut out, b"lixo").err().unwrap();
    assert!(matches!(err, HandshakeError::Noise(_)));
    assert!(!err.message().is_empty());
    assert_eq!(out, before);

    let responder = handshake_as_responder("a", Some([1u8; 32])).unwrap();
    assert!(responder.answer(&mut out, b"lixo").is_err());
    assert_eq!(out, before);
}

#[test]
fn handshake_messages_have_their_lengths() {
    let mut out = Vec::new();
    let initiator = handshake_as_initiator(&mut out, "a", &[1u8; 32]).unwrap();
    // Name: 2 bytes. Length prefix: 4 bytes. A key and a tag.
    assert_eq!(out.len(), 2 + 4 + 48);
    let responder = handshake_as_responder("a", Some([1u8; 32])).unwrap();
    let mut reply = Vec::new();
    responder.answer(&mut reply, &out[6..]).unwrap();
    assert_eq!(reply.len(), 4 + 96);
    let mut last = Vec::new();
    initiator.finish(&mut last, &reply[4..]).unwrap();
    assert_eq!(last.len(), 4 + 64);
}

#[test]
fn frames_are_delimited() {
    let mut out = Vec::new();
    write_frame(&mut out, b"abc");
    write_frame(&mut out, b"");
    assert_eq!(out, vec![0, 0, 0, 3, b'a', b'b', b'c', 0, 0, 0, 0]);
    let mut stream = ByteReader::new(out);
    assert_eq!(stream.read_frame_or_eof().unwrap().unwrap(), b"abc");
    assert_eq!(stream.read_frame_or_eof().unwrap().unwrap(), b"");
    assert!(stream.read_frame_or_eof().unwrap().is_none());
}

#[test]
fn frame_reader_steps() {
    let mut reader = FrameReader::new();
    assert_eq!(reader.wants(), 4);
    assert!(matches!(
        read_frame_or_eof(&mut reader, ReadOutcome::Data(vec![])).unwrap(),
        FrameStep::Closed
    ));
    assert_eq!(
        read_frame(&mut reader, ReadOutcome::Data(vec![])).unwrap_err(),
        ReadError::Ended
    );
    assert!(matches!(
        read_frame_or_eof(&mut reader, ReadOutcome::Data(vec![0, 0])).unwrap(),
        FrameStep::More
    ));
    assert_eq!(
        read_frame_or_eof(&mut reader, failed(IoKind::WouldBlock)).unwrap_err(),
        ReadError::Io(failure(IoKind::WouldBlock))
    );
    assert!(matches!(
        read_frame_or_eof(&mut reader, ReadOutcome::Data(vec![0, 2])).unwrap(),
        FrameStep::More
    ));
    assert_eq!(reader.wants(), 2);
    assert_eq!(
        read_frame_or_eof(&mut reader, failed(IoKind::WouldBlock)).unwrap_err(),
        ReadError::Body(failure(IoKind::WouldBlock))
    );
    assert_eq!(
        read_frame(&mut reader, ReadOutcome::Data(vec![8, 9])).unwrap(),
        Some(vec![8, 9])
    );
    assert_eq!(reader.wants(), 4);
}

/// Feeds a session with bytes of `wire`, as many as it wants at a time.
fn next_read(wire: &mut Vec<u8>, wants: usize) -> ReadOutcome {
    let n = wants.min(wire.len());
    ReadOutcome::Data(wire.drain(..n).collect())
}

#[test]
fn sessions_carry_a_handshake_through() {
    let mut keys = Keyring::new();
    keys.insert("laptop".into(), [1; 32]);
    keys.insert("tv".into(), [2; 32]);
    let mut to_responder = Vec::new();
    let mut to_initiator = Vec::new();
    let mut initiator =
        Some(InitiatorSession::start(&mut to_responder, "tv", &[2; 32]).unwrap());
    let mut responder = Some(ResponderSession::start());
    let mut near: Option<EncryptedChannel> = None;
    let mut far: Option<(String, EncryptedChannel)> = None;
    while near.is_none() || far.is_none() {
        if !to_responder.is_empty() {
            let session = responder.take().unwrap();
            let read = next_read(&mut to_responder, session.wants());
            match session.on_read(&keys, read, &mut to_initiator).unwrap() {
                ResponderStep::More(next) => responder = Some(next),
                ResponderStep::Done(name, channel) => far = Some((name, channel)),
            }
        } else {
            let session = initiator.take().unwrap();
            let read = next_read(&mut to_initiator, session.wants());
            match session.on_read(read, &mut to_responder).unwrap() {
                InitiatorStep::More(next) => initiator = Some(next),
                InitiatorStep::Done(channel) => near = Some(channel),
            }
        }
    }
    let (name, mut far) = far.unwrap();
    assert_eq!(name, "tv");
    let mut out = Vec::new();
    near.unwrap().send(&mut out, b"oi").unwrap();
    assert_eq!(far.recv(&mut ByteReader::new(out)).unwrap().unwrap(), b"oi");
}

#[test]
fn responder_session_refuses_an_unknown_name() {
    let keys = Keyring::new();
    let mut out = Vec::new();
    let session = ResponderSession::start();
    assert_eq!(session.wants(), 1);
    let ResponderStep::More(session) = session
        .on_read(&keys, ReadOutcome::Data(vec![2]), &mut out)
        .unwrap()
    else {
        panic!("esperava mais bytes")
    };
    assert_eq!(session.wants(), 2);
    let err = session
        .on_read(&keys, ReadOutcome::Data(b"tv".to_vec()), &mut out)
        .err()
        .unwrap();
    assert_eq!(err.message(), "peer desconhecido: tv");
    assert!(out.is_empty());
}

#[test]
fn sessions_report_how_the_stream_ends() {
    let mut out = Vec::new();
    let session = InitiatorSession::start(&mut out, "a", &[1; 32]).unwrap();
    let err = session
        .on_read(ReadOutcome::Data(vec![]), &mut out)
        .err()
        .unwrap();
    assert!(matches!(err, HandshakeError::Read(ReadError::Ended)));
    assert_eq!(err.message(), "conexão encerrada antes do fim do handshake");

    let session = InitiatorSession::start(&mut out, "a", &[1; 32]).unwrap();
    let InitiatorStep::More(session) = session
        .on_read(ReadOutcome::Data(vec![0, 0, 0, 9]), &mut out)
        .unwrap()
    else {
        panic!("esperava mais bytes")
    };
    let err = session
        .on_read(failed(IoKind::TimedOut), &mut out)
        .err()
        .unwrap();
    assert!(matches!(
        err,
        HandshakeError::Read(ReadError::Body(f)) if f.kind == IoKind::TimedOut
    ));
}
