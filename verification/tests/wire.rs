use kvm_share::event::{EV_REL, REL_X};
use kvm_share::handshake::{read_preamble, PreambleReader};
use kvm_share::noise::{
    handshake_as_initiator, handshake_as_responder, ChannelError, EncryptedChannel, Incoming,
};
use kvm_share::stream::{ByteReader, FrameReader, IoFailure, IoKind, ReadOutcome};
use kvm_share::wire::{
    clone_wire_message, decode, encode, is_wire_timeout, read_message, read_message_step,
    write_message, DecodeError, WireError, WireMessage, WireStep,
};
use kvm_share::{write_event, InputEvent};

fn channel_pair() -> (EncryptedChannel, EncryptedChannel) {
    let psk = [5u8; 32];
    let mut out = Vec::new();
    let initiator = handshake_as_initiator(&mut out, "a", &psk).unwrap();
    let mut preamble = PreambleReader::new();
    read_preamble(&mut preamble, ReadOutcome::Data(out[..1].to_vec())).unwrap();
    let name = read_preamble(&mut preamble, ReadOutcome::Data(out[1..2].to_vec()))
        .unwrap()
        .unwrap();
    let responder = handshake_as_responder(&name, (name == "a").then_some(psk)).unwrap();
    let mut reply = Vec::new();
    let answered = responder.answer(&mut reply, &out[6..]).unwrap();
    let mut last = Vec::new();
    let initiator = initiator.finish(&mut last, &reply[4..]).unwrap();
    (initiator, answered.finish(&last[4..]).unwrap())
}

fn roundtrip(msg: WireMessage) -> WireMessage {
    let (mut tx, mut rx) = channel_pair();
    let mut out = Vec::new();
    write_message(&mut tx, &mut out, &msg).unwrap();
    read_message(&mut rx, &mut ByteReader::new(out))
        .unwrap()
        .unwrap()
}

#[test]
fn input_event_roundtrips_and_matches_raw_frame_format() {
    let ev = InputEvent::new(EV_REL, 0x00, 5);
    match roundtrip(WireMessage::InputEvent(ev)) {
        WireMessage::InputEvent(decoded) => {
            assert_eq!(decoded.event_type(), ev.event_type());
            assert_eq!(decoded.code(), ev.code());
            assert_eq!(decoded.value(), ev.value());
        }
        other => panic!("esperava InputEvent, veio {other:?}"),
    }

    let mut raw = Vec::new();
    write_event(&mut raw, &ev);
    let wire_encoded = encode(&WireMessage::InputEvent(ev));
    assert_eq!(&wire_encoded[1..], raw.as_slice());
}

#[test]
fn clipboard_text_roundtrips() {
    match roundtrip(WireMessage::ClipboardText("olá, mundo".into())) {
        WireMessage::ClipboardText(text) => assert_eq!(text, "olá, mundo"),
        other => panic!("esperava ClipboardText, veio {other:?}"),
    }
}

#[test]
fn clipboard_image_roundtrips_with_large_payload() {
    let bytes: Vec<u8> = (0..200_000u32).map(|i| (i % 256) as u8).collect();
    let msg = WireMessage::ClipboardImage {
        mime: "image/png".into(),
        bytes: bytes.clone(),
    };
    match roundtrip(msg) {
        WireMessage::ClipboardImage {
            mime,
            bytes: decoded,
        } => {
            assert_eq!(mime, "image/png");
            assert_eq!(decoded, bytes);
        }
        other => panic!("esperava ClipboardImage, veio {other:?}"),
    }
}

#[test]
fn focus_handoff_roundtrips() {
    assert!(matches!(
        roundtrip(WireMessage::FocusHandoff),
        WireMessage::FocusHandoff
    ));
}

#[test]
fn heartbeat_roundtrips() {
    assert!(matches!(
        roundtrip(WireMessage::Heartbeat),
        WireMessage::Heartbeat
    ));
}

#[test]
fn encoded_bytes_are_exact() {
    assert_eq!(
        encode(&WireMessage::InputEvent(InputEvent::new(EV_REL, REL_X, -1))),
        vec![1, 2, 0, 0, 0, 255, 255, 255, 255]
    );
    assert_eq!(
        encode(&WireMessage::ClipboardText("é".into())),
        vec![2, 0xc3, 0xa9]
    );
    assert_eq!(
        encode(&WireMessage::ClipboardImage {
            mime: "a/b".into(),
            bytes: vec![9, 8]
        }),
        vec![3, 0, 3, b'a', b'/', b'b', 9, 8]
    );
    assert_eq!(encode(&WireMessage::FocusHandoff), vec![4]);
    assert_eq!(encode(&WireMessage::Heartbeat), vec![5]);
}

#[test]
fn media_type_length_keeps_its_low_bits() {
    let long = "a".repeat(65536 + 2);
    let bytes = encode(&WireMessage::ClipboardImage {
        mime: long,
        bytes: vec![],
    });
    assert_eq!(&bytes[..3], &[3, 0, 2]);
}

#[test]
fn each_decode_error_and_its_text() {
    let cause = String::from_utf8(vec![0xff]).unwrap_err().to_string();
    let text_cause = format!("clipboard text não é utf-8: {cause}");
    let mime_cause = format!("mime não é utf-8: {cause}");
    let cases: Vec<(Vec<u8>, DecodeError, &str)> = vec![
        (vec![], DecodeError::Empty, "mensagem vazia"),
        (
            vec![1, 2, 3],
            DecodeError::EventLength(2),
            "frame de InputEvent com tamanho inesperado: 2 bytes",
        ),
        (
            vec![2, 0xff],
            DecodeError::TextNotUtf8(cause.clone()),
            &text_cause,
        ),
        (
            vec![3, 0],
            DecodeError::MimeLengthTruncated,
            "payload de ClipboardImage truncado (mime_len)",
        ),
        (
            vec![3, 0, 2, b'a'],
            DecodeError::MimeTruncated,
            "payload de ClipboardImage truncado (mime)",
        ),
        (
            vec![3, 0, 1, 0xff, 1],
            DecodeError::MimeNotUtf8(cause.clone()),
            &mime_cause,
        ),
        (
            vec![0xab],
            DecodeError::UnknownTag(0xab),
            "tag de WireMessage desconhecida: 0xab",
        ),
        (
            vec![6, 1],
            DecodeError::UnknownTag(6),
            "tag de WireMessage desconhecida: 0x6",
        ),
    ];
    for (bytes, error, text) in cases {
        let err = decode(&bytes).unwrap_err();
        assert_eq!(err, error);
        assert_eq!(err.message(), text);
    }
}

#[test]
fn bytes_behind_a_message_without_payload_do_not_matter() {
    assert!(matches!(
        decode(&[4, 1, 2]).unwrap(),
        WireMessage::FocusHandoff
    ));
    assert!(matches!(
        decode(&[5, 1, 2]).unwrap(),
        WireMessage::Heartbeat
    ));
}

#[test]
fn copies_are_equal() {
    for msg in [
        WireMessage::InputEvent(InputEvent::new(1, 2, 3)),
        WireMessage::ClipboardText("x".into()),
        WireMessage::ClipboardImage {
            mime: "m".into(),
            bytes: vec![1],
        },
        WireMessage::FocusHandoff,
        WireMessage::Heartbeat,
    ] {
        assert_eq!(format!("{:?}", clone_wire_message(&msg)), format!("{msg:?}"));
    }
}

#[test]
fn message_arrives_over_several_reads() {
    let (mut tx, mut rx) = channel_pair();
    let mut out = Vec::new();
    write_message(&mut tx, &mut out, &WireMessage::Heartbeat).unwrap();
    let mut incoming = Incoming::new();
    let mut reader = FrameReader::new();
    let mut pos = 0;
    loop {
        let n = reader.wants();
        let step = read_message_step(
            &mut rx,
            &mut incoming,
            &mut reader,
            ReadOutcome::Data(out[pos..pos + n].to_vec()),
        )
        .unwrap();
        pos += n;
        match step {
            WireStep::More => {}
            WireStep::Message(msg) => {
                assert!(matches!(msg, WireMessage::Heartbeat));
                break;
            }
            WireStep::Closed => panic!("esperava mensagem"),
        }
    }
    assert_eq!(pos, out.len());
}

#[test]
fn bad_message_and_timeout_are_told_apart() {
    let (mut tx, mut rx) = channel_pair();
    let mut out = Vec::new();
    tx.send(&mut out, &[9]).unwrap();
    let err = read_message(&mut rx, &mut ByteReader::new(out)).unwrap_err();
    assert!(!is_wire_timeout(&err));
    assert!(matches!(err, WireError::Decode(DecodeError::UnknownTag(9))));
    assert_eq!(err.message(), "tag de WireMessage desconhecida: 0x9");

    let err = read_message_step(
        &mut rx,
        &mut Incoming::new(),
        &mut FrameReader::new(),
        ReadOutcome::Failed(IoFailure {
            kind: IoKind::WouldBlock,
            text: "causa".into(),
        }),
    )
    .unwrap_err();
    assert!(is_wire_timeout(&err));
    assert!(matches!(err, WireError::Channel(ChannelError::Read(_))));
    assert_eq!(err.message(), "falha ao ler evento do socket: causa");
}
