use evdev::EventType;
use kvm_share::devices::{REL_HWHEEL, REL_WHEEL};
use kvm_share::event::{EventStep, EV_KEY, EV_REL, REL_X, REL_Y};
use kvm_share::stream::{
    ByteReader, ExactReader, IoFailure, IoKind, ReadError, ReadOutcome, ReadStep,
};
use kvm_share::{
    is_read_timeout, is_toggle_press, read_event, read_event_step, read_exact_or_eof, write_event,
    InputEvent, FRAME_LEN, TOGGLE_KEY,
};

fn failure(kind: IoKind) -> IoFailure {
    IoFailure {
        kind,
        text: "causa".into(),
    }
}

fn failed(kind: IoKind) -> ReadOutcome {
    ReadOutcome::Failed(failure(kind))
}

#[test]
fn roundtrip_single_event() {
    let ev = InputEvent::new(EventType::KEY.0, TOGGLE_KEY, 1);
    let mut buf = Vec::new();
    write_event(&mut buf, &ev);
    assert_eq!(buf.len(), FRAME_LEN);

    let mut cursor = ByteReader::new(buf);
    let decoded = read_event(&mut cursor)
        .unwrap()
        .expect("evento decodificado");
    assert_eq!(decoded.event_type(), ev.event_type());
    assert_eq!(decoded.code(), ev.code());
    assert_eq!(decoded.value(), ev.value());
}

#[test]
fn roundtrip_multiple_events_in_sequence() {
    let events = vec![
        InputEvent::new(EventType::RELATIVE.0, 0x00, 5),
        InputEvent::new(EventType::RELATIVE.0, 0x01, -3),
        InputEvent::new(EventType::SYNCHRONIZATION.0, 0, 0),
    ];
    let mut buf = Vec::new();
    for ev in &events {
        write_event(&mut buf, ev);
    }

    let mut cursor = ByteReader::new(buf);
    for original in &events {
        let decoded = read_event(&mut cursor)
            .unwrap()
            .expect("evento decodificado");
        assert_eq!(decoded.event_type(), original.event_type());
        assert_eq!(decoded.code(), original.code());
        assert_eq!(decoded.value(), original.value());
    }
    assert!(read_event(&mut cursor).unwrap().is_none());
}

#[test]
fn eof_in_middle_of_frame_is_an_error() {
    let mut buf = Vec::new();
    write_event(&mut buf, &InputEvent::new(EventType::KEY.0, 1, 1));
    buf.truncate(FRAME_LEN - 1);
    let mut cursor = ByteReader::new(buf);
    assert!(read_event(&mut cursor).is_err());
}

#[test]
fn frame_is_little_endian() {
    let mut buf = Vec::new();
    write_event(&mut buf, &InputEvent::new(0x0102, 0x0304, -2));
    assert_eq!(buf, vec![0x02, 0x01, 0x04, 0x03, 0xfe, 0xff, 0xff, 0xff]);
}

#[test]
fn truncated_frame_tells_how_much_was_read() {
    let mut cursor = ByteReader::new(vec![1, 2, 3]);
    let err = read_event(&mut cursor).unwrap_err();
    assert_eq!(err, ReadError::Truncated { read: 3, len: 8 });
    assert_eq!(
        err.message(),
        "conexão encerrada no meio de um frame (3/8 bytes)"
    );
}

#[test]
fn constants_are_those_of_the_kernel() {
    assert_eq!(TOGGLE_KEY, evdev::KeyCode::KEY_SCROLLLOCK.code());
    assert_eq!(EV_KEY, EventType::KEY.0);
    assert_eq!(EV_REL, EventType::RELATIVE.0);
    assert_eq!(REL_X, evdev::RelativeAxisCode::REL_X.0);
    assert_eq!(REL_Y, evdev::RelativeAxisCode::REL_Y.0);
    assert_eq!(REL_WHEEL, evdev::RelativeAxisCode::REL_WHEEL.0);
    assert_eq!(REL_HWHEEL, evdev::RelativeAxisCode::REL_HWHEEL.0);
}

#[test]
fn only_a_press_of_the_toggle_key_toggles() {
    assert!(is_toggle_press(&InputEvent::new(EV_KEY, TOGGLE_KEY, 1)));
    assert!(!is_toggle_press(&InputEvent::new(EV_KEY, TOGGLE_KEY, 0)));
    assert!(!is_toggle_press(&InputEvent::new(EV_KEY, TOGGLE_KEY, 2)));
    assert!(!is_toggle_press(&InputEvent::new(EV_KEY, 30, 1)));
    assert!(!is_toggle_press(&InputEvent::new(EV_REL, TOGGLE_KEY, 1)));
}

#[test]
fn event_is_read_across_several_reads() {
    let ev = InputEvent::new(EV_REL, 1, -7);
    let mut buf = Vec::new();
    write_event(&mut buf, &ev);
    let mut reader = ExactReader::new(FRAME_LEN);
    assert_eq!(
        read_event_step(&mut reader, ReadOutcome::Data(buf[..3].to_vec())),
        Ok(EventStep::More)
    );
    assert_eq!(
        read_event_step(&mut reader, failed(IoKind::Interrupted)),
        Ok(EventStep::More)
    );
    assert_eq!(reader.remaining(), 5);
    assert_eq!(
        read_event_step(&mut reader, ReadOutcome::Data(buf[3..].to_vec())),
        Ok(EventStep::Event(ev))
    );
    assert_eq!(
        read_event_step(&mut reader, ReadOutcome::Data(vec![])),
        Ok(EventStep::Closed)
    );
}

#[test]
fn failed_read_is_reported_and_timeouts_are_told_apart() {
    let mut reader = ExactReader::new(4);
    let err = read_exact_or_eof(&mut reader, failed(IoKind::TimedOut)).unwrap_err();
    assert_eq!(err, ReadError::Io(failure(IoKind::TimedOut)));
    assert!(is_read_timeout(&err));
    assert_eq!(err.message(), "falha ao ler evento do socket: causa");
    assert!(is_read_timeout(&ReadError::Body(failure(IoKind::WouldBlock))));
    assert!(!is_read_timeout(&ReadError::Body(failure(IoKind::Other))));
    assert!(!is_read_timeout(&ReadError::BodyEnded));
    assert!(!is_read_timeout(&ReadError::Ended));
    assert_eq!(
        ReadError::Body(failure(IoKind::Other)).message(),
        "conexão encerrada no meio de um frame: causa"
    );
    assert_eq!(
        ReadError::BodyEnded.message(),
        "conexão encerrada no meio de um frame: failed to fill whole buffer"
    );
    assert_eq!(
        ReadError::Ended.message(),
        "conexão encerrada antes do fim do handshake"
    );
    assert_eq!(
        read_exact_or_eof(&mut reader, ReadOutcome::Data(vec![1, 2, 3, 4])),
        Ok(ReadStep::Done)
    );
    assert_eq!(reader.into_bytes(), vec![1, 2, 3, 4]);
}
