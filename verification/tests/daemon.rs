use kvm_share::config::{Direction, PeerConfig};
use kvm_share::daemon::{
    accept_peer, after_read, capture_step, device_paths, dial_step, forward_step,
    is_dialled_once, listen_step, plan_dials, should_dial, start, Admission, CaptureAction,
    CaptureStep, ChannelAction, DialAction, DialStage, ForwardStep, ListenAction, ListenStage,
    PendingSessions, StartError,
};
use kvm_share::devices::{grab_change, virtual_axes, virtual_keys, GrabChange};
use kvm_share::event::EV_KEY;
use kvm_share::focus::Event;
use kvm_share::keys::{read_psk, Keyring};
use kvm_share::noise::ChannelError;
use kvm_share::stream::{IoFailure, IoKind, ReadError};
use kvm_share::wire::{DecodeError, WireError, WireMessage};
use kvm_share::{InputEvent, TOGGLE_KEY};

fn peer(name: &str) -> PeerConfig {
    PeerConfig {
        name: name.into(),
        addr: "127.0.0.1:7532".into(),
        psk_path: "/dev/null".into(),
        direction: Direction::Right,
    }
}

#[test]
fn key_file_has_exactly_32_bytes() {
    let bytes: Vec<u8> = (0..32).collect();
    let psk = read_psk("/k", &bytes).unwrap();
    assert_eq!(psk.to_vec(), bytes);
    let err = read_psk("/k", &vec![0; 31]).unwrap_err();
    assert_eq!(err.message(), "psk em /k deveria ter 32 bytes, tem 31");
    assert!(read_psk("/k", &vec![0; 33]).is_err());
    assert!(read_psk("/k", &vec![]).is_err());
}

#[test]
fn keyring_keeps_the_last_key_of_a_name() {
    let mut keys = Keyring::new();
    assert_eq!(keys.get("a"), None);
    keys.insert("a".into(), [1; 32]);
    keys.insert("b".into(), [2; 32]);
    keys.insert("a".into(), [3; 32]);
    assert_eq!(keys.get("a"), Some([3; 32]));
    assert_eq!(keys.get("b"), Some([2; 32]));
    assert_eq!(keys.get("c"), None);
}

#[test]
fn exactly_one_side_dials() {
    for (a, b) in [("a", "b"), ("laptop", "desktop"), ("a", "ab"), ("Z", "a"), ("é", "z")] {
        assert_ne!(should_dial(a, b), should_dial(b, a));
        assert_eq!(should_dial(a, b), b > a);
        assert!(!should_dial(a, a));
    }
}

#[test]
fn dialled_peers_are_no_longer_pending() {
    let peers = vec![peer("a"), peer("m"), peer("z"), peer("c"), peer("c")];
    assert!(is_dialled_once("d", &peers));
    let mut pending = PendingSessions::new(&peers);
    assert_eq!(plan_dials("d", &peers, &mut pending), vec![1, 2]);
    assert!(!pending.take("m"));
    assert!(!pending.take("z"));
    assert!(pending.take("c"));
    assert!(!pending.take("c"), "a second session is refused");
    assert!(pending.take("a"));
    assert!(!pending.take("unknown"));
}

#[test]
fn two_dialled_peers_with_one_name_are_found() {
    assert!(!is_dialled_once("d", &vec![peer("z"), peer("a"), peer("z")]));
    assert!(is_dialled_once("zz", &vec![peer("z"), peer("a"), peer("z")]));
}

#[test]
fn what_was_read_decides_what_is_done() {
    assert!(matches!(
        after_read("tv", Ok(Some(WireMessage::Heartbeat))),
        ChannelAction::Deliver(Event::Wire(from, WireMessage::Heartbeat)) if from == "tv"
    ));
    assert!(matches!(after_read("tv", Ok(None)), ChannelAction::Close));
    let timeout = WireError::Channel(ChannelError::Read(ReadError::Io(IoFailure {
        kind: IoKind::WouldBlock,
        text: "x".into(),
    })));
    assert!(matches!(
        after_read("tv", Err(timeout)),
        ChannelAction::Retry
    ));
    let broken = WireError::Channel(ChannelError::Read(ReadError::Io(IoFailure {
        kind: IoKind::Other,
        text: "Connection reset by peer (os error 104)".into(),
    })));
    assert!(matches!(
        after_read("tv", Err(broken)),
        ChannelAction::Fail(text)
            if text == "[tv] erro de leitura, encerrando conexão: falha ao ler evento do socket: Connection reset by peer (os error 104)"
    ));
    let ended = WireError::Channel(ChannelError::Read(ReadError::Ended));
    assert!(matches!(
        after_read("tv", Err(ended)),
        ChannelAction::Fail(text)
            if text == "[tv] erro de leitura, encerrando conexão: conexão encerrada antes do fim do handshake"
    ));
    let bad = WireError::Decode(DecodeError::Empty);
    assert!(matches!(
        after_read("tv", Err(bad)),
        ChannelAction::Fail(text)
            if text == "[tv] erro de leitura, encerrando conexão: mensagem vazia"
    ));
}

#[test]
fn device_list_is_split_at_colons() {
    assert_eq!(device_paths(""), Vec::<String>::new());
    assert_eq!(device_paths("::"), Vec::<String>::new());
    assert_eq!(device_paths(":/dev/a::/dev/b"), vec!["/dev/a", "/dev/b"]);
}

#[test]
fn toggle_key_switches_forwarding_and_is_never_forwarded() {
    let toggle = InputEvent::new(EV_KEY, TOGGLE_KEY, 1);
    let key = InputEvent::new(EV_KEY, 30, 1);
    let release = InputEvent::new(EV_KEY, TOGGLE_KEY, 0);
    assert_eq!(
        capture_step(&toggle, false, false),
        CaptureStep {
            forwarding: true,
            grab: Some(GrabChange::Grab),
            action: CaptureAction::Activate
        }
    );
    assert_eq!(
        capture_step(&toggle, true, true),
        CaptureStep {
            forwarding: false,
            grab: Some(GrabChange::Ungrab),
            action: CaptureAction::Deactivate
        }
    );
    for ev in [key, release] {
        assert_eq!(
            capture_step(&ev, true, true),
            CaptureStep {
                forwarding: true,
                grab: None,
                action: CaptureAction::Forward
            }
        );
        assert_eq!(
            capture_step(&ev, false, false),
            CaptureStep {
                forwarding: false,
                grab: None,
                action: CaptureAction::Ignore
            }
        );
    }
}

#[test]
fn other_device_is_grabbed_with_its_next_event() {
    let moved = InputEvent::new(2, 0, 3);
    let step = capture_step(&moved, true, false);
    assert_eq!(step.grab, Some(GrabChange::Grab));
    assert_eq!(step.action, CaptureAction::Forward);
    let step = capture_step(&moved, false, true);
    assert_eq!(step.grab, Some(GrabChange::Ungrab));
    assert_eq!(step.action, CaptureAction::Ignore);
    // Switched off at the device that was never grabbed.
    let toggle = InputEvent::new(EV_KEY, TOGGLE_KEY, 1);
    assert_eq!(capture_step(&toggle, true, false).grab, None);
}

#[test]
fn listening_goes_step_by_step() {
    let mut stage = ListenStage::Bind;
    let mut seen = vec![stage];
    loop {
        match listen_step(stage, "0.0.0.0:1", Ok(())) {
            ListenAction::Continue(next) => {
                stage = next;
                seen.push(stage);
            }
            ListenAction::Admit => break,
            other => panic!("inesperado: {other:?}"),
        }
    }
    assert_eq!(
        seen,
        vec![
            ListenStage::Bind,
            ListenStage::Accept,
            ListenStage::DisableNagle,
            ListenStage::SetReadTimeout,
            ListenStage::Handshake
        ]
    );
}

#[test]
fn failure_with_one_connection_costs_that_connection_only() {
    let fails = |stage| listen_step(stage, "0.0.0.0:1", Err("x".into()));
    assert_eq!(
        fails(ListenStage::Bind),
        ListenAction::Stop("falha ao escutar em 0.0.0.0:1: x".into())
    );
    assert_eq!(
        fails(ListenStage::Accept),
        ListenAction::Refuse("falha ao aceitar conexão: x".into())
    );
    assert_eq!(
        fails(ListenStage::DisableNagle),
        ListenAction::Warn(
            "falha ao desativar Nagle (TCP_NODELAY): x".into(),
            ListenStage::SetReadTimeout
        )
    );
    assert_eq!(
        fails(ListenStage::SetReadTimeout),
        ListenAction::Refuse("falha ao configurar timeout de leitura: x".into())
    );
    assert_eq!(
        fails(ListenStage::Handshake),
        ListenAction::Refuse("conexão recusada: x".into())
    );
}

#[test]
fn forwarding_tries_to_connect_once() {
    assert_eq!(forward_step(true, false), ForwardStep::Write);
    assert_eq!(forward_step(false, false), ForwardStep::Connect);
    assert_eq!(forward_step(true, true), ForwardStep::Write);
    assert_eq!(forward_step(false, true), ForwardStep::GiveUp);
}

#[test]
fn device_is_grabbed_while_a_peer_is_captured() {
    assert_eq!(grab_change(true, false), Some(GrabChange::Grab));
    assert_eq!(grab_change(false, true), Some(GrabChange::Ungrab));
    assert_eq!(grab_change(true, true), None);
    assert_eq!(grab_change(false, false), None);
}

#[test]
fn virtual_device_has_the_standard_keys_and_axes() {
    let keys = virtual_keys();
    for code in 0..0x300u16 {
        let expected = (1..=248).contains(&code) || (0x110..0x118).contains(&code);
        assert_eq!(
            keys.set.contains(evdev::KeyCode::new(code)),
            expected,
            "{code}"
        );
    }
    assert!(keys.set.contains(evdev::KeyCode::KEY_ESC));
    assert!(keys.set.contains(evdev::KeyCode::KEY_MICMUTE));
    assert!(keys.set.contains(evdev::KeyCode::BTN_LEFT));
    assert!(keys.set.contains(evdev::KeyCode::BTN_TASK));
    let axes = virtual_axes();
    let wanted = [
        evdev::RelativeAxisCode::REL_X,
        evdev::RelativeAxisCode::REL_Y,
        evdev::RelativeAxisCode::REL_WHEEL,
        evdev::RelativeAxisCode::REL_HWHEEL,
    ];
    for code in 0..0x10u16 {
        let axis = evdev::RelativeAxisCode(code);
        assert_eq!(axes.set.contains(axis), wanted.contains(&axis), "{code}");
    }
}

#[test]
fn daemon_starts_with_keys_dials_and_pending_sessions() {
    let peers = vec![peer("a"), peer("m"), peer("a")];
    let files = vec![Ok(vec![1; 32]), Ok(vec![2; 32]), Ok(vec![3; 32])];
    let mut startup = start("d", &peers, &files).unwrap();
    assert_eq!(startup.keys.get("a"), Some([3; 32]));
    assert_eq!(startup.keys.get("m"), Some([2; 32]));
    assert_eq!(startup.dial, vec![1]);
    assert!(!startup.pending.take("m"));
    assert!(startup.pending.take("a"));
}

#[test]
fn first_faulty_key_file_stops_the_start() {
    let peers = vec![peer("a"), peer("b"), peer("c")];
    let files = vec![
        Ok(vec![1; 32]),
        Err("falha ao ler /b".to_string()),
        Ok(vec![1; 5]),
    ];
    assert!(matches!(
        start("d", &peers, &files),
        Err(StartError::Unreadable(cause)) if cause == "falha ao ler /b"
    ));
    let files = vec![Ok(vec![1; 32]), Ok(vec![1; 5]), Err("x".to_string())];
    assert!(matches!(
        start("d", &peers, &files),
        Err(StartError::BadKey(e)) if e.message() == "psk em /dev/null deveria ter 32 bytes, tem 5"
    ));
}

#[test]
fn start_with_a_name_dialled_twice_is_refused() {
    let peers = vec![peer("z"), peer("z")];
    let files = vec![Ok(vec![1; 32]), Ok(vec![1; 32])];
    assert!(matches!(
        start("d", &peers, &files),
        Err(StartError::DialledTwice)
    ));
}

#[test]
fn peer_that_dials_is_served_once() {
    let mut pending = PendingSessions::new(&vec![peer("tv")]);
    assert_eq!(
        accept_peer("tv", &mut pending),
        Admission::Serve("[tv] conectado (respondedor)".into())
    );
    assert_eq!(
        accept_peer("tv", &mut pending),
        Admission::Ignore(
            "[tv] conexão aceita, mas já havia uma sessão ativa; ignorando".into()
        )
    );
}

#[test]
fn dialling_goes_step_by_step() {
    let tv = peer("tv");
    let mut stage = DialStage::ReadKey;
    let mut seen = vec![stage];
    let text = loop {
        match dial_step(stage, &tv, Ok(())) {
            DialAction::Continue(next) => {
                stage = next;
                seen.push(stage);
            }
            DialAction::Serve(text) => break text,
            other => panic!("inesperado: {other:?}"),
        }
    };
    assert_eq!(
        seen,
        vec![
            DialStage::ReadKey,
            DialStage::Connect,
            DialStage::DisableNagle,
            DialStage::SetReadTimeout,
            DialStage::Handshake
        ]
    );
    assert_eq!(text, "[tv] conectado (iniciador)");
}

#[test]
fn dialling_gives_up_on_a_failure_but_for_nagle() {
    let tv = peer("tv");
    for (stage, text) in [
        (DialStage::ReadKey, "[tv] não consegui ler a PSK: x"),
        (
            DialStage::Connect,
            "[tv] não consegui conectar em 127.0.0.1:7532: x",
        ),
        (
            DialStage::SetReadTimeout,
            "[tv] falha ao configurar timeout de leitura: x",
        ),
        (
            DialStage::Handshake,
            "[tv] handshake (iniciador) falhou: x",
        ),
    ] {
        assert_eq!(
            dial_step(stage, &tv, Err("x".into())),
            DialAction::GiveUp(text.into())
        );
    }
    assert_eq!(
        dial_step(DialStage::DisableNagle, &tv, Err("x".into())),
        DialAction::Warn(
            "[tv] falha ao desativar Nagle (TCP_NODELAY): x".into(),
            DialStage::SetReadTimeout
        )
    );
}
