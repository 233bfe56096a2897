use kvm_share::config::{Direction, PeerConfig};
use kvm_share::event::{EV_KEY, EV_REL, REL_X, REL_Y};
use kvm_share::focus::{
    Event, Focus, FocusState, InjectLog, LocalInjector, PeerId, PeerSender, SendLog,
};
use kvm_share::wire::WireMessage;
use kvm_share::{InputEvent, TOGGLE_KEY};

#[derive(Default)]
struct MockInjector {
    injected: Vec<InputEvent>,
}

impl LocalInjector for MockInjector {
    fn inject(&mut self, ev: InputEvent) {
        self.injected.push(ev);
    }
}

#[derive(Default)]
struct MockSender {
    sent: Vec<(PeerId, String)>,
}

impl PeerSender for MockSender {
    fn send_to(&mut self, peer: &PeerId, msg: &WireMessage) {
        self.sent.push((peer.clone(), format!("{msg:?}")));
    }
}

fn peer(name: &str, direction: Direction) -> PeerConfig {
    PeerConfig {
        name: name.into(),
        addr: "127.0.0.1:7532".into(),
        psk_path: "/dev/null".into(),
        direction,
    }
}

fn rel_x(value: i32) -> InputEvent {
    InputEvent::new(EV_REL, REL_X, value)
}

fn rel_y(value: i32) -> InputEvent {
    InputEvent::new(EV_REL, REL_Y, value)
}

fn focus(peers: Vec<PeerConfig>) -> Focus<MockInjector, MockSender> {
    Focus::new(
        peers,
        100,
        100,
        MockInjector::default(),
        MockSender::default(),
    )
}

#[test]
fn crosses_border_with_configured_peer_starts_capturing() {
    let mut f = focus(vec![peer("laptop", Direction::Right)]);
    f.on_input_event(rel_x(1000));
    assert_eq!(
        f.state(),
        &FocusState::Capturing {
            target: "laptop".into(),
            resume: Box::new(FocusState::Local)
        }
    );
    assert_eq!(
        f.sender().sent,
        vec![("laptop".into(), "FocusHandoff".into())]
    );
}

#[test]
fn crosses_border_without_configured_peer_stays_local() {
    let mut f = focus(vec![peer("laptop", Direction::Right)]);
    f.on_input_event(rel_x(-1000));
    assert_eq!(f.state(), &FocusState::Local);
    assert!(f.sender().sent.is_empty());
}

#[test]
fn toggle_key_flips_between_capturing_and_local_ignoring_deltas() {
    let mut f = focus(vec![peer("laptop", Direction::Right)]);
    f.on_input_event(rel_x(1000));
    assert!(matches!(f.state(), FocusState::Capturing { .. }));

    f.on_input_event(rel_x(5));
    f.on_toggle_key();
    assert_eq!(f.state(), &FocusState::Local);

    f.on_toggle_key();
    assert_eq!(
        f.state(),
        &FocusState::Capturing {
            target: "laptop".into(),
            resume: Box::new(FocusState::Local)
        }
    );
}

#[test]
fn receiving_relays_to_next_peer_when_injected_cursor_crosses_border() {
    let mut f = focus(vec![peer("desktop-b", Direction::Right)]);
    f.on_wire_message("desktop-a".into(), WireMessage::FocusHandoff);
    assert_eq!(
        f.state(),
        &FocusState::Receiving {
            source: "desktop-a".into()
        }
    );

    f.on_wire_message("desktop-a".into(), WireMessage::InputEvent(rel_x(1000)));

    assert_eq!(f.injector().injected.len(), 1);
    assert_eq!(
        f.state(),
        &FocusState::Capturing {
            target: "desktop-b".into(),
            resume: Box::new(FocusState::Receiving {
                source: "desktop-a".into()
            })
        }
    );
    assert!(f
        .sender()
        .sent
        .contains(&("desktop-b".into(), "FocusHandoff".into())));
}

#[test]
fn receiving_forwards_wire_events_onward_after_relay_without_touching_origin() {
    let mut f = focus(vec![peer("desktop-b", Direction::Right)]);
    f.on_wire_message("desktop-a".into(), WireMessage::FocusHandoff);
    f.on_wire_message("desktop-a".into(), WireMessage::InputEvent(rel_x(1000)));

    f.on_wire_message("desktop-a".into(), WireMessage::InputEvent(rel_x(5)));

    assert_eq!(
        f.injector().injected.len(),
        1,
        "não injeta mais localmente após o relay"
    );
    assert!(f.sender().sent.iter().any(|(peer, msg)| peer == "desktop-b"
        && msg.contains("InputEvent")
        && msg.contains("value: 5")));
}

#[test]
fn concurrent_focus_handoff_resolves_deterministically_by_smaller_name() {
    let mut f = focus(vec![]);
    f.on_wire_message("beta".into(), WireMessage::FocusHandoff);
    f.on_wire_message("alpha".into(), WireMessage::FocusHandoff);
    assert_eq!(
        f.state(),
        &FocusState::Receiving {
            source: "alpha".into()
        }
    );

    let mut f2 = focus(vec![]);
    f2.on_wire_message("alpha".into(), WireMessage::FocusHandoff);
    f2.on_wire_message("beta".into(), WireMessage::FocusHandoff);
    assert_eq!(
        f2.state(),
        &FocusState::Receiving {
            source: "alpha".into()
        }
    );
}

#[test]
fn peer_disconnected_returns_to_local_from_capturing() {
    let mut f = focus(vec![peer("laptop", Direction::Right)]);
    f.on_input_event(rel_x(1000));
    f.on_peer_disconnected(&"laptop".to_string());
    assert_eq!(f.state(), &FocusState::Local);
}

#[test]
fn peer_disconnected_returns_to_local_from_receiving() {
    let mut f = focus(vec![]);
    f.on_wire_message("desktop-a".into(), WireMessage::FocusHandoff);
    f.on_peer_disconnected(&"desktop-a".to_string());
    assert_eq!(f.state(), &FocusState::Local);
}

#[test]
fn peer_disconnected_ignores_unrelated_peer() {
    let mut f = focus(vec![peer("laptop", Direction::Right)]);
    f.on_input_event(rel_x(1000));
    f.on_peer_disconnected(&"someone-else".to_string());
    assert_eq!(
        f.state(),
        &FocusState::Capturing {
            target: "laptop".into(),
            resume: Box::new(FocusState::Local)
        }
    );
}

#[test]
fn focus_handoff_from_current_target_returns_to_resume_state() {
    let mut f = focus(vec![peer("meu", Direction::Right)]);
    f.on_input_event(rel_x(1000));
    assert!(matches!(f.state(), FocusState::Capturing { .. }));

    f.on_wire_message("meu".into(), WireMessage::FocusHandoff);

    assert_eq!(
        f.state(),
        &FocusState::Local,
        "handoff de quem eu capturei deve voltar pro estado de origem, não Receiving"
    );
}

#[test]
fn focus_handoff_from_target_mid_chain_resumes_receiving_not_local() {
    let mut f = focus(vec![peer("terceiro", Direction::Right)]);
    f.on_wire_message("nav".into(), WireMessage::FocusHandoff);
    f.on_wire_message("nav".into(), WireMessage::InputEvent(rel_x(1000)));
    assert_eq!(
        f.state(),
        &FocusState::Capturing {
            target: "terceiro".into(),
            resume: Box::new(FocusState::Receiving {
                source: "nav".into()
            })
        }
    );

    f.on_wire_message("terceiro".into(), WireMessage::FocusHandoff);

    assert_eq!(
        f.state(),
        &FocusState::Receiving {
            source: "nav".into()
        },
        "no meio de uma cadeia, retorno deve resumir Receiving da origem, não Local"
    );
}

#[test]
fn handoff_from_a_third_peer_interrupts_a_capture() {
    let mut f = focus(vec![peer("laptop", Direction::Right)]);
    f.on_input_event(rel_x(1000));
    f.on_wire_message("tv".into(), WireMessage::FocusHandoff);
    assert_eq!(
        f.state(),
        &FocusState::Receiving {
            source: "tv".into()
        }
    );
}

#[test]
fn toggle_key_does_nothing_without_a_last_target_or_while_receiving() {
    let mut f = focus(vec![peer("laptop", Direction::Right)]);
    f.on_toggle_key();
    assert_eq!(f.state(), &FocusState::Local);
    assert!(f.sender().sent.is_empty());

    f.on_wire_message("tv".into(), WireMessage::FocusHandoff);
    f.on_toggle_key();
    assert_eq!(
        f.state(),
        &FocusState::Receiving {
            source: "tv".into()
        }
    );
}

#[test]
fn only_the_source_is_injected_and_local_input_is_ignored_while_receiving() {
    let mut f = focus(vec![peer("laptop", Direction::Right)]);
    f.on_wire_message("a".into(), WireMessage::FocusHandoff);
    f.on_wire_message("b".into(), WireMessage::InputEvent(rel_y(1)));
    f.on_input_event(rel_x(1000));
    assert!(f.injector().injected.is_empty());
    assert!(f.sender().sent.is_empty());
    f.on_wire_message("a".into(), WireMessage::InputEvent(rel_y(1)));
    assert_eq!(f.injector().injected, vec![rel_y(1)]);
}

#[test]
fn events_that_do_not_move_the_cursor_cross_nothing() {
    let mut f = focus(vec![peer("laptop", Direction::Right)]);
    f.on_input_event(InputEvent::new(EV_KEY, REL_X, 1000));
    f.on_input_event(InputEvent::new(EV_REL, 8, 1000));
    assert_eq!(f.state(), &FocusState::Local);
    f.on_input_event(rel_y(49));
    f.on_input_event(rel_x(49));
    assert_eq!(f.state(), &FocusState::Local);
    f.on_input_event(rel_x(1));
    assert!(matches!(f.state(), FocusState::Capturing { .. }));
}

#[test]
fn first_peer_on_a_side_is_the_target() {
    let mut f = focus(vec![
        peer("up", Direction::Up),
        peer("one", Direction::Down),
        peer("two", Direction::Down),
    ]);
    f.on_input_event(rel_y(1000));
    assert_eq!(
        f.state(),
        &FocusState::Capturing {
            target: "one".into(),
            resume: Box::new(FocusState::Local)
        }
    );
}

#[test]
fn clipboard_and_heartbeat_leave_the_focus_alone() {
    let mut f = focus(vec![]);
    f.on_wire_message("a".into(), WireMessage::ClipboardText("x".into()));
    f.on_wire_message(
        "a".into(),
        WireMessage::ClipboardImage {
            mime: "image/png".into(),
            bytes: vec![1],
        },
    );
    f.on_wire_message("a".into(), WireMessage::Heartbeat);
    assert_eq!(f.state(), &FocusState::Local);
}

#[test]
fn dispatch_tells_whether_a_peer_is_captured() {
    let mut f = focus(vec![peer("laptop", Direction::Right)]);
    assert!(f.has_room(rel_x(1000)));
    assert!(f.dispatch(Event::Local(rel_x(1000))));
    assert!(!f.dispatch(Event::Local(InputEvent::new(EV_KEY, TOGGLE_KEY, 1))));
    assert!(f.dispatch(Event::Local(InputEvent::new(EV_KEY, TOGGLE_KEY, 1))));
    assert!(f.dispatch(Event::Local(InputEvent::new(EV_KEY, TOGGLE_KEY, 0))));
    assert!(!f.dispatch(Event::PeerDisconnected("laptop".into())));
    assert!(!f.dispatch(Event::Wire("tv".into(), WireMessage::FocusHandoff)));
    assert_eq!(f.state().clone(), FocusState::Receiving { source: "tv".into() });
}

#[test]
fn effects_are_kept_until_they_are_taken() {
    let mut f = Focus::new(
        vec![peer("laptop", Direction::Right)],
        100,
        100,
        InjectLog { events: vec![] },
        SendLog { messages: vec![] },
    );
    f.dispatch(Event::Wire("tv".into(), WireMessage::FocusHandoff));
    f.dispatch(Event::Wire(
        "tv".into(),
        WireMessage::InputEvent(rel_x(1000)),
    ));
    let (events, messages) = f.take_effects();
    assert_eq!(events, vec![rel_x(1000)]);
    assert_eq!(messages.len(), 1);
    assert_eq!(messages[0].0, "laptop");
    assert!(matches!(messages[0].1, WireMessage::FocusHandoff));
    let (events, messages) = f.take_effects();
    assert!(events.is_empty() && messages.is_empty());
    assert!(matches!(f.state(), FocusState::Capturing { .. }));
}

#[test]
fn any_number_of_handoffs_settles_on_the_smallest_name() {
    for order in [
        ["c", "a", "b", "a"],
        ["a", "b", "c", "c"],
        ["b", "c", "a", "b"],
    ] {
        let mut f = focus(vec![]);
        for name in order {
            f.on_wire_message(name.into(), WireMessage::FocusHandoff);
        }
        assert_eq!(f.state(), &FocusState::Receiving { source: "a".into() });
        assert!(f.sender().sent.is_empty() && f.injector().injected.is_empty());
    }
}

#[test]
fn room_is_asked_for_only_where_the_cursor_moves() {
    let mut f = Focus::new(
        vec![],
        0,
        10,
        MockInjector::default(),
        MockSender::default(),
    );
    let event = || Event::Local(rel_y(1));
    assert!(f.can_take(&event()));
    f.on_wire_message("a".into(), WireMessage::FocusHandoff);
    assert!(f.can_take(&event()));
    assert!(f.can_take(&Event::Wire("b".into(), WireMessage::InputEvent(rel_y(1)))));
    assert!(f.can_take(&Event::Wire("a".into(), WireMessage::InputEvent(rel_y(1)))));
}

#[test]
fn captured_peers_are_peers_of_the_list() {
    let mut f = focus(vec![peer("r", Direction::Right), peer("l", Direction::Left)]);
    let events = [
        rel_x(1000),
        InputEvent::new(EV_KEY, TOGGLE_KEY, 1),
        rel_x(-1000),
        InputEvent::new(EV_KEY, TOGGLE_KEY, 1),
        InputEvent::new(EV_KEY, TOGGLE_KEY, 1),
        rel_y(1000),
    ];
    for ev in events {
        f.dispatch(Event::Local(ev));
        f.dispatch(Event::Wire("stranger".into(), WireMessage::Heartbeat));
        if let FocusState::Capturing { target, .. } = f.state() {
            assert!(target == "r" || target == "l");
        }
    }
}
