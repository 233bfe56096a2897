//! Who has the keyboard and the mouse.
//!
//! The focus decides whether input events belong to this machine or go to a
//! peer. It also relays: a machine that is controlled by a peer and sees the
//! injected cursor cross another edge passes the control on to the peer there,
//! and the origin need not know.

use crate::config::{peer_views, Direction, PeerConfig, PeerView};
use crate::cursor::{
    law_single_axis_moves_stay_on_screen, CursorTracker, CursorView, Direction as CursorDirection,
};
use crate::event::{is_toggle_press, toggle_press, InputEvent, EV_REL, REL_X, REL_Y};
use crate::peers::names_of;
use crate::text::{
    law_name_order_is_total, law_name_order_is_transitive, name_less, str_eq, str_less,
};
use crate::wire::{clone_wire_message, WireMessage, WireView};
use vstd::prelude::*;
use vstd::string::*;

verus! {

/// A peer is known by its name.
pub type PeerId = String;

/// Who is in control.
#[derive(Debug, PartialEq, Eq)]
pub enum FocusState {
    /// This machine controls itself.
    Local,
    /// This machine's input goes to `target`. `resume` is the state from which
    /// that began: it is taken up again when `target` gives the control back.
    Capturing { target: PeerId, resume: Box<FocusState> },
    /// The peer `source` controls this machine.
    Receiving { source: PeerId },
}

/// Who is in control, by name.
pub enum StateView {
    Local,
    Capturing { target: Seq<char>, resume: Box<StateView> },
    Receiving { source: Seq<char> },
}

/// What a state says.
pub open spec fn state_view(s: FocusState) -> StateView
    decreases s,
{
    match s {
        FocusState::Local => StateView::Local,
        FocusState::Capturing { target, resume } => StateView::Capturing {
            target: target@,
            resume: Box::new(state_view(*resume)),
        },
        FocusState::Receiving { source } => StateView::Receiving { source: source@ },
    }
}

impl View for FocusState {
    type V = StateView;

    open spec fn view(&self) -> StateView {
        state_view(*self)
    }
}

/// A second copy of a state.
fn clone_state(s: &FocusState) -> (r: FocusState)
    ensures
        r@ == s@,
    decreases s,
{
    match s {
        FocusState::Local => FocusState::Local,
        FocusState::Capturing { target, resume } => {
            let inner = clone_state(resume);
            FocusState::Capturing { target: target.clone(), resume: Box::new(inner) }
        },
        FocusState::Receiving { source } => FocusState::Receiving { source: source.clone() },
    }
}

impl Clone for FocusState {
    fn clone(&self) -> (r: FocusState)
        ensures
            r@ == self@,
    {
        clone_state(self)
    }
}

/// Injects an event into the virtual device of this machine.
pub trait LocalInjector {
    /// The events injected so far. Only contracts speak of it; what implements
    /// the trait outside of a proof need not define it.
    open spec fn injected(&self) -> Seq<InputEvent> {
        arbitrary()
    }

    /// Injects one more event.
    fn inject(&mut self, ev: InputEvent)
        ensures
            final(self).injected() == old(self).injected().push(ev),
    ;
}

/// Sends messages to peers.
pub trait PeerSender {
    /// The messages handed over so far, each with the peer it is for. Only
    /// contracts speak of it; what implements the trait outside of a proof need
    /// not define it.
    open spec fn sent(&self) -> Seq<(Seq<char>, WireView)> {
        arbitrary()
    }

    /// Hands over one more message.
    fn send_to(&mut self, peer: &PeerId, msg: &WireMessage)
        ensures
            final(self).sent() == old(self).sent().push((peer@, msg@)),
    ;
}

/// Keeps the events to inject until they are taken.
#[derive(Debug)]
pub struct InjectLog {
    pub events: Vec<InputEvent>,
}

impl LocalInjector for InjectLog {
    open spec fn injected(&self) -> Seq<InputEvent> {
        self.events@
    }

    fn inject(&mut self, ev: InputEvent) {
        self.events.push(ev);
    }
}

/// Keeps the messages to send until they are taken.
#[derive(Debug)]
pub struct SendLog {
    pub messages: Vec<(PeerId, WireMessage)>,
}

/// Messages with the peers they are for, as mathematical values.
pub open spec fn messages_view(v: Seq<(PeerId, WireMessage)>) -> Seq<(Seq<char>, WireView)> {
    v.map_values(|m: (PeerId, WireMessage)| (m.0@, m.1@))
}

impl PeerSender for SendLog {
    open spec fn sent(&self) -> Seq<(Seq<char>, WireView)> {
        messages_view(self.messages@)
    }

    fn send_to(&mut self, peer: &PeerId, msg: &WireMessage) {
        self.messages.push((peer.clone(), clone_wire_message(msg)));
        assert(messages_view(self.messages@) =~= messages_view(old(self).messages@).push(
            (peer@, msg@),
        ));
    }
}

/// The direction of a crossing, as the peer list has it.
pub open spec fn config_direction(d: CursorDirection) -> Direction {
    match d {
        CursorDirection::Left => Direction::Left,
        CursorDirection::Right => Direction::Right,
        CursorDirection::Up => Direction::Up,
        CursorDirection::Down => Direction::Down,
    }
}

/// The direction of a crossing, as the peer list has it.
pub fn to_config_direction(d: CursorDirection) -> (r: Direction)
    ensures
        r == config_direction(d),
        d is Left <==> r is Left,
        d is Right <==> r is Right,
        d is Up <==> r is Up,
        d is Down <==> r is Down,
{
    match d {
        CursorDirection::Left => Direction::Left,
        CursorDirection::Right => Direction::Right,
        CursorDirection::Up => Direction::Up,
        CursorDirection::Down => Direction::Down,
    }
}

/// The first peer on a side of the screen.
pub open spec fn peer_on(peers: Seq<PeerView>, d: Direction) -> Option<Seq<char>>
    decreases peers.len(),
{
    if peers.len() == 0 {
        None
    } else if peers[0].direction == d {
        Some(peers[0].name)
    } else {
        peer_on(peers.skip(1), d)
    }
}

/// The first peer on a side of the screen is in the list.
proof fn lemma_peer_on_is_listed(peers: Seq<PeerView>, d: Direction)
    ensures
        peer_on(peers, d) matches Some(name) ==> names_of(peers).contains(name),
    decreases peers.len(),
{
    if peers.len() > 0 {
        assert(names_of(peers)[0] == peers[0].name);
        if peers[0].direction != d {
            let rest = peers.skip(1);
            lemma_peer_on_is_listed(rest, d);
            if let Some(name) = peer_on(rest, d) {
                let k = choose|k: int| 0 <= k < names_of(rest).len() && names_of(rest)[k] == name;
                assert(names_of(peers)[k + 1] == name);
            }
        }
    }
}

/// The movement that an event carries, if any.
pub open spec fn movement(ev: InputEvent) -> Option<(int, int)> {
    if ev.event_type != EV_REL {
        None
    } else if ev.code == REL_X {
        Some((ev.value as int, 0))
    } else if ev.code == REL_Y {
        Some((0, ev.value as int))
    } else {
        None
    }
}

/// All that the focus knows and has done.
pub struct FocusView {
    pub state: StateView,
    pub peers: Seq<PeerView>,
    pub cursor: CursorView,
    pub last_target: Option<Seq<char>>,
    pub injected: Seq<InputEvent>,
    pub sent: Seq<(Seq<char>, WireView)>,
}

impl FocusView {
    /// What an event does to the cursor.
    pub open spec fn moved(self, ev: InputEvent) -> FocusView {
        match movement(ev) {
            None => self,
            Some((dx, dy)) => {
                let c = self.cursor.shifted(dx, dy);
                FocusView { cursor: c.recentred(c.beyond()), ..self }
            },
        }
    }

    /// The edge that an event makes the cursor cross.
    pub open spec fn crossed(self, ev: InputEvent) -> Option<Direction> {
        match movement(ev) {
            None => None,
            Some((dx, dy)) => match self.cursor.shifted(dx, dy).beyond() {
                Some(d) => Some(config_direction(d)),
                None => None,
            },
        }
    }

    /// A message is handed over for a peer.
    pub open spec fn sending(self, peer: Seq<char>, msg: WireView) -> FocusView {
        FocusView { sent: self.sent.push((peer, msg)), ..self }
    }

    /// A crossing towards a peer hands the control to it.
    pub open spec fn maybe_captured(self, ev: InputEvent) -> FocusView {
        let next = self.moved(ev);
        match self.crossed(ev) {
            None => next,
            Some(d) => match peer_on(self.peers, d) {
                None => next,
                Some(target) => FocusView {
                    state: StateView::Capturing { target, resume: Box::new(self.state) },
                    last_target: Some(target),
                    ..next.sending(target, WireView::FocusHandoff)
                },
            },
        }
    }

    /// An event of a local device.
    pub open spec fn after_input(self, ev: InputEvent) -> FocusView {
        match self.state {
            StateView::Local => self.maybe_captured(ev),
            StateView::Capturing { target, .. } => self.sending(
                target,
                WireView::InputEvent(ev),
            ),
            StateView::Receiving { .. } => self,
        }
    }

    /// A peer hands over the control, or gives it back.
    pub open spec fn after_handoff(self, from: Seq<char>) -> FocusView {
        match self.state {
            StateView::Capturing { target, resume } => if target == from {
                FocusView { state: *resume, ..self }
            } else {
                FocusView { state: StateView::Receiving { source: from }, ..self }
            },
            StateView::Receiving { source } => if name_less(source, from) {
                self
            } else {
                FocusView { state: StateView::Receiving { source: from }, ..self }
            },
            StateView::Local => FocusView {
                state: StateView::Receiving { source: from },
                ..self
            },
        }
    }

    /// An event that a peer sent.
    pub open spec fn after_wire_input(self, from: Seq<char>, ev: InputEvent) -> FocusView {
        match self.state {
            StateView::Receiving { source } => if source == from {
                FocusView { injected: self.injected.push(ev), ..self }.maybe_captured(ev)
            } else {
                self
            },
            StateView::Capturing { target, .. } => self.sending(
                target,
                WireView::InputEvent(ev),
            ),
            StateView::Local => self,
        }
    }

    /// A message of a peer.
    pub open spec fn after_message(self, from: Seq<char>, msg: WireView) -> FocusView {
        match msg {
            WireView::FocusHandoff => self.after_handoff(from),
            WireView::InputEvent(ev) => self.after_wire_input(from, ev),
            WireView::ClipboardText(_) => self,
            WireView::ClipboardImage { .. } => self,
            WireView::Heartbeat => self,
        }
    }

    /// The toggle key.
    pub open spec fn after_toggle(self) -> FocusView {
        match self.state {
            StateView::Capturing { .. } => FocusView { state: StateView::Local, ..self },
            StateView::Local => match self.last_target {
                Some(target) => FocusView {
                    state: StateView::Capturing { target, resume: Box::new(StateView::Local) },
                    ..self.sending(target, WireView::FocusHandoff)
                },
                None => self,
            },
            StateView::Receiving { .. } => self,
        }
    }

    /// Whether a peer is in control of this machine.
    pub open spec fn is_source(self, peer: Seq<char>) -> bool {
        self.state matches StateView::Receiving { source } && source == peer
    }

    /// Whether a peer takes part in the present state.
    pub open spec fn involves(self, peer: Seq<char>) -> bool {
        match self.state {
            StateView::Capturing { target, .. } => target == peer,
            StateView::Receiving { source } => source == peer,
            StateView::Local => false,
        }
    }

    /// The connection to a peer is gone.
    pub open spec fn after_disconnect(self, peer: Seq<char>) -> FocusView {
        if self.involves(peer) {
            FocusView { state: StateView::Local, ..self }
        } else {
            self
        }
    }

    /// The peer that is captured, and the last one that was, are in the list.
    pub open spec fn targets_listed(self) -> bool {
        &&& self.state matches StateView::Capturing { target, .. } ==> names_of(
            self.peers,
        ).contains(target)
        &&& self.last_target matches Some(target) ==> names_of(self.peers).contains(target)
    }

    /// A capture resumes to a state that is no capture itself, its target is in
    /// the list, the cursor is on the screen, and the numbers are those of
    /// machine screens.
    pub open spec fn wf(self) -> bool {
        &&& self.targets_listed()
        &&& self.state matches StateView::Capturing { resume, .. } ==> !(*resume is Capturing)
        &&& self.cursor.x_on_screen()
        &&& self.cursor.width > 0 ==> self.cursor.y_on_screen()
        &&& self.cursor.width <= u32::MAX
        &&& self.cursor.height <= u32::MAX
    }

    /// The vertical position can take the event. On a screen with some width it
    /// always can; on one without, every movement is a crossing to the right,
    /// and vertical movements add up.
    pub open spec fn has_room(self, ev: InputEvent) -> bool {
        self.cursor.width > 0 || match movement(ev) {
            Some((_, dy)) => i64::MIN <= self.cursor.y + dy <= i64::MAX,
            None => true,
        }
    }
}

/// The focus of this machine.
pub struct Focus<I: LocalInjector, S: PeerSender> {
    state: FocusState,
    peers: Vec<PeerConfig>,
    cursor: CursorTracker,
    last_target: Option<PeerId>,
    injector: I,
    sender: S,
}

impl<I: LocalInjector, S: PeerSender> View for Focus<I, S> {
    type V = FocusView;

    closed spec fn view(&self) -> FocusView {
        FocusView {
            state: self.state@,
            peers: peer_views(self.peers@),
            cursor: self.cursor@,
            last_target: match self.last_target {
                Some(target) => Some(target@),
                None => None,
            },
            injected: self.injector.injected(),
            sent: self.sender.sent(),
        }
    }
}

impl<I: LocalInjector, S: PeerSender> Focus<I, S> {
    /// Starts with this machine in control of itself and the cursor in the
    /// centre.
    pub fn new(
        peers: Vec<PeerConfig>,
        width: u32,
        height: u32,
        injector: I,
        sender: S,
    ) -> (r: Focus<I, S>)
        ensures
            r@ == (FocusView {
                state: StateView::Local,
                peers: peer_views(peers@),
                cursor: CursorView::centred(width as nat, height as nat),
                last_target: None,
                injected: injector.injected(),
                sent: sender.sent(),
            }),
            r@.wf(),
    {
        Focus {
            state: FocusState::Local,
            peers,
            cursor: CursorTracker::new(width, height),
            last_target: None,
            injector,
            sender,
        }
    }

    /// Who is in control.
    pub fn state(&self) -> (r: &FocusState)
        ensures
            r@ == self@.state,
    {
        &self.state
    }

    /// What injects.
    pub fn injector(&self) -> (r: &I)
        ensures
            r.injected() == self@.injected,
    {
        &self.injector
    }

    /// What sends.
    pub fn sender(&self) -> (r: &S)
        ensures
            r.sent() == self@.sent,
    {
        &self.sender
    }

    /// Whether the vertical position can take an event.
    pub fn has_room(&self, ev: InputEvent) -> (r: bool)
        requires
            self@.wf(),
        ensures
            r == self@.has_room(ev),
    {
        proof {
            self.cursor.lemma_y_range();
        }
        let dy: i32 = if ev.event_type == EV_REL && ev.code == REL_Y {
            ev.value
        } else {
            0
        };
        self.cursor.has_width() || self.cursor.can_move(dy)
    }

    /// The first peer on a side of the screen.
    fn peer_for(&self, direction: Direction) -> (r: Option<PeerId>)
        ensures
            match r {
                Some(name) => peer_on(self@.peers, direction) == Some(name@),
                None => peer_on(self@.peers, direction) is None,
            },
    {
        let ghost views = peer_views(self.peers@);
        assert(views.skip(0) =~= views);
        let mut i: usize = 0;
        while i < self.peers.len()
            invariant
                i <= self.peers@.len(),
                views == peer_views(self.peers@),
                peer_on(views, direction) == peer_on(views.skip(i as int), direction),
            decreases self.peers@.len() - i,
        {
            assert(views.skip(i as int)[0] == self.peers@[i as int]@);
            if self.peers[i].direction == direction {
                return Some(self.peers[i].name.clone());
            }
            assert(views.skip(i as int).skip(1) =~= views.skip(i + 1));
            i = i + 1;
        }
        None
    }

    /// Moves the cursor and tells the edge that it crosses.
    fn accumulate(&mut self, ev: InputEvent) -> (r: Option<Direction>)
        requires
            old(self)@.wf(),
            old(self)@.has_room(ev),
        ensures
            r == old(self)@.crossed(ev),
            final(self)@ == old(self)@.moved(ev),
            final(self)@.wf(),
    {
        if ev.event_type != EV_REL {
            return None;
        }
        let (dx, dy): (i32, i32) = if ev.code == REL_X {
            (ev.value, 0)
        } else if ev.code == REL_Y {
            (0, ev.value)
        } else {
            return None;
        };
        proof {
            if self.cursor@.width > 0 {
                law_single_axis_moves_stay_on_screen(self.cursor@, dx as int, dy as int);
            }
        }
        match self.cursor.accumulate(dx, dy) {
            Some(d) => Some(to_config_direction(d)),
            None => None,
        }
    }

    /// A crossing towards a peer hands the control to it, from `Local` as well
    /// as from `Receiving`.
    fn maybe_capture(&mut self, ev: InputEvent)
        requires
            old(self)@.wf(),
            old(self)@.has_room(ev),
            !(old(self)@.state is Capturing),
        ensures
            final(self)@ == old(self)@.maybe_captured(ev),
            final(self)@.wf(),
    {
        let direction = match self.accumulate(ev) {
            Some(direction) => direction,
            None => {
                return;
            },
        };
        let target = match self.peer_for(direction) {
            Some(target) => target,
            None => {
                return;
            },
        };
        proof {
            lemma_peer_on_is_listed(self@.peers, direction);
        }
        let resume = Box::new(clone_state(&self.state));
        self.sender.send_to(&target, &WireMessage::FocusHandoff);
        self.last_target = Some(target.clone());
        self.state = FocusState::Capturing { target, resume };
    }

    /// An event read from a local device. It counts in `Local`, where it can
    /// cross an edge, and in `Capturing`, where it is forwarded.
    pub fn on_input_event(&mut self, ev: InputEvent)
        requires
            old(self)@.wf(),
            old(self)@.state is Local ==> old(self)@.has_room(ev),
        ensures
            final(self)@ == old(self)@.after_input(ev),
            final(self)@.wf(),
    {
        match &self.state {
            FocusState::Local => {
                self.maybe_capture(ev);
            },
            FocusState::Capturing { target, .. } => {
                let target = target.clone();
                self.sender.send_to(&target, &WireMessage::InputEvent(ev));
            },
            FocusState::Receiving { .. } => {},
        }
    }

    /// A message from a peer.
    pub fn on_wire_message(&mut self, from: PeerId, msg: WireMessage)
        requires
            old(self)@.wf(),
            old(self)@.is_source(from@) ==> (msg matches WireMessage::InputEvent(ev)
                ==> old(self)@.has_room(ev)),
        ensures
            final(self)@ == old(self)@.after_message(from@, msg@),
            final(self)@.wf(),
    {
        match msg {
            WireMessage::FocusHandoff => {
                self.on_focus_handoff(from);
            },
            WireMessage::InputEvent(ev) => {
                self.on_wire_input_event(from, ev);
            },
            WireMessage::ClipboardText(_) => {},
            WireMessage::ClipboardImage { .. } => {},
            WireMessage::Heartbeat => {},
        }
    }

    /// Switches by hand between this machine and the last target. While a peer
    /// is in control the key does nothing.
    pub fn on_toggle_key(&mut self)
        requires
            old(self)@.wf(),
        ensures
            final(self)@ == old(self)@.after_toggle(),
            final(self)@.wf(),
    {
        match &self.state {
            FocusState::Capturing { .. } => {
                self.state = FocusState::Local;
            },
            FocusState::Local => {
                if let Some(target) = &self.last_target {
                    let target = target.clone();
                    self.sender.send_to(&target, &WireMessage::FocusHandoff);
                    self.state = FocusState::Capturing {
                        target,
                        resume: Box::new(FocusState::Local),
                    };
                }
            },
            FocusState::Receiving { .. } => {},
        }
    }

    /// The connection to a peer is gone. If that peer takes part in the present
    /// state, this machine controls itself again.
    pub fn on_peer_disconnected(&mut self, peer: &PeerId)
        requires
            old(self)@.wf(),
        ensures
            final(self)@ == old(self)@.after_disconnect(peer@),
            final(self)@.wf(),
    {
        let involved = match &self.state {
            FocusState::Capturing { target, .. } => str_eq(target.as_str(), peer.as_str()),
            FocusState::Receiving { source } => str_eq(source.as_str(), peer.as_str()),
            FocusState::Local => false,
        };
        if involved {
            self.state = FocusState::Local;
        }
    }

    /// The peer that is being controlled gives the control back, or another
    /// one takes it. Of two that want it, the one with the smaller name has it.
    fn on_focus_handoff(&mut self, from: PeerId)
        requires
            old(self)@.wf(),
        ensures
            final(self)@ == old(self)@.after_handoff(from@),
            final(self)@.wf(),
    {
        let next = match &self.state {
            FocusState::Capturing { target, resume } => {
                if str_eq(target.as_str(), from.as_str()) {
                    clone_state(resume)
                } else {
                    FocusState::Receiving { source: from }
                }
            },
            FocusState::Receiving { source } => {
                if str_less(source.as_str(), from.as_str()) {
                    return;
                }
                FocusState::Receiving { source: from }
            },
            FocusState::Local => FocusState::Receiving { source: from },
        };
        self.state = next;
    }

    /// An event that a peer sent.
    fn on_wire_input_event(&mut self, from: PeerId, ev: InputEvent)
        requires
            old(self)@.wf(),
            old(self)@.is_source(from@) ==> old(self)@.has_room(ev),
        ensures
            final(self)@ == old(self)@.after_wire_input(from@, ev),
            final(self)@.wf(),
    {
        match &self.state {
            FocusState::Receiving { source } => {
                if str_eq(source.as_str(), from.as_str()) {
                    self.injector.inject(ev);
                    self.maybe_capture(ev);
                }
            },
            FocusState::Capturing { target, .. } => {
                let target = target.clone();
                self.sender.send_to(&target, &WireMessage::InputEvent(ev));
            },
            FocusState::Local => {},
        }
    }
}

/// What the daemon reacts to.
#[derive(Debug)]
pub enum Event {
    /// A local device reported an input event.
    Local(InputEvent),
    /// A peer sent a message.
    Wire(PeerId, WireMessage),
    /// The connection to a peer is gone.
    PeerDisconnected(PeerId),
}

impl FocusView {
    /// Any event.
    pub open spec fn after(self, event: Event) -> FocusView {
        match event {
            Event::Local(ev) => if toggle_press(ev) {
                self.after_toggle()
            } else {
                self.after_input(ev)
            },
            Event::Wire(from, msg) => self.after_message(from@, msg@),
            Event::PeerDisconnected(peer) => self.after_disconnect(peer@),
        }
    }

    /// The vertical position can take what an event brings, where the event
    /// moves the cursor at all: that of a local device while this machine
    /// controls itself, and that of the peer that is in control.
    pub open spec fn can_take(self, event: Event) -> bool {
        match event {
            Event::Local(ev) => self.state is Local && !toggle_press(ev) ==> self.has_room(ev),
            Event::Wire(from, WireMessage::InputEvent(ev)) => self.is_source(from@)
                ==> self.has_room(ev),
            _ => true,
        }
    }
}

impl<I: LocalInjector, S: PeerSender> Focus<I, S> {
    /// Whether the vertical position can take what an event brings.
    pub fn can_take(&self, event: &Event) -> (r: bool)
        requires
            self@.wf(),
        ensures
            r == self@.can_take(*event),
    {
        match event {
            Event::Local(ev) => match &self.state {
                FocusState::Local => is_toggle_press(ev) || self.has_room(*ev),
                _ => true,
            },
            Event::Wire(from, WireMessage::InputEvent(ev)) => match &self.state {
                FocusState::Receiving { source } => !str_eq(source.as_str(), from.as_str())
                    || self.has_room(*ev),
                _ => true,
            },
            _ => true,
        }
    }

    /// Reacts to an event. The result tells whether the local devices are to be
    /// kept from this machine's desktop: they are while a peer is controlled.
    pub fn dispatch(&mut self, event: Event) -> (capturing: bool)
        requires
            old(self)@.wf(),
            old(self)@.can_take(event),
        ensures
            final(self)@ == old(self)@.after(event),
            final(self)@.wf(),
            capturing == (final(self)@.state is Capturing),
    {
        match event {
            Event::Local(ev) => {
                if is_toggle_press(&ev) {
                    self.on_toggle_key();
                } else {
                    self.on_input_event(ev);
                }
            },
            Event::Wire(from, msg) => self.on_wire_message(from, msg),
            Event::PeerDisconnected(peer) => self.on_peer_disconnected(&peer),
        }
        match &self.state {
            FocusState::Capturing { .. } => true,
            _ => false,
        }
    }
}

impl Focus<InjectLog, SendLog> {
    /// Takes out what is to be injected and what is to be sent since the last
    /// time, each in order.
    pub fn take_effects(&mut self) -> (r: (Vec<InputEvent>, Vec<(PeerId, WireMessage)>))
        ensures
            r.0@ == old(self)@.injected,
            messages_view(r.1@) == old(self)@.sent,
            final(self)@ == (FocusView {
                injected: Seq::empty(),
                sent: Seq::empty(),
                ..old(self)@
            }),
    {
        let mut events: Vec<InputEvent> = Vec::new();
        let mut messages: Vec<(PeerId, WireMessage)> = Vec::new();
        std::mem::swap(&mut self.injector.events, &mut events);
        std::mem::swap(&mut self.sender.messages, &mut messages);
        assert(self.injector.injected() =~= Seq::<InputEvent>::empty());
        assert(self.sender.sent() =~= Seq::<(Seq<char>, WireView)>::empty());
        (events, messages)
    }
}

/// Events, one after the other.
pub open spec fn after_all(f: FocusView, events: Seq<Event>) -> FocusView
    decreases events.len(),
{
    if events.len() == 0 {
        f
    } else {
        after_all(f, events.drop_last()).after(events.last())
    }
}

/// At the start this machine controls itself, and nobody was captured yet.
pub open spec fn at_start(f: FocusView) -> bool {
    f.state is Local && f.last_target is None
}

proof fn lemma_after_keeps_targets(f: FocusView, event: Event)
    requires
        f.targets_listed(),
        f.state matches StateView::Capturing { resume, .. } ==> !(*resume is Capturing),
    ensures
        f.after(event).targets_listed(),
        f.after(event).state matches StateView::Capturing { resume, .. } ==> !(*resume
            is Capturing),
        f.after(event).peers == f.peers,
{
    let moving = match event {
        Event::Local(ev) => Some(ev),
        Event::Wire(_, WireMessage::InputEvent(ev)) => Some(ev),
        _ => None,
    };
    if let Some(ev) = moving {
        if let Some(d) = f.crossed(ev) {
            lemma_peer_on_is_listed(f.peers, d);
        }
    }
}

/// Whatever happens from the start on, the peer that is captured and the last
/// one that was are peers of the list, and a capture resumes to a state that is
/// none.
pub proof fn law_targets_are_listed_peers(f: FocusView, events: Seq<Event>)
    requires
        at_start(f),
    ensures
        after_all(f, events).targets_listed(),
        after_all(f, events).state matches StateView::Capturing { resume, .. } ==> !(*resume
            is Capturing),
        after_all(f, events).peers == f.peers,
    decreases events.len(),
{
    if events.len() > 0 {
        law_targets_are_listed_peers(f, events.drop_last());
        lemma_after_keeps_targets(after_all(f, events.drop_last()), events.last());
    }
}

/// The cursor leaves the screen by the edge on the given side when it makes the
/// movement that the event carries.
pub open spec fn leaves_by(c: CursorView, ev: InputEvent, side: Direction) -> bool {
    &&& ev.event_type == 2
    &&& match side {
        Direction::Left => ev.code == 0 && c.x + ev.value < 0,
        Direction::Right => ev.code == 0 && c.x + ev.value >= c.width,
        Direction::Up => ev.code == 1 && 0 <= c.x < c.width && c.y + ev.value < 0,
        Direction::Down => ev.code == 1 && 0 <= c.x < c.width && c.y + ev.value >= c.height,
    }
}

/// The place in the list of the first peer on the given side.
pub open spec fn stands_first(peers: Seq<PeerView>, k: int, side: Direction) -> bool {
    &&& 0 <= k < peers.len()
    &&& peers[k].direction == side
    &&& forall|j: int| 0 <= j < k ==> (#[trigger] peers[j]).direction != side
}

/// The movement of the event takes the cursor off the screen towards no peer of
/// the list.
pub open spec fn leads_nowhere(f: FocusView, ev: InputEvent) -> bool {
    forall|k: int|
        0 <= k < f.peers.len() ==> !leaves_by(f.cursor, ev, (#[trigger] f.peers[k]).direction)
}

/// Along one dimension of the given size, the position after a movement: where
/// it left the screen, the middle.
pub open spec fn settled(position: int, by: int, size: nat) -> int {
    if 0 <= position + by < size {
        position + by
    } else {
        (size / 2) as int
    }
}

/// The cursor made the movement of the event, and came back to the middle of
/// the dimension along which it left the screen.
pub open spec fn cursor_followed(before: CursorView, ev: InputEvent, after: CursorView) -> bool {
    &&& after.width == before.width
    &&& after.height == before.height
    &&& ev.event_type == 2 && ev.code == 0 ==> after.x == settled(
        before.x,
        ev.value as int,
        before.width,
    )
    &&& ev.event_type == 2 && ev.code == 1 ==> after.y == settled(
        before.y,
        ev.value as int,
        before.height,
    )
    &&& !(ev.event_type == 2 && ev.code == 0) ==> after.x == before.x
    &&& !(ev.event_type == 2 && ev.code == 1) ==> after.y == before.y
}

proof fn lemma_first_on_side(peers: Seq<PeerView>, k: int, side: Direction)
    requires
        stands_first(peers, k, side),
    ensures
        peer_on(peers, side) == Some(peers[k].name),
    decreases peers.len(),
{
    if k > 0 {
        assert(peers[0].direction != side);
        let rest = peers.skip(1);
        assert forall|j: int| 0 <= j < k - 1 implies (#[trigger] rest[j]).direction != side by {
            assert(rest[j] == peers[j + 1]);
        }
        lemma_first_on_side(rest, k - 1, side);
    }
}

proof fn lemma_none_on_side(peers: Seq<PeerView>, side: Direction)
    requires
        forall|k: int| 0 <= k < peers.len() ==> (#[trigger] peers[k]).direction != side,
    ensures
        peer_on(peers, side) is None,
    decreases peers.len(),
{
    if peers.len() > 0 {
        assert(peers[0].direction != side);
        let rest = peers.skip(1);
        assert forall|k: int| 0 <= k < rest.len() implies (#[trigger] rest[k]).direction != side by {
            assert(rest[k] == peers[k + 1]);
        }
        lemma_none_on_side(rest, side);
    }
}

/// Crossing an edge hands the control to the peer on that side. A movement that
/// takes the cursor off the screen at the left, right, upper or lower edge makes
/// the first peer whose direction is left, right, up or down the one that is
/// captured: from this machine's own control as well as from a peer's. That peer
/// is told, nobody else is, and the capture will resume to the state before.
pub proof fn law_edge_hands_control_to_the_peer_on_that_side(
    f: FocusView,
    ev: InputEvent,
    side: Direction,
    k: int,
)
    requires
        !(f.state is Capturing),
        leaves_by(f.cursor, ev, side),
        stands_first(f.peers, k, side),
    ensures
        ({
            let g = match f.state {
                StateView::Receiving { source } => f.after_message(
                    source,
                    WireView::InputEvent(ev),
                ),
                _ => f.after_input(ev),
            };
            let name = f.peers[k].name;
            &&& g.state == (StateView::Capturing { target: name, resume: Box::new(f.state) })
            &&& g.last_target == Some(name)
            &&& g.sent == f.sent.push((name, WireView::FocusHandoff))
            &&& g.injected == if f.state is Local {
                f.injected
            } else {
                f.injected.push(ev)
            }
            &&& g.peers == f.peers
            &&& cursor_followed(f.cursor, ev, g.cursor)
        }),
{
    lemma_first_on_side(f.peers, k, side);
}

/// The side by which a movement leaves the screen is the one that `crossed`
/// reports.
proof fn lemma_crossed(f: FocusView, ev: InputEvent)
    requires
        f.cursor.x_on_screen(),
        f.cursor.width > 0,
        f.cursor.y_on_screen(),
        f.cursor.height > 0,
    ensures
        f.crossed(ev) matches Some(d) ==> leaves_by(f.cursor, ev, d),
        f.crossed(ev) is None ==> forall|d: Direction| !#[trigger] leaves_by(f.cursor, ev, d),
        cursor_followed(f.cursor, ev, f.moved(ev).cursor),
{
}

/// While a peer is in control, an event of that peer that leads to no peer of
/// the list is injected and moves the cursor; who is in control, the last target
/// and what was sent stay as they are.
pub proof fn law_quiet_event_is_injected_and_control_stays(
    f: FocusView,
    from: Seq<char>,
    ev: InputEvent,
)
    requires
        f.state == (StateView::Receiving { source: from }),
        0 <= f.cursor.x < f.cursor.width,
        0 <= f.cursor.y < f.cursor.height,
        leads_nowhere(f, ev),
    ensures
        ({
            let g = f.after_message(from, WireView::InputEvent(ev));
            &&& g.state == f.state
            &&& g.last_target == f.last_target
            &&& g.sent == f.sent
            &&& g.injected == f.injected.push(ev)
            &&& g.peers == f.peers
            &&& cursor_followed(f.cursor, ev, g.cursor)
            &&& 0 <= g.cursor.x < g.cursor.width
            &&& 0 <= g.cursor.y < g.cursor.height
        }),
{
    lemma_crossed(f, ev);
    if let Some(d) = f.crossed(ev) {
        lemma_none_on_side(f.peers, d);
    }
}

/// While this machine controls itself, an event that leads to no peer of the
/// list moves the cursor and does nothing else.
pub proof fn law_quiet_local_event_only_moves_the_cursor(f: FocusView, ev: InputEvent)
    requires
        f.state is Local,
        0 <= f.cursor.x < f.cursor.width,
        0 <= f.cursor.y < f.cursor.height,
        leads_nowhere(f, ev),
    ensures
        ({
            let g = f.after_input(ev);
            &&& g.state is Local
            &&& g.last_target == f.last_target
            &&& g.sent == f.sent
            &&& g.injected == f.injected
            &&& g.peers == f.peers
            &&& cursor_followed(f.cursor, ev, g.cursor)
        }),
{
    lemma_crossed(f, ev);
    if let Some(d) = f.crossed(ev) {
        lemma_none_on_side(f.peers, d);
    }
}

/// Events of one peer, one after the other.
pub open spec fn after_run(f: FocusView, from: Seq<char>, events: Seq<InputEvent>) -> FocusView
    decreases events.len(),
{
    if events.len() == 0 {
        f
    } else {
        after_run(f, from, events.drop_last()).after_message(
            from,
            WireView::InputEvent(events.last()),
        )
    }
}

/// A run of events of the peer in control, none of which leads to a peer of the
/// list, is injected whole and in order, and the peer stays in control.
pub proof fn law_quiet_run_is_injected_whole(
    f: FocusView,
    from: Seq<char>,
    events: Seq<InputEvent>,
)
    requires
        f.state == (StateView::Receiving { source: from }),
        0 <= f.cursor.x < f.cursor.width,
        0 <= f.cursor.y < f.cursor.height,
        forall|i: int|
            0 <= i < events.len() ==> leads_nowhere(
                after_run(f, from, events.take(i)),
                #[trigger] events[i],
            ),
    ensures
        ({
            let g = after_run(f, from, events);
            &&& g.state == f.state
            &&& g.last_target == f.last_target
            &&& g.sent == f.sent
            &&& g.injected == f.injected + events
            &&& g.peers == f.peers
            &&& 0 <= g.cursor.x < g.cursor.width
            &&& 0 <= g.cursor.y < g.cursor.height
        }),
    decreases events.len(),
{
    if events.len() == 0 {
        assert(f.injected + events =~= f.injected);
    } else {
        let init = events.drop_last();
        let n = events.len() - 1;
        assert forall|i: int| 0 <= i < init.len() implies leads_nowhere(
            after_run(f, from, init.take(i)),
            #[trigger] init[i],
        ) by {
            assert(init[i] == events[i]);
            assert(init.take(i) =~= events.take(i));
        }
        law_quiet_run_is_injected_whole(f, from, init);
        assert(events.take(n) =~= init);
        assert(leads_nowhere(after_run(f, from, events.take(n)), events[n]));
        law_quiet_event_is_injected_and_control_stays(
            after_run(f, from, init),
            from,
            events.last(),
        );
        assert(f.injected + init.push(events.last()) =~= (f.injected + init).push(events.last()));
        assert(init.push(events.last()) =~= events);
    }
}

/// A capture is announced: whenever a step begins to capture a peer, exactly one
/// message is sent, a handoff for that peer. Otherwise nothing is sent, but for
/// an input event, which goes on to the peer that is being captured.
pub proof fn law_capture_is_announced(f: FocusView, event: Event)
    requires
        f.state matches StateView::Capturing { resume, .. } ==> !(*resume is Capturing),
    ensures
        ({
            let g = f.after(event);
            &&& !(f.state is Capturing) && g.state is Capturing ==> g.sent == f.sent.push(
                (g.state->target, WireView::FocusHandoff),
            )
            &&& f.state is Capturing && g.state is Capturing ==> g.state == f.state
            &&& !(f.state is Capturing) && !(g.state is Capturing) ==> g.sent == f.sent
            &&& f.state is Capturing ==> g.sent == match event {
                Event::Local(ev) => if ev.event_type == 1 && ev.code == 70 && ev.value == 1 {
                    f.sent
                } else {
                    f.sent.push((f.state->target, WireView::InputEvent(ev)))
                },
                Event::Wire(_, WireMessage::InputEvent(ev)) => f.sent.push(
                    (f.state->target, WireView::InputEvent(ev)),
                ),
                _ => f.sent,
            }
            &&& g.last_target == if !(f.state is Capturing) && g.state is Capturing {
                Some(g.state->target)
            } else {
                f.last_target
            }
        }),
{
}

/// The toggle key in this machine's own control captures the last target and
/// tells it; anywhere else it sends nothing. It never injects anything and never
/// moves the cursor.
pub proof fn law_toggle_announces_the_capture(f: FocusView)
    ensures
        ({
            let g = f.after_toggle();
            &&& f.state is Local && f.last_target is Some ==> {
                &&& g.state == (StateView::Capturing {
                    target: f.last_target->0,
                    resume: Box::new(StateView::Local),
                })
                &&& g.sent == f.sent.push((f.last_target->0, WireView::FocusHandoff))
            }
            &&& !(f.state is Local && f.last_target is Some) ==> g.sent == f.sent
            &&& f.state is Capturing ==> g.state is Local
            &&& f.state is Receiving || f.last_target is None && f.state is Local ==> g.state
                == f.state
            &&& g.last_target == f.last_target
            &&& g.injected == f.injected
            &&& g.cursor == f.cursor
            &&& g.peers == f.peers
        }),
{
}

/// A handoff of the captured peer takes up the state before the capture; that of
/// any other peer gives it the control, unless a peer with a smaller name has it.
/// Nothing else changes.
pub proof fn law_handoff_decides_who_is_in_control(f: FocusView, from: Seq<char>)
    ensures
        ({
            let g = f.after_message(from, WireView::FocusHandoff);
            &&& f.state is Capturing && f.state->target == from ==> g.state == *(f.state->resume)
            &&& f.state is Receiving && name_less(f.state->source, from) ==> g.state == f.state
            &&& !(f.state is Capturing && f.state->target == from) && !(f.state is Receiving
                && name_less(f.state->source, from)) ==> g.state == (StateView::Receiving {
                source: from,
            })
            &&& g.peers == f.peers
            &&& g.cursor == f.cursor
            &&& g.last_target == f.last_target
            &&& g.injected == f.injected
            &&& g.sent == f.sent
        }),
{
}

/// While a peer is captured, an input event goes to that peer, whoever it comes
/// from; nothing else changes.
pub proof fn law_captured_input_only_goes_to_the_target(
    f: FocusView,
    from: Seq<char>,
    ev: InputEvent,
)
    requires
        f.state is Capturing,
    ensures
        ({
            let g = f.after_input(ev);
            &&& g.sent == f.sent.push((f.state->target, WireView::InputEvent(ev)))
            &&& g.state == f.state
            &&& g.peers == f.peers
            &&& g.cursor == f.cursor
            &&& g.last_target == f.last_target
            &&& g.injected == f.injected
            &&& f.after_message(from, WireView::InputEvent(ev)) == g
        }),
{
}

/// An input event of a peer that is not in control, while none is captured, and
/// a local event while a peer is in control, change nothing; nor do a clipboard
/// message and a heartbeat, at any time.
pub proof fn law_what_does_not_concern_the_focus(
    f: FocusView,
    from: Seq<char>,
    ev: InputEvent,
    text: Seq<char>,
    bytes: Seq<u8>,
)
    ensures
        f.state is Local ==> f.after_message(from, WireView::InputEvent(ev)) == f,
        f.state is Receiving && f.state->source != from ==> f.after_message(
            from,
            WireView::InputEvent(ev),
        ) == f,
        f.state is Receiving ==> f.after_input(ev) == f,
        f.after_message(from, WireView::ClipboardText(text)) == f,
        f.after_message(from, WireView::ClipboardImage { mime: text, bytes }) == f,
        f.after_message(from, WireView::Heartbeat) == f,
{
}

/// When the connection to the captured peer or to the peer in control is gone,
/// this machine controls itself again; any other loss changes nothing.
pub proof fn law_loss_of_the_peer_concerned_returns_control(f: FocusView, peer: Seq<char>)
    ensures
        ({
            let g = f.after_disconnect(peer);
            let concerned = match f.state {
                StateView::Capturing { target, .. } => target == peer,
                StateView::Receiving { source } => source == peer,
                StateView::Local => false,
            };
            &&& concerned ==> g.state is Local
            &&& !concerned ==> g.state == f.state
            &&& g.peers == f.peers
            &&& g.cursor == f.cursor
            &&& g.last_target == f.last_target
            &&& g.injected == f.injected
            &&& g.sent == f.sent
        }),
{
}

/// Each event of the daemon does what its kind says: a press of Scroll Lock
/// (key 70, value one) toggles, any other local event is input, a message is
/// that of its sender, and a loss is that of its peer.
pub proof fn law_events_are_dispatched_by_kind(f: FocusView, event: Event)
    ensures
        event matches Event::Local(ev) ==> f.after(event) == if ev.event_type == 1 && ev.code == 70
            && ev.value == 1 {
            f.after_toggle()
        } else {
            f.after_input(ev)
        },
        event matches Event::Wire(from, msg) ==> f.after(event) == f.after_message(from@, msg@),
        event matches Event::PeerDisconnected(peer) ==> f.after(event) == f.after_disconnect(
            peer@,
        ),
{
}

/// The machine is never left without control: when a peer that takes part in
/// the present state is lost, this machine controls itself again. The loss of
/// any other peer changes nothing.
pub proof fn law_lost_peer_returns_control(f: FocusView, peer: Seq<char>)
    ensures
        f.involves(peer) ==> f.after_disconnect(peer).state is Local,
        !f.involves(peer) ==> f.after_disconnect(peer) == f,
        !f.after_disconnect(peer).involves(peer),
        f.after_disconnect(peer).injected == f.injected,
        f.after_disconnect(peer).sent == f.sent,
{
}

/// A captured peer that gives the control back returns the machine to the
/// state from which the capture began.
pub proof fn law_return_resumes(f: FocusView, ev: InputEvent)
    requires
        !(f.state is Capturing),
        f.maybe_captured(ev).state is Capturing,
    ensures
        ({
            let target = f.maybe_captured(ev).state->target;
            f.maybe_captured(ev).after_handoff(target).state == f.state
        }),
{
}

/// Handoffs of peers, one after the other.
pub open spec fn after_handoffs(f: FocusView, names: Seq<Seq<char>>) -> FocusView
    decreases names.len(),
{
    if names.len() == 0 {
        f
    } else {
        after_handoffs(f, names.drop_last()).after_handoff(names.last())
    }
}

/// A name is the smallest of some names.
pub open spec fn is_smallest(name: Seq<char>, names: Seq<Seq<char>>) -> bool {
    names.contains(name) && forall|other: Seq<char>| #[trigger]
        names.contains(other) ==> !name_less(other, name)
}

/// The smallest of some names and one more.
proof fn lemma_smallest_push(least: Seq<char>, names: Seq<Seq<char>>, name: Seq<char>)
    requires
        is_smallest(least, names),
    ensures
        is_smallest(
            if name_less(least, name) {
                least
            } else {
                name
            },
            names.push(name),
        ),
{
    let more = names.push(name);
    assert forall|other: Seq<char>| #[trigger] more.contains(other) implies names.contains(other)
        || other == name by {
        let k = choose|k: int| 0 <= k < more.len() && more[k] == other;
        if k < names.len() {
            assert(names[k] == other);
        }
    }
    assert(more[names.len() as int] == name);
    let i = choose|i: int| 0 <= i < names.len() && names[i] == least;
    assert(more[i] == least);
    law_name_order_is_total(least, name);
    assert forall|other: Seq<char>| #[trigger] more.contains(other) && !name_less(
        least,
        name,
    ) implies !name_less(other, name) by {
        if other != name {
            law_name_order_is_total(other, least);
            law_name_order_is_total(other, name);
            if name_less(other, name) && least != name {
                law_name_order_is_transitive(other, name, least);
            }
        } else {
            law_name_order_is_total(name, name);
        }
    }
}

proof fn lemma_smallest_is_unique(a: Seq<char>, b: Seq<char>, names: Seq<Seq<char>>)
    requires
        is_smallest(a, names),
        is_smallest(b, names),
    ensures
        a == b,
{
    law_name_order_is_total(a, b);
}

/// When any number of peers want the control, in whatever order and however
/// often, the smallest name has it: of theirs, and of the peer that was in
/// control before, if one was. Nothing is sent or injected on that account. Left
/// out is a handoff of a peer that is being controlled, which gives the control
/// back.
pub proof fn law_any_handoffs_settle_on_smallest_name(f: FocusView, names: Seq<Seq<char>>)
    requires
        names.len() > 0,
        f.state matches StateView::Capturing { target, .. } ==> !names.contains(target),
    ensures
        ({
            let g = after_handoffs(f, names);
            let wanting = match f.state {
                StateView::Receiving { source } => seq![source] + names,
                _ => names,
            };
            &&& g.state matches StateView::Receiving { source } && is_smallest(source, wanting)
            &&& g == (FocusView { state: g.state, ..f })
        }),
    decreases names.len(),
{
    let init = names.drop_last();
    let last = names.last();
    assert(names =~= init.push(last));
    assert(names[names.len() - 1] == last);
    if init.len() == 0 {
        assert(after_handoffs(f, init) == f);
        law_name_order_is_total(last, last);
        assert forall|other: Seq<char>| #[trigger] names.contains(other) implies other == last by {
            let k = choose|k: int| 0 <= k < names.len() && names[k] == other;
            assert(k == 0);
        }
        if let StateView::Receiving { source } = f.state {
            let one = seq![source];
            assert(one[0] == source);
            law_name_order_is_total(source, source);
            assert forall|other: Seq<char>| #[trigger] one.contains(other) implies !name_less(
                other,
                source,
            ) by {
                let k = choose|k: int| 0 <= k < one.len() && one[k] == other;
                assert(k == 0);
            }
            assert(is_smallest(source, one));
            lemma_smallest_push(source, one, last);
            assert(seq![source] + names =~= one.push(last));
        }
    } else {
        if let StateView::Capturing { target, .. } = f.state {
            assert(!init.contains(target)) by {
                if init.contains(target) {
                    let k = choose|k: int| 0 <= k < init.len() && init[k] == target;
                    assert(names[k] == target);
                }
            }
        }
        law_any_handoffs_settle_on_smallest_name(f, init);
        let before = after_handoffs(f, init);
        let wanting = match f.state {
            StateView::Receiving { source } => seq![source] + init,
            _ => init,
        };
        lemma_smallest_push(before.state->source, wanting, last);
        if let StateView::Receiving { source } = f.state {
            assert(seq![source] + names =~= wanting.push(last));
        }
    }
}

/// The peers from which handoff messages come.
pub open spec fn senders_of(events: Seq<Event>) -> Seq<Seq<char>> {
    events.map_values(|e: Event| e->Wire_0@)
}

/// Every event is a handoff message of a peer.
pub open spec fn all_handoffs(events: Seq<Event>) -> bool {
    forall|i: int| 0 <= i < events.len() ==> #[trigger] events[i] matches Event::Wire(
        _,
        WireMessage::FocusHandoff,
    )
}

proof fn lemma_handoff_messages(f: FocusView, events: Seq<Event>)
    requires
        all_handoffs(events),
    ensures
        after_all(f, events) == after_handoffs(f, senders_of(events)),
    decreases events.len(),
{
    if events.len() > 0 {
        let init = events.drop_last();
        assert(senders_of(events).drop_last() =~= senders_of(init));
        assert(senders_of(events).last() == events.last()->Wire_0@);
        assert(events[events.len() - 1] == events.last());
        assert forall|i: int| 0 <= i < init.len() implies #[trigger] init[i] matches Event::Wire(
            _,
            WireMessage::FocusHandoff,
        ) by {
            assert(init[i] == events[i]);
        }
        lemma_handoff_messages(f, init);
    }
}

/// From the start on, handoff messages of any peers, in whatever order and
/// however often, leave the control with the one that has the smallest name.
pub proof fn law_handoff_messages_settle_on_smallest_name(f: FocusView, events: Seq<Event>)
    requires
        f.state is Local,
        events.len() > 0,
        all_handoffs(events),
    ensures
        after_all(f, events).state matches StateView::Receiving { source } && is_smallest(
            source,
            senders_of(events),
        ),
{
    lemma_handoff_messages(f, events);
    law_any_handoffs_settle_on_smallest_name(f, senders_of(events));
}

/// The order of the handoffs, and how often each comes, do not matter.
pub proof fn law_order_of_handoffs_does_not_matter(
    f: FocusView,
    a: Seq<Seq<char>>,
    b: Seq<Seq<char>>,
)
    requires
        a.len() > 0,
        b.len() > 0,
        forall|name: Seq<char>| #[trigger] a.contains(name) <==> b.contains(name),
        f.state matches StateView::Capturing { target, .. } ==> !a.contains(target),
    ensures
        after_handoffs(f, a) == after_handoffs(f, b),
{
    law_any_handoffs_settle_on_smallest_name(f, a);
    law_any_handoffs_settle_on_smallest_name(f, b);
    let (x, y) = match f.state {
        StateView::Receiving { source } => (seq![source] + a, seq![source] + b),
        _ => (a, b),
    };
    assert forall|name: Seq<char>| x.contains(name) == y.contains(name) by {
        if let StateView::Receiving { source } = f.state {
            lemma_contains_front(source, a, name);
            lemma_contains_front(source, b, name);
        } else {
            assert(a.contains(name) <==> b.contains(name));
        }
    }
    let (p, q) = (after_handoffs(f, a).state->source, after_handoffs(f, b).state->source);
    assert(x.contains(q) == y.contains(q));
    assert(is_smallest(q, x)) by {
        assert forall|other: Seq<char>| #[trigger] x.contains(other) implies !name_less(
            other,
            q,
        ) by {
            assert(y.contains(other));
        }
    }
    lemma_smallest_is_unique(p, q, x);
}

proof fn lemma_contains_front(first: Seq<char>, names: Seq<Seq<char>>, name: Seq<char>)
    ensures
        (seq![first] + names).contains(name) <==> name == first || names.contains(name),
{
    let all = seq![first] + names;
    assert(all[0] == first);
    if names.contains(name) {
        let k = choose|k: int| 0 <= k < names.len() && names[k] == name;
        assert(all[k + 1] == name);
    }
    if all.contains(name) && name != first {
        let k = choose|k: int| 0 <= k < all.len() && all[k] == name;
        assert(names[k - 1] == name);
    }
}

/// The toggle key switches back and forth between this machine and the last
/// target, and does nothing while a peer is in control.
pub proof fn law_toggle_switches(f: FocusView)
    ensures
        f.state is Receiving ==> f.after_toggle() == f,
        f.state is Capturing ==> f.after_toggle().state is Local,
        f.state is Local && f.last_target is Some ==> {
            &&& f.after_toggle().state == (StateView::Capturing {
                target: f.last_target->0,
                resume: Box::new(StateView::Local),
            })
            &&& f.after_toggle().after_toggle().state is Local
        },
        f.state is Local && f.last_target is None ==> f.after_toggle() == f,
        f.after_toggle().last_target == f.last_target,
{
}

/// While a peer is captured, every input event goes to it and to nobody else,
/// wherever the event comes from, and nothing is injected here.
pub proof fn law_captured_input_goes_to_target(f: FocusView, from: Seq<char>, ev: InputEvent)
    requires
        f.state is Capturing,
    ensures
        f.after_input(ev) == f.sending(f.state->target, WireView::InputEvent(ev)),
        f.after_wire_input(from, ev) == f.sending(f.state->target, WireView::InputEvent(ev)),
{
}

/// While a peer is in control, only its events are injected, each one exactly
/// once, and local events are ignored.
pub proof fn law_only_the_source_is_injected(f: FocusView, from: Seq<char>, ev: InputEvent)
    requires
        f.state is Receiving,
    ensures
        f.after_input(ev) == f,
        from != f.state->source ==> f.after_wire_input(from, ev) == f,
        from == f.state->source ==> f.after_wire_input(from, ev).injected == f.injected.push(ev),
{
}

/// A relay: a machine that is controlled by a peer and sees the cursor cross an
/// edge towards another peer hands the control on, tells that peer and nobody
/// else, and will resume to being controlled by the first one.
pub proof fn law_crossing_relays_control(f: FocusView, ev: InputEvent)
    requires
        f.state is Receiving,
        f.crossed(ev) is Some,
        peer_on(f.peers, f.crossed(ev)->0) is Some,
    ensures
        ({
            let next = peer_on(f.peers, f.crossed(ev)->0)->0;
            let g = f.after_wire_input(f.state->source, ev);
            &&& g.state == (StateView::Capturing { target: next, resume: Box::new(f.state) })
            &&& g.sent == f.sent.push((next, WireView::FocusHandoff))
            &&& g.last_target == Some(next)
        }),
{
}

/// A crossing where no peer stands keeps the control where it is.
pub proof fn law_crossing_without_peer_keeps_state(f: FocusView, ev: InputEvent)
    requires
        f.crossed(ev) matches Some(d) ==> peer_on(f.peers, d) is None,
    ensures
        f.maybe_captured(ev) == f.moved(ev),
        f.moved(ev).state == f.state,
        f.moved(ev).sent == f.sent,
{
}

/// On a screen with some width there is room for every event, and on any screen
/// for every event but a vertical movement that leaves the numbers of the
/// machine.
pub proof fn law_there_is_room(f: FocusView, ev: InputEvent, event: Event)
    ensures
        f.cursor.width > 0 ==> f.has_room(ev) && f.can_take(event),
        !(ev.event_type == 2 && ev.code == 1) && i64::MIN <= f.cursor.y <= i64::MAX ==> f.has_room(
            ev,
        ),
        ev.event_type == 2 && ev.code == 1 && i64::MIN <= f.cursor.y + ev.value <= i64::MAX
            ==> f.has_room(ev),
        event is PeerDisconnected ==> f.can_take(event),
        f.state is Capturing ==> f.can_take(event),
{
}

} // verus!
