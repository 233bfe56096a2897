//! The list of peers and the changes to it.

use crate::args::text_view;
use crate::config::{
    config_error_text, default_psk_path, direction_of, direction_text, expand_home, expanded,
    home_view, law_direction_words_are_unique,
    law_usual_place_of_a_key, law_words_for_the_directions, peer_views, usual_psk_path,
    ConfigError, ConfigFault, Direction, Home, HomeView, LocalConfig, LocalView, PeerConfig,
    PeerView,
};
use crate::path::{join, joined};
use crate::text::{
    ends_with, first_index, lemma_ends_with, lemma_first_index, lemma_is_first_index, str_eq,
    texts,
};
use vstd::prelude::*;
use vstd::string::*;

verus! {

/// Why the list of peers could not be changed or used.
#[derive(Debug)]
pub enum PeerError {
    /// No peer has this name.
    NotFound(String),
    /// A peer has this name already.
    AlreadyPresent(String),
    /// No peer has this name, which was asked for.
    NotInList(String),
    /// This text is no address, for this cause.
    BadAddr { text: String, cause: String },
    /// The configuration is at fault.
    Config(ConfigError),
}

/// What a `PeerError` says.
pub enum PeerFault {
    NotFound(Seq<char>),
    AlreadyPresent(Seq<char>),
    NotInList(Seq<char>),
    BadAddr { text: Seq<char>, cause: Seq<char> },
    Config(ConfigFault),
}

impl View for PeerError {
    type V = PeerFault;

    open spec fn view(&self) -> PeerFault {
        match self {
            PeerError::NotFound(name) => PeerFault::NotFound(name@),
            PeerError::AlreadyPresent(name) => PeerFault::AlreadyPresent(name@),
            PeerError::NotInList(name) => PeerFault::NotInList(name@),
            PeerError::BadAddr { text, cause } => PeerFault::BadAddr {
                text: text@,
                cause: cause@,
            },
            PeerError::Config(e) => PeerFault::Config(e@),
        }
    }
}

/// The text of a `PeerError`.
pub open spec fn peer_error_text(e: PeerFault) -> Seq<char> {
    match e {
        PeerFault::NotFound(name) => "peer '"@ + name + "' não encontrado"@,
        PeerFault::AlreadyPresent(name) => "peer '"@ + name + "' já cadastrado"@,
        PeerFault::NotInList(name) => "peer '"@ + name
            + "' informado em --to não existe em peers.toml"@,
        PeerFault::BadAddr { text, cause } => "--addr inválido: '"@ + text + "': "@ + cause,
        PeerFault::Config(e) => config_error_text(e),
    }
}

impl PeerError {
    /// The message shown to the user.
    pub fn message(&self) -> (r: String)
        ensures
            r@ == peer_error_text(self@),
    {
        match self {
            PeerError::NotFound(name) => {
                let mut out = "peer '".to_string();
                out.append(name.as_str());
                out.append("' não encontrado");
                out
            },
            PeerError::AlreadyPresent(name) => {
                let mut out = "peer '".to_string();
                out.append(name.as_str());
                out.append("' já cadastrado");
                out
            },
            PeerError::NotInList(name) => {
                let mut out = "peer '".to_string();
                out.append(name.as_str());
                out.append("' informado em --to não existe em peers.toml");
                out
            },
            PeerError::BadAddr { text, cause } => {
                let mut out = "--addr inválido: '".to_string();
                out.append(text.as_str());
                out.append("': ");
                out.append(cause.as_str());
                out
            },
            PeerError::Config(e) => e.message(),
        }
    }
}

/// The names of the peers, in order.
pub open spec fn names_of(peers: Seq<PeerView>) -> Seq<Seq<char>> {
    peers.map_values(|p: PeerView| p.name)
}

/// The position of the first peer with a name.
pub open spec fn peer_index(peers: Seq<PeerView>, name: Seq<char>) -> Option<int> {
    first_index(names_of(peers), name)
}

/// No two peers have the same name.
pub open spec fn distinct(peers: Seq<PeerView>) -> bool {
    names_of(peers).no_duplicates()
}

/// Finds the first peer with a name.
pub fn find_peer(peers: &Vec<PeerConfig>, name: &str) -> (r: Option<usize>)
    ensures
        match r {
            Some(i) => i < peers@.len() && peer_index(peer_views(peers@), name@) == Some(i as int),
            None => peer_index(peer_views(peers@), name@) is None,
        },
{
    let ghost names = names_of(peer_views(peers@));
    let mut i: usize = 0;
    while i < peers.len()
        invariant
            i <= peers@.len(),
            names == names_of(peer_views(peers@)),
            forall|k: int| 0 <= k < i ==> #[trigger] names[k] != name@,
        decreases peers@.len() - i,
    {
        assert(names[i as int] == peers@[i as int].name@);
        if str_eq(peers[i].name.as_str(), name) {
            proof {
                lemma_is_first_index(names, name@, i as int);
            }
            return Some(i);
        }
        i = i + 1;
    }
    proof {
        lemma_first_index(names, name@);
    }
    None
}

/// The line that shows a peer.
pub open spec fn peer_line(peer: PeerView) -> Seq<char> {
    peer.name + "\t"@ + peer.addr + "\t"@ + direction_text(peer.direction)
}

/// Writes the line that shows a peer.
pub fn format_peer(peer: &PeerConfig) -> (r: String)
    ensures
        r@ == peer_line(peer@),
{
    let mut out = peer.name.clone();
    out.append("\t");
    out.append(peer.addr.as_str());
    out.append("\t");
    out.append(peer.direction.as_str());
    out
}

/// The lines that show some peers.
pub open spec fn peer_lines(peers: Seq<PeerView>) -> Seq<char>
    decreases peers.len(),
{
    if peers.len() == 0 {
        Seq::empty()
    } else if peers.len() == 1 {
        peer_line(peers[0])
    } else {
        peer_lines(peers.drop_last()) + "\n"@ + peer_line(peers.last())
    }
}

/// Shows the list of peers: a line each, with name, address and direction. An
/// empty list is said to be empty.
pub fn format_peer_list(peers: &[PeerConfig]) -> (r: String)
    ensures
        r@ == if peers@.len() == 0 {
            "nenhum peer cadastrado (rode 'kvmc-share peer add')"@
        } else {
            peer_lines(peer_views(peers@))
        },
{
    if peers.len() == 0 {
        return "nenhum peer cadastrado (rode 'kvmc-share peer add')".to_string();
    }
    let ghost views = peer_views(peers@);
    let mut out = format_peer(&peers[0]);
    assert(views.take(1)[0] == peers@[0]@);
    let mut i: usize = 1;
    while i < peers.len()
        invariant
            1 <= i <= peers@.len(),
            views == peer_views(peers@),
            out@ == peer_lines(views.take(i as int)),
        decreases peers@.len() - i,
    {
        out.append("\n");
        out.append(format_peer(&peers[i]).as_str());
        proof {
            assert(views.take(i + 1).drop_last() =~= views.take(i as int));
            assert(views.take(i + 1).last() == peers@[i as int]@);
        }
        i = i + 1;
    }
    assert(views.take(i as int) =~= views);
    out
}

/// The key path of a new peer: the one given, or the usual place under the home
/// directory.
pub open spec fn chosen_psk_path(
    name: Seq<char>,
    given: Option<Seq<char>>,
    home: HomeView,
) -> Result<Seq<char>, ConfigFault> {
    match given {
        Some(path) => Ok(path),
        None => expanded(joined("~"@, usual_psk_path(name)), home),
    }
}

/// What is known of an address that was given as text: how it is written
/// canonically, or why the text is none.
pub type Address = Result<String, String>;

/// An `Address`, as mathematical values.
pub type AddressView = Result<Seq<char>, Seq<char>>;

/// What is known of an address.
pub open spec fn address_view(address: Address) -> AddressView {
    match address {
        Ok(address) => Ok(address@),
        Err(cause) => Err(cause@),
    }
}

/// A new peer out of what the command line gives. `resolved` is the address
/// that the text stands for.
pub open spec fn new_peer(
    name: Seq<char>,
    addr: Seq<char>,
    resolved: AddressView,
    direction: Seq<char>,
    psk_path: Option<Seq<char>>,
    home: HomeView,
) -> Result<PeerView, PeerFault> {
    match resolved {
        Err(cause) => Err(PeerFault::BadAddr { text: addr, cause }),
        Ok(address) => match direction_of(direction) {
            None => Err(PeerFault::Config(ConfigFault::BadDirection(direction))),
            Some(d) => match chosen_psk_path(name, psk_path, home) {
                Err(e) => Err(PeerFault::Config(e)),
                Ok(path) => Ok(
                    PeerView { name, addr: address, psk_path: path, direction: d },
                ),
            },
        },
    }
}

/// The result of a change as a mathematical value.
pub open spec fn peer_result(r: Result<PeerConfig, PeerError>) -> Result<PeerView, PeerFault> {
    match r {
        Ok(peer) => Ok(peer@),
        Err(e) => Err(e@),
    }
}

/// Makes a new peer out of what the command line gives. `resolved` is the
/// address that `addr` stands for.
pub fn build_new_peer(
    name: &str,
    addr: &str,
    resolved: Address,
    direction: &str,
    psk_path_override: Option<String>,
    home: &Home,
) -> (r: Result<PeerConfig, PeerError>)
    ensures
        peer_result(r) == new_peer(
            name@,
            addr@,
            address_view(resolved),
            direction@,
            text_view(psk_path_override),
            home_view(*home),
        ),
        r matches Ok(peer) ==> {
            &&& peer.name@ == name@
            &&& resolved matches Ok(address) && peer.addr@ == address@
            &&& direction@ == match peer.direction {
                Direction::Left => "left"@,
                Direction::Right => "right"@,
                Direction::Up => "up"@,
                Direction::Down => "down"@,
            }
            &&& psk_path_override matches Some(path) ==> peer.psk_path@ == path@
            &&& psk_path_override is None && !(name@.len() > 0 && name@[0] == '/') ==> (
            *home matches Ok(dir) && peer.psk_path@ == joined(
                dir@,
                ".config/kvmc-share/peers/"@ + name@ + ".psk"@,
            ))
        },
        resolved is Ok && (direction@ == "left"@ || direction@ == "right"@ || direction@ == "up"@
            || direction@ == "down"@) && (psk_path_override is Some || *home is Ok) ==> r is Ok,
{
    proof {
        law_new_peer_is_what_was_asked_for(
            name@,
            addr@,
            address_view(resolved),
            direction@,
            text_view(psk_path_override),
            home_view(*home),
        );
    }
    let address = match resolved {
        Ok(address) => address,
        Err(cause) => {
            return Err(PeerError::BadAddr { text: addr.to_string(), cause });
        },
    };
    let direction = match Direction::parse(direction) {
        Ok(direction) => direction,
        Err(e) => {
            return Err(PeerError::Config(e));
        },
    };
    let psk_path = match psk_path_override {
        Some(path) => path,
        None => {
            let usual = join("~", default_psk_path(name).as_str());
            match expand_home(usual.as_str(), home) {
                Ok(path) => path,
                Err(e) => {
                    return Err(PeerError::Config(e));
                },
            }
        },
    };
    Ok(PeerConfig { name: name.to_string(), addr: address, psk_path, direction })
}

/// Adds a peer at the end, unless one of that name is there.
pub fn add_peer_to_list(peers: &mut Vec<PeerConfig>, peer: PeerConfig) -> (r: Result<(), PeerError>)
    ensures
        match r {
            Ok(_) => {
                &&& peer_index(peer_views(old(peers)@), peer.name@) is None
                &&& peer_views(final(peers)@) == peer_views(old(peers)@).push(peer@)
            },
            Err(e) => {
                &&& e@ == PeerFault::AlreadyPresent(peer.name@)
                &&& peer_index(peer_views(old(peers)@), peer.name@) is Some
                &&& final(peers)@ == old(peers)@
            },
        },
{
    match find_peer(peers, peer.name.as_str()) {
        Some(_) => Err(PeerError::AlreadyPresent(peer.name)),
        None => {
            peers.push(peer);
            assert(peer_views(peers@) =~= peer_views(old(peers)@).push(peer@));
            Ok(())
        },
    }
}

/// A peer with some of its fields replaced.
pub open spec fn edited(
    peer: PeerView,
    addr: Option<Seq<char>>,
    direction: Option<Direction>,
) -> PeerView {
    PeerView {
        addr: match addr {
            Some(addr) => addr,
            None => peer.addr,
        },
        direction: match direction {
            Some(direction) => direction,
            None => peer.direction,
        },
        ..peer
    }
}

/// Replaces the given fields of a peer; the other fields, and the other peers,
/// stay as they are.
pub fn apply_peer_edit(
    peers: &mut Vec<PeerConfig>,
    name: &str,
    addr: Option<String>,
    direction: Option<Direction>,
) -> (r: Result<(), PeerError>)
    ensures
        match peer_index(peer_views(old(peers)@), name@) {
            Some(i) => {
                &&& r is Ok
                &&& peer_views(final(peers)@) == peer_views(old(peers)@).update(
                    i,
                    edited(peer_views(old(peers)@)[i], text_view(addr), direction),
                )
            },
            None => {
                &&& r matches Err(e) && e@ == PeerFault::NotFound(name@)
                &&& final(peers)@ == old(peers)@
            },
        },
{
    let i: usize = match find_peer(peers, name) {
        Some(i) => i,
        None => {
            return Err(PeerError::NotFound(name.to_string()));
        },
    };
    let mut peer = peers[i].clone();
    if let Some(addr) = addr {
        peer.addr = addr;
    }
    if let Some(direction) = direction {
        peer.direction = direction;
    }
    peers.set(i, peer);
    assert(peer_views(peers@) =~= peer_views(old(peers)@).update(i as int, peer@));
    Ok(())
}

/// Takes a peer out of the list.
pub fn remove_peer(peers: &mut Vec<PeerConfig>, name: &str) -> (r: Result<PeerConfig, PeerError>)
    ensures
        match peer_index(peer_views(old(peers)@), name@) {
            Some(i) => {
                &&& r matches Ok(peer) && peer@ == peer_views(old(peers)@)[i]
                &&& peer_views(final(peers)@) == peer_views(old(peers)@).remove(i)
            },
            None => {
                &&& r matches Err(e) && e@ == PeerFault::NotFound(name@)
                &&& final(peers)@ == old(peers)@
            },
        },
{
    match find_peer(peers, name) {
        Some(i) => {
            let peer = peers.remove(i);
            assert(peer_views(peers@) =~= peer_views(old(peers)@).remove(i as int));
            Ok(peer)
        },
        None => Err(PeerError::NotFound(name.to_string())),
    }
}

/// This machine with some of its fields replaced.
pub open spec fn local_edited(
    local: LocalView,
    name: Option<Seq<char>>,
    width: Option<u32>,
    height: Option<u32>,
    listen: Option<Seq<char>>,
) -> LocalView {
    LocalView {
        name: match name {
            Some(name) => name,
            None => local.name,
        },
        width: match width {
            Some(width) => width,
            None => local.width,
        },
        height: match height {
            Some(height) => height,
            None => local.height,
        },
        listen: match listen {
            Some(listen) => listen,
            None => local.listen,
        },
    }
}

/// Replaces the given fields of this machine's configuration.
pub fn apply_local_edit(
    local: &mut LocalConfig,
    name: Option<String>,
    width: Option<u32>,
    height: Option<u32>,
    listen: Option<String>,
)
    ensures
        final(local)@ == local_edited(
            old(local)@,
            text_view(name),
            width,
            height,
            text_view(listen),
        ),
{
    if let Some(name) = name {
        local.name = name;
    }
    if let Some(width) = width {
        local.width = width;
    }
    if let Some(height) = height {
        local.height = height;
    }
    if let Some(listen) = listen {
        local.listen = listen;
    }
}

/// The first name that no peer has.
pub open spec fn first_unknown(peers: Seq<PeerView>, to: Seq<Seq<char>>) -> Option<Seq<char>>
    decreases to.len(),
{
    if to.len() == 0 {
        None
    } else if peer_index(peers, to[0]) is None {
        Some(to[0])
    } else {
        first_unknown(peers, to.skip(1))
    }
}

/// The peers whose names are asked for, in the order of the list.
pub open spec fn selected(peers: Seq<PeerView>, to: Seq<Seq<char>>) -> Seq<PeerView>
    decreases peers.len(),
{
    if peers.len() == 0 {
        Seq::empty()
    } else if to.contains(peers.last().name) {
        selected(peers.drop_last(), to).push(peers.last())
    } else {
        selected(peers.drop_last(), to)
    }
}

/// Restricts the peers to those whose names are asked for. No names mean all
/// peers; a name may be given twice; a name that no peer has is an error, and
/// the first such name is reported.
pub fn filter_peers_by_to(peers: Vec<PeerConfig>, to: &[String]) -> (r: Result<
    Vec<PeerConfig>,
    PeerError,
>)
    ensures
        match r {
            Ok(kept) => {
                &&& to@.len() > 0 ==> first_unknown(peer_views(peers@), texts(to@)) is None
                &&& peer_views(kept@) == if to@.len() == 0 {
                    peer_views(peers@)
                } else {
                    selected(peer_views(peers@), texts(to@))
                }
            },
            Err(e) => {
                &&& to@.len() > 0
                &&& first_unknown(peer_views(peers@), texts(to@)) matches Some(name) && e@
                    == PeerFault::NotInList(name)
            },
        },
{
    if to.len() == 0 {
        return Ok(peers);
    }
    let ghost views = peer_views(peers@);
    let ghost wanted = texts(to@);
    let mut i: usize = 0;
    assert(wanted.skip(0) =~= wanted);
    while i < to.len()
        invariant
            i <= to@.len(),
            to@.len() > 0,
            views == peer_views(peers@),
            wanted == texts(to@),
            first_unknown(views, wanted) == first_unknown(views, wanted.skip(i as int)),
        decreases to@.len() - i,
    {
        assert(wanted.skip(i as int)[0] == to@[i as int]@);
        assert(wanted.skip(i as int).skip(1) =~= wanted.skip(i + 1));
        if find_peer(&peers, to[i].as_str()).is_none() {
            return Err(PeerError::NotInList(to[i].clone()));
        }
        i = i + 1;
    }
    let mut kept: Vec<PeerConfig> = Vec::new();
    let mut k: usize = 0;
    proof {
        assert(views.take(0) =~= Seq::<PeerView>::empty());
        assert(peer_views(kept@) =~= Seq::<PeerView>::empty());
    }
    while k < peers.len()
        invariant
            k <= peers@.len(),
            views == peer_views(peers@),
            wanted == texts(to@),
            peer_views(kept@) == selected(views.take(k as int), wanted),
        decreases peers@.len() - k,
    {
        let ghost before = kept@;
        proof {
            assert(views.take(k + 1).drop_last() =~= views.take(k as int));
            assert(views.take(k + 1).last() == peers@[k as int]@);
        }
        if contains_text(to, peers[k].name.as_str()) {
            kept.push(peers[k].clone());
            assert(peer_views(kept@) =~= peer_views(before).push(peers@[k as int]@));
        }
        k = k + 1;
    }
    assert(views.take(k as int) =~= views);
    Ok(kept)
}

/// Whether a list holds a text.
fn contains_text(list: &[String], text: &str) -> (r: bool)
    ensures
        r == texts(list@).contains(text@),
{
    let mut i: usize = 0;
    while i < list.len()
        invariant
            i <= list@.len(),
            forall|k: int| 0 <= k < i ==> #[trigger] texts(list@)[k] != text@,
        decreases list@.len() - i,
    {
        assert(texts(list@)[i as int] == list@[i as int]@);
        if str_eq(list[i].as_str(), text) {
            return true;
        }
        i = i + 1;
    }
    false
}

/// Names stay distinct when a peer is added whose name is new, when one is
/// edited, and when one is removed.
pub proof fn law_names_stay_distinct(
    peers: Seq<PeerView>,
    added: PeerView,
    addr: Option<Seq<char>>,
    direction: Option<Direction>,
    i: int,
)
    requires
        distinct(peers),
    ensures
        peer_index(peers, added.name) is None ==> distinct(peers.push(added)),
        0 <= i < peers.len() ==> distinct(peers.update(i, edited(peers[i], addr, direction))),
        0 <= i < peers.len() ==> distinct(peers.remove(i)),
{
    let names = names_of(peers);
    if peer_index(peers, added.name) is None {
        lemma_first_index(names, added.name);
        assert(names_of(peers.push(added)) =~= names.push(added.name));
        assert forall|k: int, l: int| 0 <= k < l < names.push(added.name).len() implies names.push(
            added.name,
        )[k] != names.push(added.name)[l] by {
            if l == names.len() {
                assert(names.contains(names[k]));
            }
        }
    }
    if 0 <= i < peers.len() {
        assert(names_of(peers.update(i, edited(peers[i], addr, direction))) =~= names);
        assert(names_of(peers.remove(i)) =~= names.remove(i));
    }
}

/// Removing a peer that was just added gives the list back.
pub proof fn law_remove_undoes_add(peers: Seq<PeerView>, peer: PeerView)
    requires
        peer_index(peers, peer.name) is None,
    ensures
        peer_index(peers.push(peer), peer.name) == Some(peers.len() as int),
        peers.push(peer)[peers.len() as int] == peer,
        peers.push(peer).remove(peers.len() as int) == peers,
{
    let names = names_of(peers);
    let more = names_of(peers.push(peer));
    lemma_first_index(names, peer.name);
    assert forall|k: int| 0 <= k < peers.len() implies #[trigger] more[k] != peer.name by {
        assert(names.contains(names[k]));
    }
    lemma_is_first_index(more, peer.name, peers.len() as int);
    assert(peers.push(peer).remove(peers.len() as int) =~= peers);
}

/// An edit keeps the name and the key path of the peer, and every other peer.
pub proof fn law_edit_keeps_the_rest(
    peers: Seq<PeerView>,
    i: int,
    addr: Option<Seq<char>>,
    direction: Option<Direction>,
)
    requires
        0 <= i < peers.len(),
    ensures
        ({
            let after = peers.update(i, edited(peers[i], addr, direction));
            &&& after.len() == peers.len()
            &&& after[i].name == peers[i].name
            &&& after[i].psk_path == peers[i].psk_path
            &&& forall|k: int| 0 <= k < peers.len() && k != i ==> #[trigger] after[k] == peers[k]
        }),
        edited(peers[i], None, None) == peers[i],
{
}

proof fn lemma_selected(peers: Seq<PeerView>, to: Seq<Seq<char>>, p: PeerView)
    ensures
        selected(peers, to).contains(p) <==> peers.contains(p) && to.contains(p.name),
        selected(peers, to).len() <= peers.len(),
    decreases peers.len(),
{
    if peers.len() > 0 {
        let init = peers.drop_last();
        let last = peers.last();
        lemma_selected(init, to, p);
        let rest = selected(init, to);
        assert(peers =~= init.push(last));
        assert(peers.contains(p) <==> init.contains(p) || p == last) by {
            if init.contains(p) {
                let k = choose|k: int| 0 <= k < init.len() && init[k] == p;
                assert(peers[k] == p);
            }
            if p == last {
                assert(peers[peers.len() - 1] == p);
            }
        }
        assert(rest.push(last).contains(p) <==> rest.contains(p) || p == last) by {
            if rest.contains(p) {
                let k = choose|k: int| 0 <= k < rest.len() && rest[k] == p;
                assert(rest.push(last)[k] == p);
            }
            if p == last {
                assert(rest.push(last)[rest.len() as int] == p);
            }
        }
    }
}

/// A restriction keeps exactly the peers that were asked for. A name given
/// twice counts once.
pub proof fn law_selection_keeps_what_was_asked(
    peers: Seq<PeerView>,
    to: Seq<Seq<char>>,
    p: PeerView,
)
    ensures
        selected(peers, to).contains(p) <==> peers.contains(p) && to.contains(p.name),
        selected(peers, to).len() <= peers.len(),
        distinct(peers) ==> distinct(selected(peers, to)),
{
    lemma_selected(peers, to, p);
    if distinct(peers) {
        lemma_selected_distinct(peers, to);
    }
}

proof fn lemma_selected_distinct(peers: Seq<PeerView>, to: Seq<Seq<char>>)
    requires
        distinct(peers),
    ensures
        distinct(selected(peers, to)),
    decreases peers.len(),
{
    if peers.len() > 0 {
        let init = peers.drop_last();
        let last = peers.last();
        let names = names_of(peers);
        assert(names_of(init) =~= names.drop_last());
        lemma_selected_distinct(init, to);
        let rest = selected(init, to);
        let kept = names_of(rest.push(last));
        assert forall|k: int, l: int| 0 <= k < l < kept.len() implies kept[k] != kept[l] by {
            if l == rest.len() {
                lemma_selected(init, to, rest[k]);
                assert(rest.contains(rest[k]));
                let m = choose|m: int| 0 <= m < init.len() && init[m] == rest[k];
                assert(names[m] == rest[k].name);
                assert(names[peers.len() - 1] == last.name);
            } else {
                assert(names_of(rest)[k] == kept[k]);
                assert(names_of(rest)[l] == kept[l]);
            }
        }
    }
}

/// A new peer has the name that was given, exactly the address that the text
/// stands for, the direction of the word, and the key path that was given, or
/// else the usual one under the home directory. It is made wherever there is an
/// address, one of the four words, and a key path to be had.
pub proof fn law_new_peer_is_what_was_asked_for(
    name: Seq<char>,
    addr: Seq<char>,
    resolved: AddressView,
    direction: Seq<char>,
    psk_path: Option<Seq<char>>,
    home: HomeView,
)
    ensures
        new_peer(name, addr, resolved, direction, psk_path, home) matches Ok(p) ==> {
            &&& p.name == name
            &&& resolved == Ok::<Seq<char>, Seq<char>>(p.addr)
            &&& direction == match p.direction {
                Direction::Left => "left"@,
                Direction::Right => "right"@,
                Direction::Up => "up"@,
                Direction::Down => "down"@,
            }
            &&& psk_path matches Some(path) ==> p.psk_path == path
            &&& psk_path is None && !(name.len() > 0 && name[0] == '/') ==> (home matches Ok(dir)
                && p.psk_path == joined(dir, ".config/kvmc-share/peers/"@ + name + ".psk"@))
        },
        resolved is Ok && (direction == "left"@ || direction == "right"@ || direction == "up"@
            || direction == "down"@) && (psk_path is Some || home is Ok) ==> new_peer(
            name,
            addr,
            resolved,
            direction,
            psk_path,
            home,
        ) is Ok,
        resolved matches Err(cause) ==> new_peer(name, addr, resolved, direction, psk_path, home)
            == Err::<PeerView, PeerFault>(PeerFault::BadAddr { text: addr, cause }),
        resolved is Ok && direction_of(direction) is None ==> new_peer(
            name,
            addr,
            resolved,
            direction,
            psk_path,
            home,
        ) == Err::<PeerView, PeerFault>(PeerFault::Config(ConfigFault::BadDirection(direction))),
{
    law_words_for_the_directions();
    lemma_direction_word(direction);
    if psk_path is None && !(name.len() > 0 && name[0] == '/') {
        law_usual_place_of_a_key(
            name,
            match home {
                Ok(dir) => dir,
                Err(cause) => cause,
            },
        );
    }
}

proof fn lemma_direction_word(word: Seq<char>)
    ensures
        direction_of(word) matches Some(d) ==> word == match d {
            Direction::Left => "left"@,
            Direction::Right => "right"@,
            Direction::Up => "up"@,
            Direction::Down => "down"@,
        },
{
    if direction_of(word) is Some {
        law_direction_words_are_unique(word);
    }
}

/// An edit puts the given address and the given direction in their places, and
/// keeps every field for which nothing was given.
pub proof fn law_edited_fields(
    peer: PeerView,
    addr: Option<Seq<char>>,
    direction: Option<Direction>,
)
    ensures
        ({
            let p = edited(peer, addr, direction);
            &&& p.name == peer.name
            &&& p.psk_path == peer.psk_path
            &&& addr matches Some(a) ==> p.addr == a
            &&& addr is None ==> p.addr == peer.addr
            &&& direction matches Some(d) ==> p.direction == d
            &&& direction is None ==> p.direction == peer.direction
        }),
{
}

/// An edit of this machine puts each given field in its place, and keeps every
/// field for which nothing was given.
pub proof fn law_local_edited_fields(
    local: LocalView,
    name: Option<Seq<char>>,
    width: Option<u32>,
    height: Option<u32>,
    listen: Option<Seq<char>>,
)
    ensures
        ({
            let l = local_edited(local, name, width, height, listen);
            &&& name matches Some(v) ==> l.name == v
            &&& name is None ==> l.name == local.name
            &&& width matches Some(v) ==> l.width == v
            &&& width is None ==> l.width == local.width
            &&& height matches Some(v) ==> l.height == v
            &&& height is None ==> l.height == local.height
            &&& listen matches Some(v) ==> l.listen == v
            &&& listen is None ==> l.listen == local.listen
        }),
{
}

/// The peer that a name stands for is the first of that name, if there is one.
pub proof fn law_name_stands_for_the_first_peer_of_it(peers: Seq<PeerView>, name: Seq<char>)
    ensures
        match peer_index(peers, name) {
            Some(i) => {
                &&& 0 <= i < peers.len()
                &&& peers[i].name == name
                &&& forall|j: int| 0 <= j < i ==> (#[trigger] peers[j]).name != name
            },
            None => forall|j: int| 0 <= j < peers.len() ==> (#[trigger] peers[j]).name != name,
        },
{
    let names = names_of(peers);
    lemma_first_index(names, name);
    match peer_index(peers, name) {
        Some(i) => {
            assert(names[i] == peers[i].name);
            assert forall|j: int| 0 <= j < i implies (#[trigger] peers[j]).name != name by {
                assert(names[j] != name);
            }
        },
        None => {
            assert forall|j: int| 0 <= j < peers.len() implies (#[trigger] peers[j]).name != name by {
                assert(names.contains(names[j]));
            }
        },
    }
}

/// A name that was asked for is unknown where no peer has it, and the first such
/// name is the one that is reported.
pub proof fn law_first_unknown_name_is_reported(
    peers: Seq<PeerView>,
    to: Seq<Seq<char>>,
    i: int,
)
    requires
        0 <= i <= to.len(),
        forall|j: int|
            0 <= j < i ==> exists|k: int|
                0 <= k < peers.len() && (#[trigger] peers[k]).name == #[trigger] to[j],
        i < to.len() ==> forall|k: int|
            0 <= k < peers.len() ==> (#[trigger] peers[k]).name != to[i],
    ensures
        first_unknown(peers, to) == if i < to.len() {
            Some(to[i])
        } else {
            None
        },
    decreases to.len(),
{
    if to.len() > 0 {
        law_name_stands_for_the_first_peer_of_it(peers, to[0]);
        if i > 0 {
            let k = choose|k: int| 0 <= k < peers.len() && (#[trigger] peers[k]).name == to[0];
            let rest = to.skip(1);
            assert forall|j: int| 0 <= j < i - 1 implies exists|k: int|
                0 <= k < peers.len() && (#[trigger] peers[k]).name == #[trigger] rest[j] by {
                assert(rest[j] == to[j + 1]);
                let m = choose|m: int|
                    0 <= m < peers.len() && (#[trigger] peers[m]).name == to[j + 1];
                assert(peers[m].name == rest[j]);
            }
            law_first_unknown_name_is_reported(peers, rest, i - 1);
        }
    }
}

/// A restriction looks at each peer by itself and keeps their order: of two
/// lists put together it keeps what it keeps of each, and of one peer it keeps
/// that peer where its name was asked for.
pub proof fn law_restriction_keeps_the_order(
    a: Seq<PeerView>,
    b: Seq<PeerView>,
    p: PeerView,
    to: Seq<Seq<char>>,
)
    ensures
        selected(a + b, to) == selected(a, to) + selected(b, to),
        selected(seq![p], to) == if exists|k: int| 0 <= k < to.len() && #[trigger] to[k] == p.name {
            seq![p]
        } else {
            Seq::empty()
        },
    decreases b.len(),
{
    let one = seq![p];
    assert(one.drop_last() =~= Seq::<PeerView>::empty());
    assert(selected(one.drop_last(), to) =~= Seq::<PeerView>::empty());
    if exists|k: int| 0 <= k < to.len() && #[trigger] to[k] == p.name {
        assert(to.contains(p.name));
        assert(selected(one, to) =~= seq![p]);
    }
    if b.len() == 0 {
        assert(a + b =~= a);
        assert(selected(a, to) + selected(b, to) =~= selected(a, to));
    } else {
        law_restriction_keeps_the_order(a, b.drop_last(), p, to);
        assert((a + b).drop_last() =~= a + b.drop_last());
        assert((a + b).last() == b.last());
        assert(selected(a + b, to) =~= selected(a, to) + selected(b, to));
    }
}

/// The list is shown line by line, in order: the lines of two lists are those of
/// the first and those of the second, each line being name, address and
/// direction with a tab between.
pub proof fn law_list_is_shown_line_by_line(a: Seq<PeerView>, b: Seq<PeerView>, p: PeerView)
    requires
        a.len() > 0,
        b.len() > 0,
    ensures
        peer_lines(a + b) == peer_lines(a) + "\n"@ + peer_lines(b),
        peer_lines(seq![p]) == p.name + "\t"@ + p.addr + "\t"@ + match p.direction {
            Direction::Left => "left"@,
            Direction::Right => "right"@,
            Direction::Up => "up"@,
            Direction::Down => "down"@,
        },
    decreases b.len(),
{
    let all = a + b;
    assert(all.last() == b.last());
    if b.len() == 1 {
        assert(all.drop_last() =~= a);
    } else {
        assert(all.drop_last() =~= a + b.drop_last());
        law_list_is_shown_line_by_line(a, b.drop_last(), p);
        let (x, y, z) = (peer_lines(a), peer_lines(b.drop_last()), peer_line(b.last()));
        assert(x + "\n"@ + y + "\n"@ + z =~= x + "\n"@ + (y + "\n"@ + z));
    }
}

/// An address that is none is reported with the text and the cause.
pub proof fn law_peer_error_tells_its_cause(text: Seq<char>, cause: Seq<char>, e: ConfigFault)
    ensures
        ends_with(
            peer_error_text(PeerFault::BadAddr { text, cause }),
            "'"@ + text + "': "@ + cause,
        ),
        peer_error_text(PeerFault::Config(e)) == config_error_text(e),
{
    reveal_strlit("--addr inválido: '");
    reveal_strlit("--addr inválido: ");
    reveal_strlit("'");
    let end = "'"@ + text + "': "@ + cause;
    lemma_ends_with("--addr inválido: "@, end);
    assert("--addr inválido: '"@ =~= "--addr inválido: "@ + "'"@);
    assert("--addr inválido: '"@ + text + "': "@ + cause =~= "--addr inválido: "@ + end);
}

} // verus!
