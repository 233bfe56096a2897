//! The commands: what the arguments ask for, and what each command does to the
//! configuration that the program has loaded.
//!
//! A command that changes something tells the program what to save and what to
//! say. Loading, saving and asking the user are left to the program.

use crate::args::{flag_value, take_flag, text_view, without_flag};
use crate::config::{
    default_psk_path, direction_of, direction_text, expand_home, expanded, home_view, peer_views,
    usual_psk_path, ConfigFault, Direction, Home, LocalConfig, LocalView, PeerConfig, PeerView,
};
use crate::path::{join, joined};
use crate::peers::{
    add_peer_to_list, address_view, apply_local_edit, apply_peer_edit, build_new_peer, edited,
    find_peer, format_peer, law_name_stands_for_the_first_peer_of_it, local_edited, names_of,
    new_peer, peer_error_text, peer_index, peer_line, remove_peer, Address, AddressView,
    PeerError, PeerFault,
};
use crate::text::{
    decimal, decimal_text, ends_with, is_space, law_trim_drops_the_space_around, lemma_ends_with,
    lemma_first_index, lemma_is_first_index, number_error_text, parse_u32, parsed_u32, str_eq,
    texts, trim, trimmed, NumberError,
};
use vstd::prelude::*;
use vstd::string::*;

verus! {

/// A command whose arguments were not understood.
#[derive(Debug, Clone, Copy, PartialEq, Eq, Structural)]
pub enum Usage {
    PeerAdd,
    PeerEdit,
    PeerRm,
    Keygen,
}

/// Why a command was refused.
#[derive(Debug)]
pub enum CliError {
    /// The arguments do not fit the command.
    Usage(Usage),
    /// A new peer needs a direction.
    DirectionRequired,
    /// The new address is none, for this cause.
    BadAddr(String),
    /// The new width is no number.
    BadWidth(NumberError),
    /// The new height is no number.
    BadHeight(NumberError),
    /// The list of peers does not allow it.
    Peer(PeerError),
}

/// What a `CliError` says.
pub enum CliFault {
    Usage(Usage),
    DirectionRequired,
    BadAddr(Seq<char>),
    BadWidth(NumberError),
    BadHeight(NumberError),
    Peer(PeerFault),
}

impl View for CliError {
    type V = CliFault;

    open spec fn view(&self) -> CliFault {
        match self {
            CliError::Usage(u) => CliFault::Usage(*u),
            CliError::DirectionRequired => CliFault::DirectionRequired,
            CliError::BadAddr(cause) => CliFault::BadAddr(cause@),
            CliError::BadWidth(e) => CliFault::BadWidth(*e),
            CliError::BadHeight(e) => CliFault::BadHeight(*e),
            CliError::Peer(e) => CliFault::Peer(e@),
        }
    }
}

/// The text of a `CliError`.
pub open spec fn cli_error_text(e: CliFault) -> Seq<char> {
    match e {
        CliFault::Usage(Usage::PeerAdd) =>
            "uso: kvmc-share peer add <nome> --addr <ip:porta> --direction <dir>"@,
        CliFault::Usage(Usage::PeerEdit) =>
            "uso: kvmc-share peer edit <nome> [--addr ...] [--direction ...]"@,
        CliFault::Usage(Usage::PeerRm) => "uso: kvmc-share peer rm <nome>"@,
        CliFault::Usage(Usage::Keygen) => "uso: kvmc-share keygen <peer-name> <ip>"@,
        CliFault::DirectionRequired => "--direction é obrigatório"@,
        CliFault::BadAddr(cause) => "--addr inválido: "@ + cause,
        CliFault::BadWidth(e) => "--width inválido: "@ + number_error_text(e),
        CliFault::BadHeight(e) => "--height inválido: "@ + number_error_text(e),
        CliFault::Peer(e) => peer_error_text(e),
    }
}

impl CliError {
    /// The message shown to the user.
    pub fn message(&self) -> (r: String)
        ensures
            r@ == cli_error_text(self@),
    {
        match self {
            CliError::Usage(Usage::PeerAdd) =>
                "uso: kvmc-share peer add <nome> --addr <ip:porta> --direction <dir>".to_string(),
            CliError::Usage(Usage::PeerEdit) =>
                "uso: kvmc-share peer edit <nome> [--addr ...] [--direction ...]".to_string(),
            CliError::Usage(Usage::PeerRm) => "uso: kvmc-share peer rm <nome>".to_string(),
            CliError::Usage(Usage::Keygen) =>
                "uso: kvmc-share keygen <peer-name> <ip>".to_string(),
            CliError::DirectionRequired => "--direction é obrigatório".to_string(),
            CliError::BadAddr(cause) => {
                let mut out = "--addr inválido: ".to_string();
                out.append(cause.as_str());
                out
            },
            CliError::BadWidth(e) => {
                let mut out = "--width inválido: ".to_string();
                out.append(e.message());
                out
            },
            CliError::BadHeight(e) => {
                let mut out = "--height inválido: ".to_string();
                out.append(e.message());
                out
            },
            CliError::Peer(e) => e.message(),
        }
    }
}

/// What the program is asked to do, with the arguments that are left.
#[derive(Debug, PartialEq, Eq)]
pub enum Invocation {
    Run(Vec<String>),
    Keygen(Vec<String>),
    PeerList,
    PeerAdd(Vec<String>),
    PeerEdit(Vec<String>),
    PeerRm(Vec<String>),
    LocalEdit(Vec<String>),
    /// Nothing that is known.
    Unknown,
}

/// An `Invocation`, as mathematical values.
pub enum InvocationView {
    Run(Seq<Seq<char>>),
    Keygen(Seq<Seq<char>>),
    PeerList,
    PeerAdd(Seq<Seq<char>>),
    PeerEdit(Seq<Seq<char>>),
    PeerRm(Seq<Seq<char>>),
    LocalEdit(Seq<Seq<char>>),
    Unknown,
}

impl View for Invocation {
    type V = InvocationView;

    open spec fn view(&self) -> InvocationView {
        match self {
            Invocation::Run(rest) => InvocationView::Run(texts(rest@)),
            Invocation::Keygen(rest) => InvocationView::Keygen(texts(rest@)),
            Invocation::PeerList => InvocationView::PeerList,
            Invocation::PeerAdd(rest) => InvocationView::PeerAdd(texts(rest@)),
            Invocation::PeerEdit(rest) => InvocationView::PeerEdit(texts(rest@)),
            Invocation::PeerRm(rest) => InvocationView::PeerRm(texts(rest@)),
            Invocation::LocalEdit(rest) => InvocationView::LocalEdit(texts(rest@)),
            Invocation::Unknown => InvocationView::Unknown,
        }
    }
}

/// What the arguments, without the name of the program, ask for.
pub open spec fn invoked(args: Seq<Seq<char>>) -> InvocationView {
    if args.len() == 0 {
        InvocationView::Run(Seq::empty())
    } else if args[0] == "run"@ {
        InvocationView::Run(args.skip(1))
    } else if args[0] == "keygen"@ {
        InvocationView::Keygen(args.skip(1))
    } else if args[0] == "peer"@ && args.len() > 1 {
        if args[1] == "list"@ {
            InvocationView::PeerList
        } else if args[1] == "add"@ {
            InvocationView::PeerAdd(args.skip(2))
        } else if args[1] == "edit"@ {
            InvocationView::PeerEdit(args.skip(2))
        } else if args[1] == "rm"@ {
            InvocationView::PeerRm(args.skip(2))
        } else {
            InvocationView::Unknown
        }
    } else if args[0] == "local"@ && args.len() > 1 && args[1] == "edit"@ {
        InvocationView::LocalEdit(args.skip(2))
    } else {
        InvocationView::Unknown
    }
}

/// The arguments from a position on.
fn tail_of(args: &Vec<String>, from: usize) -> (r: Vec<String>)
    requires
        from <= args@.len(),
    ensures
        texts(r@) == texts(args@).skip(from as int),
{
    let mut out: Vec<String> = Vec::new();
    let mut i: usize = from;
    assert(texts(out@) =~= texts(args@).subrange(from as int, from as int));
    while i < args.len()
        invariant
            from <= i <= args@.len(),
            texts(out@) == texts(args@).subrange(from as int, i as int),
        decreases args@.len() - i,
    {
        let ghost before = out@;
        out.push(args[i].clone());
        assert(texts(out@) =~= texts(before).push(args@[i as int]@));
        assert(texts(out@) =~= texts(args@).subrange(from as int, i + 1));
        i = i + 1;
    }
    assert(texts(out@) =~= texts(args@).skip(from as int));
    out
}

/// Tells what the arguments, without the name of the program, ask for.
pub fn parse_invocation(args: &Vec<String>) -> (r: Invocation)
    ensures
        r@ == invoked(texts(args@)),
{
    let ghost words = texts(args@);
    if args.len() == 0 {
        let none: Vec<String> = Vec::new();
        assert(texts(none@) =~= Seq::<Seq<char>>::empty());
        return Invocation::Run(none);
    }
    assert(words[0] == args@[0]@);
    if str_eq(args[0].as_str(), "run") {
        return Invocation::Run(tail_of(args, 1));
    }
    if str_eq(args[0].as_str(), "keygen") {
        return Invocation::Keygen(tail_of(args, 1));
    }
    if args.len() == 1 {
        return Invocation::Unknown;
    }
    assert(words[1] == args@[1]@);
    if str_eq(args[0].as_str(), "peer") {
        if str_eq(args[1].as_str(), "list") {
            Invocation::PeerList
        } else if str_eq(args[1].as_str(), "add") {
            Invocation::PeerAdd(tail_of(args, 2))
        } else if str_eq(args[1].as_str(), "edit") {
            Invocation::PeerEdit(tail_of(args, 2))
        } else if str_eq(args[1].as_str(), "rm") {
            Invocation::PeerRm(tail_of(args, 2))
        } else {
            Invocation::Unknown
        }
    } else if str_eq(args[0].as_str(), "local") && str_eq(args[1].as_str(), "edit") {
        Invocation::LocalEdit(tail_of(args, 2))
    } else {
        Invocation::Unknown
    }
}

/// The target address and the devices of `capture`; there must be a device.
pub fn capture_request(args: &Vec<String>) -> (r: Option<(String, Vec<String>)>)
    ensures
        match r {
            Some((target, devices)) => {
                &&& args@.len() >= 2
                &&& target@ == texts(args@)[0]
                &&& texts(devices@) == texts(args@).skip(1)
            },
            None => args@.len() < 2,
        },
{
    if args.len() < 2 {
        return None;
    }
    assert(texts(args@)[0] == args@[0]@);
    Some((args[0].clone(), tail_of(args, 1)))
}

/// The address on which `inject` listens; there is no other argument.
pub fn inject_request(args: &Vec<String>) -> (r: Option<String>)
    ensures
        match r {
            Some(listen) => args@.len() == 1 && listen@ == texts(args@)[0],
            None => args@.len() != 1,
        },
{
    if args.len() != 1 {
        return None;
    }
    assert(texts(args@)[0] == args@[0]@);
    Some(args[0].clone())
}

/// Whether an answer is a yes: `s` or `y` in either case, with nothing but
/// white space around it.
pub open spec fn is_yes(answer: Seq<char>) -> bool {
    let word = trimmed(answer);
    word == seq!['s'] || word == seq!['S'] || word == seq!['y'] || word == seq!['Y']
}

/// Whether an answer is a yes. Anything else, nothing included, is a no.
pub fn confirm(answer: &str) -> (r: bool)
    ensures
        r == is_yes(answer@),
{
    let word = trim(answer);
    proof {
        reveal_strlit("s");
        reveal_strlit("S");
        reveal_strlit("y");
        reveal_strlit("Y");
        assert("s"@ =~= seq!['s']);
        assert("S"@ =~= seq!['S']);
        assert("y"@ =~= seq!['y']);
        assert("Y"@ =~= seq!['Y']);
    }
    str_eq(word.as_str(), "s") || str_eq(word.as_str(), "S") || str_eq(word.as_str(), "y")
        || str_eq(word.as_str(), "Y")
}

/// A request to add a peer.
#[derive(Debug, PartialEq, Eq)]
pub struct PeerAdd {
    pub name: String,
    pub addr: String,
    pub direction: String,
    pub psk_path: Option<String>,
}

/// The request to add a peer that the arguments make: flags for the address,
/// the direction and, if wanted, the key path, and then the name first among
/// what is left.
pub open spec fn asked_peer_add(args: Seq<Seq<char>>) -> Result<
    (Seq<char>, Seq<char>, Seq<char>, Option<Seq<char>>),
    CliFault,
> {
    let second = without_flag(args, "--addr"@);
    let third = without_flag(second, "--direction"@);
    let rest = without_flag(third, "--psk-path"@);
    match flag_value(args, "--addr"@) {
        None => Err(CliFault::Usage(Usage::PeerAdd)),
        Some(addr) => match flag_value(second, "--direction"@) {
            None => Err(CliFault::DirectionRequired),
            Some(direction) => if rest.len() == 0 {
                Err(CliFault::Usage(Usage::PeerAdd))
            } else {
                Ok((rest[0], addr, direction, flag_value(third, "--psk-path"@)))
            },
        },
    }
}

/// The first of the arguments that are left.
fn first_of(args: &Vec<String>) -> (r: Option<String>)
    ensures
        match r {
            Some(word) => args@.len() > 0 && word@ == texts(args@)[0],
            None => args@.len() == 0,
        },
{
    if args.len() == 0 {
        return None;
    }
    assert(texts(args@)[0] == args@[0]@);
    Some(args[0].clone())
}

/// Reads the arguments of `peer add`.
pub fn peer_add_request(args: Vec<String>) -> (r: Result<PeerAdd, CliError>)
    ensures
        match r {
            Ok(add) => asked_peer_add(texts(args@)) == Ok::<
                (Seq<char>, Seq<char>, Seq<char>, Option<Seq<char>>),
                CliFault,
            >((add.name@, add.addr@, add.direction@, text_view(add.psk_path))),
            Err(e) => asked_peer_add(texts(args@)) == Err::<
                (Seq<char>, Seq<char>, Seq<char>, Option<Seq<char>>),
                CliFault,
            >(e@),
        },
{
    let mut args = args;
    let addr = match take_flag(&mut args, "--addr") {
        Some(addr) => addr,
        None => {
            return Err(CliError::Usage(Usage::PeerAdd));
        },
    };
    let direction = match take_flag(&mut args, "--direction") {
        Some(direction) => direction,
        None => {
            return Err(CliError::DirectionRequired);
        },
    };
    let psk_path = take_flag(&mut args, "--psk-path");
    match first_of(&args) {
        Some(name) => Ok(PeerAdd { name, addr, direction, psk_path }),
        None => Err(CliError::Usage(Usage::PeerAdd)),
    }
}

/// Adds a peer to the loaded list and returns what to say once it is saved.
/// `resolved` is the address that the text stands for.
pub fn cmd_peer_add(
    add: PeerAdd,
    resolved: Address,
    home: &Home,
    peers: &mut Vec<PeerConfig>,
) -> (r: Result<String, CliError>)
    ensures
        match new_peer(
            add.name@,
            add.addr@,
            address_view(resolved),
            add.direction@,
            text_view(add.psk_path),
            home_view(*home),
        ) {
            Err(fault) => {
                &&& r matches Err(e) && e@ == CliFault::Peer(fault)
                &&& final(peers)@ == old(peers)@
            },
            Ok(peer) => if peer_index(peer_views(old(peers)@), add.name@) is Some {
                &&& r matches Err(e) && e@ == CliFault::Peer(PeerFault::AlreadyPresent(add.name@))
                &&& final(peers)@ == old(peers)@
            } else {
                &&& r matches Ok(text) && text@ == "peer '"@ + add.name@ + "' adicionado"@
                &&& peer_views(final(peers)@) == peer_views(old(peers)@).push(peer)
            },
        },
        r is Ok ==> {
            let last = final(peers)@.last();
            &&& final(peers)@.len() == old(peers)@.len() + 1
            &&& forall|i: int|
                0 <= i < old(peers)@.len() ==> #[trigger] peer_views(final(peers)@)[i]
                    == peer_views(old(peers)@)[i]
            &&& last.name@ == add.name@
            &&& resolved matches Ok(address) && last.addr@ == address@
            &&& add.direction@ == match last.direction {
                Direction::Left => "left"@,
                Direction::Right => "right"@,
                Direction::Up => "up"@,
                Direction::Down => "down"@,
            }
            &&& add.psk_path matches Some(path) ==> last.psk_path@ == path@
            &&& add.psk_path is None && !(add.name@.len() > 0 && add.name@[0] == '/') ==> (
            *home matches Ok(dir) && last.psk_path@ == joined(
                dir@,
                ".config/kvmc-share/peers/"@ + add.name@ + ".psk"@,
            ))
        },
{
    let peer = match build_new_peer(
        add.name.as_str(),
        add.addr.as_str(),
        resolved,
        add.direction.as_str(),
        add.psk_path,
        home,
    ) {
        Ok(peer) => peer,
        Err(e) => {
            return Err(CliError::Peer(e));
        },
    };
    let ghost made = peer@;
    match add_peer_to_list(peers, peer) {
        Ok(()) => {
            proof {
                let views = peer_views(peers@);
                assert(views.last() == made);
                assert(views.last() == peers@.last()@);
                assert(views.len() == peers@.len());
            }
            let mut out = "peer '".to_string();
            out.append(add.name.as_str());
            out.append("' adicionado");
            Ok(out)
        },
        Err(e) => Err(CliError::Peer(e)),
    }
}

/// A request to change a peer, or to show it where nothing is to be changed.
#[derive(Debug, PartialEq, Eq)]
pub struct PeerEdit {
    pub name: String,
    pub addr: Option<String>,
    pub direction: Option<String>,
}

/// What to do after a command that changes or shows something.
#[derive(Debug, PartialEq, Eq)]
pub enum EditOutcome {
    /// Nothing was changed: show this.
    Show(String),
    /// Save the configuration, and say this.
    Save(String),
}

/// Reads the arguments of `peer edit`.
pub fn peer_edit_request(args: Vec<String>) -> (r: Result<PeerEdit, CliError>)
    ensures
        ({
            let words = texts(args@);
            let second = without_flag(words, "--addr"@);
            let rest = without_flag(second, "--direction"@);
            match r {
                Ok(edit) => {
                    &&& rest.len() > 0
                    &&& edit.name@ == rest[0]
                    &&& text_view(edit.addr) == flag_value(words, "--addr"@)
                    &&& text_view(edit.direction) == flag_value(second, "--direction"@)
                },
                Err(e) => rest.len() == 0 && e@ == CliFault::Usage(Usage::PeerEdit),
            }
        }),
{
    let mut args = args;
    let addr = take_flag(&mut args, "--addr");
    let direction = take_flag(&mut args, "--direction");
    match first_of(&args) {
        Some(name) => Ok(PeerEdit { name, addr, direction }),
        None => Err(CliError::Usage(Usage::PeerEdit)),
    }
}

/// What to say after a change that the daemon has not seen yet.
pub open spec fn restart_hint() -> Seq<char> {
    " — reinicie o daemon (systemctl --user restart kvmc-share) pra aplicar"@
}

/// What a change of a peer, or a look at it, comes to: the list after it and
/// what to do, or why it is refused.
pub open spec fn peer_edit_result(
    name: Seq<char>,
    addr: Option<Seq<char>>,
    resolved: AddressView,
    direction: Option<Seq<char>>,
    peers: Seq<PeerView>,
) -> Result<(Seq<PeerView>, bool, Seq<char>), CliFault> {
    if addr is None && direction is None {
        match peer_index(peers, name) {
            Some(i) => Ok((peers, false, peer_line(peers[i]))),
            None => Err(CliFault::Peer(PeerFault::NotFound(name))),
        }
    } else if addr is Some && resolved is Err {
        Err(CliFault::BadAddr(resolved->Err_0))
    } else if direction is Some && direction_of(direction->0) is None {
        Err(CliFault::Peer(PeerFault::Config(ConfigFault::BadDirection(direction->0))))
    } else {
        match peer_index(peers, name) {
            Some(i) => {
                let new_addr = if addr is Some {
                    Some(resolved->Ok_0)
                } else {
                    None
                };
                let new_direction = match direction {
                    Some(word) => direction_of(word),
                    None => None,
                };
                Ok(
                    (
                        peers.update(i, edited(peers[i], new_addr, new_direction)),
                        true,
                        "peer '"@ + name + "' atualizado"@ + restart_hint(),
                    ),
                )
            },
            None => Err(CliFault::Peer(PeerFault::NotFound(name))),
        }
    }
}

/// An outcome as what it says: whether to save, and the text.
pub open spec fn outcome_view(o: EditOutcome) -> (bool, Seq<char>) {
    match o {
        EditOutcome::Show(text) => (false, text@),
        EditOutcome::Save(text) => (true, text@),
    }
}

/// Changes a peer in the loaded list, or shows it where no flag was given.
/// `resolved` is what is known of the new address; where none was given, it is
/// not looked at. The address is looked at before the direction, and both
/// before the name.
pub fn cmd_peer_edit(
    edit: PeerEdit,
    resolved: Address,
    peers: &mut Vec<PeerConfig>,
) -> (r: Result<EditOutcome, CliError>)
    ensures
        match peer_edit_result(
            edit.name@,
            text_view(edit.addr),
            address_view(resolved),
            text_view(edit.direction),
            peer_views(old(peers)@),
        ) {
            Ok((after, save, text)) => {
                &&& r matches Ok(o) && outcome_view(o) == (save, text)
                &&& peer_views(final(peers)@) == after
            },
            Err(fault) => {
                &&& r matches Err(e) && e@ == fault
                &&& final(peers)@ == old(peers)@
            },
        },
{
    if edit.addr.is_none() && edit.direction.is_none() {
        return match find_peer(peers, edit.name.as_str()) {
            Some(i) => Ok(EditOutcome::Show(format_peer(&peers[i]))),
            None => Err(CliError::Peer(PeerError::NotFound(edit.name))),
        };
    }
    let addr = if edit.addr.is_some() {
        match resolved {
            Ok(address) => Some(address),
            Err(cause) => {
                return Err(CliError::BadAddr(cause));
            },
        }
    } else {
        None
    };
    let direction: Option<Direction> = match &edit.direction {
        Some(word) => match Direction::parse(word.as_str()) {
            Ok(direction) => Some(direction),
            Err(e) => {
                return Err(CliError::Peer(PeerError::Config(e)));
            },
        },
        None => None,
    };
    match apply_peer_edit(peers, edit.name.as_str(), addr, direction) {
        Ok(()) => {
            let mut out = "peer '".to_string();
            out.append(edit.name.as_str());
            out.append("' atualizado");
            out.append(" — reinicie o daemon (systemctl --user restart kvmc-share) pra aplicar");
            Ok(EditOutcome::Save(out))
        },
        Err(e) => Err(CliError::Peer(e)),
    }
}

/// Reads the arguments of `peer rm`.
pub fn peer_rm_request(args: Vec<String>) -> (r: Result<String, CliError>)
    ensures
        match r {
            Ok(name) => args@.len() > 0 && name@ == texts(args@)[0],
            Err(e) => args@.len() == 0 && e@ == CliFault::Usage(Usage::PeerRm),
        },
{
    match first_of(&args) {
        Some(name) => Ok(name),
        None => Err(CliError::Usage(Usage::PeerRm)),
    }
}

/// What to ask before a peer is removed. A peer that is not there is an error,
/// and nothing is asked.
pub fn peer_rm_prompt(name: &str, peers: &Vec<PeerConfig>) -> (r: Result<String, CliError>)
    ensures
        match peer_index(peer_views(peers@), name@) {
            Some(_) => r matches Ok(text) && text@ == "remover peer '"@ + name@
                + "' e sua PSK? (s/N): "@,
            None => r matches Err(e) && e@ == CliFault::Peer(PeerFault::NotFound(name@)),
        },
{
    match find_peer(peers, name) {
        Some(_) => {
            let mut out = "remover peer '".to_string();
            out.append(name);
            out.append("' e sua PSK? (s/N): ");
            Ok(out)
        },
        None => Err(CliError::Peer(PeerError::NotFound(name.to_string()))),
    }
}

/// What to do after `peer rm`.
#[derive(Debug, PartialEq, Eq)]
pub enum RmOutcome {
    /// The user did not want it.
    Cancelled,
    /// Save the configuration, delete this key file, and say this.
    Removed { psk_path: String, text: String },
}

/// Removes a peer from the loaded list, if the answer of the user is a yes.
pub fn cmd_peer_rm(name: &str, answer: &str, peers: &mut Vec<PeerConfig>) -> (r: Result<
    RmOutcome,
    CliError,
>)
    ensures
        match peer_index(peer_views(old(peers)@), name@) {
            None => {
                &&& r matches Err(e) && e@ == CliFault::Peer(PeerFault::NotFound(name@))
                &&& final(peers)@ == old(peers)@
            },
            Some(i) => if is_yes(answer@) {
                &&& r matches Ok(RmOutcome::Removed { psk_path, text })
                &&& psk_path@ == peer_views(old(peers)@)[i].psk_path
                &&& text@ == "peer '"@ + name@ + "' removido"@ + restart_hint()
                &&& peer_views(final(peers)@) == peer_views(old(peers)@).remove(i)
            } else {
                &&& r matches Ok(RmOutcome::Cancelled)
                &&& final(peers)@ == old(peers)@
            },
        },
{
    if find_peer(peers, name).is_none() {
        return Err(CliError::Peer(PeerError::NotFound(name.to_string())));
    }
    if !confirm(answer) {
        return Ok(RmOutcome::Cancelled);
    }
    match remove_peer(peers, name) {
        Ok(peer) => {
            let mut out = "peer '".to_string();
            out.append(name);
            out.append("' removido");
            out.append(" — reinicie o daemon (systemctl --user restart kvmc-share) pra aplicar");
            Ok(RmOutcome::Removed { psk_path: peer.psk_path, text: out })
        },
        Err(e) => Err(CliError::Peer(e)),
    }
}

/// A request to change this machine's configuration, or to show it where
/// nothing is to be changed.
#[derive(Debug, PartialEq, Eq)]
pub struct LocalEdit {
    pub name: Option<String>,
    pub width: Option<u32>,
    pub height: Option<u32>,
    pub listen: Option<String>,
}

/// The change of this machine's configuration that the arguments ask for.
pub open spec fn asked_local_edit(args: Seq<Seq<char>>) -> Result<
    (Option<Seq<char>>, Option<u32>, Option<u32>, Option<Seq<char>>),
    CliFault,
> {
    let second = without_flag(args, "--name"@);
    let third = without_flag(second, "--width"@);
    let fourth = without_flag(third, "--height"@);
    let width = flag_value(second, "--width"@);
    let height = flag_value(third, "--height"@);
    if width is Some && parsed_u32(width->0) is Err {
        Err(CliFault::BadWidth(parsed_u32(width->0)->Err_0))
    } else if height is Some && parsed_u32(height->0) is Err {
        Err(CliFault::BadHeight(parsed_u32(height->0)->Err_0))
    } else {
        Ok(
            (
                flag_value(args, "--name"@),
                match width {
                    Some(text) => Some(parsed_u32(text)->Ok_0),
                    None => None,
                },
                match height {
                    Some(text) => Some(parsed_u32(text)->Ok_0),
                    None => None,
                },
                flag_value(fourth, "--listen"@),
            ),
        )
    }
}

/// Reads the arguments of `local edit`.
pub fn local_edit_request(args: Vec<String>) -> (r: Result<LocalEdit, CliError>)
    ensures
        match r {
            Ok(edit) => asked_local_edit(texts(args@)) == Ok::<
                (Option<Seq<char>>, Option<u32>, Option<u32>, Option<Seq<char>>),
                CliFault,
            >((text_view(edit.name), edit.width, edit.height, text_view(edit.listen))),
            Err(e) => asked_local_edit(texts(args@)) == Err::<
                (Option<Seq<char>>, Option<u32>, Option<u32>, Option<Seq<char>>),
                CliFault,
            >(e@),
        },
{
    let mut args = args;
    let name = take_flag(&mut args, "--name");
    let width: Option<u32> = match take_flag(&mut args, "--width") {
        Some(text) => match parse_u32(text.as_str()) {
            Ok(width) => Some(width),
            Err(e) => {
                return Err(CliError::BadWidth(e));
            },
        },
        None => None,
    };
    let height: Option<u32> = match take_flag(&mut args, "--height") {
        Some(text) => match parse_u32(text.as_str()) {
            Ok(height) => Some(height),
            Err(e) => {
                return Err(CliError::BadHeight(e));
            },
        },
        None => None,
    };
    let listen = take_flag(&mut args, "--listen");
    Ok(LocalEdit { name, width, height, listen })
}

/// The line that shows this machine.
pub open spec fn local_line(local: LocalView) -> Seq<char> {
    local.name + "\t"@ + decimal(local.width as nat) + "x"@ + decimal(local.height as nat) + "\t"@
        + local.listen
}

/// Changes this machine's configuration, or shows it where no flag was given.
pub fn cmd_local_edit(edit: LocalEdit, local: &mut LocalConfig) -> (r: EditOutcome)
    ensures
        final(local)@ == local_edited(
            old(local)@,
            text_view(edit.name),
            edit.width,
            edit.height,
            text_view(edit.listen),
        ),
        outcome_view(r) == if edit.name is None && edit.width is None && edit.height is None
            && edit.listen is None {
            (false, local_line(old(local)@))
        } else {
            (true, "config local atualizada"@ + restart_hint())
        },
{
    if edit.name.is_none() && edit.width.is_none() && edit.height.is_none()
        && edit.listen.is_none() {
        let mut out = local.name.clone();
        out.append("\t");
        out.append(decimal_text(local.width as u64).as_str());
        out.append("x");
        out.append(decimal_text(local.height as u64).as_str());
        out.append("\t");
        out.append(local.listen.as_str());
        return EditOutcome::Show(out);
    }
    apply_local_edit(local, edit.name, edit.width, edit.height, edit.listen);
    let mut out = "config local atualizada".to_string();
    out.append(" — reinicie o daemon (systemctl --user restart kvmc-share) pra aplicar");
    EditOutcome::Save(out)
}

/// What `keygen` is to do.
#[derive(Debug, PartialEq, Eq)]
pub struct KeygenPlan {
    /// Where to write the new key.
    pub path: String,
    /// Where to copy it to: host and path, as `scp` takes them.
    pub remote: String,
    /// What to ask where the key exists already.
    pub overwrite_prompt: String,
    /// How to copy the key by hand.
    pub manual_command: String,
}

/// Plans the making of a key: there are exactly two arguments, the name of the
/// peer and its host. The key goes to the usual place, here and there.
pub fn keygen(args: &Vec<String>, home: &Home) -> (r: Result<KeygenPlan, CliError>)
    ensures
        if args@.len() != 2 {
            r matches Err(e) && e@ == CliFault::Usage(Usage::Keygen)
        } else {
            let host = texts(args@)[1];
            let relative = usual_psk_path(texts(args@)[0]);
            match expanded(joined("~"@, relative), home_view(*home)) {
                Err(fault) => r matches Err(e) && e@ == CliFault::Peer(PeerFault::Config(fault)),
                Ok(path) => {
                    &&& r matches Ok(plan)
                    &&& plan.path@ == path
                    &&& plan.remote@ == host + ":"@ + relative
                    &&& plan.overwrite_prompt@ == "PSK já existe em "@ + path
                        + " — sobrescrever? (s/N): "@
                    &&& plan.manual_command@ == "  ssh "@ + host
                        + " 'mkdir -p ~/.config/kvmc-share/peers' && scp "@ + path + " "@
                        + plan.remote@
                },
            }
        },
{
    if args.len() != 2 {
        return Err(CliError::Usage(Usage::Keygen));
    }
    assert(texts(args@)[0] == args@[0]@);
    assert(texts(args@)[1] == args@[1]@);
    let host = &args[1];
    let relative = default_psk_path(args[0].as_str());
    let path = match expand_home(join("~", relative.as_str()).as_str(), home) {
        Ok(path) => path,
        Err(e) => {
            return Err(CliError::Peer(PeerError::Config(e)));
        },
    };
    let mut remote = host.clone();
    remote.append(":");
    remote.append(relative.as_str());
    let mut overwrite_prompt = "PSK já existe em ".to_string();
    overwrite_prompt.append(path.as_str());
    overwrite_prompt.append(" — sobrescrever? (s/N): ");
    let mut manual_command = "  ssh ".to_string();
    manual_command.append(host.as_str());
    manual_command.append(" 'mkdir -p ~/.config/kvmc-share/peers' && scp ");
    manual_command.append(path.as_str());
    manual_command.append(" ");
    manual_command.append(remote.as_str());
    Ok(KeygenPlan { path, remote, overwrite_prompt, manual_command })
}

/// What to do next in the making of a key.
#[derive(Debug, PartialEq, Eq)]
pub enum KeygenStep {
    /// Ask this, and decide again with the answer.
    Ask(String),
    /// Make a new key and write it, in place of one that may be there.
    Generate,
    /// Leave the key that is there as it is: nothing is written or copied.
    Kept,
}

/// Decides whether a new key is made. A key that exists is kept unless the user
/// was asked and the answer is a yes.
pub fn keygen_step(plan: &KeygenPlan, exists_already: bool, answer: Option<&str>) -> (r: KeygenStep)
    ensures
        if !exists_already {
            r is Generate
        } else {
            match answer {
                None => r matches KeygenStep::Ask(text) && text@ == plan.overwrite_prompt@,
                Some(answer) => if is_yes(answer@) {
                    r is Generate
                } else {
                    r is Kept
                },
            }
        },
{
    if !exists_already {
        return KeygenStep::Generate;
    }
    match answer {
        None => KeygenStep::Ask(plan.overwrite_prompt.clone()),
        Some(answer) => {
            if confirm(answer) {
                KeygenStep::Generate
            } else {
                KeygenStep::Kept
            }
        },
    }
}

/// What to say after the attempt to copy the new key to the peer. The key is
/// made either way: where the copy failed, the user is told how to copy by
/// hand.
pub fn after_copy(plan: &KeygenPlan, copied: bool) -> (r: String)
    ensures
        r@ == if copied {
            "PSK copiada com sucesso para "@ + plan.remote@
        } else {
            "não consegui copiar a PSK via scp automaticamente.\ncopie manualmente com:\n"@
                + plan.manual_command@
        },
{
    if copied {
        let mut out = "PSK copiada com sucesso para ".to_string();
        out.append(plan.remote.as_str());
        out
    } else {
        let mut out =
            "não consegui copiar a PSK via scp automaticamente.\ncopie manualmente com:\n".to_string();
        out.append(plan.manual_command.as_str());
        out
    }
}

/// An edit that only shows a peer changes nothing, and no edit changes a name.
pub proof fn law_edit_command_keeps_names(
    name: Seq<char>,
    addr: Option<Seq<char>>,
    resolved: AddressView,
    direction: Option<Seq<char>>,
    peers: Seq<PeerView>,
)
    ensures
        peer_edit_result(name, addr, resolved, direction, peers) matches Ok((after, save, _)) ==> {
            &&& !save ==> after == peers
            &&& names_of(after) == names_of(peers)
        },
{
    lemma_first_index(names_of(peers), name);
    if let Ok((after, save, _)) = peer_edit_result(name, addr, resolved, direction, peers) {
        assert(names_of(after) =~= names_of(peers));
    }
}

/// The first word, or the first two, tell the command, and the others are its
/// arguments as they stand. Without a word the daemon runs.
pub proof fn law_words_choose_the_command(rest: Seq<Seq<char>>)
    ensures
        invoked(Seq::empty()) == InvocationView::Run(Seq::empty()),
        invoked(seq!["run"@] + rest) == InvocationView::Run(rest),
        invoked(seq!["keygen"@] + rest) == InvocationView::Keygen(rest),
        invoked(seq!["peer"@, "list"@] + rest) == InvocationView::PeerList,
        invoked(seq!["peer"@, "add"@] + rest) == InvocationView::PeerAdd(rest),
        invoked(seq!["peer"@, "edit"@] + rest) == InvocationView::PeerEdit(rest),
        invoked(seq!["peer"@, "rm"@] + rest) == InvocationView::PeerRm(rest),
        invoked(seq!["local"@, "edit"@] + rest) == InvocationView::LocalEdit(rest),
{
    reveal_strlit("run");
    reveal_strlit("keygen");
    reveal_strlit("peer");
    reveal_strlit("local");
    reveal_strlit("list");
    reveal_strlit("add");
    reveal_strlit("edit");
    reveal_strlit("rm");
    assert("run"@.len() == 3 && "keygen"@.len() == 6 && "peer"@.len() == 4 && "local"@.len() == 5
        && "list"@.len() == 4 && "add"@.len() == 3 && "edit"@.len() == 4 && "rm"@.len() == 2);
    assert("list"@[0] != "edit"@[0]);
    assert((seq!["run"@] + rest).skip(1) =~= rest);
    assert((seq!["keygen"@] + rest).skip(1) =~= rest);
    assert((seq!["peer"@, "add"@] + rest).skip(2) =~= rest);
    assert((seq!["peer"@, "edit"@] + rest).skip(2) =~= rest);
    assert((seq!["peer"@, "rm"@] + rest).skip(2) =~= rest);
    assert((seq!["local"@, "edit"@] + rest).skip(2) =~= rest);
}

/// A word that is none of the commands asks for nothing that is known.
pub proof fn law_other_words_are_unknown(args: Seq<Seq<char>>)
    requires
        args.len() > 0,
        args[0] != "run"@,
        args[0] != "keygen"@,
        args[0] == "peer"@ ==> args.len() == 1 || (args[1] != "list"@ && args[1] != "add"@
            && args[1] != "edit"@ && args[1] != "rm"@),
        args[0] == "local"@ ==> args.len() == 1 || args[1] != "edit"@,
    ensures
        invoked(args) is Unknown,
{
}

/// An answer is a yes where, white space around it aside, it is the one letter
/// `s` or `y`, large or small; any other text is a no.
pub proof fn law_yes_is_one_letter(before: Seq<char>, word: Seq<char>, after: Seq<char>)
    requires
        forall|k: int| 0 <= k < before.len() ==> is_space(#[trigger] before[k]),
        forall|k: int| 0 <= k < after.len() ==> is_space(#[trigger] after[k]),
        word.len() > 0 ==> !is_space(word[0]) && !is_space(word.last()),
    ensures
        is_yes(before + word + after) <==> word.len() == 1 && (word[0] == 's' || word[0] == 'S'
            || word[0] == 'y' || word[0] == 'Y'),
{
    law_trim_drops_the_space_around(before, word, after);
    if word.len() == 1 {
        assert(word =~= seq![word[0]]);
    }
}

/// What `peer add` asks for: the values of its flags, and as the name the first
/// argument that is left. It says first that the address is missing, then the
/// direction, then the name.
pub proof fn law_what_peer_add_asks_for(args: Seq<Seq<char>>)
    ensures
        ({
            let second = without_flag(args, "--addr"@);
            let third = without_flag(second, "--direction"@);
            let rest = without_flag(third, "--psk-path"@);
            let asked = asked_peer_add(args);
            &&& asked matches Ok((name, addr, direction, psk_path)) ==> {
                &&& rest.len() > 0 && name == rest[0]
                &&& flag_value(args, "--addr"@) == Some(addr)
                &&& flag_value(second, "--direction"@) == Some(direction)
                &&& flag_value(third, "--psk-path"@) == psk_path
            }
            &&& asked is Ok <==> flag_value(args, "--addr"@) is Some && flag_value(
                second,
                "--direction"@,
            ) is Some && rest.len() > 0
            &&& asked matches Err(e) ==> e == if flag_value(args, "--addr"@) is Some && flag_value(
                second,
                "--direction"@,
            ) is None {
                CliFault::DirectionRequired
            } else {
                CliFault::Usage(Usage::PeerAdd)
            }
        }),
{
}

/// What `local edit` asks for: each field is the value of its own flag, the
/// sizes read as numbers. A width that is none is said before a height.
pub proof fn law_what_local_edit_asks_for(args: Seq<Seq<char>>)
    ensures
        ({
            let second = without_flag(args, "--name"@);
            let third = without_flag(second, "--width"@);
            let fourth = without_flag(third, "--height"@);
            let wide = flag_value(second, "--width"@);
            let high = flag_value(third, "--height"@);
            match asked_local_edit(args) {
                Ok((name, width, height, listen)) => {
                    &&& name == flag_value(args, "--name"@)
                    &&& listen == flag_value(fourth, "--listen"@)
                    &&& wide matches Some(t) ==> width is Some && parsed_u32(t) == Ok::<
                        u32,
                        NumberError,
                    >(width->0)
                    &&& wide is None ==> width is None
                    &&& high matches Some(t) ==> height is Some && parsed_u32(t) == Ok::<
                        u32,
                        NumberError,
                    >(height->0)
                    &&& high is None ==> height is None
                },
                Err(CliFault::BadWidth(e)) => wide is Some && parsed_u32(wide->0) == Err::<
                    u32,
                    NumberError,
                >(e),
                Err(CliFault::BadHeight(e)) => {
                    &&& high is Some && parsed_u32(high->0) == Err::<u32, NumberError>(e)
                    &&& wide is Some ==> parsed_u32(wide->0) is Ok
                },
                Err(_) => false,
            }
        }),
{
}

/// `peer edit` with something to change changes the first peer of the name, and
/// of it the address to the one that the text stands for and the direction to
/// that of the word, as far as they are given, and is then saved. With nothing to
/// change it shows that peer and changes nothing.
pub proof fn law_what_peer_edit_does(
    name: Seq<char>,
    addr: Option<Seq<char>>,
    resolved: AddressView,
    direction: Option<Seq<char>>,
    peers: Seq<PeerView>,
    i: int,
)
    requires
        0 <= i < peers.len(),
        peers[i].name == name,
        forall|j: int| 0 <= j < i ==> (#[trigger] peers[j]).name != name,
        addr is Some ==> resolved is Ok,
        direction matches Some(word) ==> direction_of(word) is Some,
    ensures
        peer_edit_result(name, addr, resolved, direction, peers) matches Ok((after, save, text))
            && {
            &&& save <==> addr is Some || direction is Some
            &&& after.len() == peers.len()
            &&& forall|j: int| 0 <= j < peers.len() && j != i ==> #[trigger] after[j] == peers[j]
            &&& after[i].name == name
            &&& after[i].psk_path == peers[i].psk_path
            &&& after[i].addr == if addr is Some {
                resolved->Ok_0
            } else {
                peers[i].addr
            }
            &&& after[i].direction == if direction is Some {
                direction_of(direction->0)->0
            } else {
                peers[i].direction
            }
            &&& !save ==> text == peers[i].name + "\t"@ + peers[i].addr + "\t"@ + direction_text(
                peers[i].direction,
            )
        },
{
    let names = names_of(peers);
    assert(names[i] == name);
    assert forall|j: int| 0 <= j < i implies #[trigger] names[j] != name by {
        assert(peers[j].name != name);
    }
    lemma_is_first_index(names, name, i);
}

/// `peer edit` is refused for an address that is none, then for a word that is
/// no direction, then for a name that no peer has.
pub proof fn law_why_peer_edit_is_refused(
    name: Seq<char>,
    addr: Option<Seq<char>>,
    resolved: AddressView,
    direction: Option<Seq<char>>,
    peers: Seq<PeerView>,
)
    ensures
        peer_edit_result(name, addr, resolved, direction, peers) matches Err(e) ==> match e {
            CliFault::BadAddr(cause) => addr is Some && resolved == Err::<Seq<char>, Seq<char>>(
                cause,
            ),
            CliFault::Peer(PeerFault::Config(ConfigFault::BadDirection(word))) => {
                &&& direction == Some(word)
                &&& direction_of(word) is None
                &&& addr is Some ==> resolved is Ok
            },
            CliFault::Peer(PeerFault::NotFound(n)) => n == name && forall|j: int|
                0 <= j < peers.len() ==> (#[trigger] peers[j]).name != name,
            _ => false,
        },
{
    law_name_stands_for_the_first_peer_of_it(peers, name);
}

/// A command that is refused is reported with its cause.
pub proof fn law_cli_error_tells_its_cause(cause: Seq<char>, n: NumberError, e: PeerFault)
    ensures
        ends_with(cli_error_text(CliFault::BadAddr(cause)), cause),
        ends_with(cli_error_text(CliFault::BadWidth(n)), number_error_text(n)),
        ends_with(cli_error_text(CliFault::BadHeight(n)), number_error_text(n)),
        cli_error_text(CliFault::Peer(e)) == peer_error_text(e),
{
    lemma_ends_with("--addr inválido: "@, cause);
    lemma_ends_with("--width inválido: "@, number_error_text(n));
    lemma_ends_with("--height inválido: "@, number_error_text(n));
}

} // verus!
