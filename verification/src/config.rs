//! The configuration: this machine, its peers, and where their keys lie.
//!
//! The file itself (`~/.config/kvmc-share/peers.toml`) is read and written by
//! the programs. Here stand the checks on what was parsed and the text that is
//! written.

use crate::path::{
    after, components, has_prefix, is_absolute, join, joined, law_join_adds_components,
    law_join_undoes_strip, law_strip_undoes_join, lemma_after, lemma_no_components,
    lemma_plain_path, slash_from, spans, spans_from, strip_prefix, stripped,
};
use crate::text::{
    decimal, decimal_text, ends_with, is_digit, law_decimal_reads_back, lemma_decimal,
    lemma_ends_with, str_eq,
};
use vstd::prelude::*;
use vstd::string::*;

verus! {

/// The side of the screen on which a peer stands.
#[derive(Debug, Clone, Copy, PartialEq, Eq, Structural)]
pub enum Direction {
    Left,
    Right,
    Up,
    Down,
}

/// The word for a direction.
pub open spec fn direction_text(d: Direction) -> Seq<char> {
    match d {
        Direction::Left => "left"@,
        Direction::Right => "right"@,
        Direction::Up => "up"@,
        Direction::Down => "down"@,
    }
}

/// The direction that a word stands for.
pub open spec fn direction_of(text: Seq<char>) -> Option<Direction> {
    if text == "left"@ {
        Some(Direction::Left)
    } else if text == "right"@ {
        Some(Direction::Right)
    } else if text == "up"@ {
        Some(Direction::Up)
    } else if text == "down"@ {
        Some(Direction::Down)
    } else {
        None
    }
}

/// The word for a direction is read as that direction.
pub proof fn law_direction_reads_back(d: Direction)
    ensures
        direction_of(direction_text(d)) == Some(d),
{
    reveal_strlit("left");
    reveal_strlit("right");
    reveal_strlit("up");
    reveal_strlit("down");
    assert("left"@.len() == 4 && "right"@.len() == 5 && "up"@.len() == 2 && "down"@.len() == 4);
    assert("left"@[0] != "down"@[0]);
}

/// A word that is read as a direction is the word for it.
pub proof fn law_direction_words_are_unique(text: Seq<char>)
    requires
        direction_of(text) is Some,
    ensures
        direction_text(direction_of(text)->0) == text,
{
}

/// What was wrong with the configuration.
#[derive(Debug)]
pub enum ConfigError {
    /// The file is no configuration; the text says why.
    Malformed(String),
    /// A path needs the home directory and none is known, for this cause.
    NoHome(String),
    /// The key file of a peer does not exist.
    PskMissing { peer: String, path: String },
    /// A word is no direction.
    BadDirection(String),
}

/// What a `ConfigError` says.
pub enum ConfigFault {
    Malformed(Seq<char>),
    NoHome(Seq<char>),
    PskMissing { peer: Seq<char>, path: Seq<char> },
    BadDirection(Seq<char>),
}

impl View for ConfigError {
    type V = ConfigFault;

    open spec fn view(&self) -> ConfigFault {
        match self {
            ConfigError::Malformed(cause) => ConfigFault::Malformed(cause@),
            ConfigError::NoHome(cause) => ConfigFault::NoHome(cause@),
            ConfigError::PskMissing { peer, path } => ConfigFault::PskMissing {
                peer: peer@,
                path: path@,
            },
            ConfigError::BadDirection(word) => ConfigFault::BadDirection(word@),
        }
    }
}

/// The text of a `ConfigError`.
pub open spec fn config_error_text(e: ConfigFault) -> Seq<char> {
    match e {
        ConfigFault::Malformed(cause) => "peers.toml malformado: "@ + cause,
        ConfigFault::NoHome(cause) => "variável de ambiente HOME não definida: "@ + cause,
        ConfigFault::PskMissing { peer, path } => "psk_path do peer '"@ + peer + "' não existe: "@
            + path,
        ConfigFault::BadDirection(word) => "direção inválida: '"@ + word
            + "' (esperado left, right, up ou down)"@,
    }
}

impl ConfigError {
    /// The message shown to the user.
    pub fn message(&self) -> (r: String)
        ensures
            r@ == config_error_text(self@),
    {
        match self {
            ConfigError::Malformed(cause) => {
                let mut out = "peers.toml malformado: ".to_string();
                out.append(cause.as_str());
                out
            },
            ConfigError::NoHome(cause) => {
                let mut out = "variável de ambiente HOME não definida: ".to_string();
                out.append(cause.as_str());
                out
            },
            ConfigError::PskMissing { peer, path } => {
                let mut out = "psk_path do peer '".to_string();
                out.append(peer.as_str());
                out.append("' não existe: ");
                out.append(path.as_str());
                out
            },
            ConfigError::BadDirection(word) => {
                let mut out = "direção inválida: '".to_string();
                out.append(word.as_str());
                out.append("' (esperado left, right, up ou down)");
                out
            },
        }
    }
}

impl Direction {
    /// The word for the direction.
    pub fn as_str(self) -> (r: &'static str)
        ensures
            r@ == direction_text(self),
    {
        match self {
            Direction::Left => "left",
            Direction::Right => "right",
            Direction::Up => "up",
            Direction::Down => "down",
        }
    }

    /// Reads the word for a direction.
    pub fn parse(text: &str) -> (r: Result<Direction, ConfigError>)
        ensures
            match direction_of(text@) {
                Some(d) => r == Ok::<Direction, ConfigError>(d),
                None => r matches Err(e) && e@ == ConfigFault::BadDirection(text@),
            },
    {
        if str_eq(text, "left") {
            Ok(Direction::Left)
        } else if str_eq(text, "right") {
            Ok(Direction::Right)
        } else if str_eq(text, "up") {
            Ok(Direction::Up)
        } else if str_eq(text, "down") {
            Ok(Direction::Down)
        } else {
            Err(ConfigError::BadDirection(text.to_string()))
        }
    }
}

impl std::str::FromStr for Direction {
    type Err = ConfigError;

    /// Reads the word for a direction.
    fn from_str(s: &str) -> (r: Result<Direction, ConfigError>)
        ensures
            match direction_of(s@) {
                Some(d) => r == Ok::<Direction, ConfigError>(d),
                None => r matches Err(e) && e@ == ConfigFault::BadDirection(s@),
            },
    {
        Direction::parse(s)
    }
}

/// This machine.
#[derive(Debug, PartialEq, Eq)]
pub struct LocalConfig {
    pub name: String,
    pub width: u32,
    pub height: u32,
    pub listen: String,
}

/// What is known of this machine.
pub struct LocalView {
    pub name: Seq<char>,
    pub width: u32,
    pub height: u32,
    pub listen: Seq<char>,
}

impl View for LocalConfig {
    type V = LocalView;

    open spec fn view(&self) -> LocalView {
        LocalView {
            name: self.name@,
            width: self.width,
            height: self.height,
            listen: self.listen@,
        }
    }
}

impl Clone for LocalConfig {
    fn clone(&self) -> (r: LocalConfig)
        ensures
            r@ == self@,
    {
        LocalConfig {
            name: self.name.clone(),
            width: self.width,
            height: self.height,
            listen: self.listen.clone(),
        }
    }
}

/// A peer. The address is the canonical text of a socket address.
#[derive(Debug, PartialEq, Eq)]
pub struct PeerConfig {
    pub name: String,
    pub addr: String,
    pub psk_path: String,
    pub direction: Direction,
}

/// What is known of a peer.
#[verifier::ext_equal]
pub struct PeerView {
    pub name: Seq<char>,
    pub addr: Seq<char>,
    pub psk_path: Seq<char>,
    pub direction: Direction,
}

impl View for PeerConfig {
    type V = PeerView;

    open spec fn view(&self) -> PeerView {
        PeerView {
            name: self.name@,
            addr: self.addr@,
            psk_path: self.psk_path@,
            direction: self.direction,
        }
    }
}

/// What is known of a list of peers.
pub open spec fn peer_views(peers: Seq<PeerConfig>) -> Seq<PeerView> {
    peers.map_values(|p: PeerConfig| p@)
}

impl Clone for PeerConfig {
    fn clone(&self) -> (r: PeerConfig)
        ensures
            r@ == self@,
    {
        PeerConfig {
            name: self.name.clone(),
            addr: self.addr.clone(),
            psk_path: self.psk_path.clone(),
            direction: self.direction,
        }
    }
}

/// What the parsed file holds: peers whose key paths are as written there.
#[derive(Debug)]
pub struct RawConfig {
    pub local: LocalConfig,
    pub peers: Vec<PeerConfig>,
}

/// The home directory, or why none is known.
pub type Home = Result<String, String>;

/// The home directory, or why none is known, as mathematical values.
pub type HomeView = Result<Seq<char>, Seq<char>>;

/// What is known of the home directory.
pub open spec fn home_view(home: Home) -> HomeView {
    match home {
        Ok(home) => Ok(home@),
        Err(cause) => Err(cause@),
    }
}

/// The path with a leading `~` replaced by the home directory.
pub open spec fn expanded(path: Seq<char>, home: HomeView) -> Result<
    Seq<char>,
    ConfigFault,
> {
    match stripped(path, "~"@) {
        None => Ok(path),
        Some(rest) => match home {
            Ok(home) => Ok(joined(home, rest)),
            Err(cause) => Err(ConfigFault::NoHome(cause)),
        },
    }
}

/// Replaces a leading `~` by the home directory. Other paths stay as they are,
/// whether or not the home directory is known.
pub fn expand_home(path: &str, home: &Home) -> (r: Result<String, ConfigError>)
    ensures
        match r {
            Ok(p) => expanded(path@, home_view(*home)) == Ok::<Seq<char>, ConfigFault>(p@),
            Err(e) => expanded(path@, home_view(*home)) == Err::<Seq<char>, ConfigFault>(e@),
        },
{
    match strip_prefix(path, "~") {
        None => Ok(path.to_string()),
        Some(rest) => match home {
            Ok(home) => Ok(join(home.as_str(), rest.as_str())),
            Err(cause) => Err(ConfigError::NoHome(cause.clone())),
        },
    }
}

/// The path with the home directory replaced by `~`.
pub open spec fn contracted(path: Seq<char>, home: HomeView) -> Seq<char> {
    match home {
        Err(_) => path,
        Ok(home) => match stripped(path, home) {
            Some(rest) => joined("~"@, rest),
            None => path,
        },
    }
}

/// The opposite of `expand_home`: a path under the home directory is written
/// with `~`, any other one stays as it is.
pub fn contract_home(path: &str, home: &Home) -> (r: String)
    ensures
        r@ == contracted(path@, home_view(*home)),
{
    match home {
        Err(_) => path.to_string(),
        Ok(home) => match strip_prefix(path, home.as_str()) {
            Some(rest) => join("~", rest.as_str()),
            None => path.to_string(),
        },
    }
}

/// Expanding undoes contracting: the result names the same file, component by
/// component. Left out are a path outside the home directory that itself starts
/// with `~`, and, where the home directory is the empty text, a path that starts
/// with `.`.
pub proof fn law_expand_undoes_contract(path: Seq<char>, home: Seq<char>)
    requires
        has_prefix(path, home) || !has_prefix(path, "~"@),
        home.len() == 0 && components(path).len() > 0 ==> components(path)[0] != seq!['.'],
    ensures
        expanded(contracted(path, Ok(home)), Ok(home)) matches Ok(back) && components(back)
            == components(path),
{
    reveal_strlit("~");
    let tilde = "~"@;
    if has_prefix(path, home) {
        let n = spans(home).len() as int;
        let rest = after(path, n);
        lemma_after(path, n);
        law_join_undoes_strip(path, home);
        if is_absolute(rest) {
            // Only where the home directory is empty: the path stands for itself.
            lemma_tilde_components();
            assert(joined(tilde, rest) == rest);
            assert(components(rest) =~= components(path)) by {
                assert(n == 0);
                assert(components(path).skip(0) =~= components(path));
            }
            assert(!has_prefix(rest, tilde)) by {
                lemma_absolute_has_no_tilde(rest);
            }
        } else {
            assert(components(rest).len() > 0 ==> components(rest)[0] != seq!['.']) by {
                if components(rest).len() > 0 {
                    assert(components(rest)[0] == components(path)[n]);
                    if n == 0 && home.len() > 0 {
                        lemma_no_components(home);
                    }
                }
            }
            law_strip_undoes_join(tilde, rest);
        }
    }
}

/// `~` is a path of one component.
proof fn lemma_tilde_components()
    ensures
        components("~"@) == seq!["~"@],
{
    reveal_strlit("~");
    let s = "~"@;
    reveal_with_fuel(slash_from, 3);
    reveal_with_fuel(spans_from, 3);
    assert(s.subrange(0, 1) =~= s);
    assert(spans(s) =~= seq![(0int, 1int)]);
    assert(components(s) =~= seq![s]);
}

proof fn lemma_absolute_has_no_tilde(path: Seq<char>)
    requires
        is_absolute(path),
    ensures
        !has_prefix(path, "~"@),
{
    reveal_strlit("~");
    lemma_tilde_components();
    assert(spans(path)[0] == (0int, 1int));
    assert(components(path)[0] == path.subrange(0, 1));
    assert(path.subrange(0, 1)[0] == '/');
    if has_prefix(path, "~"@) {
        assert(components("~"@)[0] == components(path)[0]);
    }
}

/// Where the configuration lies: under the home directory.
pub fn default_path(home: &Home) -> (r: Result<String, ConfigError>)
    ensures
        match home {
            Ok(home) => r matches Ok(p) && p@ == joined(
                home@,
                ".config/kvmc-share/peers.toml"@,
            ),
            Err(cause) => r matches Err(e) && e@ == ConfigFault::NoHome(cause@),
        },
{
    match home {
        Ok(home) => Ok(join(home.as_str(), ".config/kvmc-share/peers.toml")),
        Err(cause) => Err(ConfigError::NoHome(cause.clone())),
    }
}

/// The usual place of the key of a peer, seen from the home directory.
pub open spec fn usual_psk_path(peer_name: Seq<char>) -> Seq<char> {
    joined(".config/kvmc-share/peers"@, peer_name + ".psk"@)
}

/// The usual place of the key of a peer, seen from the home directory.
pub fn default_psk_path(peer_name: &str) -> (r: String)
    ensures
        r@ == usual_psk_path(peer_name@),
{
    let mut file = peer_name.to_string();
    file.append(".psk");
    join(".config/kvmc-share/peers", file.as_str())
}

/// A peer of the file as it is used: the key path expanded, and the key there.
pub open spec fn resolved(raw: PeerView, home: HomeView, present: bool) -> Result<
    PeerView,
    ConfigFault,
> {
    match expanded(raw.psk_path, home) {
        Err(e) => Err(e),
        Ok(psk_path) => if present {
            Ok(PeerView { psk_path, ..raw })
        } else {
            Err(ConfigFault::PskMissing { peer: raw.name, path: psk_path })
        },
    }
}

/// The peers of the file as they are used; the first one with a fault decides.
pub open spec fn all_resolved(
    raw: Seq<PeerView>,
    home: HomeView,
    existing: Seq<bool>,
) -> Result<Seq<PeerView>, ConfigFault>
    decreases raw.len(),
{
    if raw.len() == 0 {
        Ok(Seq::empty())
    } else {
        match all_resolved(raw.drop_last(), home, existing.drop_last()) {
            Err(e) => Err(e),
            Ok(peers) => match resolved(raw.last(), home, existing.last()) {
                Err(e) => Err(e),
                Ok(peer) => Ok(peers.push(peer)),
            },
        }
    }
}

/// Expands the key path of one peer and checks that the key is there.
fn resolve_peer(raw: &PeerConfig, home: &Home, present: bool) -> (r: Result<
    PeerConfig,
    ConfigError,
>)
    ensures
        match r {
            Ok(peer) => resolved(raw@, home_view(*home), present) == Ok::<PeerView, ConfigFault>(
                peer@,
            ),
            Err(e) => resolved(raw@, home_view(*home), present) == Err::<PeerView, ConfigFault>(
                e@,
            ),
        },
{
    match expand_home(raw.psk_path.as_str(), home) {
        Err(e) => Err(e),
        Ok(psk_path) => {
            if present {
                Ok(
                    PeerConfig {
                        name: raw.name.clone(),
                        addr: raw.addr.clone(),
                        psk_path,
                        direction: raw.direction,
                    },
                )
            } else {
                Err(ConfigError::PskMissing { peer: raw.name.clone(), path: psk_path })
            }
        },
    }
}

/// The result of a check of the configuration.
pub open spec fn loaded(
    raw: Result<RawConfig, String>,
    home: HomeView,
    existing: Seq<bool>,
) -> Result<(LocalView, Seq<PeerView>), ConfigFault> {
    match raw {
        Err(cause) => Err(ConfigFault::Malformed(cause@)),
        Ok(raw) => match all_resolved(peer_views(raw.peers@), home, existing) {
            Err(e) => Err(e),
            Ok(peers) => Ok((raw.local@, peers)),
        },
    }
}

proof fn lemma_fault_stays(
    raw: Seq<PeerView>,
    home: HomeView,
    existing: Seq<bool>,
    i: int,
)
    requires
        0 <= i <= raw.len(),
        raw.len() == existing.len(),
        all_resolved(raw.take(i), home, existing.take(i)) is Err,
    ensures
        all_resolved(raw, home, existing) == all_resolved(raw.take(i), home, existing.take(i)),
    decreases raw.len() - i,
{
    if i < raw.len() {
        assert(raw.take(i + 1).drop_last() =~= raw.take(i));
        assert(existing.take(i + 1).drop_last() =~= existing.take(i));
        lemma_fault_stays(raw, home, existing, i + 1);
    } else {
        assert(raw.take(i) =~= raw);
        assert(existing.take(i) =~= existing);
    }
}

/// Checks what was parsed: `raw` is what the parser made of the file,
/// `existing` tells of each peer whether its key file, with `~` expanded, is
/// there.
pub fn parse_and_validate(
    raw: Result<RawConfig, String>,
    home: &Home,
    existing: &Vec<bool>,
) -> (r: Result<(LocalConfig, Vec<PeerConfig>), ConfigError>)
    requires
        raw matches Ok(c) ==> c.peers@.len() == existing@.len(),
    ensures
        match r {
            Ok((local, peers)) => loaded(raw, home_view(*home), existing@) == Ok::<
                (LocalView, Seq<PeerView>),
                ConfigFault,
            >((local@, peer_views(peers@))),
            Err(e) => loaded(raw, home_view(*home), existing@) == Err::<
                (LocalView, Seq<PeerView>),
                ConfigFault,
            >(e@),
        },
{
    let config = match raw {
        Ok(config) => config,
        Err(cause) => {
            return Err(ConfigError::Malformed(cause));
        },
    };
    let ghost views = peer_views(config.peers@);
    let mut peers: Vec<PeerConfig> = Vec::new();
    let mut i: usize = 0;
    proof {
        assert(views.take(0) =~= Seq::<PeerView>::empty());
        assert(peer_views(peers@) =~= Seq::<PeerView>::empty());
    }
    while i < config.peers.len()
        invariant
            i <= config.peers@.len(),
            config.peers@.len() == existing@.len(),
            raw == Ok::<RawConfig, String>(config),
            views == peer_views(config.peers@),
            all_resolved(views.take(i as int), home_view(*home), existing@.take(i as int)) == Ok::<
                Seq<PeerView>,
                ConfigFault,
            >(peer_views(peers@)),
        decreases config.peers@.len() - i,
    {
        proof {
            let n = i as int;
            assert(views.take(n + 1).drop_last() =~= views.take(n));
            assert(existing@.take(n + 1).drop_last() =~= existing@.take(n));
            assert(views.take(n + 1).last() == config.peers@[n]@);
        }
        match resolve_peer(&config.peers[i], home, existing[i]) {
            Ok(peer) => {
                let ghost before = peers@;
                peers.push(peer);
                assert(peer_views(peers@) =~= peer_views(before).push(peer@));
            },
            Err(e) => {
                proof {
                    lemma_fault_stays(views, home_view(*home), existing@, i + 1);
                }
                return Err(e);
            },
        }
        i = i + 1;
    }
    proof {
        assert(views.take(i as int) =~= views);
        assert(existing@.take(i as int) =~= existing@);
    }
    Ok((config.local, peers))
}

/// The section of this machine in the file.
pub open spec fn local_section(local: LocalView) -> Seq<char> {
    "[local]\nname = \""@ + local.name + "\"\nwidth = "@ + decimal(local.width as nat)
        + "\nheight = "@ + decimal(local.height as nat) + "\nlisten = \""@ + local.listen + "\"\n"@
}

/// The section of a peer in the file.
pub open spec fn peer_section(peer: PeerView, home: HomeView) -> Seq<char> {
    "\n[[peer]]\nname = \""@ + peer.name + "\"\naddr = \""@ + peer.addr + "\"\npsk_path = \""@
        + contracted(peer.psk_path, home) + "\"\ndirection = \""@ + direction_text(peer.direction)
        + "\"\n"@
}

/// The sections of the peers in the file.
pub open spec fn peer_sections(peers: Seq<PeerView>, home: HomeView) -> Seq<char>
    decreases peers.len(),
{
    if peers.len() == 0 {
        Seq::empty()
    } else {
        peer_sections(peers.drop_last(), home) + peer_section(peers.last(), home)
    }
}

/// Writes the section of a peer.
fn peer_section_text(peer: &PeerConfig, home: &Home) -> (r: String)
    ensures
        r@ == peer_section(peer@, home_view(*home)),
{
    let mut out = "\n[[peer]]\nname = \"".to_string();
    out.append(peer.name.as_str());
    out.append("\"\naddr = \"");
    out.append(peer.addr.as_str());
    out.append("\"\npsk_path = \"");
    out.append(contract_home(peer.psk_path.as_str(), home).as_str());
    out.append("\"\ndirection = \"");
    out.append(peer.direction.as_str());
    out.append("\"\n");
    out
}

/// A peer as its section in the file gives it: the key path contracted.
pub open spec fn written(peer: PeerView, home: HomeView) -> PeerView {
    PeerView { psk_path: contracted(peer.psk_path, home), ..peer }
}

/// Two peers that differ at most in how the same key path is spelled.
pub open spec fn same_peer(a: PeerView, b: PeerView) -> bool {
    &&& a.name == b.name
    &&& a.addr == b.addr
    &&& a.direction == b.direction
    &&& components(a.psk_path) == components(b.psk_path)
}

/// The key path of a peer is one that contracting and expanding keep.
pub open spec fn keeps_path(peer: PeerView, home: HomeView) -> bool {
    let path = peer.psk_path;
    match home {
        Ok(home) => {
            &&& has_prefix(path, home) || !has_prefix(path, "~"@)
            &&& home.len() == 0 && components(path).len() > 0 ==> components(path)[0] != seq!['.']
        },
        Err(_) => !has_prefix(path, "~"@),
    }
}

/// Absolute key paths are kept, whatever is known of the home directory.
pub proof fn law_absolute_paths_are_kept(peer: PeerView, home: HomeView)
    requires
        is_absolute(peer.psk_path),
    ensures
        keeps_path(peer, home),
{
    let path = peer.psk_path;
    lemma_absolute_has_no_tilde(path);
    assert(spans(path)[0] == (0int, 1int));
    assert(components(path)[0] == path.subrange(0, 1));
    assert(path.subrange(0, 1)[0] == '/');
}

/// Peers come back from the file as they were saved: with the key files in
/// place, what the sections give is accepted and yields the same peers in the
/// same order. Without a home directory the key paths come back as they were,
/// letter by letter.
pub proof fn law_saved_peers_load_back(peers: Seq<PeerView>, home: HomeView, existing: Seq<bool>)
    requires
        existing.len() == peers.len(),
        forall|i: int| 0 <= i < peers.len() ==> #[trigger] existing[i],
        forall|i: int| 0 <= i < peers.len() ==> keeps_path(#[trigger] peers[i], home),
    ensures
        all_resolved(
            peers.map_values(|p: PeerView| written(p, home)),
            home,
            existing,
        ) matches Ok(back) && back.len() == peers.len() && (forall|i: int|
            0 <= i < peers.len() ==> same_peer(#[trigger] back[i], peers[i])) && (home is Err
            ==> back == peers),
    decreases peers.len(),
{
    let raw = peers.map_values(|p: PeerView| written(p, home));
    if peers.len() > 0 {
        let n = peers.len() - 1;
        let init = peers.drop_last();
        law_saved_peers_load_back(init, home, existing.drop_last());
        assert(raw.drop_last() =~= init.map_values(|p: PeerView| written(p, home)));
        let last = peers[n];
        assert(existing[n]);
        assert(raw.last() == written(last, home));
        if let Ok(dir) = home {
            law_expand_undoes_contract(last.psk_path, dir);
        }
        let back = all_resolved(raw, home, existing)->Ok_0;
        let before = all_resolved(raw.drop_last(), home, existing.drop_last())->Ok_0;
        assert forall|i: int| 0 <= i < peers.len() implies same_peer(
            #[trigger] back[i],
            peers[i],
        ) by {
            if i < n {
                assert(back[i] == before[i]);
                assert(init[i] == peers[i]);
            }
        }
        if home is Err {
            assert(back =~= peers);
        }
    } else {
        assert(all_resolved(raw, home, existing)->Ok_0 =~= peers);
    }
}

/// A configuration comes back from the file as it was saved, with or without a
/// home directory: where the parser gives the fields of the written sections
/// and the key files are in place, it is accepted and yields the same machine
/// and the same peers in the same order.
pub proof fn law_saved_configuration_loads_back(
    raw: RawConfig,
    local: LocalView,
    peers: Seq<PeerView>,
    home: HomeView,
    existing: Seq<bool>,
)
    requires
        raw.local@ == local,
        peer_views(raw.peers@) == peers.map_values(|p: PeerView| written(p, home)),
        existing.len() == peers.len(),
        forall|i: int| 0 <= i < peers.len() ==> #[trigger] existing[i],
        forall|i: int| 0 <= i < peers.len() ==> keeps_path(#[trigger] peers[i], home),
    ensures
        loaded(Ok(raw), home, existing) matches Ok((l, back)) && l == local && back.len()
            == peers.len() && (forall|i: int|
            0 <= i < peers.len() ==> same_peer(#[trigger] back[i], peers[i])) && (home is Err
            ==> back == peers),
{
    law_saved_peers_load_back(peers, home, existing);
}

/// The text of the file.
pub open spec fn file_text(
    local: LocalView,
    peers: Seq<PeerView>,
    home: HomeView,
) -> Seq<char> {
    local_section(local) + peer_sections(peers, home)
}

/// The text of the file: the whole of it is written anew each time.
pub fn render(local: &LocalConfig, peers: &Vec<PeerConfig>, home: &Home) -> (r: String)
    ensures
        r@ == file_text(local@, peer_views(peers@), home_view(*home)),
{
    let mut out = "[local]\nname = \"".to_string();
    out.append(local.name.as_str());
    out.append("\"\nwidth = ");
    out.append(decimal_text(local.width as u64).as_str());
    out.append("\nheight = ");
    out.append(decimal_text(local.height as u64).as_str());
    out.append("\nlisten = \"");
    out.append(local.listen.as_str());
    out.append("\"\n");
    let ghost views = peer_views(peers@);
    let ghost h = home_view(*home);
    let mut i: usize = 0;
    assert(views.take(0) =~= Seq::<PeerView>::empty());
    assert(out@ =~= local_section(local@) + peer_sections(views.take(0), h));
    while i < peers.len()
        invariant
            i <= peers@.len(),
            views == peer_views(peers@),
            h == home_view(*home),
            out@ == local_section(local@) + peer_sections(views.take(i as int), h),
        decreases peers@.len() - i,
    {
        let section = peer_section_text(&peers[i], home);
        out.append(section.as_str());
        proof {
            let n = i as int;
            assert(views.take(n + 1).drop_last() =~= views.take(n));
            assert(views.take(n + 1).last() == peers@[n]@);
            assert(out@ =~= local_section(local@) + peer_sections(views.take(n + 1), h));
        }
        i = i + 1;
    }
    assert(views.take(i as int) =~= views);
    out
}

proof fn lemma_assoc(a: Seq<char>, b: Seq<char>, c: Seq<char>)
    ensures
        (a + b) + c == a + (b + c),
{
    assert((a + b) + c =~= a + (b + c));
}

/// What follows the same start is the same.
proof fn lemma_same_start(a: Seq<char>, x: Seq<char>, y: Seq<char>)
    requires
        a + x == a + y,
    ensures
        x == y,
{
    assert((a + x).skip(a.len() as int) =~= x);
    assert((a + y).skip(a.len() as int) =~= y);
}

/// A field ends at the first place where the text behind it can begin.
proof fn lemma_same_field(
    x: Seq<char>,
    y: Seq<char>,
    end: Seq<char>,
    r: Seq<char>,
    t: Seq<char>,
)
    requires
        end.len() > 0,
        !x.contains(end[0]),
        !y.contains(end[0]),
        x + (end + r) == y + (end + t),
    ensures
        x == y,
        r == t,
{
    let left = x + (end + r);
    let right = y + (end + t);
    assert(left[x.len() as int] == end[0]);
    assert(right[y.len() as int] == end[0]);
    if x.len() < y.len() {
        assert(y[x.len() as int] == right[x.len() as int]);
        assert(y.contains(end[0]));
    } else if y.len() < x.len() {
        assert(x[y.len() as int] == left[y.len() as int]);
        assert(x.contains(end[0]));
    } else {
        assert(x =~= left.take(x.len() as int));
        assert(y =~= right.take(y.len() as int));
        assert(left.skip(x.len() as int) =~= end + r);
        assert(right.skip(y.len() as int) =~= end + t);
        lemma_same_start(end, r, t);
    }
}

/// A decimal number fits in one line.
proof fn lemma_decimal_has_no_newline(n: nat)
    ensures
        !decimal(n).contains('\n'),
{
    lemma_decimal(n);
    if decimal(n).contains('\n') {
        let k = choose|k: int| 0 <= k < decimal(n).len() && decimal(n)[k] == '\n';
        assert(is_digit(decimal(n)[k]));
    }
}

/// Nine texts and a rest, put together from the left and from the right.
proof fn lemma_assoc_all(
    a: Seq<char>,
    b: Seq<char>,
    c: Seq<char>,
    d: Seq<char>,
    e: Seq<char>,
    f: Seq<char>,
    g: Seq<char>,
    h: Seq<char>,
    i: Seq<char>,
    rest: Seq<char>,
)
    ensures
        a + b + c + d + e + f + g + h + i + rest == a + (b + (c + (d + (e + (f + (g + (h + (i
            + rest)))))))),
{
    lemma_assoc(a + b + c + d + e + f + g + h, i, rest);
    let r8 = i + rest;
    lemma_assoc(a + b + c + d + e + f + g, h, r8);
    let r7 = h + r8;
    lemma_assoc(a + b + c + d + e + f, g, r7);
    let r6 = g + r7;
    lemma_assoc(a + b + c + d + e, f, r6);
    let r5 = f + r6;
    lemma_assoc(a + b + c + d, e, r5);
    let r4 = e + r5;
    lemma_assoc(a + b + c, d, r4);
    let r3 = d + r4;
    lemma_assoc(a + b, c, r3);
    let r2 = c + r3;
    lemma_assoc(a, b, r2);
}

/// The section of this machine, field by field.
proof fn lemma_local_fields(local: LocalView, rest: Seq<char>)
    ensures
        local_section(local) + rest == "[local]\nname = \""@ + (local.name + (
        "\"\nwidth = "@ + (decimal(local.width as nat) + ("\nheight = "@ + (decimal(
            local.height as nat,
        ) + ("\nlisten = \""@ + (local.listen + ("\"\n"@ + rest)))))))),
{
    lemma_assoc_all(
        "[local]\nname = \""@,
        local.name,
        "\"\nwidth = "@,
        decimal(local.width as nat),
        "\nheight = "@,
        decimal(local.height as nat),
        "\nlisten = \""@,
        local.listen,
        "\"\n"@,
        rest,
    );
}

/// The section of a peer, field by field.
proof fn lemma_peer_fields(peer: PeerView, home: HomeView, rest: Seq<char>)
    ensures
        peer_section(peer, home) + rest == "\n[[peer]]\nname = \""@ + (peer.name + (
        "\"\naddr = \""@ + (peer.addr + ("\"\npsk_path = \""@ + (contracted(peer.psk_path, home) + (
        "\"\ndirection = \""@ + (direction_text(peer.direction) + ("\"\n"@ + rest)))))))),
{
    lemma_assoc_all(
        "\n[[peer]]\nname = \""@,
        peer.name,
        "\"\naddr = \""@,
        peer.addr,
        "\"\npsk_path = \""@,
        contracted(peer.psk_path, home),
        "\"\ndirection = \""@,
        direction_text(peer.direction),
        "\"\n"@,
        rest,
    );
}

/// A text without a double quote, which would end a field of the file.
pub open spec fn quotable(text: Seq<char>) -> bool {
    !text.contains('"')
}

/// The fields of this machine fit in the file.
pub open spec fn local_quotable(local: LocalView) -> bool {
    quotable(local.name) && quotable(local.listen)
}

/// The fields of a peer fit in the file.
pub open spec fn peer_quotable(peer: PeerView, home: HomeView) -> bool {
    quotable(peer.name) && quotable(peer.addr) && quotable(contracted(peer.psk_path, home))
}

proof fn lemma_same_local(a: LocalView, b: LocalView, r: Seq<char>, t: Seq<char>)
    requires
        local_quotable(a),
        local_quotable(b),
        local_section(a) + r == local_section(b) + t,
    ensures
        a == b,
        r == t,
{
    lemma_local_fields(a, r);
    lemma_local_fields(b, t);
    reveal_strlit("\"\nwidth = ");
    reveal_strlit("\nheight = ");
    reveal_strlit("\nlisten = \"");
    reveal_strlit("\"\n");
    let e1 = "\"\nwidth = "@;
    let e2 = "\nheight = "@;
    let e3 = "\nlisten = \""@;
    let e4 = "\"\n"@;
    let (aw, ah) = (decimal(a.width as nat), decimal(a.height as nat));
    let (bw, bh) = (decimal(b.width as nat), decimal(b.height as nat));
    let a5 = e4 + r;
    let b5 = e4 + t;
    let a4 = e3 + (a.listen + a5);
    let b4 = e3 + (b.listen + b5);
    let a3 = e2 + (ah + a4);
    let b3 = e2 + (bh + b4);
    let a2 = e1 + (aw + a3);
    let b2 = e1 + (bw + b3);
    lemma_same_start("[local]\nname = \""@, a.name + a2, b.name + b2);
    lemma_same_field(a.name, b.name, e1, aw + a3, bw + b3);
    lemma_decimal_has_no_newline(a.width as nat);
    lemma_decimal_has_no_newline(b.width as nat);
    lemma_same_field(aw, bw, e2, ah + a4, bh + b4);
    lemma_decimal_has_no_newline(a.height as nat);
    lemma_decimal_has_no_newline(b.height as nat);
    lemma_same_field(ah, bh, e3, a.listen + a5, b.listen + b5);
    lemma_same_field(a.listen, b.listen, e4, r, t);
    law_decimal_reads_back(a.width);
    law_decimal_reads_back(b.width);
    law_decimal_reads_back(a.height);
    law_decimal_reads_back(b.height);
}

proof fn lemma_same_peer_section(
    a: PeerView,
    b: PeerView,
    home: HomeView,
    r: Seq<char>,
    t: Seq<char>,
)
    requires
        peer_quotable(a, home),
        peer_quotable(b, home),
        peer_section(a, home) + r == peer_section(b, home) + t,
    ensures
        a.name == b.name,
        a.addr == b.addr,
        a.direction == b.direction,
        contracted(a.psk_path, home) == contracted(b.psk_path, home),
        r == t,
{
    lemma_peer_fields(a, home, r);
    lemma_peer_fields(b, home, t);
    reveal_strlit("\"\naddr = \"");
    reveal_strlit("\"\npsk_path = \"");
    reveal_strlit("\"\ndirection = \"");
    reveal_strlit("\"\n");
    reveal_strlit("left");
    reveal_strlit("right");
    reveal_strlit("up");
    reveal_strlit("down");
    let e1 = "\"\naddr = \""@;
    let e2 = "\"\npsk_path = \""@;
    let e3 = "\"\ndirection = \""@;
    let e4 = "\"\n"@;
    let (ap, bp) = (contracted(a.psk_path, home), contracted(b.psk_path, home));
    let (ad, bd) = (direction_text(a.direction), direction_text(b.direction));
    let a5 = e4 + r;
    let b5 = e4 + t;
    let a4 = e3 + (ad + a5);
    let b4 = e3 + (bd + b5);
    let a3 = e2 + (ap + a4);
    let b3 = e2 + (bp + b4);
    let a2 = e1 + (a.addr + a3);
    let b2 = e1 + (b.addr + b3);
    lemma_same_start("\n[[peer]]\nname = \""@, a.name + a2, b.name + b2);
    lemma_same_field(a.name, b.name, e1, a.addr + a3, b.addr + b3);
    lemma_same_field(a.addr, b.addr, e2, ap + a4, bp + b4);
    lemma_same_field(ap, bp, e3, ad + a5, bd + b5);
    lemma_same_field(ad, bd, e4, r, t);
    law_direction_reads_back(a.direction);
    law_direction_reads_back(b.direction);
}

/// The first section comes first.
proof fn lemma_sections_front(peers: Seq<PeerView>, home: HomeView)
    requires
        peers.len() > 0,
    ensures
        peer_sections(peers, home) == peer_section(peers[0], home) + peer_sections(
            peers.skip(1),
            home,
        ),
    decreases peers.len(),
{
    let first = peer_section(peers[0], home);
    let last = peer_section(peers.last(), home);
    if peers.len() == 1 {
        assert(peers.skip(1) =~= Seq::<PeerView>::empty());
        assert(peers.drop_last() =~= Seq::<PeerView>::empty());
        assert(peer_sections(peers.drop_last(), home) =~= Seq::<char>::empty());
        assert(peer_sections(peers, home) =~= first);
        assert(first + peer_sections(peers.skip(1), home) =~= first);
    } else {
        let init = peers.drop_last();
        lemma_sections_front(init, home);
        assert(init.skip(1) =~= peers.skip(1).drop_last());
        assert(peers.skip(1).last() == peers.last());
        lemma_assoc(first, peer_sections(init.skip(1), home), last);
    }
}

/// The file loses nothing: where two configurations without double quotes in
/// their texts are written as the same file, they are the same machine and the
/// same peers in the same order, with the same key paths as contracted.
pub proof fn law_file_text_determines_configuration(
    local_a: LocalView,
    peers_a: Seq<PeerView>,
    local_b: LocalView,
    peers_b: Seq<PeerView>,
    home: HomeView,
)
    requires
        local_quotable(local_a),
        local_quotable(local_b),
        forall|i: int| 0 <= i < peers_a.len() ==> peer_quotable(#[trigger] peers_a[i], home),
        forall|i: int| 0 <= i < peers_b.len() ==> peer_quotable(#[trigger] peers_b[i], home),
        file_text(local_a, peers_a, home) == file_text(local_b, peers_b, home),
    ensures
        local_a == local_b,
        peers_a.len() == peers_b.len(),
        forall|i: int|
            0 <= i < peers_a.len() ==> {
                &&& (#[trigger] peers_a[i]).name == peers_b[i].name
                &&& peers_a[i].addr == peers_b[i].addr
                &&& peers_a[i].direction == peers_b[i].direction
                &&& contracted(peers_a[i].psk_path, home) == contracted(peers_b[i].psk_path, home)
            },
{
    lemma_same_local(
        local_a,
        local_b,
        peer_sections(peers_a, home),
        peer_sections(peers_b, home),
    );
    lemma_same_peers(peers_a, peers_b, home);
}

proof fn lemma_same_peers(a: Seq<PeerView>, b: Seq<PeerView>, home: HomeView)
    requires
        forall|i: int| 0 <= i < a.len() ==> peer_quotable(#[trigger] a[i], home),
        forall|i: int| 0 <= i < b.len() ==> peer_quotable(#[trigger] b[i], home),
        peer_sections(a, home) == peer_sections(b, home),
    ensures
        a.len() == b.len(),
        forall|i: int|
            0 <= i < a.len() ==> {
                &&& (#[trigger] a[i]).name == b[i].name
                &&& a[i].addr == b[i].addr
                &&& a[i].direction == b[i].direction
                &&& contracted(a[i].psk_path, home) == contracted(b[i].psk_path, home)
            },
    decreases a.len(),
{
    reveal_strlit("\n[[peer]]\nname = \"");
    if a.len() > 0 {
        lemma_sections_front(a, home);
        lemma_peer_fields(a[0], home, Seq::empty());
        assert(peer_section(a[0], home) + Seq::<char>::empty() =~= peer_section(a[0], home));
    }
    if b.len() > 0 {
        lemma_sections_front(b, home);
        lemma_peer_fields(b[0], home, Seq::empty());
        assert(peer_section(b[0], home) + Seq::<char>::empty() =~= peer_section(b[0], home));
    }
    if a.len() > 0 && b.len() > 0 {
        lemma_same_peer_section(
            a[0],
            b[0],
            home,
            peer_sections(a.skip(1), home),
            peer_sections(b.skip(1), home),
        );
        assert forall|i: int| 0 <= i < a.skip(1).len() implies peer_quotable(
            #[trigger] a.skip(1)[i],
            home,
        ) by {
            assert(a.skip(1)[i] == a[i + 1]);
        }
        assert forall|i: int| 0 <= i < b.skip(1).len() implies peer_quotable(
            #[trigger] b.skip(1)[i],
            home,
        ) by {
            assert(b.skip(1)[i] == b[i + 1]);
        }
        lemma_same_peers(a.skip(1), b.skip(1), home);
        assert forall|i: int| 0 <= i < a.len() implies {
            &&& (#[trigger] a[i]).name == b[i].name
            &&& a[i].addr == b[i].addr
            &&& a[i].direction == b[i].direction
            &&& contracted(a[i].psk_path, home) == contracted(b[i].psk_path, home)
        } by {
            if i > 0 {
                assert(a.skip(1)[i - 1] == a[i]);
                assert(b.skip(1)[i - 1] == b[i]);
            }
        }
    }
}

/// The usual place of a key is the file named after the peer among the peers of
/// the configuration, under the home directory, without which it cannot be had.
pub proof fn law_usual_place_of_a_key(name: Seq<char>, home: Seq<char>)
    requires
        name.len() > 0 ==> name[0] != '/',
    ensures
        usual_psk_path(name) == ".config/kvmc-share/peers/"@ + name + ".psk"@,
        expanded(joined("~"@, usual_psk_path(name)), Ok(home)) == Ok::<Seq<char>, ConfigFault>(
            joined(home, ".config/kvmc-share/peers/"@ + name + ".psk"@),
        ),
        forall|cause: Seq<char>|
            expanded(joined("~"@, usual_psk_path(name)), Err(cause)) == Err::<
                Seq<char>,
                ConfigFault,
            >(ConfigFault::NoHome(cause)),
{
    reveal_strlit(".config/kvmc-share/peers");
    reveal_strlit(".config/kvmc-share/peers/");
    reveal_strlit(".psk");
    reveal_strlit("~");
    let usual = ".config/kvmc-share/peers/"@ + name + ".psk"@;
    let file = name + ".psk"@;
    assert(file[0] == if name.len() > 0 {
        name[0]
    } else {
        '.'
    });
    assert(".config/kvmc-share/peers"@.push('/') =~= ".config/kvmc-share/peers/"@);
    assert(usual_psk_path(name) =~= usual);
    assert(usual[0] == '.' && usual[1] == 'c' && usual.last() == 'k');
    lemma_plain_path(usual);
    law_strip_undoes_join("~"@, usual);
}

/// Expanding leaves alone what does not begin with the component `~`; otherwise
/// it needs the home directory, whose components take the place of that one.
pub proof fn law_expanding_puts_the_home_directory_first(path: Seq<char>, home: HomeView)
    ensures
        !(components(path).len() > 0 && components(path)[0] == "~"@) ==> expanded(path, home)
            == Ok::<Seq<char>, ConfigFault>(path),
        components(path).len() > 0 && components(path)[0] == "~"@ ==> match home {
            Err(cause) => expanded(path, home) == Err::<Seq<char>, ConfigFault>(
                ConfigFault::NoHome(cause),
            ),
            Ok(dir) => expanded(path, home) matches Ok(p) && components(p) == components(dir)
                + components(path).skip(1),
        },
{
    lemma_tilde_components();
    let tilde = "~"@;
    let all = components(path);
    if all.len() > 0 && all[0] == tilde {
        assert(components(tilde) =~= all.subrange(0, 1));
        lemma_after(path, 1);
        let rest = after(path, 1);
        assert(components(rest) == all.skip(1));
        if let Ok(dir) = home {
            if components(rest).len() > 0 {
                assert(components(rest)[0] == all[1]);
            }
            law_join_adds_components(dir, rest);
        }
    } else {
        if has_prefix(path, tilde) {
            assert(components(tilde)[0] == all[0]);
        }
    }
}

/// Contracting puts `~` in the place of the components of the home directory,
/// where the path lies under it, and leaves any other path alone.
pub proof fn law_contracting_puts_a_tilde_first(path: Seq<char>, home: Seq<char>)
    requires
        home.len() > 0,
    ensures
        !components(home).is_prefix_of(components(path)) ==> contracted(path, Ok(home)) == path,
        components(home).is_prefix_of(components(path)) ==> components(contracted(path, Ok(home)))
            == seq!["~"@] + components(path).skip(components(home).len() as int),
        forall|cause: Seq<char>| contracted(path, Err(cause)) == path,
{
    if components(home).is_prefix_of(components(path)) {
        lemma_tilde_components();
        reveal_strlit("~");
        lemma_no_components(home);
        let n = spans(home).len() as int;
        let rest = after(path, n);
        lemma_after(path, n);
        if components(rest).len() > 0 {
            assert(components(rest)[0] == components(path)[n]);
        }
        law_join_adds_components("~"@, rest);
    }
}

/// A peer of the file is used as it is, with its key path expanded, where the
/// key file is there; otherwise it is refused, the home directory first.
pub proof fn law_peer_of_the_file_is_used_as_it_is(raw: PeerView, home: HomeView, present: bool)
    ensures
        match expanded(raw.psk_path, home) {
            Err(e) => resolved(raw, home, present) == Err::<PeerView, ConfigFault>(e),
            Ok(path) => if present {
                resolved(raw, home, present) matches Ok(p) && p.name == raw.name && p.addr
                    == raw.addr && p.direction == raw.direction && p.psk_path == path
            } else {
                resolved(raw, home, present) matches Err(ConfigFault::PskMissing {
                    peer,
                    path: missing,
                }) && peer == raw.name && missing == path
            },
        },
{
}

/// The peers of the file are used one for one and in order, where none is
/// refused; otherwise the first that is refused decides.
pub proof fn law_peers_of_the_file_are_used_one_for_one(
    raw: Seq<PeerView>,
    home: HomeView,
    existing: Seq<bool>,
    i: int,
)
    requires
        raw.len() == existing.len(),
        0 <= i <= raw.len(),
        forall|j: int| 0 <= j < i ==> resolved(#[trigger] raw[j], home, existing[j]) is Ok,
        i < raw.len() ==> resolved(raw[i], home, existing[i]) is Err,
    ensures
        i < raw.len() ==> all_resolved(raw, home, existing) == Err::<Seq<PeerView>, ConfigFault>(
            resolved(raw[i], home, existing[i])->Err_0,
        ),
        i == raw.len() ==> (all_resolved(raw, home, existing) matches Ok(peers) && peers.len()
            == raw.len() && forall|j: int|
            0 <= j < raw.len() ==> #[trigger] peers[j] == resolved(
                raw[j],
                home,
                existing[j],
            )->Ok_0),
{
    lemma_resolved_one_for_one(raw, home, existing, i);
    if i < raw.len() {
        assert(raw.take(i + 1).drop_last() =~= raw.take(i));
        assert(existing.take(i + 1).drop_last() =~= existing.take(i));
        lemma_fault_stays(raw, home, existing, i + 1);
    } else {
        assert(raw.take(i) =~= raw);
        assert(existing.take(i) =~= existing);
    }
}

proof fn lemma_resolved_one_for_one(
    raw: Seq<PeerView>,
    home: HomeView,
    existing: Seq<bool>,
    i: int,
)
    requires
        raw.len() == existing.len(),
        0 <= i <= raw.len(),
        forall|j: int| 0 <= j < i ==> resolved(#[trigger] raw[j], home, existing[j]) is Ok,
    ensures
        all_resolved(raw.take(i), home, existing.take(i)) matches Ok(peers) && peers.len() == i
            && forall|j: int|
            0 <= j < i ==> #[trigger] peers[j] == resolved(raw[j], home, existing[j])->Ok_0,
    decreases i,
{
    if i > 0 {
        lemma_resolved_one_for_one(raw, home, existing, i - 1);
        assert(raw.take(i).drop_last() =~= raw.take(i - 1));
        assert(existing.take(i).drop_last() =~= existing.take(i - 1));
        assert(raw.take(i).last() == raw[i - 1]);
        assert(existing.take(i).last() == existing[i - 1]);
        let before = all_resolved(raw.take(i - 1), home, existing.take(i - 1))->Ok_0;
        let peers = all_resolved(raw.take(i), home, existing.take(i))->Ok_0;
        assert forall|j: int| 0 <= j < i implies #[trigger] peers[j] == resolved(
            raw[j],
            home,
            existing[j],
        )->Ok_0 by {
            if j < i - 1 {
                assert(peers[j] == before[j]);
            }
        }
    } else {
        assert(raw.take(0) =~= Seq::<PeerView>::empty());
    }
}

/// What was parsed is loaded: this machine as it stands there, and its peers; a
/// file that could not be parsed is refused for that cause.
pub proof fn law_loading_keeps_this_machine(
    raw: Result<RawConfig, String>,
    home: HomeView,
    existing: Seq<bool>,
)
    ensures
        match raw {
            Err(cause) => loaded(raw, home, existing) == Err::<
                (LocalView, Seq<PeerView>),
                ConfigFault,
            >(ConfigFault::Malformed(cause@)),
            Ok(c) => match all_resolved(peer_views(c.peers@), home, existing) {
                Err(e) => loaded(raw, home, existing) == Err::<
                    (LocalView, Seq<PeerView>),
                    ConfigFault,
                >(e),
                Ok(peers) => loaded(raw, home, existing) matches Ok((l, p)) && l.name
                    == c.local.name@ && l.width == c.local.width && l.height == c.local.height
                    && l.listen == c.local.listen@ && p == peers,
            },
        },
{
}

/// The four words and their directions.
pub proof fn law_words_for_the_directions()
    ensures
        direction_of("left"@) == Some(Direction::Left),
        direction_of("right"@) == Some(Direction::Right),
        direction_of("up"@) == Some(Direction::Up),
        direction_of("down"@) == Some(Direction::Down),
        forall|word: Seq<char>| #[trigger]
            direction_of(word) is Some ==> word == "left"@ || word == "right"@ || word == "up"@
                || word == "down"@,
{
    law_direction_reads_back(Direction::Left);
    law_direction_reads_back(Direction::Right);
    law_direction_reads_back(Direction::Up);
    law_direction_reads_back(Direction::Down);
}

/// An error of the configuration is reported with its cause, or with the path
/// that is missing.
pub proof fn law_config_error_tells_its_cause(cause: Seq<char>, peer: Seq<char>)
    ensures
        ends_with(config_error_text(ConfigFault::Malformed(cause)), cause),
        ends_with(config_error_text(ConfigFault::NoHome(cause)), cause),
        ends_with(config_error_text(ConfigFault::PskMissing { peer, path: cause }), cause),
{
    lemma_ends_with("peers.toml malformado: "@, cause);
    lemma_ends_with("variável de ambiente HOME não definida: "@, cause);
    lemma_ends_with("psk_path do peer '"@ + peer + "' não existe: "@, cause);
}

} // verus!
