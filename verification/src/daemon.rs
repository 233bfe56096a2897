//! The decisions of the daemon and of the plain forwarding programs: whom to
//! dial, when a session is taken, what to do with what was read.

use crate::config::{peer_views, PeerConfig, PeerView};
use crate::devices::{grab_change, grab_needed, is_grabbed_after, GrabChange};
use crate::event::{is_toggle_press, toggle_press, InputEvent};
use crate::focus::Event;
use crate::keys::{read_psk, Keyring, PskError, PSK_LEN};
use crate::peers::names_of;
use crate::text::{
    ends_with, find_text, first_index, law_name_order_is_total, lemma_ends_with,
    lemma_first_index, name_less, pieces, split_nonempty, str_eq, str_less, texts,
};
use crate::wire::{is_wire_timeout, wire_error_text, wire_timed_out, WireError, WireMessage};
use vstd::prelude::*;
use vstd::string::*;

verus! {

/// Whether this machine dials a peer: it does so where the name of the peer is
/// the greater one. Otherwise it waits to be dialled.
pub open spec fn dials(local: Seq<char>, peer: Seq<char>) -> bool {
    name_less(local, peer)
}

/// Of two machines with different names, exactly one dials the other, so that
/// there are never two connections between them. A machine does not dial itself.
pub proof fn law_exactly_one_side_dials(a: Seq<char>, b: Seq<char>)
    ensures
        a != b ==> (dials(a, b) <==> !dials(b, a)),
        !dials(a, a),
{
    law_name_order_is_total(a, b);
    law_name_order_is_total(a, a);
}

/// Whether this machine dials a peer.
pub fn should_dial(local_name: &str, peer_name: &str) -> (r: bool)
    ensures
        r == dials(local_name@, peer_name@),
{
    str_less(local_name, peer_name)
}

/// The names of the peers that no session was opened to or accepted from yet.
pub struct PendingSessions {
    names: Vec<String>,
}

impl PendingSessions {
    /// The names.
    pub closed spec fn names(&self) -> Set<Seq<char>> {
        texts(self.names@).to_set()
    }

    /// No name is there twice.
    pub closed spec fn wf(&self) -> bool {
        texts(self.names@).no_duplicates()
    }

    /// At the start there is no session with any peer.
    pub fn new(peers: &Vec<PeerConfig>) -> (r: PendingSessions)
        ensures
            r.wf(),
            r.names() == names_of(peer_views(peers@)).to_set(),
    {
        let ghost all = names_of(peer_views(peers@));
        let mut names: Vec<String> = Vec::new();
        let mut i: usize = 0;
        proof {
            assert(texts(names@) =~= Seq::<Seq<char>>::empty());
            assert(texts(names@).to_set() =~= all.take(0).to_set());
        }
        while i < peers.len()
            invariant
                i <= peers@.len(),
                all == names_of(peer_views(peers@)),
                texts(names@).no_duplicates(),
                texts(names@).to_set() == all.take(i as int).to_set(),
            decreases peers@.len() - i,
        {
            let ghost before = texts(names@);
            let ghost name = peers@[i as int].name@;
            proof {
                lemma_first_index(before, name);
                assert(all.take(i + 1) =~= all.take(i as int).push(name));
                lemma_push_to_set(all.take(i as int), name);
                lemma_push_to_set(before, name);
            }
            if find_text(&names, peers[i].name.as_str()).is_none() {
                names.push(peers[i].name.clone());
                assert(texts(names@) =~= before.push(name));
                assert forall|k: int, l: int| 0 <= k < l < before.push(name).len() implies
                    before.push(name)[k] != before.push(name)[l] by {
                    if l == before.len() {
                        assert(before.contains(before[k]));
                    }
                }
            } else {
                assert(before.contains(name)) by {
                    assert(before[first_index(before, name)->0] == name);
                }
                assert(before.to_set().insert(name) =~= before.to_set());
            }
            i = i + 1;
        }
        assert(all.take(i as int) =~= all);
        PendingSessions { names }
    }

    /// Takes the session of a peer: `true` where there was none yet. From then
    /// on the peer has one.
    pub fn take(&mut self, name: &str) -> (r: bool)
        requires
            old(self).wf(),
        ensures
            final(self).wf(),
            r == old(self).names().contains(name@),
            final(self).names() == old(self).names().remove(name@),
    {
        let ghost before = texts(self.names@);
        proof {
            lemma_first_index(before, name@);
        }
        match find_text(&self.names, name) {
            Some(i) => {
                let _taken = self.names.remove(i);
                proof {
                    let after = texts(self.names@);
                    assert(after =~= before.remove(i as int));
                    assert(before.contains(before[i as int]));
                    assert forall|n: Seq<char>| after.to_set().contains(n)
                        == before.to_set().remove(name@).contains(n) by {
                        if after.contains(n) {
                            let k = choose|k: int| 0 <= k < after.len() && after[k] == n;
                            let l = if k < i {
                                k
                            } else {
                                k + 1
                            };
                            assert(before[l] == n);
                            assert(before[i as int] != n);
                        }
                        if before.contains(n) && n != name@ {
                            let l = choose|l: int| 0 <= l < before.len() && before[l] == n;
                            let k = if l < i {
                                l
                            } else {
                                l - 1
                            };
                            assert(after[k] == n);
                        }
                    }
                    assert(after.to_set() =~= before.to_set().remove(name@));
                }
                true
            },
            None => {
                assert(before.to_set().remove(name@) =~= before.to_set());
                false
            },
        }
    }
}

proof fn lemma_push_to_set(s: Seq<Seq<char>>, name: Seq<char>)
    ensures
        s.push(name).to_set() == s.to_set().insert(name),
{
    assert forall|n: Seq<char>| s.push(name).to_set().contains(n) == s.to_set().insert(
        name,
    ).contains(n) by {
        if s.contains(n) {
            let k = choose|k: int| 0 <= k < s.len() && s[k] == n;
            assert(s.push(name)[k] == n);
        }
        if s.push(name).contains(n) && n != name {
            let k = choose|k: int| 0 <= k < s.push(name).len() && s.push(name)[k] == n;
            assert(s[k] == n);
        }
        assert(s.push(name)[s.len() as int] == name);
    }
    assert(s.push(name).to_set() =~= s.to_set().insert(name));
}

/// The positions of the peers that this machine dials, in order.
pub open spec fn dialled(local: Seq<char>, peers: Seq<PeerView>) -> Seq<int>
    decreases peers.len(),
{
    if peers.len() == 0 {
        Seq::empty()
    } else if dials(local, peers.last().name) {
        dialled(local, peers.drop_last()).push(peers.len() - 1)
    } else {
        dialled(local, peers.drop_last())
    }
}

/// No two peers that are dialled have the same name.
pub open spec fn dialled_once(local: Seq<char>, peers: Seq<PeerView>) -> bool {
    forall|i: int, j: int|
        0 <= i < j < peers.len() && dials(local, peers[i].name) && dials(local, peers[j].name)
            ==> (#[trigger] peers[i]).name != (#[trigger] peers[j]).name
}

/// Whether no two peers that are dialled have the same name.
pub fn is_dialled_once(local_name: &str, peers: &Vec<PeerConfig>) -> (r: bool)
    ensures
        r == dialled_once(local_name@, peer_views(peers@)),
{
    let ghost views = peer_views(peers@);
    let mut j: usize = 0;
    while j < peers.len()
        invariant
            j <= peers@.len(),
            views == peer_views(peers@),
            forall|a: int, b: int|
                0 <= a < b < j && dials(local_name@, views[a].name) && dials(
                    local_name@,
                    views[b].name,
                ) ==> (#[trigger] views[a]).name != (#[trigger] views[b]).name,
        decreases peers@.len() - j,
    {
        if str_less(local_name, peers[j].name.as_str()) {
            let mut i: usize = 0;
            while i < j
                invariant
                    i <= j < peers@.len(),
                    views == peer_views(peers@),
                    dials(local_name@, views[j as int].name),
                    forall|a: int|
                        0 <= a < i ==> (#[trigger] views[a]).name != views[j as int].name,
                decreases j - i,
            {
                assert(views[i as int].name == peers@[i as int].name@);
                assert(views[j as int].name == peers@[j as int].name@);
                if str_eq(peers[i].name.as_str(), peers[j].name.as_str()) {
                    assert(dials(local_name@, views[i as int].name));
                    assert(!dialled_once(local_name@, views)) by {
                        assert(views[i as int].name == views[j as int].name);
                    }
                    return false;
                }
                i = i + 1;
            }
        }
        j = j + 1;
    }
    true
}

/// The positions as mathematical values.
pub open spec fn positions(v: Seq<usize>) -> Seq<int> {
    v.map_values(|i: usize| i as int)
}

/// The names of the peers that this machine waits for: those that it does not
/// dial.
pub open spec fn awaited(local: Seq<char>, peers: Seq<PeerView>) -> Set<Seq<char>> {
    names_of(peers).to_set().filter(|name: Seq<char>| !dials(local, name))
}

/// Takes the sessions of the peers that this machine dials and returns where
/// they stand in the list. The other sessions are left for the peers that dial.
pub fn plan_dials(
    local_name: &str,
    peers: &Vec<PeerConfig>,
    pending: &mut PendingSessions,
) -> (r: Vec<usize>)
    requires
        old(pending).wf(),
        old(pending).names() == names_of(peer_views(peers@)).to_set(),
        dialled_once(local_name@, peer_views(peers@)),
    ensures
        final(pending).wf(),
        positions(r@) == dialled(local_name@, peer_views(peers@)),
        final(pending).names() == awaited(local_name@, peer_views(peers@)),
{
    let ghost views = peer_views(peers@);
    let ghost start = pending.names();
    let mut out: Vec<usize> = Vec::new();
    let mut i: usize = 0;
    proof {
        assert(views.take(0) =~= Seq::<PeerView>::empty());
        assert(positions(out@) =~= Seq::<int>::empty());
    }
    while i < peers.len()
        invariant
            i <= peers@.len(),
            views == peer_views(peers@),
            start == names_of(views).to_set(),
            dialled_once(local_name@, views),
            pending.wf(),
            positions(out@) == dialled(local_name@, views.take(i as int)),
            forall|n: Seq<char>| #[trigger]
                pending.names().contains(n) <==> start.contains(n) && !exists|k: int|
                    0 <= k < i && (#[trigger] views[k]).name == n && dials(local_name@, n),
        decreases peers@.len() - i,
    {
        let ghost before = pending.names();
        let ghost name = views[i as int].name;
        proof {
            assert(views.take(i + 1).drop_last() =~= views.take(i as int));
            assert(views.take(i + 1).last() == views[i as int]);
            assert(name == peers@[i as int].name@);
        }
        if should_dial(local_name, peers[i].name.as_str()) {
            let _taken = pending.take(peers[i].name.as_str());
            let ghost so_far = out@;
            out.push(i);
            assert(positions(out@) =~= positions(so_far).push(i as int));
            assert forall|n: Seq<char>| #[trigger]
                pending.names().contains(n) <==> start.contains(n) && !exists|k: int|
                    0 <= k < i + 1 && (#[trigger] views[k]).name == n && dials(local_name@, n) by {
                if pending.names().contains(n) {
                    assert(before.contains(n));
                    if exists|k: int|
                        0 <= k < i + 1 && (#[trigger] views[k]).name == n && dials(
                            local_name@,
                            n,
                        ) {
                        let k = choose|k: int|
                            0 <= k < i + 1 && (#[trigger] views[k]).name == n && dials(
                                local_name@,
                                n,
                            );
                        assert(k == i);
                    }
                }
                if start.contains(n) && !exists|k: int|
                    0 <= k < i + 1 && (#[trigger] views[k]).name == n && dials(local_name@, n) {
                    assert(views[i as int].name == name);
                    assert(n != name);
                    assert(before.contains(n));
                }
            }
        } else {
            assert forall|n: Seq<char>| #[trigger]
                pending.names().contains(n) <==> start.contains(n) && !exists|k: int|
                    0 <= k < i + 1 && (#[trigger] views[k]).name == n && dials(local_name@, n) by {
                assert(before.contains(n) == pending.names().contains(n));
                if before.contains(n) && exists|k: int|
                    0 <= k < i + 1 && (#[trigger] views[k]).name == n && dials(local_name@, n) {
                    let k = choose|k: int|
                        0 <= k < i + 1 && (#[trigger] views[k]).name == n && dials(local_name@, n);
                    assert(k == i);
                }
            }
        }
        i = i + 1;
    }
    proof {
        assert(views.take(i as int) =~= views);
        let all = names_of(views);
        assert forall|n: Seq<char>| pending.names().contains(n) == awaited(
            local_name@,
            views,
        ).contains(n) by {
            if start.contains(n) {
                let k = choose|k: int| 0 <= k < all.len() && all[k] == n;
                assert(views[k].name == n);
            }
        }
        assert(pending.names() =~= awaited(local_name@, views));
    }
    out
}

/// What reading the key file of a peer gave: its bytes, or why it could not be
/// read.
pub type KeyFile = Result<Vec<u8>, String>;

/// A `KeyFile` as mathematical values.
pub open spec fn key_file_view(file: KeyFile) -> Result<Seq<u8>, Seq<char>> {
    match file {
        Ok(bytes) => Ok(bytes@),
        Err(cause) => Err(cause@),
    }
}

/// Why the daemon cannot start.
#[derive(Debug)]
pub enum StartError {
    /// A key file could not be read; the text says why.
    Unreadable(String),
    /// A key file has a wrong length.
    BadKey(PskError),
    /// Two peers that this machine dials have the same name.
    DialledTwice,
}

/// What a `StartError` says.
pub enum StartFault {
    Unreadable(Seq<char>),
    BadKey { path: Seq<char>, len: nat },
    DialledTwice,
}

impl View for StartError {
    type V = StartFault;

    open spec fn view(&self) -> StartFault {
        match self {
            StartError::Unreadable(cause) => StartFault::Unreadable(cause@),
            StartError::BadKey(e) => StartFault::BadKey { path: e.path@, len: e.len as nat },
            StartError::DialledTwice => StartFault::DialledTwice,
        }
    }
}

/// The keys of the peers, by name; the first key file with a fault decides. Of
/// peers with the same name, the last one gives the key.
pub open spec fn all_keys(peers: Seq<PeerView>, files: Seq<KeyFile>) -> Result<
    Map<Seq<char>, Seq<u8>>,
    StartFault,
>
    decreases peers.len(),
{
    if peers.len() == 0 {
        Ok(Map::empty())
    } else {
        match all_keys(peers.drop_last(), files.drop_last()) {
            Err(e) => Err(e),
            Ok(keys) => match key_file_view(files.last()) {
                Err(cause) => Err(StartFault::Unreadable(cause)),
                Ok(bytes) => if bytes.len() != PSK_LEN {
                    Err(StartFault::BadKey { path: peers.last().psk_path, len: bytes.len() })
                } else {
                    Ok(keys.insert(peers.last().name, bytes))
                },
            },
        }
    }
}

proof fn lemma_key_fault_stays(peers: Seq<PeerView>, files: Seq<KeyFile>, i: int)
    requires
        0 <= i <= peers.len(),
        peers.len() == files.len(),
        all_keys(peers.take(i), files.take(i)) is Err,
    ensures
        all_keys(peers, files) == all_keys(peers.take(i), files.take(i)),
    decreases peers.len() - i,
{
    if i < peers.len() {
        assert(peers.take(i + 1).drop_last() =~= peers.take(i));
        assert(files.take(i + 1).drop_last() =~= files.take(i));
        lemma_key_fault_stays(peers, files, i + 1);
    } else {
        assert(peers.take(i) =~= peers);
        assert(files.take(i) =~= files);
    }
}

/// The keys of the peers, spelled out for the list itself.
proof fn lemma_keys_of_peers(peers: Seq<PeerConfig>, files: Seq<KeyFile>)
    requires
        peers.len() == files.len(),
        forall|i: int| 0 <= i < files.len() ==> holds_key(#[trigger] files[i]),
    ensures
        all_keys(peer_views(peers), files) matches Ok(keys) && {
            &&& forall|i: int|
                0 <= i < peers.len() ==> keys.contains_key((#[trigger] peers[i]).name@)
            &&& forall|name: Seq<char>| #[trigger]
                keys.contains_key(name) ==> exists|i: int|
                    0 <= i < peers.len() && (#[trigger] peers[i]).name@ == name
            &&& forall|i: int| #[trigger]
                last_of_its_name(peer_views(peers), i) ==> keys[peers[i].name@] == files[i]->Ok_0@
        },
{
    let views = peer_views(peers);
    law_keys_are_what_the_key_files_hold(views, files);
    let keys = all_keys(views, files)->Ok_0;
    assert forall|i: int| 0 <= i < peers.len() implies keys.contains_key(
        (#[trigger] peers[i]).name@,
    ) by {
        assert(views[i].name == peers[i].name@);
    }
    assert forall|name: Seq<char>| #[trigger] keys.contains_key(name) implies exists|i: int|
        0 <= i < peers.len() && (#[trigger] peers[i]).name@ == name by {
        let i = choose|i: int| 0 <= i < views.len() && (#[trigger] views[i]).name == name;
        assert(peers[i].name@ == name);
    }
}

/// Collects the keys of the peers. `files` holds what reading each key file
/// gave, in the order of the peers.
pub fn collect_keys(peers: &Vec<PeerConfig>, files: &Vec<KeyFile>) -> (r: Result<
    Keyring,
    StartError,
>)
    requires
        peers@.len() == files@.len(),
    ensures
        match r {
            Ok(keys) => {
                &&& keys.wf()
                &&& all_keys(peer_views(peers@), files@) == Ok::<
                    Map<Seq<char>, Seq<u8>>,
                    StartFault,
                >(keys.keys())
            },
            Err(e) => all_keys(peer_views(peers@), files@) == Err::<
                Map<Seq<char>, Seq<u8>>,
                StartFault,
            >(e@),
        },
        (forall|i: int| 0 <= i < files@.len() ==> holds_key(#[trigger] files@[i])) ==> r is Ok,
        (forall|i: int| 0 <= i < files@.len() ==> holds_key(#[trigger] files@[i])) ==> (r matches Ok(
            keys,
        ) ==> {
            &&& forall|i: int|
                0 <= i < peers@.len() ==> keys.keys().contains_key((#[trigger] peers@[i]).name@)
            &&& forall|name: Seq<char>| #[trigger]
                keys.keys().contains_key(name) ==> exists|i: int|
                    0 <= i < peers@.len() && (#[trigger] peers@[i]).name@ == name
            &&& forall|i: int| #[trigger]
                last_of_its_name(peer_views(peers@), i) ==> keys.keys()[peers@[i].name@]
                    == files@[i]->Ok_0@
        }),
{
    let ghost views = peer_views(peers@);
    let mut keys = Keyring::new();
    let mut i: usize = 0;
    assert(views.take(0) =~= Seq::<PeerView>::empty());
    while i < peers.len()
        invariant
            i <= peers@.len(),
            peers@.len() == files@.len(),
            views == peer_views(peers@),
            keys.wf(),
            all_keys(views.take(i as int), files@.take(i as int)) == Ok::<
                Map<Seq<char>, Seq<u8>>,
                StartFault,
            >(keys.keys()),
        decreases peers@.len() - i,
    {
        proof {
            let n = i as int;
            assert(views.take(n + 1).drop_last() =~= views.take(n));
            assert(files@.take(n + 1).drop_last() =~= files@.take(n));
            assert(views.take(n + 1).last() == peers@[n]@);
            assert(files@.take(n + 1).last() == files@[n]);
            assert(views.take(views.len() as int) =~= views);
            if all_keys(views.take(n + 1), files@.take(n + 1)) is Err {
                lemma_key_fault_stays(views, files@, n + 1);
            }
        }
        match &files[i] {
            Err(cause) => {
                return Err(StartError::Unreadable(cause.clone()));
            },
            Ok(bytes) => match read_psk(peers[i].psk_path.as_str(), bytes) {
                Ok(psk) => {
                    keys.insert(peers[i].name.clone(), psk);
                },
                Err(e) => {
                    return Err(StartError::BadKey(e));
                },
            },
        }
        i = i + 1;
    }
    proof {
        assert(views.take(i as int) =~= views);
        assert(files@.take(i as int) =~= files@);
        if forall|i: int| 0 <= i < files@.len() ==> holds_key(#[trigger] files@[i]) {
            lemma_keys_of_peers(peers@, files@);
        }
    }
    Ok(keys)
}

/// How the daemon starts.
pub struct Startup {
    /// The keys of the peers.
    pub keys: Keyring,
    /// The peers to dial, by their place in the list.
    pub dial: Vec<usize>,
    /// The sessions that are left for peers that dial.
    pub pending: PendingSessions,
}

/// Decides how the daemon starts with the peers that it is to use. `files`
/// holds what reading the key file of each peer gave.
pub fn start(local_name: &str, peers: &Vec<PeerConfig>, files: &Vec<KeyFile>) -> (r: Result<
    Startup,
    StartError,
>)
    requires
        peers@.len() == files@.len(),
    ensures
        match all_keys(peer_views(peers@), files@) {
            Err(fault) => r matches Err(e) && e@ == fault,
            Ok(keys) => if !dialled_once(local_name@, peer_views(peers@)) {
                r matches Err(StartError::DialledTwice)
            } else {
                &&& r matches Ok(s)
                &&& s.keys.wf()
                &&& s.keys.keys() == keys
                &&& positions(s.dial@) == dialled(local_name@, peer_views(peers@))
                &&& s.pending.wf()
                &&& s.pending.names() == awaited(local_name@, peer_views(peers@))
            },
        },
        (forall|i: int| 0 <= i < files@.len() ==> holds_key(#[trigger] files@[i])) ==> (r matches Ok(
            s,
        ) ==> {
            &&& forall|i: int|
                0 <= i < peers@.len() ==> s.keys.keys().contains_key((#[trigger] peers@[i]).name@)
            &&& forall|name: Seq<char>| #[trigger]
                s.keys.keys().contains_key(name) ==> exists|i: int|
                    0 <= i < peers@.len() && (#[trigger] peers@[i]).name@ == name
            &&& forall|i: int| #[trigger]
                last_of_its_name(peer_views(peers@), i) ==> s.keys.keys()[peers@[i].name@]
                    == files@[i]->Ok_0@
        }),
{
    let keys = match collect_keys(peers, files) {
        Ok(keys) => keys,
        Err(e) => {
            return Err(e);
        },
    };
    if !is_dialled_once(local_name, peers) {
        return Err(StartError::DialledTwice);
    }
    let mut pending = PendingSessions::new(peers);
    let dial = plan_dials(local_name, peers, &mut pending);
    Ok(Startup { keys, dial, pending })
}

/// Every peer is either dialled or waited for, by its name, and never both.
pub proof fn law_every_peer_is_dialled_or_awaited(local: Seq<char>, peers: Seq<PeerView>, i: int)
    requires
        0 <= i < peers.len(),
    ensures
        dialled(local, peers).contains(i) <==> !awaited(local, peers).contains(peers[i].name),
{
    lemma_dialled(local, peers, i);
    assert(names_of(peers)[i] == peers[i].name);
    assert(names_of(peers).contains(peers[i].name));
}

proof fn lemma_dialled(local: Seq<char>, peers: Seq<PeerView>, i: int)
    requires
        0 <= i,
    ensures
        dialled(local, peers).contains(i) <==> i < peers.len() && dials(local, peers[i].name),
    decreases peers.len(),
{
    if peers.len() > 0 {
        let init = peers.drop_last();
        let rest = dialled(local, init);
        let n = peers.len() - 1;
        lemma_dialled(local, init, i);
        assert(rest.push(n).contains(i) <==> rest.contains(i) || i == n) by {
            if rest.contains(i) {
                let k = choose|k: int| 0 <= k < rest.len() && rest[k] == i;
                assert(rest.push(n)[k] == i);
            }
            if i == n {
                assert(rest.push(n)[rest.len() as int] == n);
            }
        }
    }
}

/// The steps of listening: the first once, the others for each connection.
#[derive(Debug, Clone, Copy, PartialEq, Eq, Structural)]
pub enum ListenStage {
    Bind,
    Accept,
    DisableNagle,
    SetReadTimeout,
    Handshake,
}

/// What to do after a step of listening.
#[derive(Debug, PartialEq, Eq)]
pub enum ListenAction {
    /// Go on with this step.
    Continue(ListenStage),
    /// Say this and go on with this step.
    Warn(String, ListenStage),
    /// The channel is there: see whether the peer is served.
    Admit,
    /// Say this, drop the connection and wait for the next one.
    Refuse(String),
    /// Say this and listen no more.
    Stop(String),
}

/// The step of listening that follows; none follows the handshake.
pub open spec fn next_listen_stage(stage: ListenStage) -> Option<ListenStage> {
    match stage {
        ListenStage::Bind => Some(ListenStage::Accept),
        ListenStage::Accept => Some(ListenStage::DisableNagle),
        ListenStage::DisableNagle => Some(ListenStage::SetReadTimeout),
        ListenStage::SetReadTimeout => Some(ListenStage::Handshake),
        ListenStage::Handshake => None,
    }
}

/// What is said where a step of listening fails.
pub open spec fn listen_failure_text(
    stage: ListenStage,
    listen: Seq<char>,
    cause: Seq<char>,
) -> Seq<char> {
    match stage {
        ListenStage::Bind => "falha ao escutar em "@ + listen + ": "@ + cause,
        ListenStage::Accept => "falha ao aceitar conexão: "@ + cause,
        ListenStage::DisableNagle => "falha ao desativar Nagle (TCP_NODELAY): "@ + cause,
        ListenStage::SetReadTimeout => "falha ao configurar timeout de leitura: "@ + cause,
        ListenStage::Handshake => "conexão recusada: "@ + cause,
    }
}

/// Decides what to do after a step of listening that went well, or failed for
/// the given cause. Without an address to listen on there is nothing to do; a
/// failure with one connection costs that connection only, and a failure to
/// disable Nagle's algorithm costs nothing.
pub fn listen_step(stage: ListenStage, listen: &str, result: Result<(), String>) -> (r: ListenAction)
    ensures
        match result {
            Ok(_) => match next_listen_stage(stage) {
                Some(next) => r == ListenAction::Continue(next),
                None => r is Admit,
            },
            Err(cause) => {
                let said = listen_failure_text(stage, listen@, cause@);
                match stage {
                    ListenStage::Bind => r matches ListenAction::Stop(text) && text@ == said,
                    ListenStage::DisableNagle => r matches ListenAction::Warn(text, next) && text@
                        == said && Some(next) == next_listen_stage(stage),
                    _ => r matches ListenAction::Refuse(text) && text@ == said,
                }
            },
        },
{
    let cause = match result {
        Ok(()) => {
            return match stage {
                ListenStage::Bind => ListenAction::Continue(ListenStage::Accept),
                ListenStage::Accept => ListenAction::Continue(ListenStage::DisableNagle),
                ListenStage::DisableNagle => ListenAction::Continue(ListenStage::SetReadTimeout),
                ListenStage::SetReadTimeout => ListenAction::Continue(ListenStage::Handshake),
                ListenStage::Handshake => ListenAction::Admit,
            };
        },
        Err(cause) => cause,
    };
    let mut out = match stage {
        ListenStage::Bind => {
            let mut head = "falha ao escutar em ".to_string();
            head.append(listen);
            head.append(": ");
            head
        },
        ListenStage::Accept => "falha ao aceitar conexão: ".to_string(),
        ListenStage::DisableNagle => "falha ao desativar Nagle (TCP_NODELAY): ".to_string(),
        ListenStage::SetReadTimeout => "falha ao configurar timeout de leitura: ".to_string(),
        ListenStage::Handshake => "conexão recusada: ".to_string(),
    };
    out.append(cause.as_str());
    match stage {
        ListenStage::Bind => ListenAction::Stop(out),
        ListenStage::DisableNagle => ListenAction::Warn(out, ListenStage::SetReadTimeout),
        _ => ListenAction::Refuse(out),
    }
}

/// What becomes of a peer that has dialled and finished the handshake.
#[derive(Debug, PartialEq, Eq)]
pub enum Admission {
    /// Say this and serve the channel.
    Serve(String),
    /// Say this and drop the channel: the peer has a session already, or is one
    /// that this machine dials.
    Ignore(String),
}

/// Takes the session of a peer that has dialled. A second one is not served.
pub fn accept_peer(peer_name: &str, pending: &mut PendingSessions) -> (r: Admission)
    requires
        old(pending).wf(),
    ensures
        final(pending).wf(),
        final(pending).names() == old(pending).names().remove(peer_name@),
        if old(pending).names().contains(peer_name@) {
            r matches Admission::Serve(text) && text@ == "["@ + peer_name@
                + "] conectado (respondedor)"@
        } else {
            r matches Admission::Ignore(text) && text@ == "["@ + peer_name@
                + "] conexão aceita, mas já havia uma sessão ativa; ignorando"@
        },
{
    let mut out = "[".to_string();
    out.append(peer_name);
    if pending.take(peer_name) {
        out.append("] conectado (respondedor)");
        Admission::Serve(out)
    } else {
        out.append("] conexão aceita, mas já havia uma sessão ativa; ignorando");
        Admission::Ignore(out)
    }
}

/// A peer is served at most once: when its session is taken, it is gone, and
/// those of the other peers are as they were.
pub proof fn law_each_peer_is_served_once(
    names: Set<Seq<char>>,
    name: Seq<char>,
    other: Seq<char>,
)
    ensures
        !names.remove(name).contains(name),
        other != name ==> names.remove(name).contains(other) == names.contains(other),
{
}

/// The steps of dialling a peer, in order.
#[derive(Debug, Clone, Copy, PartialEq, Eq, Structural)]
pub enum DialStage {
    ReadKey,
    Connect,
    DisableNagle,
    SetReadTimeout,
    Handshake,
}

/// What to do after a step of dialling.
#[derive(Debug, PartialEq, Eq)]
pub enum DialAction {
    /// Go on with this step.
    Continue(DialStage),
    /// Say this and go on with this step.
    Warn(String, DialStage),
    /// The channel is there: say this and serve it.
    Serve(String),
    /// Say this and give up.
    GiveUp(String),
}

/// The step that follows; none follows the handshake.
pub open spec fn next_stage(stage: DialStage) -> Option<DialStage> {
    match stage {
        DialStage::ReadKey => Some(DialStage::Connect),
        DialStage::Connect => Some(DialStage::DisableNagle),
        DialStage::DisableNagle => Some(DialStage::SetReadTimeout),
        DialStage::SetReadTimeout => Some(DialStage::Handshake),
        DialStage::Handshake => None,
    }
}

/// What is said where a step of dialling fails.
pub open spec fn dial_failure_text(stage: DialStage, peer: PeerView, cause: Seq<char>) -> Seq<
    char,
> {
    let head = "["@ + peer.name;
    match stage {
        DialStage::ReadKey => head + "] não consegui ler a PSK: "@ + cause,
        DialStage::Connect => head + "] não consegui conectar em "@ + peer.addr + ": "@ + cause,
        DialStage::DisableNagle => head + "] falha ao desativar Nagle (TCP_NODELAY): "@ + cause,
        DialStage::SetReadTimeout => head + "] falha ao configurar timeout de leitura: "@ + cause,
        DialStage::Handshake => head + "] handshake (iniciador) falhou: "@ + cause,
    }
}

/// Decides what to do after a step of dialling that went well, or failed for
/// the given cause. Only a failure to disable Nagle's algorithm is no reason to
/// give up.
pub fn dial_step(stage: DialStage, peer: &PeerConfig, result: Result<(), String>) -> (r: DialAction)
    ensures
        match result {
            Ok(_) => match next_stage(stage) {
                Some(next) => r == DialAction::Continue(next),
                None => r matches DialAction::Serve(text) && text@ == "["@ + peer.name@
                    + "] conectado (iniciador)"@,
            },
            Err(cause) => if stage == DialStage::DisableNagle {
                r matches DialAction::Warn(text, next) && Some(next) == next_stage(stage) && text@
                    == dial_failure_text(stage, peer@, cause@)
            } else {
                r matches DialAction::GiveUp(text) && text@ == dial_failure_text(
                    stage,
                    peer@,
                    cause@,
                )
            },
        },
{
    let mut out = "[".to_string();
    out.append(peer.name.as_str());
    match result {
        Ok(()) => match stage {
            DialStage::ReadKey => DialAction::Continue(DialStage::Connect),
            DialStage::Connect => DialAction::Continue(DialStage::DisableNagle),
            DialStage::DisableNagle => DialAction::Continue(DialStage::SetReadTimeout),
            DialStage::SetReadTimeout => DialAction::Continue(DialStage::Handshake),
            DialStage::Handshake => {
                out.append("] conectado (iniciador)");
                DialAction::Serve(out)
            },
        },
        Err(cause) => {
            match stage {
                DialStage::ReadKey => out.append("] não consegui ler a PSK: "),
                DialStage::Connect => {
                    out.append("] não consegui conectar em ");
                    out.append(peer.addr.as_str());
                    out.append(": ");
                },
                DialStage::DisableNagle => {
                    out.append("] falha ao desativar Nagle (TCP_NODELAY): ");
                },
                DialStage::SetReadTimeout => {
                    out.append("] falha ao configurar timeout de leitura: ");
                },
                DialStage::Handshake => out.append("] handshake (iniciador) falhou: "),
            }
            out.append(cause.as_str());
            if stage == DialStage::DisableNagle {
                DialAction::Warn(out, DialStage::SetReadTimeout)
            } else {
                DialAction::GiveUp(out)
            }
        },
    }
}

/// What to do with what was read from a peer.
#[derive(Debug)]
pub enum ChannelAction {
    /// Hand this to the focus, then go on reading.
    Deliver(Event),
    /// Nothing arrived in time: send what is waiting, then read again.
    Retry,
    /// The peer has ended the connection.
    Close,
    /// Say this and end the connection.
    Fail(String),
}

/// Decides what to do with what was read from a peer.
pub fn after_read(peer_name: &str, result: Result<Option<WireMessage>, WireError>) -> (r:
    ChannelAction)
    ensures
        match result {
            Ok(Some(msg)) => {
                &&& r matches ChannelAction::Deliver(Event::Wire(from, m))
                &&& from@ == peer_name@
                &&& m == msg
            },
            Ok(None) => r is Close,
            Err(e) => if wire_timed_out(e) {
                r is Retry
            } else {
                r matches ChannelAction::Fail(text) && text@ == "["@ + peer_name@
                    + "] erro de leitura, encerrando conexão: "@ + wire_error_text(e)
            },
        },
{
    match result {
        Ok(Some(msg)) => ChannelAction::Deliver(Event::Wire(peer_name.to_string(), msg)),
        Ok(None) => ChannelAction::Close,
        Err(e) => {
            if is_wire_timeout(&e) {
                ChannelAction::Retry
            } else {
                let mut out = "[".to_string();
                out.append(peer_name);
                out.append("] erro de leitura, encerrando conexão: ");
                out.append(e.message().as_str());
                ChannelAction::Fail(out)
            }
        },
    }
}

/// The paths of the devices to capture: a list with colons, in which empty
/// entries do not count.
pub fn device_paths(list: &str) -> (r: Vec<String>)
    ensures
        texts(r@) == pieces(list@, ':'),
{
    split_nonempty(list, ':')
}

/// What `capture` does with an event of a device.
#[derive(Debug, Clone, Copy, PartialEq, Eq, Structural)]
pub enum CaptureAction {
    /// Say that events are forwarded from now on, and connect.
    Activate,
    /// Say that events stay here from now on.
    Deactivate,
    /// Forward the event.
    Forward,
    /// Leave the event alone.
    Ignore,
}

/// What an event of a device comes to in `capture`.
#[derive(Debug, Clone, Copy, PartialEq, Eq, Structural)]
pub struct CaptureStep {
    /// Whether events are forwarded from now on.
    pub forwarding: bool,
    /// What to do with the device first, if anything.
    pub grab: Option<GrabChange>,
    /// What to do with the event.
    pub action: CaptureAction,
}

/// Whether events are forwarded after an event: the toggle key switches.
pub open spec fn forwarding_after(ev: InputEvent, forwarding: bool) -> bool {
    if toggle_press(ev) {
        !forwarding
    } else {
        forwarding
    }
}

/// Decides what `capture` does with an event of a device that is or is not
/// grabbed. The event of the toggle key is never forwarded: it switches the
/// forwarding. A device follows with its next event: it is grabbed exactly while
/// events are forwarded.
pub fn capture_step(ev: &InputEvent, forwarding: bool, grabbed: bool) -> (r: CaptureStep)
    ensures
        r.forwarding == forwarding_after(*ev, forwarding),
        r.grab == grab_needed(r.forwarding, grabbed),
        r.action == if toggle_press(*ev) {
            if forwarding {
                CaptureAction::Deactivate
            } else {
                CaptureAction::Activate
            }
        } else if forwarding {
            CaptureAction::Forward
        } else {
            CaptureAction::Ignore
        },
{
    let toggle = is_toggle_press(ev);
    let next = if toggle {
        !forwarding
    } else {
        forwarding
    };
    let action = if toggle {
        if forwarding {
            CaptureAction::Deactivate
        } else {
            CaptureAction::Activate
        }
    } else if forwarding {
        CaptureAction::Forward
    } else {
        CaptureAction::Ignore
    };
    CaptureStep { forwarding: next, grab: grab_change(next, grabbed), action }
}

/// An event is forwarded only from a device that is then grabbed, and the
/// toggle key pressed twice leaves the forwarding as it was.
pub proof fn law_capture_grabs_what_it_forwards(ev: InputEvent, forwarding: bool, grabbed: bool)
    ensures
        is_grabbed_after(
            grabbed,
            grab_needed(forwarding_after(ev, forwarding), grabbed),
        ) == forwarding_after(ev, forwarding),
        !toggle_press(ev) ==> forwarding_after(ev, forwarding) == forwarding,
        toggle_press(ev) ==> forwarding_after(ev, forwarding_after(ev, forwarding)) == forwarding,
{
}

/// What to do next in order to forward an event.
#[derive(Debug, Clone, Copy, PartialEq, Eq, Structural)]
pub enum ForwardStep {
    /// Try to connect.
    Connect,
    /// Write the frame of the event; where that fails, drop the connection.
    Write,
    /// Leave the event: there is no connection to be had now.
    GiveUp,
}

/// Decides how to forward an event: over the connection that is there, else
/// after one attempt to connect.
pub fn forward_step(connected: bool, tried: bool) -> (r: ForwardStep)
    ensures
        r == if connected {
            ForwardStep::Write
        } else if tried {
            ForwardStep::GiveUp
        } else {
            ForwardStep::Connect
        },
{
    if connected {
        ForwardStep::Write
    } else if tried {
        ForwardStep::GiveUp
    } else {
        ForwardStep::Connect
    }
}

/// A key file that can be used: it could be read and holds a key's 32 bytes.
pub open spec fn holds_key(file: KeyFile) -> bool {
    file matches Ok(bytes) && bytes@.len() == 32
}

/// The last peer of its name.
pub open spec fn last_of_its_name(peers: Seq<PeerView>, i: int) -> bool {
    &&& 0 <= i < peers.len()
    &&& forall|j: int| i < j < peers.len() ==> (#[trigger] peers[j]).name != peers[i].name
}

/// Where every key file holds a key, exactly the names of the peers have one,
/// and the key of a name is, byte for byte, what the key file of the last peer
/// of that name holds.
pub proof fn law_keys_are_what_the_key_files_hold(peers: Seq<PeerView>, files: Seq<KeyFile>)
    requires
        peers.len() == files.len(),
        forall|i: int| 0 <= i < files.len() ==> holds_key(#[trigger] files[i]),
    ensures
        all_keys(peers, files) matches Ok(keys) && {
            &&& forall|i: int| 0 <= i < peers.len() ==> keys.contains_key((#[trigger] peers[i]).name)
            &&& forall|name: Seq<char>| #[trigger]
                keys.contains_key(name) ==> exists|i: int|
                    0 <= i < peers.len() && (#[trigger] peers[i]).name == name
            &&& forall|i: int| #[trigger]
                last_of_its_name(peers, i) ==> keys[peers[i].name] == files[i]->Ok_0@
        },
    decreases peers.len(),
{
    if peers.len() > 0 {
        let n = peers.len() - 1;
        let (init, rest) = (peers.drop_last(), files.drop_last());
        assert forall|i: int| 0 <= i < rest.len() implies holds_key(#[trigger] rest[i]) by {
            assert(rest[i] == files[i]);
        }
        law_keys_are_what_the_key_files_hold(init, rest);
        assert(holds_key(files[n]));
        let before = all_keys(init, rest)->Ok_0;
        let keys = all_keys(peers, files)->Ok_0;
        assert forall|i: int| 0 <= i < peers.len() implies keys.contains_key(
            (#[trigger] peers[i]).name,
        ) by {
            if i < n {
                assert(init[i] == peers[i]);
            }
        }
        assert forall|name: Seq<char>| #[trigger] keys.contains_key(name) implies exists|i: int|
            0 <= i < peers.len() && (#[trigger] peers[i]).name == name by {
            if name == peers[n].name {
            } else {
                assert(before.contains_key(name));
                let i = choose|i: int| 0 <= i < init.len() && (#[trigger] init[i]).name == name;
                assert(peers[i].name == name);
            }
        }
        assert forall|i: int| #[trigger] last_of_its_name(peers, i) implies keys[peers[i].name]
            == files[i]->Ok_0@ by {
            if i < n {
                assert(peers[n].name != peers[i].name);
                assert forall|j: int| i < j < init.len() implies (#[trigger] init[j]).name
                    != init[i].name by {
                    assert(peers[j].name != peers[i].name);
                }
                assert(last_of_its_name(init, i));
                assert(rest[i] == files[i]);
            }
        }
    }
}

/// The first key file that holds no key decides: the start is refused for what
/// is wrong with that file.
pub proof fn law_first_bad_key_file_refuses_the_start(
    peers: Seq<PeerView>,
    files: Seq<KeyFile>,
    i: int,
)
    requires
        peers.len() == files.len(),
        0 <= i < files.len(),
        !holds_key(files[i]),
        forall|j: int| 0 <= j < i ==> holds_key(#[trigger] files[j]),
    ensures
        all_keys(peers, files) == Err::<Map<Seq<char>, Seq<u8>>, StartFault>(
            match files[i] {
                Err(cause) => StartFault::Unreadable(cause@),
                Ok(bytes) => StartFault::BadKey { path: peers[i].psk_path, len: bytes@.len() },
            },
        ),
{
    let (good, read) = (peers.take(i), files.take(i));
    assert forall|j: int| 0 <= j < read.len() implies holds_key(#[trigger] read[j]) by {
        assert(read[j] == files[j]);
    }
    law_keys_are_what_the_key_files_hold(good, read);
    assert(peers.take(i + 1).drop_last() =~= good);
    assert(files.take(i + 1).drop_last() =~= read);
    assert(peers.take(i + 1).last() == peers[i]);
    assert(files.take(i + 1).last() == files[i]);
    lemma_key_fault_stays(peers, files, i + 1);
}

/// This machine dials the peers whose names come after its own, in the order of
/// the list, each once.
pub proof fn law_greater_names_are_dialled_in_order(local: Seq<char>, peers: Seq<PeerView>)
    ensures
        forall|i: int| #![trigger dialled(local, peers).contains(i)]
            dialled(local, peers).contains(i) <==> 0 <= i < peers.len() && name_less(
                local,
                peers[i].name,
            ),
        forall|k: int, l: int|
            0 <= k < l < dialled(local, peers).len() ==> dialled(local, peers)[k] < dialled(
                local,
                peers,
            )[l],
    decreases peers.len(),
{
    if peers.len() > 0 {
        let init = peers.drop_last();
        let n = peers.len() - 1;
        let rest = dialled(local, init);
        law_greater_names_are_dialled_in_order(local, init);
        assert forall|i: int| #![trigger dialled(local, peers).contains(i)]
            dialled(local, peers).contains(i) <==> 0 <= i < peers.len() && name_less(
                local,
                peers[i].name,
            ) by {
            assert(rest.contains(i) <==> 0 <= i < init.len() && name_less(local, init[i].name));
            if rest.contains(i) {
                let k = choose|k: int| 0 <= k < rest.len() && rest[k] == i;
                assert(rest.push(n)[k] == i);
            }
            if i == n {
                assert(rest.push(n)[rest.len() as int] == n);
            }
            if rest.push(n).contains(i) && i != n {
                let k = choose|k: int| 0 <= k < rest.push(n).len() && rest.push(n)[k] == i;
                assert(rest[k] == i);
            }
        }
        assert forall|k: int, l: int|
            0 <= k < l < dialled(local, peers).len() implies dialled(local, peers)[k] < dialled(
            local,
            peers,
        )[l] by {
            if l == rest.len() {
                assert(rest.contains(rest[k]));
            }
        }
    }
}

/// This machine waits for a name exactly where a peer of the list has it and it
/// does not come after this machine's own.
pub proof fn law_other_names_are_awaited(local: Seq<char>, peers: Seq<PeerView>, name: Seq<char>)
    ensures
        awaited(local, peers).contains(name) <==> !name_less(local, name) && exists|i: int|
            0 <= i < peers.len() && (#[trigger] peers[i]).name == name,
        dials(local, name) <==> name_less(local, name),
{
    let names = names_of(peers);
    if exists|i: int| 0 <= i < peers.len() && (#[trigger] peers[i]).name == name {
        let i = choose|i: int| 0 <= i < peers.len() && (#[trigger] peers[i]).name == name;
        assert(names[i] == name);
    }
    if names.contains(name) {
        let i = choose|i: int| 0 <= i < names.len() && names[i] == name;
        assert(peers[i].name == name);
    }
}

/// The steps of dialling come in this order: the key, the connection, its two
/// settings, the handshake. Those of listening are the address, a connection,
/// its two settings, the handshake.
pub proof fn law_steps_come_in_order()
    ensures
        next_stage(DialStage::ReadKey) == Some(DialStage::Connect),
        next_stage(DialStage::Connect) == Some(DialStage::DisableNagle),
        next_stage(DialStage::DisableNagle) == Some(DialStage::SetReadTimeout),
        next_stage(DialStage::SetReadTimeout) == Some(DialStage::Handshake),
        next_stage(DialStage::Handshake) is None,
        next_listen_stage(ListenStage::Bind) == Some(ListenStage::Accept),
        next_listen_stage(ListenStage::Accept) == Some(ListenStage::DisableNagle),
        next_listen_stage(ListenStage::DisableNagle) == Some(ListenStage::SetReadTimeout),
        next_listen_stage(ListenStage::SetReadTimeout) == Some(ListenStage::Handshake),
        next_listen_stage(ListenStage::Handshake) is None,
{
}

/// Scroll Lock going down switches the forwarding; any other event leaves it.
pub proof fn law_scroll_lock_switches_forwarding(ev: InputEvent, forwarding: bool)
    ensures
        forwarding_after(ev, forwarding) == if ev.event_type == 1 && ev.code == 70 && ev.value
            == 1 {
            !forwarding
        } else {
            forwarding
        },
{
}

/// A failed step of dialling or listening is reported with its cause.
pub proof fn law_failed_step_tells_its_cause(
    stage: DialStage,
    peer: PeerView,
    listening: ListenStage,
    listen: Seq<char>,
    cause: Seq<char>,
)
    ensures
        ends_with(dial_failure_text(stage, peer, cause), cause),
        ends_with(listen_failure_text(listening, listen, cause), cause),
{
    let head = "["@ + peer.name;
    lemma_ends_with(head + "] não consegui ler a PSK: "@, cause);
    lemma_ends_with(head + "] não consegui conectar em "@ + peer.addr + ": "@, cause);
    lemma_ends_with(head + "] falha ao desativar Nagle (TCP_NODELAY): "@, cause);
    lemma_ends_with(head + "] falha ao configurar timeout de leitura: "@, cause);
    lemma_ends_with(head + "] handshake (iniciador) falhou: "@, cause);
    lemma_ends_with("falha ao escutar em "@ + listen + ": "@, cause);
    lemma_ends_with("falha ao aceitar conexão: "@, cause);
    lemma_ends_with("falha ao desativar Nagle (TCP_NODELAY): "@, cause);
    lemma_ends_with("falha ao configurar timeout de leitura: "@, cause);
    lemma_ends_with("conexão recusada: "@, cause);
}

} // verus!
