//! Pre-shared keys: what a key file holds, and the keys of the peers.

use crate::text::{
    decimal, decimal_text, find_text, first_index, lemma_first_index, lemma_is_first_index, texts,
};
use vstd::prelude::*;
use vstd::string::*;

verus! {

/// The length of a pre-shared key.
pub const PSK_LEN: usize = 32;

/// A key file whose length is wrong.
#[derive(Debug, PartialEq, Eq)]
pub struct PskError {
    pub path: String,
    pub len: usize,
}

impl PskError {
    /// The message shown to the user.
    pub fn message(&self) -> (r: String)
        ensures
            r@ == "psk em "@ + self.path@ + " deveria ter 32 bytes, tem "@ + decimal(
                self.len as nat,
            ),
    {
        let mut out = "psk em ".to_string();
        out.append(self.path.as_str());
        out.append(" deveria ter 32 bytes, tem ");
        out.append(decimal_text(self.len as u64).as_str());
        out
    }
}

/// The key that a key file holds: all of its bytes, of which there are exactly
/// `PSK_LEN`.
pub fn read_psk(path: &str, bytes: &Vec<u8>) -> (r: Result<[u8; 32], PskError>)
    ensures
        match r {
            Ok(psk) => psk@ == bytes@,
            Err(e) => bytes@.len() != PSK_LEN && e.path@ == path@ && e.len == bytes@.len(),
        },
{
    if bytes.len() != PSK_LEN {
        return Err(PskError { path: path.to_string(), len: bytes.len() });
    }
    let mut psk: [u8; 32] = [0u8; 32];
    let mut i: usize = 0;
    while i < PSK_LEN
        invariant
            i <= PSK_LEN,
            bytes@.len() == PSK_LEN,
            forall|k: int| 0 <= k < i ==> #[trigger] psk@[k] == bytes@[k],
        decreases PSK_LEN - i,
    {
        psk[i] = bytes[i];
        i = i + 1;
    }
    assert(psk@ =~= bytes@);
    Ok(psk)
}

/// The keys of the peers, by name.
pub struct Keyring {
    names: Vec<String>,
    keys: Vec<[u8; 32]>,
}

impl Keyring {
    /// The key of each name.
    pub closed spec fn keys(&self) -> Map<Seq<char>, Seq<u8>> {
        Map::new(
            |name: Seq<char>| texts(self.names@).contains(name),
            |name: Seq<char>| self.keys@[first_index(texts(self.names@), name)->0]@,
        )
    }

    /// Every name has a key.
    pub closed spec fn wf(&self) -> bool {
        self.names@.len() == self.keys@.len()
    }

    /// No keys.
    pub fn new() -> (r: Keyring)
        ensures
            r.wf(),
            r.keys() == Map::<Seq<char>, Seq<u8>>::empty(),
    {
        let r = Keyring { names: Vec::new(), keys: Vec::new() };
        assert(r.keys() =~= Map::<Seq<char>, Seq<u8>>::empty());
        r
    }

    /// Gives a name a key, in place of the one that it may have had.
    pub fn insert(&mut self, name: String, psk: [u8; 32])
        requires
            old(self).wf(),
        ensures
            final(self).wf(),
            final(self).keys() == old(self).keys().insert(name@, psk@),
    {
        let ghost before = texts(self.names@);
        let ghost keys_before = self.keys@;
        proof {
            lemma_first_index(before, name@);
        }
        match find_text(&self.names, name.as_str()) {
            Some(i) => {
                self.keys.set(i, psk);
                proof {
                    assert(before.contains(before[i as int]));
                    assert forall|n: Seq<char>| before.contains(n) && n != name@ implies {
                        &&& 0 <= first_index(before, n)->0 < before.len()
                        &&& first_index(before, n)->0 != i
                    } by {
                        lemma_first_index(before, n);
                    }
                    assert(self.keys() =~= old(self).keys().insert(name@, psk@));
                }
            },
            None => {
                self.names.push(name);
                self.keys.push(psk);
                proof {
                    let after = texts(self.names@);
                    assert(after =~= before.push(name@));
                    assert forall|n: Seq<char>| before.contains(n) implies {
                        &&& first_index(after, n) == first_index(before, n)
                        &&& 0 <= first_index(before, n)->0 < before.len()
                        &&& after.contains(n)
                    } by {
                        lemma_first_index(before, n);
                        let i = first_index(before, n)->0;
                        assert(after[i] == n);
                        assert forall|k: int| 0 <= k < i implies #[trigger] after[k] != n by {
                            assert(before[k] != n);
                        }
                        lemma_is_first_index(after, n, i);
                    }
                    assert forall|n: Seq<char>| after.contains(n) && n != name@ implies
                        before.contains(n) by {
                        let k = choose|k: int| 0 <= k < after.len() && after[k] == n;
                        assert(before[k] == n);
                    }
                    assert(after[before.len() as int] == name@);
                    assert forall|k: int| 0 <= k < before.len() implies #[trigger] after[k]
                        != name@ by {
                        assert(before.contains(before[k]));
                    }
                    lemma_is_first_index(after, name@, before.len() as int);
                    assert(self.keys() =~= old(self).keys().insert(name@, psk@));
                }
            },
        }
    }

    /// The key of a name.
    pub fn get(&self, name: &str) -> (r: Option<[u8; 32]>)
        requires
            self.wf(),
        ensures
            match r {
                Some(psk) => self.keys().contains_key(name@) && self.keys()[name@] == psk@,
                None => !self.keys().contains_key(name@),
            },
    {
        proof {
            lemma_first_index(texts(self.names@), name@);
        }
        match find_text(&self.names, name) {
            Some(i) => {
                assert(texts(self.names@)[i as int] == name@);
                Some(self.keys[i])
            },
            None => None,
        }
    }
}

} // verus!
