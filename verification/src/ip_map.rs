//! Maps keyed by IP address.

use std::collections::HashMap;
use std::hash::Hash;
use vstd::prelude::*;
use vstd::set_lib::*;

verus! {

broadcast use vstd::std_specs::hash::group_hash_axioms;

/// The address of a host: a version, and the address as a number.
#[derive(Debug, Clone, Copy, PartialEq, Eq, Structural)]
pub enum IpAddr {
    V4(u32),
    V6(u128),
}

/// A map from IP addresses to values, in a hash map for each version.
pub struct IpMap<T> {
    v4: HashMap<u32, T>,
    v6: HashMap<u128, T>,
}

impl<T> View for IpMap<T> {
    type V = Map<IpAddr, T>;

    closed spec fn view(&self) -> Map<IpAddr, T> {
        Map::new(
            |ip: IpAddr|
                match ip {
                    IpAddr::V4(addr) => self.v4@.contains_key(addr),
                    IpAddr::V6(addr) => self.v6@.contains_key(addr),
                },
            |ip: IpAddr|
                match ip {
                    IpAddr::V4(addr) => self.v4@[addr],
                    IpAddr::V6(addr) => self.v6@[addr],
                },
        )
    }
}

impl<T: Copy> IpMap<T> {
    /// An empty map.
    pub fn new() -> (map: Self)
        ensures
            map@ == Map::<IpAddr, T>::empty(),
    {
        let map = Self { v4: HashMap::new(), v6: HashMap::new() };
        assert(map@ =~= Map::<IpAddr, T>::empty());
        map
    }

    /// The addresses of the map are those of its two parts.
    proof fn domain_is_finite(self)
        ensures
            self@.dom().finite(),
            self@.dom().len() == self.v4@.dom().len() + self.v6@.dom().len(),
    {
        let to_v4 = |addr: u32| IpAddr::V4(addr);
        let to_v6 = |addr: u128| IpAddr::V6(addr);
        let v4 = self.v4@.dom();
        let v6 = self.v6@.dom();
        v4.lemma_map_finite(to_v4);
        v6.lemma_map_finite(to_v6);
        lemma_map_size(v4, v4.map(to_v4), to_v4);
        lemma_map_size(v6, v6.map(to_v6), to_v6);
        lemma_set_disjoint_lens(v4.map(to_v4), v6.map(to_v6));
        assert(self@.dom() =~= v4.map(to_v4) + v6.map(to_v6)) by {
            assert forall|ip: IpAddr| self@.dom().contains(ip) implies v4.map(to_v4).contains(ip)
                || v6.map(to_v6).contains(ip) by {
                match ip {
                    IpAddr::V4(addr) => {
                        assert(v4.contains(addr) && to_v4(addr) == ip);
                    },
                    IpAddr::V6(addr) => {
                        assert(v6.contains(addr) && to_v6(addr) == ip);
                    },
                }
            }
        }
    }

    /// The number of addresses in the map.
    pub fn len(&self) -> (len: usize)
        requires
            self@.dom().len() <= usize::MAX,
        ensures
            self@.dom().finite(),
            len == self@.dom().len(),
    {
        proof {
            self.domain_is_finite();
        }
        self.v4.len() + self.v6.len()
    }

    /// The value at `ip`, if there is one.
    pub fn get(&self, ip: IpAddr) -> (value: Option<T>)
        ensures
            value == (if self@.contains_key(ip) {
                Some(self@[ip])
            } else {
                None
            }),
    {
        let value = match &ip {
            IpAddr::V4(addr) => self.v4.get(addr),
            IpAddr::V6(addr) => self.v6.get(addr),
        };
        match value {
            Some(value) => Some(*value),
            None => None,
        }
    }

    /// Sets the value at `ip`.
    pub fn insert(&mut self, ip: IpAddr, value: T)
        ensures
            final(self)@ == old(self)@.insert(ip, value),
    {
        match ip {
            IpAddr::V4(addr) => {
                self.v4.insert(addr, value);
            },
            IpAddr::V6(addr) => {
                self.v6.insert(addr, value);
            },
        }
        assert(self@ =~= old(self)@.insert(ip, value));
    }

    /// The addresses of the map, in no particular order.
    pub fn keys(&self) -> (keys: Vec<IpAddr>)
        ensures
            forall|ip: IpAddr| #[trigger] keys@.contains(ip) <==> self@.contains_key(ip),
    {
        let v4 = hash_map_keys(&self.v4);
        let v6 = hash_map_keys(&self.v6);
        let mut keys: Vec<IpAddr> = Vec::new();
        for i in 0..v4.len()
            invariant
                keys@.len() == i,
                forall|j: int| 0 <= j < i ==> keys@[j] == IpAddr::V4(v4@[j]),
        {
            keys.push(IpAddr::V4(v4[i]));
        }
        for i in 0..v6.len()
            invariant
                keys@.len() == v4@.len() + i,
                forall|j: int| 0 <= j < v4@.len() ==> keys@[j] == IpAddr::V4(v4@[j]),
                forall|j: int| 0 <= j < i ==> keys@[v4@.len() + j] == IpAddr::V6(#[trigger] v6@[j]),
        {
            keys.push(IpAddr::V6(v6[i]));
        }
        proof {
            assert forall|ip: IpAddr| #[trigger] keys@.contains(ip) <==> self@.contains_key(ip) by {
                match ip {
                    IpAddr::V4(addr) => {
                        assert(self.v4@.contains_key(addr) == v4@.to_set().contains(addr));
                        if v4@.contains(addr) {
                            let j = choose|j: int| 0 <= j < v4@.len() && v4@[j] == addr;
                            assert(keys@[j] == ip);
                        }
                        if keys@.contains(ip) {
                            let i = choose|i: int| 0 <= i < keys@.len() && keys@[i] == ip;
                            if i >= v4@.len() {
                                assert(keys@[v4@.len() + (i - v4@.len())] == IpAddr::V6(
                                    v6@[i - v4@.len()],
                                ));
                            }
                        }
                    },
                    IpAddr::V6(addr) => {
                        assert(self.v6@.contains_key(addr) == v6@.to_set().contains(addr));
                        if v6@.contains(addr) {
                            let j = choose|j: int| 0 <= j < v6@.len() && v6@[j] == addr;
                            assert(keys@[v4@.len() + j] == ip);
                        }
                        if keys@.contains(ip) {
                            let i = choose|i: int| 0 <= i < keys@.len() && keys@[i] == ip;
                            assert(keys@[v4@.len() + (i - v4@.len())] == IpAddr::V6(
                                v6@[i - v4@.len()],
                            ));
                        }
                    },
                }
            }
        }
        keys
    }
}

/// The keys of a hash map.
fn hash_map_keys<K: Copy + Eq + Hash, T>(map: &HashMap<K, T>) -> (keys: Vec<K>)
    requires
        vstd::std_specs::hash::obeys_key_model::<K>(),
    ensures
        keys@.to_set() == map@.dom(),
{
    let mut keys: Vec<K> = Vec::new();
    for key in iter: map.keys()
        invariant
            keys@.len() == iter.index(),
            forall|i: int| 0 <= i < keys@.len() ==> keys@[i] == *iter.seq()[i],
    {
        keys.push(*key);
    }
    proof {
        let seq = vstd::std_specs::iter::IteratorSpec::remaining(
            &vstd::std_specs::hash::spec_keys_iter(map),
        );
        assert(keys@ =~= seq.unref());
    }
    keys
}

} // verus!
