//! The discovered-peer registry.
//!
//! One table carries both views the transport needs: the per-address peer
//! records (identifier, signal strength, last-seen time, name) and the
//! identifier-to-address lookup used by the send path. Hardware addresses
//! and identifiers are both unique; registering a peer under an identifier
//! another address held makes the last write win. The out-of-range sweep
//! removes every peer whose last-seen time has fallen behind the threshold
//! and reports each exactly once.

use vstd::prelude::*;

verus! {

/// A peer seen during discovery. The hardware address is carried as the
/// 48-bit value of its six octets.
pub struct BleScanDevice {
    pub qaul_id: Vec<u8>,
    pub rssi: i32,
    pub mac_address: u64,
    pub last_found_time: u64,
    pub name: Vec<u8>,
    pub is_connected: bool,
}

pub open spec fn seq_has_mac(s: Seq<BleScanDevice>, m: u64) -> bool
    decreases s.len(),
{
    if s.len() == 0 {
        false
    } else if s[0].mac_address == m {
        true
    } else {
        seq_has_mac(s.drop_first(), m)
    }
}

pub open spec fn seq_id_of(s: Seq<BleScanDevice>, m: u64) -> Seq<u8>
    decreases s.len(),
{
    if s.len() == 0 {
        Seq::empty()
    } else if s[0].mac_address == m {
        s[0].qaul_id@
    } else {
        seq_id_of(s.drop_first(), m)
    }
}

pub open spec fn seq_last_of(s: Seq<BleScanDevice>, m: u64) -> u64
    decreases s.len(),
{
    if s.len() == 0 {
        0
    } else if s[0].mac_address == m {
        s[0].last_found_time
    } else {
        seq_last_of(s.drop_first(), m)
    }
}

pub open spec fn seq_mac_of_id(s: Seq<BleScanDevice>, id: Seq<u8>) -> Option<u64>
    decreases s.len(),
{
    if s.len() == 0 {
        None
    } else if s[0].qaul_id@ == id {
        Some(s[0].mac_address)
    } else {
        seq_mac_of_id(s.drop_first(), id)
    }
}

/// The registry of discovered peers.
pub struct PeerRegistry {
    entries: Vec<BleScanDevice>,
}

impl PeerRegistry {
    /// Addresses are unique and identifiers are unique.
    pub closed spec fn wf(self) -> bool {
        forall|i: int, k: int|
            0 <= i < k < self.entries@.len() ==> (#[trigger] self.entries@[i]).mac_address != (
            #[trigger] self.entries@[k]).mac_address && self.entries@[i].qaul_id@
                != self.entries@[k].qaul_id@
    }

    /// A peer with this address is known.
    pub closed spec fn has_mac(self, m: u64) -> bool {
        seq_has_mac(self.entries@, m)
    }

    /// The identifier registered for an address.
    pub closed spec fn id_of(self, m: u64) -> Seq<u8> {
        seq_id_of(self.entries@, m)
    }

    /// The last-seen time recorded for an address.
    pub closed spec fn last_seen(self, m: u64) -> u64 {
        seq_last_of(self.entries@, m)
    }

    /// The address registered for an identifier.
    pub closed spec fn mac_of_id(self, id: Seq<u8>) -> Option<u64> {
        seq_mac_of_id(self.entries@, id)
    }

    /// How many peers are known.
    pub closed spec fn count(self) -> nat {
        self.entries@.len() as nat
    }

    /// An empty registry.
    pub fn new() -> (r: Self)
        ensures
            r.wf(),
            forall|m: u64| !r.has_mac(m),
            forall|id: Seq<u8>| r.mac_of_id(id) is None,
            r.count() == 0,
    {
        PeerRegistry { entries: Vec::new() }
    }

    /// Whether the address is known.
    pub fn contains_mac(&self, m: u64) -> (r: bool)
        ensures
            r == self.has_mac(m),
    {
        let n = self.entries.len();
        let mut i: usize = 0;
        while i < n
            invariant_except_break
                i <= n,
                n == self.entries@.len(),
                forall|q: int| 0 <= q < i ==> (#[trigger] self.entries@[q]).mac_address != m,
            ensures
                i <= n,
                n == self.entries@.len(),
                forall|q: int| 0 <= q < i ==> (#[trigger] self.entries@[q]).mac_address != m,
                i < n ==> self.entries@[i as int].mac_address == m,
            decreases n - i,
        {
            if self.entries[i].mac_address == m {
                break;
            }
            i = i + 1;
        }
        proof {
            if i < n {
                lemma_has_mac_at(self.entries@, i as int, m);
            } else {
                lemma_mac_absent(self.entries@, m);
            }
        }
        i < n
    }

    /// The address an identifier resolves to.
    pub fn lookup_mac(&self, id: &Vec<u8>) -> (r: Option<u64>)
        ensures
            r == self.mac_of_id(id@),
    {
        let n = self.entries.len();
        let mut i: usize = 0;
        while i < n
            invariant_except_break
                i <= n,
                n == self.entries@.len(),
                forall|q: int| 0 <= q < i ==> (#[trigger] self.entries@[q]).qaul_id@ != id@,
            ensures
                i <= n,
                n == self.entries@.len(),
                forall|q: int| 0 <= q < i ==> (#[trigger] self.entries@[q]).qaul_id@ != id@,
                i < n ==> self.entries@[i as int].qaul_id@ == id@,
            decreases n - i,
        {
            if bytes_eq(&self.entries[i].qaul_id, id) {
                break;
            }
            i = i + 1;
        }
        if i < n {
            proof {
                lemma_mac_of_id_at(self.entries@, i as int, id@);
            }
            Some(self.entries[i].mac_address)
        } else {
            proof {
                lemma_id_absent(self.entries@, id@);
            }
            None
        }
    }

    /// The identifier registered for an address, when the address is known.
    pub fn lookup_id(&self, m: u64) -> (r: Option<Vec<u8>>)
        ensures
            match r {
                Some(id) => self.has_mac(m) && id@ == self.id_of(m),
                None => !self.has_mac(m),
            },
    {
        let n = self.entries.len();
        let mut i: usize = 0;
        while i < n
            invariant_except_break
                i <= n,
                n == self.entries@.len(),
                forall|q: int| 0 <= q < i ==> (#[trigger] self.entries@[q]).mac_address != m,
            ensures
                i <= n,
                n == self.entries@.len(),
                forall|q: int| 0 <= q < i ==> (#[trigger] self.entries@[q]).mac_address != m,
                i < n ==> self.entries@[i as int].mac_address == m,
            decreases n - i,
        {
            if self.entries[i].mac_address == m {
                break;
            }
            i = i + 1;
        }
        if i < n {
            proof {
                lemma_has_mac_at(self.entries@, i as int, m);
            }
            let mut out: Vec<u8> = Vec::new();
            let src = &self.entries[i].qaul_id;
            let mut k: usize = 0;
            while k < src.len()
                invariant
                    k <= src.len(),
                    out@ =~= src@.take(k as int),
                decreases src.len() - k,
            {
                out.push(src[k]);
                k = k + 1;
            }
            proof {
                assert(src@.take(src@.len() as int) =~= src@);
            }
            Some(out)
        } else {
            proof {
                lemma_mac_absent(self.entries@, m);
            }
            None
        }
    }

    /// Register a freshly discovered peer. The address now maps to the
    /// peer's identifier and the identifier resolves to the address; an
    /// earlier holder of the same identifier is dropped (the last write
    /// wins), as is any earlier record under the same address.
    pub fn register(&mut self, peer: BleScanDevice)
        requires
            old(self).wf(),
        ensures
            final(self).wf(),
            forall|m: u64|
                final(self).has_mac(m) == (m == peer.mac_address || (old(self).has_mac(m) && old(self).id_of(m) != peer.qaul_id@)),
            final(self).id_of(peer.mac_address) == peer.qaul_id@,
            final(self).last_seen(peer.mac_address) == peer.last_found_time,
            forall|m: u64|
                m != peer.mac_address && #[trigger] final(self).has_mac(m) ==> final(self).id_of(m)
                    == old(self).id_of(m) && final(self).last_seen(m) == old(self).last_seen(m),
            final(self).mac_of_id(peer.qaul_id@) == Some(peer.mac_address),
            forall|id: Seq<u8>|
                id != peer.qaul_id@ ==> #[trigger] final(self).mac_of_id(id) == (if old(self).mac_of_id(id) == Some(peer.mac_address) {
                    None::<u64>
                } else {
                    old(self).mac_of_id(id)
                }),
    {
        let ghost r0 = *self;
        self.drop_mac(peer.mac_address);
        let ghost r1 = *self;
        self.drop_id(&peer.qaul_id);
        let ghost r2 = *self;
        let ghost s2 = self.entries@;
        proof {
            assert(!self.has_mac(peer.mac_address));
            assert(self.mac_of_id(peer.qaul_id@) is None);
            assert(!seq_has_mac(s2, peer.mac_address));
            assert(seq_mac_of_id(s2, peer.qaul_id@) is None);
            assert forall|m: u64| true implies {
                &&& #[trigger] seq_has_mac(s2.push(peer), m) == (seq_has_mac(s2, m) || m
                    == peer.mac_address)
                &&& seq_id_of(s2.push(peer), m) == if m == peer.mac_address {
                    peer.qaul_id@
                } else {
                    seq_id_of(s2, m)
                }
                &&& seq_last_of(s2.push(peer), m) == if m == peer.mac_address {
                    peer.last_found_time
                } else {
                    seq_last_of(s2, m)
                }
            } by {
                lemma_push_proj(s2, peer, m, Seq::<u8>::empty());
            }
            assert forall|id: Seq<u8>| true implies #[trigger] seq_mac_of_id(s2.push(peer), id)
                == if id == peer.qaul_id@ {
                Some(peer.mac_address)
            } else {
                seq_mac_of_id(s2, id)
            } by {
                lemma_push_proj(s2, peer, 0u64, id);
            }
        }
        let ghost p_mac = peer.mac_address;
        let ghost p_id = peer.qaul_id@;
        let ghost p_last = peer.last_found_time;
        let ghost p_copy = peer;
        self.entries.push(peer);
        proof {
            assert forall|i: int, k: int|
                0 <= i < k < self.entries@.len() implies (
            #[trigger] self.entries@[i]).mac_address != (#[trigger] self.entries@[k]).mac_address
                && self.entries@[i].qaul_id@ != self.entries@[k].qaul_id@ by {
                if k == self.entries@.len() - 1 {
                    assert(self.entries@[i] == s2[i]);
                    assert(self.entries@[k].mac_address == p_mac);
                    assert(self.entries@[k].qaul_id@ == p_id);
                    if s2[i].mac_address == p_mac {
                        lemma_mac_present(s2, i);
                        assert(false);
                    }
                    if s2[i].qaul_id@ == p_id {
                        lemma_id_present(s2, i);
                        assert(false);
                    }
                }
            }
            assert(self.entries@ == s2.push(peer));
            assert forall|m: u64| true implies #[trigger] self.has_mac(m) == (m == p_mac || (
            r0.has_mac(m) && r0.id_of(m) != p_id)) by {
                assert(self.has_mac(m) == (r2.has_mac(m) || m == p_mac));
                assert(r2.has_mac(m) == (r1.has_mac(m) && r1.id_of(m) != p_id));
                if m != p_mac {
                    assert(r1.has_mac(m) == r0.has_mac(m));
                    if r1.has_mac(m) {
                        assert(r1.id_of(m) == r0.id_of(m));
                    }
                }
            }
            assert(self.id_of(p_mac) == p_id) by {
                lemma_push_proj(s2, p_copy, p_mac, Seq::<u8>::empty());
            }
            assert(self.last_seen(p_mac) == p_last) by {
                lemma_push_proj(s2, p_copy, p_mac, Seq::<u8>::empty());
            }
            assert forall|m: u64|
                m != p_mac && #[trigger] self.has_mac(m) implies self.id_of(m) == r0.id_of(m)
                    && self.last_seen(m) == r0.last_seen(m) by {
                assert(self.id_of(m) == r2.id_of(m));
                assert(self.last_seen(m) == r2.last_seen(m));
                assert(r2.has_mac(m));
                assert(r2.id_of(m) == r1.id_of(m) && r2.last_seen(m) == r1.last_seen(m));
                assert(r1.has_mac(m));
            }
            assert(self.mac_of_id(p_id) == Some(p_mac));
            assert forall|id: Seq<u8>| id != p_id implies #[trigger] self.mac_of_id(id) == (if 
            r0.mac_of_id(id) == Some(p_mac) {
                None::<u64>
            } else {
                r0.mac_of_id(id)
            }) by {
                assert(self.mac_of_id(id) == r2.mac_of_id(id));
                assert(r2.mac_of_id(id) == r1.mac_of_id(id));
                assert(r1.mac_of_id(id) == (if r0.mac_of_id(id) == Some(p_mac) {
                    None::<u64>
                } else {
                    r0.mac_of_id(id)
                }));
            }
        }
    }

    /// Remove any record under this address. Used before re-registering.
    fn drop_mac(&mut self, m: u64)
        requires
            old(self).wf(),
        ensures
            final(self).wf(),
            !final(self).has_mac(m),
            forall|k: u64|
                k != m ==> #[trigger] final(self).has_mac(k) == old(self).has_mac(k) && final(self).id_of(k) == old(self).id_of(k) && final(self).last_seen(k) == old(self).last_seen(k),
            forall|id: Seq<u8>|
                #[trigger] final(self).mac_of_id(id) == (if old(self).mac_of_id(id) == Some(m) {
                    None::<u64>
                } else {
                    old(self).mac_of_id(id)
                }),
    {
        let n = self.entries.len();
        let mut i: usize = 0;
        while i < n
            invariant_except_break
                i <= n,
                n == self.entries@.len(),
                forall|q: int| 0 <= q < i ==> (#[trigger] self.entries@[q]).mac_address != m,
            ensures
                i <= n,
                n == self.entries@.len(),
                forall|q: int| 0 <= q < i ==> (#[trigger] self.entries@[q]).mac_address != m,
                i < n ==> self.entries@[i as int].mac_address == m,
            decreases n - i,
        {
            if self.entries[i].mac_address == m {
                break;
            }
            i = i + 1;
        }
        let ghost s = self.entries@;
        if i < n {
            proof {
                lemma_has_mac_at(s, i as int, m);
                assert forall|k: u64| true implies {
                    &&& #[trigger] seq_has_mac(s.remove(i as int), k) == (seq_has_mac(s, k) && k
                        != m)
                    &&& (k != m ==> seq_id_of(s.remove(i as int), k) == seq_id_of(s, k))
                    &&& (k != m ==> seq_last_of(s.remove(i as int), k) == seq_last_of(s, k))
                } by {
                    lemma_remove_proj(s, i as int, k, Seq::<u8>::empty());
                }
                assert forall|id: Seq<u8>| true implies #[trigger] seq_mac_of_id(
                    s.remove(i as int),
                    id,
                ) == (if id == s[i as int].qaul_id@ {
                    None::<u64>
                } else {
                    seq_mac_of_id(s, id)
                }) by {
                    lemma_remove_proj(s, i as int, 0u64, id);
                }
            }
            self.entries.remove(i);
            proof {
                assert forall|p: int, q: int|
                    0 <= p < q < self.entries@.len() implies (
                #[trigger] self.entries@[p]).mac_address != (#[trigger] self.entries@[q]).mac_address
                    && self.entries@[p].qaul_id@ != self.entries@[q].qaul_id@ by {
                    let pp: int = if p < i { p } else { p + 1 };
                    let qq: int = if q < i { q } else { q + 1 };
                    assert(self.entries@[p] == s[pp]);
                    assert(self.entries@[q] == s[qq]);
                }
                assert forall|id: Seq<u8>| true implies #[trigger] seq_mac_of_id(self.entries@, id)
                    == (if seq_mac_of_id(s, id) == Some(m) {
                    None::<u64>
                } else {
                    seq_mac_of_id(s, id)
                }) by {
                    if id == s[i as int].qaul_id@ {
                        assert forall|q: int| 0 <= q < i implies (#[trigger] s[q]).qaul_id@
                            != id by {}
                        lemma_mac_of_id_at(s, i as int, id);
                    } else {
                        if seq_mac_of_id(s, id) == Some(m) {
                            lemma_correspond(s, m, id);
                            assert(false);
                        }
                    }
                }
            }
        } else {
            proof {
                lemma_mac_absent(s, m);
                assert forall|id: Seq<u8>| #[trigger] seq_mac_of_id(s, id) != Some(m) by {
                    lemma_correspond(s, m, id);
                }
            }
        }
    }

    /// Remove any record under this identifier. Used before re-registering.
    fn drop_id(&mut self, id: &Vec<u8>)
        requires
            old(self).wf(),
        ensures
            final(self).wf(),
            final(self).mac_of_id(id@) is None,
            forall|k: Seq<u8>|
                k != id@ ==> #[trigger] final(self).mac_of_id(k) == old(self).mac_of_id(k),
            forall|m: u64|
                #[trigger] final(self).has_mac(m) == (old(self).has_mac(m) && old(self).id_of(m)
                    != id@),
            forall|m: u64|
                final(self).has_mac(m) ==> final(self).id_of(m) == old(self).id_of(m) && final(self).last_seen(m) == old(self).last_seen(m),
    {
        let n = self.entries.len();
        let mut i: usize = 0;
        while i < n
            invariant_except_break
                i <= n,
                n == self.entries@.len(),
                forall|q: int| 0 <= q < i ==> (#[trigger] self.entries@[q]).qaul_id@ != id@,
            ensures
                i <= n,
                n == self.entries@.len(),
                forall|q: int| 0 <= q < i ==> (#[trigger] self.entries@[q]).qaul_id@ != id@,
                i < n ==> self.entries@[i as int].qaul_id@ == id@,
            decreases n - i,
        {
            if bytes_eq(&self.entries[i].qaul_id, id) {
                break;
            }
            i = i + 1;
        }
        let ghost s = self.entries@;
        if i < n {
            proof {
                lemma_mac_of_id_at(s, i as int, id@);
                assert forall|k: u64| true implies {
                    &&& #[trigger] seq_has_mac(s.remove(i as int), k) == (seq_has_mac(s, k) && k
                        != s[i as int].mac_address)
                    &&& (k != s[i as int].mac_address ==> seq_id_of(s.remove(i as int), k)
                        == seq_id_of(s, k))
                    &&& (k != s[i as int].mac_address ==> seq_last_of(s.remove(i as int), k)
                        == seq_last_of(s, k))
                } by {
                    lemma_remove_proj(s, i as int, k, Seq::<u8>::empty());
                }
                assert forall|kid: Seq<u8>| true implies #[trigger] seq_mac_of_id(
                    s.remove(i as int),
                    kid,
                ) == (if kid == id@ {
                    None::<u64>
                } else {
                    seq_mac_of_id(s, kid)
                }) by {
                    lemma_remove_proj(s, i as int, 0u64, kid);
                }
            }
            self.entries.remove(i);
            proof {
                assert forall|p: int, q: int|
                    0 <= p < q < self.entries@.len() implies (
                #[trigger] self.entries@[p]).mac_address != (#[trigger] self.entries@[q]).mac_address
                    && self.entries@[p].qaul_id@ != self.entries@[q].qaul_id@ by {
                    let pp: int = if p < i { p } else { p + 1 };
                    let qq: int = if q < i { q } else { q + 1 };
                    assert(self.entries@[p] == s[pp]);
                    assert(self.entries@[q] == s[qq]);
                }
                let dropped = s[i as int].mac_address;
                assert forall|m: u64| true implies #[trigger] seq_has_mac(self.entries@, m) == (
                seq_has_mac(s, m) && seq_id_of(s, m) != id@) by {
                    if m == dropped {
                        assert forall|q: int| 0 <= q < i implies (#[trigger] s[q]).mac_address
                            != m by {}
                        lemma_has_mac_at(s, i as int, m);
                    } else {
                        if seq_has_mac(s, m) && seq_id_of(s, m) == id@ {
                            lemma_correspond(s, m, id@);
                            assert(false);
                        }
                    }
                }
            }
        } else {
            proof {
                lemma_id_absent(s, id@);
                assert forall|m: u64| !(#[trigger] seq_has_mac(s, m) && seq_id_of(s, m)
                    == id@) by {
                    lemma_correspond(s, m, id@);
                }
            }
        }
    }

    /// Refresh the last-seen time of a known peer; report whether the
    /// address was known. Nothing else changes.
    pub fn refresh(&mut self, m: u64, now: u64) -> (r: bool)
        requires
            old(self).wf(),
        ensures
            final(self).wf(),
            r == old(self).has_mac(m),
            !r ==> *final(self) == *old(self),
            forall|k: u64| #[trigger] final(self).has_mac(k) == old(self).has_mac(k),
            r ==> final(self).last_seen(m) == now,
            forall|k: u64|
                k != m ==> #[trigger] final(self).last_seen(k) == old(self).last_seen(k),
            forall|k: u64| #[trigger] final(self).id_of(k) == old(self).id_of(k),
            forall|id: Seq<u8>| #[trigger] final(self).mac_of_id(id) == old(self).mac_of_id(id),
    {
        let n = self.entries.len();
        let mut i: usize = 0;
        while i < n
            invariant_except_break
                i <= n,
                n == self.entries@.len(),
                forall|q: int| 0 <= q < i ==> (#[trigger] self.entries@[q]).mac_address != m,
            ensures
                i <= n,
                n == self.entries@.len(),
                forall|q: int| 0 <= q < i ==> (#[trigger] self.entries@[q]).mac_address != m,
                i < n ==> self.entries@[i as int].mac_address == m,
            decreases n - i,
        {
            if self.entries[i].mac_address == m {
                break;
            }
            i = i + 1;
        }
        let ghost s = self.entries@;
        if i < n {
            proof {
                lemma_has_mac_at(s, i as int, m);
                assert forall|q: int| 0 <= q < i implies (#[trigger] s[q]).qaul_id@ != s[
                    i as int
                ].qaul_id@ by {}
                lemma_mac_of_id_at(s, i as int, s[i as int].qaul_id@);
            }
            let mut e = self.entries.remove(i);
            let ghost removed = self.entries@;
            proof {
                assert forall|k: u64| true implies {
                    &&& #[trigger] seq_has_mac(removed, k) == (seq_has_mac(s, k) && k != m)
                    &&& (k != m ==> seq_id_of(removed, k) == seq_id_of(s, k))
                    &&& (k != m ==> seq_last_of(removed, k) == seq_last_of(s, k))
                } by {
                    lemma_remove_proj(s, i as int, k, Seq::<u8>::empty());
                }
                assert forall|kid: Seq<u8>| true implies #[trigger] seq_mac_of_id(removed, kid)
                    == (if kid == s[i as int].qaul_id@ {
                    None::<u64>
                } else {
                    seq_mac_of_id(s, kid)
                }) by {
                    lemma_remove_proj(s, i as int, 0u64, kid);
                }
                assert forall|p: int, q: int|
                    0 <= p < q < removed.len() implies (#[trigger] removed[p]).mac_address != (
                #[trigger] removed[q]).mac_address && removed[p].qaul_id@
                    != removed[q].qaul_id@ by {
                    let pp: int = if p < i { p } else { p + 1 };
                    let qq: int = if q < i { q } else { q + 1 };
                    assert(removed[p] == s[pp]);
                    assert(removed[q] == s[qq]);
                }
            }
            e.last_found_time = now;
            proof {
                assert forall|k: u64| true implies {
                    &&& #[trigger] seq_has_mac(removed.push(e), k) == (seq_has_mac(removed, k)
                        || k == m)
                    &&& seq_id_of(removed.push(e), k) == if k == m {
                        e.qaul_id@
                    } else {
                        seq_id_of(removed, k)
                    }
                    &&& seq_last_of(removed.push(e), k) == if k == m {
                        now
                    } else {
                        seq_last_of(removed, k)
                    }
                } by {
                    lemma_push_proj(removed, e, k, Seq::<u8>::empty());
                }
                assert forall|kid: Seq<u8>| true implies #[trigger] seq_mac_of_id(
                    removed.push(e),
                    kid,
                ) == if kid == e.qaul_id@ {
                    Some(m)
                } else {
                    seq_mac_of_id(removed, kid)
                } by {
                    lemma_push_proj(removed, e, 0u64, kid);
                }
            }
            self.entries.push(e);
            proof {
                assert forall|p: int, q: int|
                    0 <= p < q < self.entries@.len() implies (
                #[trigger] self.entries@[p]).mac_address != (#[trigger] self.entries@[q]).mac_address
                    && self.entries@[p].qaul_id@ != self.entries@[q].qaul_id@ by {
                    if q == self.entries@.len() - 1 {
                        assert(self.entries@[p] == removed[p]);
                        if removed[p].mac_address == m {
                            lemma_mac_present(removed, p);
                            assert(false);
                        }
                        if removed[p].qaul_id@ == e.qaul_id@ {
                            lemma_id_present(removed, p);
                            assert(false);
                        }
                    } else {
                        assert(self.entries@[p] == removed[p]);
                        assert(self.entries@[q] == removed[q]);
                    }
                }
                assert(self.entries@ == removed.push(e));
                assert(e.qaul_id@ == s[i as int].qaul_id@);
                assert(e.mac_address == m);
                assert forall|k: u64| true implies #[trigger] self.has_mac(k) == old(
                    self,
                ).has_mac(k) by {
                    lemma_remove_proj(s, i as int, m, Seq::<u8>::empty());
                    lemma_remove_proj(s, i as int, k, Seq::<u8>::empty());
                    lemma_remove_proj(s, i as int, 0u64, e.qaul_id@);
                    lemma_push_proj(removed, e, k, Seq::<u8>::empty());
                    assert(seq_has_mac(s, m));
                }
                assert(self.last_seen(m) == now) by {
                    lemma_remove_proj(s, i as int, m, Seq::<u8>::empty());
                    lemma_remove_proj(s, i as int, 0u64, e.qaul_id@);
                    lemma_push_proj(removed, e, m, Seq::<u8>::empty());
                }
                assert forall|k: u64| k != m implies #[trigger] self.last_seen(k) == old(
                    self,
                ).last_seen(k) by {
                    lemma_remove_proj(s, i as int, m, Seq::<u8>::empty());
                    lemma_remove_proj(s, i as int, k, Seq::<u8>::empty());
                    lemma_remove_proj(s, i as int, 0u64, e.qaul_id@);
                    lemma_push_proj(removed, e, k, Seq::<u8>::empty());
                }
                assert forall|k: u64| true implies #[trigger] self.id_of(k) == old(self).id_of(
                    k,
                ) by {
                    lemma_remove_proj(s, i as int, m, Seq::<u8>::empty());
                    lemma_remove_proj(s, i as int, k, Seq::<u8>::empty());
                    lemma_remove_proj(s, i as int, 0u64, e.qaul_id@);
                    lemma_push_proj(removed, e, k, Seq::<u8>::empty());
                    if k == m {
                        assert(seq_id_of(s, m) == s[i as int].qaul_id@);
                    }
                }
                assert forall|id: Seq<u8>| true implies #[trigger] self.mac_of_id(id) == old(
                    self,
                ).mac_of_id(id) by {
                    lemma_remove_proj(s, i as int, m, Seq::<u8>::empty());
                    lemma_remove_proj(s, i as int, 0u64, e.qaul_id@);
                    lemma_remove_proj(s, i as int, 0u64, id);
                    lemma_push_proj(removed, e, 0u64, id);
                    if id == e.qaul_id@ {
                        assert(seq_mac_of_id(s, id) == Some(m));
                    }
                }
            }
            true
        } else {
            proof {
                lemma_mac_absent(s, m);
            }
            false
        }
    }

    /// Remove every peer whose last-seen time has fallen out of range of
    /// `now` by more than `threshold`, and report each such peer exactly
    /// once with its identifier. Peers still in range keep their record.
    pub fn sweep(&mut self, now: u64, threshold: u64) -> (evicted: Vec<(Vec<u8>, u64)>)
        requires
            old(self).wf(),
        ensures
            final(self).wf(),
            forall|m: u64|
                #[trigger] final(self).has_mac(m) == (old(self).has_mac(m) && !out_of_range(
                    old(self).last_seen(m),
                    now,
                    threshold,
                )),
            forall|m: u64|
                #[trigger] final(self).has_mac(m) ==> final(self).id_of(m) == old(self).id_of(m)
                    && final(self).last_seen(m) == old(self).last_seen(m),
            forall|j: int|
                0 <= j < evicted@.len() ==> old(self).has_mac(#[trigger] evicted@[j].1)
                    && out_of_range(old(self).last_seen(evicted@[j].1), now, threshold)
                    && evicted@[j].0@ == old(self).id_of(evicted@[j].1),
            forall|j: int, k: int| 0 <= j < k < evicted@.len() ==> evicted@[j].1 != evicted@[k].1,
            forall|m: u64|
                old(self).has_mac(m) && out_of_range(old(self).last_seen(m), now, threshold)
                    ==> exists|j: int| 0 <= j < evicted@.len() && #[trigger] evicted@[j].1 == m,
    {
        let mut evicted: Vec<(Vec<u8>, u64)> = Vec::new();
        loop
            invariant
                self.wf(),
                forall|m: u64|
                    #[trigger] self.has_mac(m) ==> old(self).has_mac(m) && self.id_of(m) == old(
                        self,
                    ).id_of(m) && self.last_seen(m) == old(self).last_seen(m),
                forall|m: u64|
                    #[trigger] old(self).has_mac(m) ==> (self.has_mac(m) || exists|j: int|
                        0 <= j < evicted@.len() && #[trigger] evicted@[j].1 == m),
                forall|j: int|
                    0 <= j < evicted@.len() ==> !self.has_mac(#[trigger] evicted@[j].1) && old(
                        self,
                    ).has_mac(evicted@[j].1) && out_of_range(
                        old(self).last_seen(evicted@[j].1),
                        now,
                        threshold,
                    ) && evicted@[j].0@ == old(self).id_of(evicted@[j].1),
                forall|j: int, k: int|
                    0 <= j < k < evicted@.len() ==> evicted@[j].1 != evicted@[k].1,
            decreases self.count(),
        {
            let n = self.entries.len();
            let mut i: usize = 0;
            while i < n
                invariant_except_break
                    i <= n,
                    n == self.entries@.len(),
                    forall|q: int|
                        0 <= q < i ==> !out_of_range(
                            (#[trigger] self.entries@[q]).last_found_time,
                            now,
                            threshold,
                        ),
                ensures
                    i <= n,
                    n == self.entries@.len(),
                    forall|q: int|
                        0 <= q < i ==> !out_of_range(
                            (#[trigger] self.entries@[q]).last_found_time,
                            now,
                            threshold,
                        ),
                    i < n ==> out_of_range(
                        self.entries@[i as int].last_found_time,
                        now,
                        threshold,
                    ),
                decreases n - i,
            {
                let last = self.entries[i].last_found_time;
                if now > threshold && last < now - threshold {
                    break;
                }
                i = i + 1;
            }
            if i == n {
                proof {
                    assert forall|m: u64| #[trigger] self.has_mac(m) implies !out_of_range(
                        self.last_seen(m),
                        now,
                        threshold,
                    ) by {
                        lemma_has_mac_witness(self.entries@, m);
                    }
                    assert forall|m: u64| true implies #[trigger] self.has_mac(m) == (old(
                        self,
                    ).has_mac(m) && !out_of_range(old(self).last_seen(m), now, threshold)) by {
                        if old(self).has_mac(m) && !out_of_range(
                            old(self).last_seen(m),
                            now,
                            threshold,
                        ) && !self.has_mac(m) {
                            let j = choose|j: int|
                                0 <= j < evicted@.len() && #[trigger] evicted@[j].1 == m;
                            assert(out_of_range(old(self).last_seen(m), now, threshold));
                        }
                    }
                }
                return evicted;
            }
            let ghost s = self.entries@;
            let ghost prev = *self;
            proof {
                lemma_mac_present(s, i as int);
                assert forall|q: int| 0 <= q < i implies (#[trigger] s[q]).mac_address != s[
                    i as int
                ].mac_address by {}
                lemma_has_mac_at(s, i as int, s[i as int].mac_address);
            }
            let e = self.entries.remove(i);
            let ghost me = e.mac_address;
            proof {
                assert forall|p: int, q: int|
                    0 <= p < q < self.entries@.len() implies (
                #[trigger] self.entries@[p]).mac_address != (#[trigger] self.entries@[q]).mac_address
                    && self.entries@[p].qaul_id@ != self.entries@[q].qaul_id@ by {
                    let pp: int = if p < i { p } else { p + 1 };
                    let qq: int = if q < i { q } else { q + 1 };
                    assert(self.entries@[p] == s[pp]);
                    assert(self.entries@[q] == s[qq]);
                }
                assert forall|m: u64| true implies {
                    &&& #[trigger] self.has_mac(m) == (prev.has_mac(m) && m != me)
                    &&& (m != me ==> self.id_of(m) == prev.id_of(m))
                    &&& (m != me ==> self.last_seen(m) == prev.last_seen(m))
                } by {
                    lemma_remove_proj(s, i as int, m, Seq::<u8>::empty());
                }
            }
            let ghost e_id = e.qaul_id@;
            let ghost ev0 = evicted@;
            evicted.push((e.qaul_id, e.mac_address));
            proof {
                assert(evicted@.last().1 == me);
                assert(evicted@.last().0@ == e_id);
                assert(prev.has_mac(me));
                assert(prev.id_of(me) == e_id);
                assert(prev.last_seen(me) == e.last_found_time);
                assert(out_of_range(old(self).last_seen(me), now, threshold));
                assert forall|m: u64| #[trigger] old(self).has_mac(m) implies (self.has_mac(m)
                    || exists|j: int|
                    0 <= j < evicted@.len() && #[trigger] evicted@[j].1 == m) by {
                    if prev.has_mac(m) {
                        if m == me {
                            assert(evicted@[evicted@.len() - 1].1 == m);
                        }
                    } else {
                        let j = choose|j: int| 0 <= j < ev0.len() && #[trigger] ev0[j].1 == m;
                        assert(evicted@[j] == ev0[j]);
                        assert(evicted@[j].1 == m);
                    }
                }
            }
        }
    }
}

/// Whether two byte vectors hold the same bytes.
pub fn bytes_eq(a: &Vec<u8>, b: &Vec<u8>) -> (r: bool)
    ensures
        r == (a@ == b@),
{
    if a.len() != b.len() {
        return false;
    }
    let mut i: usize = 0;
    while i < a.len()
        invariant
            i <= a.len(),
            a.len() == b.len(),
            forall|q: int| 0 <= q < i ==> a@[q] == b@[q],
        decreases a.len() - i,
    {
        if a[i] != b[i] {
            return false;
        }
        i = i + 1;
    }
    proof {
        assert(a@ =~= b@);
    }
    true
}

proof fn lemma_mac_absent(s: Seq<BleScanDevice>, m: u64)
    requires
        forall|q: int| 0 <= q < s.len() ==> (#[trigger] s[q]).mac_address != m,
    ensures
        !seq_has_mac(s, m),
    decreases s.len(),
{
    if s.len() > 0 {
        lemma_mac_absent(s.drop_first(), m);
    }
}

proof fn lemma_has_mac_at(s: Seq<BleScanDevice>, i: int, m: u64)
    requires
        0 <= i < s.len(),
        s[i].mac_address == m,
        forall|q: int| 0 <= q < i ==> (#[trigger] s[q]).mac_address != m,
    ensures
        seq_has_mac(s, m),
        seq_id_of(s, m) == s[i].qaul_id@,
        seq_last_of(s, m) == s[i].last_found_time,
    decreases i,
{
    if i > 0 {
        lemma_has_mac_at(s.drop_first(), i - 1, m);
    }
}

proof fn lemma_id_absent(s: Seq<BleScanDevice>, id: Seq<u8>)
    requires
        forall|q: int| 0 <= q < s.len() ==> (#[trigger] s[q]).qaul_id@ != id,
    ensures
        seq_mac_of_id(s, id) is None,
    decreases s.len(),
{
    if s.len() > 0 {
        lemma_id_absent(s.drop_first(), id);
    }
}

proof fn lemma_mac_of_id_at(s: Seq<BleScanDevice>, i: int, id: Seq<u8>)
    requires
        0 <= i < s.len(),
        s[i].qaul_id@ == id,
        forall|q: int| 0 <= q < i ==> (#[trigger] s[q]).qaul_id@ != id,
    ensures
        seq_mac_of_id(s, id) == Some(s[i].mac_address),
    decreases i,
{
    if i > 0 {
        lemma_mac_of_id_at(s.drop_first(), i - 1, id);
    }
}


/// A peer whose last-seen time has fallen behind the threshold.
pub open spec fn out_of_range(last: u64, now: u64, threshold: u64) -> bool {
    last + threshold < now
}

proof fn lemma_remove_proj(s: Seq<BleScanDevice>, i: int, m: u64, id: Seq<u8>)
    requires
        0 <= i < s.len(),
        forall|q: int|
            0 <= q < s.len() && q != i ==> (#[trigger] s[q]).mac_address != s[i].mac_address
                && s[q].qaul_id@ != s[i].qaul_id@,
    ensures
        seq_has_mac(s.remove(i), m) == (seq_has_mac(s, m) && m != s[i].mac_address),
        m != s[i].mac_address ==> seq_id_of(s.remove(i), m) == seq_id_of(s, m),
        m != s[i].mac_address ==> seq_last_of(s.remove(i), m) == seq_last_of(s, m),
        seq_mac_of_id(s.remove(i), id) == if id == s[i].qaul_id@ {
            None::<u64>
        } else {
            seq_mac_of_id(s, id)
        },
    decreases i,
{
    if i == 0 {
        assert(s.remove(0) =~= s.drop_first());
        if s[0].mac_address == m {
            assert forall|q: int|
                0 <= q < s.drop_first().len() implies (#[trigger] s.drop_first()[q]).mac_address
                != m by {
                assert(s.drop_first()[q] == s[q + 1]);
            }
            lemma_mac_absent(s.drop_first(), m);
        }
        if s[0].qaul_id@ == id {
            assert forall|q: int|
                0 <= q < s.drop_first().len() implies (#[trigger] s.drop_first()[q]).qaul_id@
                != id by {
                assert(s.drop_first()[q] == s[q + 1]);
            }
            lemma_id_absent(s.drop_first(), id);
        }
    } else {
        assert(s.remove(i)[0] == s[0]);
        assert(s.remove(i).drop_first() =~= s.drop_first().remove(i - 1));
        assert forall|q: int|
            0 <= q < s.drop_first().len() && q != i - 1 implies (
        #[trigger] s.drop_first()[q]).mac_address != s.drop_first()[i - 1].mac_address
            && s.drop_first()[q].qaul_id@ != s.drop_first()[i - 1].qaul_id@ by {
            assert(s.drop_first()[q] == s[q + 1]);
            assert(s.drop_first()[i - 1] == s[i]);
        }
        lemma_remove_proj(s.drop_first(), i - 1, m, id);
        assert(s.drop_first()[i - 1] == s[i]);
    }
}

proof fn lemma_push_proj(s: Seq<BleScanDevice>, p: BleScanDevice, m: u64, id: Seq<u8>)
    requires
        !seq_has_mac(s, p.mac_address),
        seq_mac_of_id(s, p.qaul_id@) is None,
    ensures
        seq_has_mac(s.push(p), m) == (seq_has_mac(s, m) || m == p.mac_address),
        seq_id_of(s.push(p), m) == if m == p.mac_address {
            p.qaul_id@
        } else {
            seq_id_of(s, m)
        },
        seq_last_of(s.push(p), m) == if m == p.mac_address {
            p.last_found_time
        } else {
            seq_last_of(s, m)
        },
        seq_mac_of_id(s.push(p), id) == if id == p.qaul_id@ {
            Some(p.mac_address)
        } else {
            seq_mac_of_id(s, id)
        },
    decreases s.len(),
{
    if s.len() == 0 {
        reveal_with_fuel(seq_has_mac, 2);
        reveal_with_fuel(seq_id_of, 2);
        reveal_with_fuel(seq_last_of, 2);
        reveal_with_fuel(seq_mac_of_id, 2);
        assert(s.push(p)[0] == p);
        assert(s.push(p).drop_first() =~= Seq::<BleScanDevice>::empty());
        assert(s =~= Seq::<BleScanDevice>::empty());
    } else {
        assert(s.push(p)[0] == s[0]);
        assert(s.push(p).drop_first() =~= s.drop_first().push(p));
        lemma_push_proj(s.drop_first(), p, m, id);
    }
}

/// A known address carries a witness entry that agrees with the accessor
/// functions.
proof fn lemma_has_mac_witness(s: Seq<BleScanDevice>, m: u64)
    requires
        seq_has_mac(s, m),
    ensures
        exists|q: int|
            0 <= q < s.len() && (#[trigger] s[q]).mac_address == m && s[q].qaul_id@ == seq_id_of(
                s,
                m,
            ) && s[q].last_found_time == seq_last_of(s, m),
    decreases s.len(),
{
    if s[0].mac_address == m {
        assert(0 <= 0 < s.len() && s[0].mac_address == m && s[0].qaul_id@ == seq_id_of(s, m)
            && s[0].last_found_time == seq_last_of(s, m));
    } else {
        lemma_has_mac_witness(s.drop_first(), m);
        let q = choose|q: int|
            0 <= q < s.drop_first().len() && (#[trigger] s.drop_first()[q]).mac_address == m
                && s.drop_first()[q].qaul_id@ == seq_id_of(s.drop_first(), m)
                && s.drop_first()[q].last_found_time == seq_last_of(s.drop_first(), m);
        assert(s[q + 1] == s.drop_first()[q]);
        assert(0 <= q + 1 < s.len() && s[q + 1].mac_address == m && s[q + 1].qaul_id@ == seq_id_of(
            s,
            m,
        ) && s[q + 1].last_found_time == seq_last_of(s, m));
    }
}

/// For a well-formed registry the two views correspond: the address found
/// for an identifier holds that identifier.
proof fn lemma_correspond(s: Seq<BleScanDevice>, m: u64, id: Seq<u8>)
    requires
        forall|i: int, k: int|
            0 <= i < k < s.len() ==> (#[trigger] s[i]).mac_address != (#[trigger] s[k]).mac_address
                && s[i].qaul_id@ != s[k].qaul_id@,
    ensures
        seq_has_mac(s, m) ==> seq_mac_of_id(s, seq_id_of(s, m)) == Some(m),
        seq_mac_of_id(s, id) matches Some(mm) ==> seq_has_mac(s, mm) && seq_id_of(s, mm) == id,
    decreases s.len(),
{
    if s.len() > 0 {
        assert forall|i: int, k: int|
            0 <= i < k < s.drop_first().len() implies (#[trigger] s.drop_first()[i]).mac_address
            != (#[trigger] s.drop_first()[k]).mac_address && s.drop_first()[i].qaul_id@
            != s.drop_first()[k].qaul_id@ by {
            assert(s.drop_first()[i] == s[i + 1]);
            assert(s.drop_first()[k] == s[k + 1]);
        }
        lemma_correspond(s.drop_first(), m, id);
        if seq_has_mac(s, m) {
            if s[0].mac_address == m {
                assert(seq_id_of(s, m) == s[0].qaul_id@);
            } else {
                assert(seq_mac_of_id(s.drop_first(), seq_id_of(s, m)) == Some(m));
                if s[0].qaul_id@ == seq_id_of(s, m) {
                    lemma_has_mac_witness(s.drop_first(), m);
                    let q = choose|q: int|
                        0 <= q < s.drop_first().len() && (#[trigger] s.drop_first()[q]).mac_address
                            == m && s.drop_first()[q].qaul_id@ == seq_id_of(s.drop_first(), m)
                            && s.drop_first()[q].last_found_time == seq_last_of(s.drop_first(), m);
                    assert(s[q + 1] == s.drop_first()[q]);
                    assert(false);
                }
            }
        }
        if seq_mac_of_id(s, id) is Some {
            let mm = seq_mac_of_id(s, id).unwrap();
            if s[0].qaul_id@ == id {
                assert(mm == s[0].mac_address);
                assert(seq_id_of(s, mm) == id);
            } else {
                assert(seq_has_mac(s.drop_first(), mm));
                if s[0].mac_address == mm {
                    lemma_has_mac_witness(s.drop_first(), mm);
                    let q = choose|q: int|
                        0 <= q < s.drop_first().len() && (#[trigger] s.drop_first()[q]).mac_address
                            == mm && s.drop_first()[q].qaul_id@ == seq_id_of(s.drop_first(), mm)
                            && s.drop_first()[q].last_found_time == seq_last_of(
                            s.drop_first(),
                            mm,
                        );
                    assert(s[q + 1] == s.drop_first()[q]);
                    assert(false);
                }
            }
        }
    }
}


proof fn lemma_mac_present(s: Seq<BleScanDevice>, i: int)
    requires
        0 <= i < s.len(),
    ensures
        seq_has_mac(s, s[i].mac_address),
    decreases i,
{
    if s[0].mac_address == s[i].mac_address {
    } else {
        lemma_mac_present(s.drop_first(), i - 1);
        assert(s.drop_first()[i - 1] == s[i]);
    }
}

proof fn lemma_id_present(s: Seq<BleScanDevice>, i: int)
    requires
        0 <= i < s.len(),
    ensures
        seq_mac_of_id(s, s[i].qaul_id@) is Some,
    decreases i,
{
    if s[0].qaul_id@ == s[i].qaul_id@ {
    } else {
        lemma_id_present(s.drop_first(), i - 1);
        assert(s.drop_first()[i - 1] == s[i]);
    }
}


/// The two views of the registry correspond: a known address's identifier
/// resolves back to that address, and an identifier that resolves belongs
/// to a known peer carrying exactly that identifier.
pub proof fn lemma_identifier_correspondence(r: PeerRegistry, m: u64, id: Seq<u8>)
    requires
        r.wf(),
    ensures
        r.has_mac(m) ==> r.mac_of_id(r.id_of(m)) == Some(m),
        r.mac_of_id(id) matches Some(mm) ==> r.has_mac(mm) && r.id_of(mm) == id,
{
    lemma_correspond(r.entries@, m, id);
}

} // verus!
