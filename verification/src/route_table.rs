//! The route table and its rebuild from the remote-view store.
//!
//! The table maps every reachable destination to the attributes announced
//! for it, with the `peer_id` field overwritten by the next-hop neighbor
//! and the `cost` field by the hop count.  Two side indices map an overlay
//! IPv4 address, and each advertised proxy prefix, to the owning peer.
//!
//! The table is always recomputed wholesale from the remote-view store, by
//! folding every stored advertisement into an empty table in ascending
//! order of sender identifier; the fold is therefore a function of the
//! store contents alone.

use vstd::prelude::*;

use crate::cidr_index::{
    assoc_set, cidr_first_match, CidrIndex, Cidr, cidr_keys_unique, parse_ip_cidr, parsed_ip_cidr,
};
use crate::id_map::{
    entries_have_key, entries_to_map, entry_index_of, entry_value_of, keys_sorted, lemma_entry_at,
    lemma_sorted_insert_shape, sorted_insert, IdMap,
};
use crate::peer_info::{route_entry_of, AdvV, PeerInfoV, SyncPeer, SyncPeerInfo};
use crate::MAX_ROUTE_COST;

verus! {

/// The mathematical value of a [`SyncPeerFromRemote`].
#[verifier::ext_equal]
pub ghost struct RemoteV {
    pub adv: AdvV,
    pub last_update: u64,
}

/// The last advertisement received from a directly-connected peer,
/// together with the time it arrived.
pub struct SyncPeerFromRemote {
    pub packet: SyncPeer,
    pub last_update: u64,
}

impl View for SyncPeerFromRemote {
    type V = RemoteV;

    open spec fn view(&self) -> RemoteV {
        RemoteV { adv: self.packet@, last_update: self.last_update }
    }
}

/// The entry sequence of a route map, with each stored record replaced by
/// its mathematical value.
pub open spec fn view_entries(s: Seq<(u128, SyncPeerInfo)>) -> Seq<(u128, PeerInfoV)> {
    Seq::new(s.len(), |i: int| (s[i].0, s[i].1@))
}

/// The entry sequence of a remote-view store, with each stored record
/// replaced by its mathematical value.
pub open spec fn remote_view_entries(s: Seq<(u128, SyncPeerFromRemote)>) -> Seq<(u128, RemoteV)> {
    Seq::new(s.len(), |i: int| (s[i].0, s[i].1@))
}

/// Taking views commutes with sorted insertion.
pub proof fn lemma_view_entries_sorted_insert(s: Seq<(u128, SyncPeerInfo)>, k: u128, v: SyncPeerInfo)
    ensures
        view_entries(sorted_insert(s, k, v)) == sorted_insert(view_entries(s), k, v@),
    decreases s.len(),
{
    if s.len() == 0 {
        assert(view_entries(sorted_insert(s, k, v)) =~= sorted_insert(view_entries(s), k, v@));
    } else if k < s[0].0 {
        assert(view_entries(sorted_insert(s, k, v)) =~= sorted_insert(view_entries(s), k, v@));
    } else if k == s[0].0 {
        assert(view_entries(sorted_insert(s, k, v)) =~= sorted_insert(view_entries(s), k, v@));
    } else {
        lemma_view_entries_sorted_insert(s.drop_first(), k, v);
        assert(view_entries(s.drop_first()) =~= view_entries(s).drop_first());
        assert(view_entries(sorted_insert(s, k, v)) =~= seq![(s[0].0, s[0].1@)] + view_entries(
            sorted_insert(s.drop_first(), k, v),
        ));
        assert(view_entries(sorted_insert(s, k, v)) =~= sorted_insert(view_entries(s), k, v@));
    }
}

/// Lookups in the viewed entries mirror lookups in the stored entries.
pub proof fn lemma_view_entries_lookup(s: Seq<(u128, SyncPeerInfo)>, k: u128)
    requires
        keys_sorted(s),
    ensures
        keys_sorted(view_entries(s)),
        entries_have_key(view_entries(s), k) == entries_have_key(s, k),
        entries_have_key(s, k) ==> entry_value_of(view_entries(s), k) == entry_value_of(s, k)@,
{
    let vs = view_entries(s);
    assert(keys_sorted(vs)) by {
        assert(forall|i: int| 0 <= i < s.len() ==> (#[trigger] vs[i]).0 == s[i].0);
    }
    if entries_have_key(s, k) {
        let i = entry_index_of(s, k);
        assert(vs[i].0 == k);
        assert(entries_have_key(vs, k));
        lemma_entry_at(s, i);
        lemma_entry_at(vs, i);
    }
    if entries_have_key(vs, k) {
        let i = entry_index_of(vs, k);
        assert(s[i].0 == k);
        assert(entries_have_key(s, k));
    }
}

/// Taking views commutes with sorted insertion into the store.
pub proof fn lemma_remote_view_entries_sorted_insert(
    s: Seq<(u128, SyncPeerFromRemote)>,
    k: u128,
    v: SyncPeerFromRemote,
)
    ensures
        remote_view_entries(sorted_insert(s, k, v)) == sorted_insert(remote_view_entries(s), k, v@),
    decreases s.len(),
{
    if s.len() == 0 {
        assert(remote_view_entries(sorted_insert(s, k, v)) =~= sorted_insert(
            remote_view_entries(s),
            k,
            v@,
        ));
    } else if k < s[0].0 || k == s[0].0 {
        assert(remote_view_entries(sorted_insert(s, k, v)) =~= sorted_insert(
            remote_view_entries(s),
            k,
            v@,
        ));
    } else {
        lemma_remote_view_entries_sorted_insert(s.drop_first(), k, v);
        assert(remote_view_entries(s.drop_first()) =~= remote_view_entries(s).drop_first());
        assert(remote_view_entries(sorted_insert(s, k, v)) =~= seq![(s[0].0, s[0].1@)]
            + remote_view_entries(sorted_insert(s.drop_first(), k, v)));
        assert(remote_view_entries(sorted_insert(s, k, v)) =~= sorted_insert(
            remote_view_entries(s),
            k,
            v@,
        ));
    }
}

/// Lookups in the viewed store mirror lookups in the stored entries.
pub proof fn lemma_remote_view_entries_lookup(s: Seq<(u128, SyncPeerFromRemote)>, k: u128)
    requires
        keys_sorted(s),
    ensures
        keys_sorted(remote_view_entries(s)),
        entries_have_key(remote_view_entries(s), k) == entries_have_key(s, k),
        entries_have_key(s, k) ==> entry_value_of(remote_view_entries(s), k) == entry_value_of(
            s,
            k,
        )@,
{
    let vs = remote_view_entries(s);
    assert(keys_sorted(vs)) by {
        assert(forall|i: int| 0 <= i < s.len() ==> (#[trigger] vs[i]).0 == s[i].0);
    }
    if entries_have_key(s, k) {
        let i = entry_index_of(s, k);
        assert(vs[i].0 == k);
        assert(entries_have_key(vs, k));
        lemma_entry_at(s, i);
        lemma_entry_at(vs, i);
    }
    if entries_have_key(vs, k) {
        let i = entry_index_of(vs, k);
        assert(s[i].0 == k);
        assert(entries_have_key(s, k));
    }
}

impl Clone for SyncPeerFromRemote {
    /// Copies the record, keeping its mathematical value.
    fn clone(&self) -> (r: Self)
        ensures
            r@ == self@,
    {
        SyncPeerFromRemote { packet: self.packet.clone(), last_update: self.last_update }
    }
}

/// The mathematical value of a [`RouteTable`]: the three indices as entry
/// sequences (the route and IPv4 sequences sorted by key, the prefix
/// sequence in write order).
#[verifier::ext_equal]
pub ghost struct TableV {
    pub route: Seq<(u128, PeerInfoV)>,
    pub ipv4: Seq<(u128, u128)>,
    pub cidr: Seq<(Cidr, u128)>,
}

/// The table with nothing reachable.
pub open spec fn empty_table() -> TableV {
    TableV {
        route: Seq::empty(),
        ipv4: Seq::empty(),
        cidr: Seq::empty(),
    }
}

/// Writes every parsable prefix of `cidrs` into the index, bound to `d`.
pub open spec fn cidr_fold(s: Seq<(Cidr, u128)>, cidrs: Seq<Seq<char>>, d: u128) -> Seq<
    (Cidr, u128),
>
    decreases cidrs.len(),
{
    if cidrs.len() == 0 {
        s
    } else {
        let s1 = match parsed_ip_cidr(cidrs[0]) {
            Some(c) => assoc_set(s, c, d),
            None => s,
        };
        cidr_fold(s1, cidrs.drop_first(), d)
    }
}

/// One update step of the rebuild: offer a path to `info.peer_id` through
/// `next_hop` at hop count `cost`.
///
/// A cost above the ceiling changes nothing.  Otherwise the route entry is
/// written if the destination is new or the offered cost is strictly
/// smaller (equal-cost ties keep the earlier entry), and the address
/// indices are written from the advertised attributes unconditionally.
pub open spec fn table_update(t: TableV, next_hop: u128, cost: int, info: PeerInfoV) -> TableV {
    if cost > MAX_ROUTE_COST {
        t
    } else {
        let d = info.peer_id;
        let route1 = if !entries_have_key(t.route, d) || entry_value_of(t.route, d).cost > cost {
            sorted_insert(t.route, d, route_entry_of(info, next_hop, cost as u32))
        } else {
            t.route
        };
        let ipv41 = match info.ipv4_addr {
            Some(ip) => sorted_insert(t.ipv4, ip as u128, d),
            None => t.ipv4,
        };
        let cidr1 = cidr_fold(t.cidr, info.proxy_cidrs, d);
        TableV { route: route1, ipv4: ipv41, cidr: cidr1 }
    }
}

/// Folds the neighbor list of an advertisement from sender `s_id` into the
/// table, skipping this node's own identifier and adding one hop to each
/// announced cost.
pub open spec fn apply_neighbors(t: TableV, my_id: u128, s_id: u128, ns: Seq<PeerInfoV>) -> TableV
    decreases ns.len(),
{
    if ns.len() == 0 {
        t
    } else {
        let t1 = if ns[0].peer_id == my_id {
            t
        } else {
            table_update(t, s_id, ns[0].cost + 1, ns[0])
        };
        apply_neighbors(t1, my_id, s_id, ns.drop_first())
    }
}

/// Folds one stored advertisement into the table: its neighbors first,
/// then the sender itself at hop count one.
pub open spec fn apply_adv(t: TableV, my_id: u128, a: AdvV) -> TableV {
    table_update(
        apply_neighbors(t, my_id, a.myself.peer_id, a.neighbors),
        a.myself.peer_id,
        1,
        a.myself,
    )
}

/// The table derived from a remote-view store: every stored advertisement
/// folded into an empty table, in storage (ascending sender) order.
pub open spec fn rebuild_table(my_id: u128, views: Seq<(u128, RemoteV)>) -> TableV
    decreases views.len(),
{
    if views.len() == 0 {
        empty_table()
    } else {
        apply_adv(rebuild_table(my_id, views.drop_last()), my_id, views.last().1.adv)
    }
}

/// The route table projected back into advertisable form: each entry's
/// attributes, with the destination as its identifier and the hop count as
/// its cost.
pub open spec fn snapshot_neighbors(route: Seq<(u128, PeerInfoV)>) -> Seq<PeerInfoV> {
    Seq::new(route.len(), |i: int| route_entry_of(route[i].1, route[i].0, route[i].1.cost))
}

/// Destination lookup by IPv4 address: the overlay-address index first,
/// then the first matching proxy prefix.
pub open spec fn ipv4_lookup(t: TableV, ip: u32) -> Option<u128> {
    if entries_have_key(t.ipv4, ip as u128) {
        Some(entry_value_of(t.ipv4, ip as u128))
    } else {
        cidr_first_match(t.cidr, ip)
    }
}

/// The rebuilt table reads only each advertisement's `myself` and
/// `neighbors`: stores that agree on those agree on the table.
pub proof fn lemma_rebuild_same_advs(
    my_id: u128,
    s1: Seq<(u128, RemoteV)>,
    s2: Seq<(u128, RemoteV)>,
)
    requires
        s1.len() == s2.len(),
        forall|i: int| 0 <= i < s1.len() ==> (#[trigger] s1[i]).1.adv.myself == s2[i].1.adv.myself
            && s1[i].1.adv.neighbors == s2[i].1.adv.neighbors,
    ensures
        rebuild_table(my_id, s1) == rebuild_table(my_id, s2),
    decreases s1.len(),
{
    if s1.len() > 0 {
        let t1 = s1.drop_last();
        let t2 = s2.drop_last();
        assert(forall|i: int| 0 <= i < t1.len() ==> (#[trigger] t1[i]) == s1[i] && t2[i] == s2[i]);
        lemma_rebuild_same_advs(my_id, t1, t2);
        let b = rebuild_table(my_id, t1);
        let a1 = s1.last().1.adv;
        let a2 = s2.last().1.adv;
        assert(apply_adv(b, my_id, a1) == apply_adv(b, my_id, a2)) by {
            assert(a1.myself == a2.myself && a1.neighbors == a2.neighbors);
        }
    }
}

pub struct RouteTable {
    route_info: IdMap<SyncPeerInfo>,
    ipv4_peer_id_map: IdMap<u128>,
    cidr_peer_id_map: CidrIndex,
}

impl View for RouteTable {
    type V = TableV;

    closed spec fn view(&self) -> TableV {
        TableV {
            route: view_entries(self.route_info.entries_seq()),
            ipv4: self.ipv4_peer_id_map.entries_seq(),
            cidr: self.cidr_peer_id_map.entries_seq(),
        }
    }
}

impl RouteTable {
    pub closed spec fn wf(&self) -> bool {
        self.route_info.wf() && self.ipv4_peer_id_map.wf() && self.cidr_peer_id_map.wf()
    }

    pub fn new() -> (r: Self)
        ensures
            r.wf(),
            r@ == empty_table(),
    {
        let r = RouteTable {
            route_info: IdMap::new(),
            ipv4_peer_id_map: IdMap::new(),
            cidr_peer_id_map: CidrIndex::new(),
        };
        proof {
            assert(r@ =~= empty_table());
        }
        r
    }

    /// Overwrites this table with a copy of `other`: the double-buffered
    /// publication step after a rebuild.
    pub fn copy_from(&mut self, other: &Self)
        requires
            other.wf(),
        ensures
            final(self).wf(),
            final(self)@ == other@,
    {
        let mut t = RouteTable::new();
        let n = other.route_info.len();
        let mut i: usize = 0;
        proof {
            other.route_info.lemma_wf_entries();
            lemma_view_entries_lookup(other.route_info.entries_seq(), 0);
            assert(view_entries(t.route_info.entries_seq()) =~= view_entries(
                other.route_info.entries_seq(),
            ).take(0));
        }
        while i < n
            invariant
                t.wf(),
                other.wf(),
                n == other.route_info.entries_seq().len(),
                i <= n,
                keys_sorted(view_entries(other.route_info.entries_seq())),
                view_entries(t.route_info.entries_seq()) == view_entries(
                    other.route_info.entries_seq(),
                ).take(i as int),
                t.ipv4_peer_id_map.entries_seq() == Seq::<(u128, u128)>::empty(),
                t.cidr_peer_id_map.entries_seq() == Seq::<(Cidr, u128)>::empty(),
            decreases n - i,
        {
            let ghost ov = view_entries(other.route_info.entries_seq());
            let e = other.route_info.entry_at(i);
            let c = e.1.clone();
            proof {
                t.route_info.lemma_wf_entries();
                lemma_view_entries_lookup(t.route_info.entries_seq(), e.0);
                let tv = view_entries(t.route_info.entries_seq());
                assert(forall|j: int| 0 <= j < tv.len() ==> (#[trigger] tv[j]).0 == ov[j].0);
                assert(forall|j: int| 0 <= j < tv.len() ==> (#[trigger] tv[j]).0 < ov[i as int].0);
                lemma_sorted_insert_shape(tv, e.0, c@, tv.len() as int);
                lemma_view_entries_sorted_insert(t.route_info.entries_seq(), e.0, c);
                assert(sorted_insert(tv, e.0, c@) =~= tv.push((e.0, c@)));
                assert(tv.push((e.0, c@)) =~= ov.take(i as int + 1));
            }
            t.route_info.insert(e.0, c);
            i += 1;
        }
        proof {
            assert(view_entries(other.route_info.entries_seq()).take(n as int) =~= view_entries(
                other.route_info.entries_seq(),
            ));
        }
        let m = other.ipv4_peer_id_map.len();
        let mut i: usize = 0;
        proof {
            assert(other.ipv4_peer_id_map.entries_seq().take(0) =~= Seq::<(u128, u128)>::empty());
        }
        while i < m
            invariant
                t.wf(),
                other.wf(),
                m == other.ipv4_peer_id_map.entries_seq().len(),
                i <= m,
                view_entries(t.route_info.entries_seq()) == view_entries(
                    other.route_info.entries_seq(),
                ),
                t.ipv4_peer_id_map.entries_seq() == other.ipv4_peer_id_map.entries_seq().take(
                    i as int,
                ),
                t.cidr_peer_id_map.entries_seq() == Seq::<(Cidr, u128)>::empty(),
            decreases m - i,
        {
            let e = *other.ipv4_peer_id_map.entry_at(i);
            proof {
                other.ipv4_peer_id_map.lemma_wf_entries();
                t.ipv4_peer_id_map.lemma_wf_entries();
                let tv = t.ipv4_peer_id_map.entries_seq();
                let ov = other.ipv4_peer_id_map.entries_seq();
                assert(forall|j: int| 0 <= j < tv.len() ==> (#[trigger] tv[j]).0 < ov[i as int].0);
                lemma_sorted_insert_shape(tv, e.0, e.1, tv.len() as int);
                assert(sorted_insert(tv, e.0, e.1) =~= tv.push(e));
                assert(tv.push(e) =~= ov.take(i as int + 1));
            }
            t.ipv4_peer_id_map.insert(e.0, e.1);
            i += 1;
        }
        proof {
            assert(other.ipv4_peer_id_map.entries_seq().take(m as int)
                =~= other.ipv4_peer_id_map.entries_seq());
        }
        let q = other.cidr_peer_id_map.len();
        let mut i: usize = 0;
        proof {
            assert(other.cidr_peer_id_map.entries_seq().take(0) =~= Seq::<(Cidr, u128)>::empty());
        }
        while i < q
            invariant
                t.wf(),
                other.wf(),
                q == other.cidr_peer_id_map.entries_seq().len(),
                i <= q,
                view_entries(t.route_info.entries_seq()) == view_entries(
                    other.route_info.entries_seq(),
                ),
                t.ipv4_peer_id_map.entries_seq() == other.ipv4_peer_id_map.entries_seq(),
                t.cidr_peer_id_map.entries_seq() == other.cidr_peer_id_map.entries_seq().take(
                    i as int,
                ),
            decreases q - i,
        {
            let e = other.cidr_peer_id_map.entry_at(i);
            proof {
                other.cidr_peer_id_map.lemma_wf_entries();
                t.cidr_peer_id_map.lemma_wf_entries();
                let tv = t.cidr_peer_id_map.entries_seq();
                let ov = other.cidr_peer_id_map.entries_seq();
                assert((e.0).wf());
                assert(forall|j: int| 0 <= j < tv.len() ==> #[trigger] tv[j] == ov[j]);
                assert(forall|j: int| 0 <= j < tv.len() ==> (#[trigger] tv[j]).0 != ov[i as int].0);
                crate::cidr_index::lemma_assoc_set_shape(tv, e.0, e.1, tv.len() as int);
                assert(assoc_set(tv, e.0, e.1) =~= ov.take(i as int + 1));
            }
            t.cidr_peer_id_map.set(e.0, e.1);
            i += 1;
        }
        proof {
            assert(other.cidr_peer_id_map.entries_seq().take(q as int)
                =~= other.cidr_peer_id_map.entries_seq());
        }
        *self = t;
        proof {
            assert(final(self)@ =~= other@);
        }
    }

    /// One update step of the rebuild; see [`table_update`].
    fn update_entry(&mut self, next_hop: u128, cost: u32, info: &SyncPeerInfo)
        requires
            old(self).wf(),
            cost <= MAX_ROUTE_COST,
        ensures
            final(self).wf(),
            final(self)@ == table_update(old(self)@, next_hop, cost as int, info@),
    {
        let d = info.peer_id;
        let replace = match self.route_info.get(d) {
            None => true,
            Some(e) => e.cost > cost,
        };
        proof {
            self.route_info.lemma_wf_entries();
            lemma_view_entries_lookup(self.route_info.entries_seq(), d);
        }
        if replace {
            let entry = info.clone_for_route_table(next_hop, cost, info);
            proof {
                lemma_view_entries_sorted_insert(self.route_info.entries_seq(), d, entry);
            }
            self.route_info.insert(d, entry);
        }
        if let Some(ip) = info.ipv4_addr {
            self.ipv4_peer_id_map.insert(ip as u128, d);
        }
        let ghost cs = info.proxy_cidrs.deep_view();
        let ghost c0 = self.cidr_peer_id_map.entries_seq();
        let ghost r1 = self.route_info.entries_seq();
        let ghost p1 = self.ipv4_peer_id_map.entries_seq();
        let n = info.proxy_cidrs.len();
        let mut i: usize = 0;
        proof {
            assert(cs.skip(0) =~= cs);
        }
        while i < n
            invariant
                self.route_info.wf(),
                self.ipv4_peer_id_map.wf(),
                self.cidr_peer_id_map.wf(),
                self.route_info.entries_seq() == r1,
                self.ipv4_peer_id_map.entries_seq() == p1,
                n == info.proxy_cidrs@.len(),
                cs == info.proxy_cidrs.deep_view(),
                i <= n,
                cidr_fold(c0, cs, d) == cidr_fold(
                    self.cidr_peer_id_map.entries_seq(),
                    cs.skip(i as int),
                    d,
                ),
            decreases n - i,
        {
            proof {
                assert(cs.skip(i as int).len() > 0);
                assert(cs.skip(i as int)[0] == cs[i as int]);
                assert(cs.skip(i as int).drop_first() =~= cs.skip(i as int + 1));
            }
            match parse_ip_cidr(&info.proxy_cidrs[i]) {
                Some(c) => {
                    self.cidr_peer_id_map.set(c, d);
                },
                None => {},
            }
            i += 1;
        }
        proof {
            assert(cs.skip(n as int).len() == 0);
            assert(final(self)@ =~= table_update(old(self)@, next_hop, cost as int, info@));
        }
    }

    /// Folds one advertisement into the table; see [`apply_adv`].
    pub fn apply_advertisement(&mut self, my_id: u128, packet: &SyncPeer)
        requires
            old(self).wf(),
        ensures
            final(self).wf(),
            final(self)@ == apply_adv(old(self)@, my_id, packet@),
    {
        let s_id = packet.myself.peer_id;
        let ghost ns = packet.neighbors.deep_view();
        let ghost t0 = self@;
        let n = packet.neighbors.len();
        let mut i: usize = 0;
        proof {
            assert(ns.skip(0) =~= ns);
        }
        while i < n
            invariant
                self.wf(),
                n == packet.neighbors@.len(),
                ns == packet.neighbors.deep_view(),
                s_id == packet@.myself.peer_id,
                i <= n,
                apply_neighbors(t0, my_id, s_id, ns) == apply_neighbors(
                    self@,
                    my_id,
                    s_id,
                    ns.skip(i as int),
                ),
            decreases n - i,
        {
            proof {
                assert(ns.skip(i as int).len() > 0);
                assert(ns.skip(i as int)[0] == ns[i as int]);
                assert(ns.skip(i as int).drop_first() =~= ns.skip(i as int + 1));
            }
            let nb = &packet.neighbors[i];
            if nb.peer_id == my_id {
                // this node never routes to itself
            } else if nb.cost >= MAX_ROUTE_COST {
                // the derived cost would exceed the ceiling; nothing is written
                proof {
                    assert(table_update(self@, s_id, ns[i as int].cost + 1, ns[i as int]) == self@);
                }
            } else {
                self.update_entry(s_id, nb.cost + 1, nb);
            }
            i += 1;
        }
        proof {
            assert(ns.skip(n as int).len() == 0);
        }
        self.update_entry(s_id, 1, &packet.myself);
    }

    /// Recomputes the table from scratch out of the remote-view store; see
    /// [`rebuild_table`].
    pub fn rebuild(my_id: u128, views: &IdMap<SyncPeerFromRemote>) -> (r: RouteTable)
        requires
            views.wf(),
        ensures
            r.wf(),
            r@ == rebuild_table(my_id, remote_view_entries(views.entries_seq())),
    {
        let ghost rv = remote_view_entries(views.entries_seq());
        let mut t = RouteTable::new();
        let n = views.len();
        let mut i: usize = 0;
        proof {
            assert(rv.take(0) =~= Seq::<(u128, RemoteV)>::empty());
        }
        while i < n
            invariant
                t.wf(),
                views.wf(),
                n == views.entries_seq().len(),
                rv == remote_view_entries(views.entries_seq()),
                i <= n,
                t@ == rebuild_table(my_id, rv.take(i as int)),
            decreases n - i,
        {
            let e = views.entry_at(i);
            t.apply_advertisement(my_id, &e.1.packet);
            proof {
                assert(rv.take(i as int + 1).drop_last() =~= rv.take(i as int));
                assert(rv.take(i as int + 1).last() == rv[i as int]);
                assert(rv[i as int].1.adv == e.1.packet@);
            }
            i += 1;
        }
        proof {
            assert(rv.take(n as int) =~= rv);
        }
        t
    }

    /// The table projected back into advertisable form: one record per
    /// destination, carrying the destination as its identifier and the hop
    /// count as its cost.
    pub fn snapshot_for_send(&self) -> (r: Vec<SyncPeerInfo>)
        requires
            self.wf(),
        ensures
            r.deep_view() == snapshot_neighbors(self@.route),
    {
        let ghost route = self@.route;
        let n = self.route_info.len();
        let mut r: Vec<SyncPeerInfo> = Vec::new();
        let mut i: usize = 0;
        while i < n
            invariant
                self.wf(),
                route == self@.route,
                n == route.len(),
                i <= n,
                r@.len() == i,
                forall|j: int| 0 <= j < i ==> r.deep_view()[j] == snapshot_neighbors(route)[j],
            decreases n - i,
        {
            let e = self.route_info.entry_at(i);
            r.push(e.1.clone_for_route_table(e.0, e.1.cost, &e.1));
            i += 1;
        }
        proof {
            assert(r.deep_view() =~= snapshot_neighbors(route));
        }
        r
    }

    /// The next hop towards `dst`, if `dst` is reachable.
    pub fn next_hop(&self, dst: u128) -> (r: Option<u128>)
        requires
            self.wf(),
        ensures
            match r {
                Some(h) => entries_have_key(self@.route, dst) && h == entry_value_of(
                    self@.route,
                    dst,
                ).peer_id,
                None => !entries_have_key(self@.route, dst),
            },
    {
        proof {
            self.route_info.lemma_wf_entries();
            lemma_view_entries_lookup(self.route_info.entries_seq(), dst);
        }
        match self.route_info.get(dst) {
            Some(e) => Some(e.peer_id),
            None => None,
        }
    }

    /// The full route entry stored for `dst`, if any.
    pub fn get_entry(&self, dst: u128) -> (r: Option<&SyncPeerInfo>)
        requires
            self.wf(),
        ensures
            match r {
                Some(e) => entries_have_key(self@.route, dst) && e@ == entry_value_of(
                    self@.route,
                    dst,
                ),
                None => !entries_have_key(self@.route, dst),
            },
    {
        proof {
            self.route_info.lemma_wf_entries();
            lemma_view_entries_lookup(self.route_info.entries_seq(), dst);
        }
        self.route_info.get(dst)
    }

    /// The peer owning the overlay address `ip`, from the IPv4 index alone.
    pub fn peer_by_ipv4(&self, ip: u32) -> (r: Option<u128>)
        requires
            self.wf(),
        ensures
            match r {
                Some(p) => entries_have_key(self@.ipv4, ip as u128) && p == entry_value_of(
                    self@.ipv4,
                    ip as u128,
                ),
                None => !entries_have_key(self@.ipv4, ip as u128),
            },
    {
        proof {
            self.ipv4_peer_id_map.lemma_wf_entries();
        }
        match self.ipv4_peer_id_map.get(ip as u128) {
            Some(p) => Some(*p),
            None => None,
        }
    }

    /// The peer advertising the first stored prefix that contains `ip`.
    pub fn peer_for_proxy(&self, ip: u32) -> (r: Option<u128>)
        requires
            self.wf(),
        ensures
            r == cidr_first_match(self@.cidr, ip),
    {
        self.cidr_peer_id_map.first_match(ip)
    }

    /// How many destinations are reachable.
    pub fn route_count(&self) -> (r: usize)
        ensures
            r == self@.route.len(),
    {
        self.route_info.len()
    }

    /// The route entry at position `i` of the table, in ascending
    /// destination order.
    pub fn route_at(&self, i: usize) -> (r: (u128, &SyncPeerInfo))
        requires
            i < self@.route.len(),
        ensures
            self@.route[i as int].0 == r.0,
            self@.route[i as int].1 == r.1@,
    {
        let e = self.route_info.entry_at(i);
        (e.0, &e.1)
    }
}

} // verus!
