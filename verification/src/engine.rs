//! The routing engine: one peer's route table, remote-view store, version
//! counter and send bookkeeping, with the three steps that drive them.
//!
//! * **Ingress** ([`BasicRoute::handle_route_packet`]) folds an incoming
//!   advertisement into the remote-view store, rebuilds the route table on
//!   material change, and arms a fast reply when the sender asked for one.
//! * **Advertiser** ([`BasicRoute::advertiser_pass`]) refreshes the
//!   self-view and decides, per connected peer, whether to send an
//!   advertisement or suppress it.
//! * **Reaper** ([`BasicRoute::reaper_pass`]) drops remote views that are
//!   stale or whose peer is no longer connected.
//!
//! Each step is a plain function of the old state, the inputs and the
//! current time; the caller owns the clock, runs the loops and performs
//! the sends.  Time is a monotone count of seconds chosen by the caller.

use vstd::prelude::*;

use crate::id_map::{
    entries_have_key, entry_index_of, entry_value_of, keys_sorted, lemma_entry_at,
    lemma_sorted_insert_shape, sorted_insert, IdMap,
};
use crate::peer_info::{clone_info_vec, info_vec_eq, opt_u32_eq, AdvV, PeerInfoV, SyncPeer,
    SyncPeerInfo};
use crate::route_table::{
    ipv4_lookup, lemma_rebuild_same_advs, lemma_remote_view_entries_lookup,
    lemma_remote_view_entries_sorted_insert, rebuild_table, remote_view_entries,
    snapshot_neighbors, RemoteV, RouteTable, SyncPeerFromRemote, TableV,
};
use crate::version::{wrap_inc, RouteVersion};
use crate::{ROUTE_EXPIRED_SEC, SEND_ROUTE_FAST_REPLY_SEC, SEND_ROUTE_PERIOD_SEC};

verus! {

/// How long a send towards an in-sync peer is still considered recent when
/// a fast reply is requested; a reply armed at `now` fires by
/// `now + SEND_ROUTE_FAST_REPLY_SEC`.
pub const FAST_REPLY_DURATION: u64 = SEND_ROUTE_PERIOD_SEC - SEND_ROUTE_FAST_REPLY_SEC;

/// What the sender side remembers about the last advertisement sent to one
/// peer: the own generation it carried, the peer generation it echoed, and
/// when it was sent (`None` marks the send as overdue).
#[derive(Clone, Copy, PartialEq, Eq, Debug)]
pub struct SendRecord {
    pub version: u32,
    pub peer_version: Option<u32>,
    pub sent_at: Option<u64>,
}

/// The mathematical value of a [`BasicRoute`].
#[verifier::ext_equal]
pub ghost struct StateV {
    pub my_peer_id: u128,
    pub myself: PeerInfoV,
    pub table: TableV,
    pub store: Seq<(u128, RemoteV)>,
    pub version: u32,
    pub last_send: Map<u128, SendRecord>,
}

/// The structural invariant of an engine state: the store is sorted by
/// sender, every stored advertisement names its sender, the self-view
/// carries this node's identifier, and the table is exactly the rebuild of
/// the store.
pub open spec fn state_inv(st: StateV) -> bool {
    &&& keys_sorted(st.store)
    &&& forall|i: int|
        0 <= i < st.store.len() ==> (#[trigger] st.store[i]).1.adv.myself.peer_id == st.store[i].0
    &&& st.myself.peer_id == st.my_peer_id
    &&& st.table == rebuild_table(st.my_peer_id, st.store)
}

/// Every time recorded in the state lies at or before `now`.
pub open spec fn times_ok(st: StateV, now: u64) -> bool {
    &&& forall|i: int| 0 <= i < st.store.len() ==> (#[trigger] st.store[i]).1.last_update <= now
    &&& forall|k: u128|
        st.last_send.contains_key(k) ==> match (#[trigger] st.last_send[k]).sent_at {
            Some(t) => t <= now,
            None => true,
        }
}

/// A state whose recorded times lie at or before `t1` also satisfies the
/// time bound at any later reading of a monotone clock.
pub proof fn lemma_times_ok_mono(st: StateV, t1: u64, t2: u64)
    requires
        times_ok(st, t1),
        t1 <= t2,
    ensures
        times_ok(st, t2),
{
}

/// `a - b`, stopping at zero.
pub open spec fn sub_floor(a: u64, b: u64) -> u64 {
    if a >= b {
        (a - b) as u64
    } else {
        0
    }
}

/// Whether `p` differs from the stored view in `myself` or `neighbors`.
/// The two version fields are a control-plane echo, not routing state, so
/// they never count as a material change.
pub open spec fn material_change(old_r: RemoteV, p: AdvV) -> bool {
    !(old_r.adv.myself == p.myself && old_r.adv.neighbors == p.neighbors)
}

/// Whether folding `p` into the store constitutes a material change.
pub open spec fn ingress_updated(store: Seq<(u128, RemoteV)>, p: AdvV) -> bool {
    ||| !entries_have_key(store, p.myself.peer_id)
    ||| material_change(entry_value_of(store, p.myself.peer_id), p)
}

/// The store after folding in `p`: a changed advertisement replaces the
/// stored one wholesale; an unchanged one still refreshes the two version
/// fields and the arrival time.
pub open spec fn upserted_remote(store: Seq<(u128, RemoteV)>, p: AdvV, now: u64) -> Seq<
    (u128, RemoteV),
> {
    let s = p.myself.peer_id;
    let new_adv = if ingress_updated(store, p) {
        p
    } else {
        AdvV {
            myself: entry_value_of(store, s).adv.myself,
            neighbors: entry_value_of(store, s).adv.neighbors,
            version: p.version,
            peer_version: p.peer_version,
            need_reply: entry_value_of(store, s).adv.need_reply,
        }
    };
    sorted_insert(store, s, RemoteV { adv: new_adv, last_update: now })
}

/// The send record for a peer that requested a reply.  A record proving
/// the remote's view stale is marked overdue; one showing both sides in
/// sync and a recent send is deferred so that the next send happens
/// `SEND_ROUTE_FAST_REPLY_SEC` from `now`; any other record stands.
pub open spec fn armed_record(r: SendRecord, cur_version: u32, p_version: u32, now: u64)
    -> SendRecord {
    if r.version != cur_version || r.peer_version != Some(p_version) {
        SendRecord { version: r.version, peer_version: r.peer_version, sent_at: None }
    } else {
        match r.sent_at {
            None => r,
            Some(t) => if now - t < FAST_REPLY_DURATION {
                SendRecord {
                    version: r.version,
                    peer_version: r.peer_version,
                    sent_at: Some(sub_floor(now, FAST_REPLY_DURATION)),
                }
            } else {
                r
            },
        }
    }
}

/// The state after ingress of advertisement `p` at time `now`: the store
/// is upserted; on material change the table is rebuilt and the version
/// bumped; if the sender asked for a reply, its send record is armed.
pub open spec fn ingress_spec(st: StateV, p: AdvV, now: u64) -> StateV {
    let s = p.myself.peer_id;
    let updated = ingress_updated(st.store, p);
    let store1 = upserted_remote(st.store, p, now);
    let table1 = if updated {
        rebuild_table(st.my_peer_id, store1)
    } else {
        st.table
    };
    let version1 = if updated {
        wrap_inc(st.version)
    } else {
        st.version
    };
    let last_send1 = if p.need_reply && st.last_send.contains_key(s) {
        st.last_send.insert(s, armed_record(st.last_send[s], version1, p.version, now))
    } else {
        st.last_send
    };
    StateV {
        my_peer_id: st.my_peer_id,
        myself: st.myself,
        table: table1,
        store: store1,
        version: version1,
        last_send: last_send1,
    }
}

/// Whether ingress of `p` pulses the advertiser.
pub open spec fn ingress_notify(st: StateV, p: AdvV) -> bool {
    ingress_updated(st.store, p) || p.need_reply
}

/// Whether the stored view of peer `p` acknowledges this node's current
/// generation.
pub open spec fn peer_in_sync(st: StateV, p: u128) -> bool {
    entries_have_key(st.store, p) && entry_value_of(st.store, p).adv.peer_version == Some(
        st.version,
    )
}

/// The last generation learned from peer `p`, echoed back to it.
pub open spec fn peer_version_saved(st: StateV, p: u128) -> Option<u32> {
    if entries_have_key(st.store, p) {
        Some(entry_value_of(st.store, p).adv.version)
    } else {
        None
    }
}

/// The advertiser skips a peer exactly when it acknowledges the current
/// generation and the last send to it is recent.
pub open spec fn advertiser_skips(st: StateV, p: u128, now: u64) -> bool {
    peer_in_sync(st, p) && st.last_send.contains_key(p) && match st.last_send[p].sent_at {
        Some(t) => now - t < SEND_ROUTE_PERIOD_SEC,
        None => false,
    }
}

/// The advertisement sent to peer `p`: the self-view, the route table
/// projected into advertisable form, the current generation, the echoed
/// peer generation, and a reply request unless `p` is already in sync.
pub open spec fn adv_for_peer(st: StateV, p: u128) -> AdvV {
    AdvV {
        myself: st.myself,
        neighbors: snapshot_neighbors(st.table.route),
        version: st.version,
        peer_version: peer_version_saved(st, p),
        need_reply: !peer_in_sync(st, p),
    }
}

/// One advertiser sweep over the connected peers: the new send map
/// (entries for departed peers are dropped by starting empty) and the
/// advertisements to send, in order.
pub open spec fn advertiser_fold(st: StateV, conn: Seq<u128>, now: u64) -> (
    Map<u128, SendRecord>,
    Seq<(u128, AdvV)>,
)
    decreases conn.len(),
{
    if conn.len() == 0 {
        (Map::empty(), Seq::empty())
    } else {
        let r = advertiser_fold(st, conn.drop_last(), now);
        let p = conn.last();
        if advertiser_skips(st, p, now) {
            (r.0.insert(p, st.last_send[p]), r.1)
        } else {
            (
                r.0.insert(
                    p,
                    SendRecord {
                        version: st.version,
                        peer_version: peer_version_saved(st, p),
                        sent_at: Some(now),
                    },
                ),
                r.1.push((p, adv_for_peer(st, p))),
            )
        }
    }
}

/// The state after one advertiser pass: the self-view replaced (bumping
/// the version if it changed), then one sweep over the connected peers.
pub open spec fn advertiser_spec(st: StateV, new_myself: PeerInfoV, conn: Seq<u128>, now: u64)
    -> (StateV, Seq<(u128, AdvV)>) {
    let changed = st.myself != new_myself;
    let st1 = StateV {
        myself: new_myself,
        version: if changed {
            wrap_inc(st.version)
        } else {
            st.version
        },
        ..st
    };
    let r = advertiser_fold(st1, conn, now);
    (StateV { last_send: r.0, ..st1 }, r.1)
}

/// Whether the stored view of a peer is expired or its peer departed.
pub open spec fn expired_or_gone(k: u128, v: RemoteV, conn: Seq<u128>, now: u64) -> bool {
    now - v.last_update > ROUTE_EXPIRED_SEC || !conn.contains(k)
}

/// The store with every expired or departed view dropped.
pub open spec fn reaper_keep(s: Seq<(u128, RemoteV)>, conn: Seq<u128>, now: u64) -> Seq<
    (u128, RemoteV),
>
    decreases s.len(),
{
    if s.len() == 0 {
        s
    } else {
        let front = reaper_keep(s.drop_last(), conn, now);
        if expired_or_gone(s.last().0, s.last().1, conn, now) {
            front
        } else {
            front.push(s.last())
        }
    }
}

/// The state after one reaper pass: if any view was dropped, the table is
/// rebuilt from the remaining views and the version bumped.
pub open spec fn reaper_spec(st: StateV, conn: Seq<u128>, now: u64) -> (StateV, bool) {
    let keep = reaper_keep(st.store, conn, now);
    if keep.len() == st.store.len() {
        (st, false)
    } else {
        (
            StateV {
                store: keep,
                table: rebuild_table(st.my_peer_id, keep),
                version: wrap_inc(st.version),
                ..st
            },
            true,
        )
    }
}

/// Every entry kept by the reaper is an entry of the original store.
pub proof fn lemma_reaper_keep_entries(s: Seq<(u128, RemoteV)>, conn: Seq<u128>, now: u64)
    ensures
        reaper_keep(s, conn, now).len() <= s.len(),
        forall|j: int|
            0 <= j < reaper_keep(s, conn, now).len() ==> s.contains(
                #[trigger] reaper_keep(s, conn, now)[j],
            ),
    decreases s.len(),
{
    if s.len() > 0 {
        let front = reaper_keep(s.drop_last(), conn, now);
        lemma_reaper_keep_entries(s.drop_last(), conn, now);
        assert(forall|j: int|
            0 <= j < s.drop_last().len() ==> s.contains(#[trigger] s.drop_last()[j]));
        assert(s.contains(s.last()));
        let r = reaper_keep(s, conn, now);
        assert forall|j: int| 0 <= j < r.len() implies s.contains(#[trigger] r[j]) by {
            if j < front.len() {
                assert(r[j] == front[j]);
                assert(s.drop_last().contains(front[j]));
            } else {
                assert(r[j] == s.last());
            }
        }
    }
}

/// Any strict upper bound on the store's keys bounds the kept keys too.
pub proof fn lemma_reaper_keep_bound(s: Seq<(u128, RemoteV)>, conn: Seq<u128>, now: u64, b: u128)
    requires
        forall|i: int| 0 <= i < s.len() ==> (#[trigger] s[i]).0 < b,
    ensures
        forall|j: int|
            0 <= j < reaper_keep(s, conn, now).len() ==> (#[trigger] reaper_keep(s, conn, now)[j]).0
                < b,
    decreases s.len(),
{
    if s.len() > 0 {
        let t = s.drop_last();
        assert(forall|i: int| 0 <= i < t.len() ==> t[i] == s[i]);
        lemma_reaper_keep_bound(t, conn, now, b);
        let front = reaper_keep(t, conn, now);
        let r = reaper_keep(s, conn, now);
        assert forall|j: int| 0 <= j < r.len() implies (#[trigger] r[j]).0 < b by {
            if !expired_or_gone(s.last().0, s.last().1, conn, now) && j == front.len() {
                assert(r[j] == s.last());
            } else {
                assert(r[j] == front[j]);
            }
        }
    }
}

/// The reaper keeps the store sorted by sender.
pub proof fn lemma_reaper_keep_sorted(s: Seq<(u128, RemoteV)>, conn: Seq<u128>, now: u64)
    requires
        keys_sorted(s),
    ensures
        keys_sorted(reaper_keep(s, conn, now)),
    decreases s.len(),
{
    if s.len() > 0 {
        let t = s.drop_last();
        assert(keys_sorted(t)) by {
            assert(forall|i: int| 0 <= i < t.len() ==> t[i] == s[i]);
        }
        lemma_reaper_keep_sorted(t, conn, now);
        let front = reaper_keep(t, conn, now);
        let r = reaper_keep(s, conn, now);
        if !expired_or_gone(s.last().0, s.last().1, conn, now) {
            assert(forall|i: int| 0 <= i < t.len() ==> (#[trigger] t[i]).0 < s.last().0);
            lemma_reaper_keep_bound(t, conn, now, s.last().0);
            assert(keys_sorted(r)) by {
                assert(forall|j: int| 0 <= j < front.len() ==> r[j] == front[j]);
                assert(r.last() == s.last());
            }
        }
    }
}

/// The state of one routing engine instance.
pub struct BasicRoute {
    my_peer_id: u128,
    myself: SyncPeerInfo,
    route_table: RouteTable,
    sync_peer_from_remote: IdMap<SyncPeerFromRemote>,
    version: RouteVersion,
    last_send_time_map: IdMap<SendRecord>,
}

impl View for BasicRoute {
    type V = StateV;

    closed spec fn view(&self) -> StateV {
        StateV {
            my_peer_id: self.my_peer_id,
            myself: self.myself@,
            table: self.route_table@,
            store: remote_view_entries(self.sync_peer_from_remote.entries_seq()),
            version: self.version@,
            last_send: self.last_send_time_map@,
        }
    }
}

/// What ingress reported about one advertisement.
#[derive(Clone, Copy, PartialEq, Eq, Debug)]
pub struct IngressOutcome {
    /// The advertisement named its tunnel-level sender; a mismatch is a
    /// malformed packet and changes nothing.
    pub accepted: bool,
    /// The advertisement was a material change and the table was rebuilt.
    pub updated: bool,
    /// The advertiser should be woken.
    pub need_sync: bool,
}

impl BasicRoute {
    /// The representation invariant together with [`state_inv`].
    pub closed spec fn wf(&self) -> bool {
        &&& self.route_table.wf()
        &&& self.sync_peer_from_remote.wf()
        &&& self.last_send_time_map.wf()
        &&& state_inv(self@)
    }

    /// A well-formed engine state satisfies the structural invariant.
    pub proof fn lemma_wf_state_inv(&self)
        requires
            self.wf(),
        ensures
            state_inv(self@),
    {
    }

    /// A fresh engine: empty table, empty store, version zero.
    pub fn new(my_peer_id: u128, myself: SyncPeerInfo) -> (r: Self)
        requires
            myself@.peer_id == my_peer_id,
        ensures
            r.wf(),
            r@ == (StateV {
                my_peer_id: my_peer_id,
                myself: myself@,
                table: crate::route_table::empty_table(),
                store: Seq::<(u128, RemoteV)>::empty(),
                version: 0,
                last_send: Map::<u128, SendRecord>::empty(),
            }),
    {
        let r = BasicRoute {
            my_peer_id,
            myself,
            route_table: RouteTable::new(),
            sync_peer_from_remote: IdMap::new(),
            version: RouteVersion::new(),
            last_send_time_map: IdMap::new(),
        };
        proof {
            assert(remote_view_entries(r.sync_peer_from_remote.entries_seq()) =~= Seq::<
                (u128, RemoteV),
            >::empty());
            assert(r@ =~= (StateV {
                my_peer_id: my_peer_id,
                myself: myself@,
                table: crate::route_table::empty_table(),
                store: Seq::<(u128, RemoteV)>::empty(),
                version: 0,
                last_send: Map::<u128, SendRecord>::empty(),
            }));
        }
        r
    }

    /// This node's identifier.
    pub fn my_peer_id(&self) -> (r: u128)
        ensures
            r == self@.my_peer_id,
    {
        self.my_peer_id
    }

    /// The current table generation.
    pub fn version(&self) -> (r: u32)
        ensures
            r == self@.version,
    {
        self.version.get()
    }

    /// Replaces the self-view if any attribute differs, reporting whether
    /// one did.  On a change the caller bumps the version.
    pub fn update_myself(&mut self, new_myself: SyncPeerInfo) -> (r: bool)
        requires
            old(self).wf(),
            new_myself@.peer_id == old(self)@.my_peer_id,
        ensures
            final(self).wf(),
            r == (old(self)@.myself != new_myself@),
            final(self)@ == (StateV { myself: new_myself@, ..old(self)@ }),
    {
        let changed = !self.myself.same_as(&new_myself);
        if changed {
            self.myself = new_myself;
        }
        proof {
            assert(final(self)@ =~= (StateV { myself: new_myself@, ..old(self)@ }));
        }
        changed
    }

    /// Ingress of one advertisement from tunnel-level sender
    /// `src_peer_id` at time `now`; see [`ingress_spec`].
    ///
    /// An advertisement that does not name its sender is malformed and
    /// dropped without any state change.
    pub fn handle_route_packet(&mut self, src_peer_id: u128, p: &SyncPeer, now: u64) -> (r:
        IngressOutcome)
        requires
            old(self).wf(),
            times_ok(old(self)@, now),
        ensures
            final(self).wf(),
            times_ok(final(self)@, now),
            p@.myself.peer_id != src_peer_id ==> final(self)@ == old(self)@ && r == (IngressOutcome {
                accepted: false,
                updated: false,
                need_sync: false,
            }),
            p@.myself.peer_id == src_peer_id ==> final(self)@ == ingress_spec(old(self)@, p@, now)
                && r == (IngressOutcome {
                accepted: true,
                updated: ingress_updated(old(self)@.store, p@),
                need_sync: ingress_notify(old(self)@, p@),
            }),
    {
        if p.myself.peer_id != src_peer_id {
            return IngressOutcome { accepted: false, updated: false, need_sync: false };
        }
        let ghost st0 = self@;
        let s_id = p.myself.peer_id;
        proof {
            self.sync_peer_from_remote.lemma_wf_entries();
            lemma_remote_view_entries_lookup(self.sync_peer_from_remote.entries_seq(), s_id);
        }
        let (updated, new_rec) = match self.sync_peer_from_remote.get(s_id) {
            Some(existing) => {
                let material = !(existing.packet.myself.same_as(&p.myself) && info_vec_eq(
                    &existing.packet.neighbors,
                    &p.neighbors,
                ));
                let rec = if material {
                    SyncPeerFromRemote { packet: p.clone(), last_update: now }
                } else {
                    SyncPeerFromRemote {
                        packet: SyncPeer {
                            myself: existing.packet.myself.clone(),
                            neighbors: clone_info_vec(&existing.packet.neighbors),
                            version: p.version,
                            peer_version: p.peer_version,
                            need_reply: existing.packet.need_reply,
                        },
                        last_update: now,
                    }
                };
                (material, rec)
            },
            None => (true, SyncPeerFromRemote { packet: p.clone(), last_update: now }),
        };
        proof {
            assert(updated == ingress_updated(st0.store, p@));
            assert(new_rec@ =~= (RemoteV {
                adv: if ingress_updated(st0.store, p@) {
                    p@
                } else {
                    AdvV {
                        myself: entry_value_of(st0.store, s_id).adv.myself,
                        neighbors: entry_value_of(st0.store, s_id).adv.neighbors,
                        version: p@.version,
                        peer_version: p@.peer_version,
                        need_reply: entry_value_of(st0.store, s_id).adv.need_reply,
                    }
                },
                last_update: now,
            }));
            lemma_remote_view_entries_sorted_insert(
                self.sync_peer_from_remote.entries_seq(),
                s_id,
                new_rec,
            );
            crate::id_map::lemma_sorted_insert_entries(st0.store, s_id, new_rec@);
        }
        self.sync_peer_from_remote.insert(s_id, new_rec);
        proof {
            assert(self@.store == upserted_remote(st0.store, p@, now));
            // every kept time lies at or before now
            assert forall|i: int| 0 <= i < self@.store.len() implies (#[trigger] self@.store[i]).1
                .last_update <= now by {
                if self@.store[i] == (s_id, new_rec@) {
                } else {
                    assert(st0.store.contains(self@.store[i]));
                    let x = choose|x: int|
                        0 <= x < st0.store.len() && st0.store[x] == self@.store[i];
                }
            }
            // every stored advertisement still names its sender
            assert forall|i: int| 0 <= i < self@.store.len() implies (#[trigger] self@.store[i]).1
                .adv.myself.peer_id == self@.store[i].0 by {
                if self@.store[i] == (s_id, new_rec@) {
                    if !ingress_updated(st0.store, p@) {
                        let x = entry_index_of(st0.store, s_id);
                        lemma_entry_at(st0.store, x);
                    }
                } else {
                    assert(st0.store.contains(self@.store[i]));
                    let x = choose|x: int|
                        0 <= x < st0.store.len() && st0.store[x] == self@.store[i];
                }
            }
        }
        if updated {
            let new_table = RouteTable::rebuild(self.my_peer_id, &self.sync_peer_from_remote);
            self.route_table.copy_from(&new_table);
            self.version.inc();
        } else {
            proof {
                // an unchanged advertisement leaves the rebuilt table as it was
                let x = entry_index_of(st0.store, s_id);
                lemma_entry_at(st0.store, x);
                assert(forall|j: int| 0 <= j < x ==> (#[trigger] st0.store[j]).0 < s_id);
                lemma_sorted_insert_shape(st0.store, s_id, (RemoteV {
                    adv: AdvV {
                        myself: entry_value_of(st0.store, s_id).adv.myself,
                        neighbors: entry_value_of(st0.store, s_id).adv.neighbors,
                        version: p@.version,
                        peer_version: p@.peer_version,
                        need_reply: entry_value_of(st0.store, s_id).adv.need_reply,
                    },
                    last_update: now,
                }), x);
                let s2 = self@.store;
                assert(s2 == st0.store.update(x, (s_id, new_rec@)));
                assert forall|i: int| 0 <= i < st0.store.len() implies (#[trigger] st0.store[i]).1
                    .adv.myself == s2[i].1.adv.myself && st0.store[i].1.adv.neighbors == s2[i].1.adv
                    .neighbors by {
                    if i != x {
                        assert(s2[i] == st0.store[i]);
                    }
                }
                lemma_rebuild_same_advs(st0.my_peer_id, st0.store, s2);
            }
        }
        let mut need_sync = updated;
        if p.need_reply {
            need_sync = true;
            let cur = self.version.get();
            let prev_opt = match self.last_send_time_map.get(s_id) {
                Some(rec) => Some(*rec),
                None => None,
            };
            match prev_opt {
                Some(rec) => {
                    let armed = if rec.version != cur || !opt_u32_eq(
                        &rec.peer_version,
                        &Some(p.version),
                    ) {
                        SendRecord {
                            version: rec.version,
                            peer_version: rec.peer_version,
                            sent_at: None,
                        }
                    } else {
                        match rec.sent_at {
                            None => rec,
                            Some(t) => {
                                if now - t < FAST_REPLY_DURATION {
                                    SendRecord {
                                        version: rec.version,
                                        peer_version: rec.peer_version,
                                        sent_at: Some(
                                            if now >= FAST_REPLY_DURATION {
                                                now - FAST_REPLY_DURATION
                                            } else {
                                                0
                                            },
                                        ),
                                    }
                                } else {
                                    rec
                                }
                            },
                        }
                    };
                    proof {
                        assert(armed == armed_record(rec, cur, p@.version, now));
                    }
                    self.last_send_time_map.insert(s_id, armed);
                },
                None => {},
            }
        }
        proof {
            assert(final(self)@ =~= ingress_spec(st0, p@, now));
        }
        IngressOutcome { accepted: true, updated, need_sync }
    }

    /// One reaper pass at time `now`; see [`reaper_spec`].  Returns
    /// whether anything was dropped, in which case the advertiser should
    /// be woken.
    pub fn reaper_pass(&mut self, connected: &Vec<u128>, now: u64) -> (r: bool)
        requires
            old(self).wf(),
            times_ok(old(self)@, now),
        ensures
            final(self).wf(),
            times_ok(final(self)@, now),
            final(self)@ == reaper_spec(old(self)@, connected@, now).0,
            r == reaper_spec(old(self)@, connected@, now).1,
    {
        let ghost st0 = self@;
        let ghost conn = connected@;
        let ghost orig = *self;
        let n = self.sync_peer_from_remote.len();
        let mut keep: IdMap<SyncPeerFromRemote> = IdMap::new();
        let mut i: usize = 0;
        proof {
            self.sync_peer_from_remote.lemma_wf_entries();
            assert(st0.store.take(0) =~= Seq::<(u128, RemoteV)>::empty());
            assert(remote_view_entries(keep.entries_seq()) =~= reaper_keep(
                st0.store.take(0),
                conn,
                now,
            ));
        }
        while i < n
            invariant
                *self == orig,
                self.wf(),
                st0 == self@,
                conn == connected@,
                n == self.sync_peer_from_remote.entries_seq().len(),
                n == st0.store.len(),
                i <= n,
                keep.wf(),
                remote_view_entries(keep.entries_seq()) == reaper_keep(
                    st0.store.take(i as int),
                    conn,
                    now,
                ),
                times_ok(st0, now),
                keys_sorted(st0.store),
            decreases n - i,
        {
            let ghost taken = st0.store.take(i as int);
            let e = self.sync_peer_from_remote.entry_at(i);
            proof {
                assert(st0.store[i as int] == (e.0, e.1@));
                assert(st0.store.take(i as int + 1).drop_last() =~= taken);
                assert(st0.store.take(i as int + 1).last() == st0.store[i as int]);
            }
            let gone = (now - e.1.last_update > ROUTE_EXPIRED_SEC) || !contains_id(connected, e.0);
            proof {
                assert(gone == expired_or_gone(
                    st0.store[i as int].0,
                    st0.store[i as int].1,
                    conn,
                    now,
                ));
            }
            if !gone {
                let c = e.1.clone();
                proof {
                    assert(c@ == e.1@);
                    assert(forall|j: int| 0 <= j < taken.len() ==> (#[trigger] taken[j]).0 < e.0);
                    lemma_reaper_keep_bound(taken, conn, now, e.0);
                    lemma_reaper_keep_sorted(taken, conn, now);
                    let ks = remote_view_entries(keep.entries_seq());
                    lemma_sorted_insert_shape(ks, e.0, c@, ks.len() as int);
                    assert(sorted_insert(ks, e.0, c@) =~= ks.push((e.0, c@)));
                    lemma_remote_view_entries_sorted_insert(keep.entries_seq(), e.0, c);
                }
                keep.insert(e.0, c);
            }
            i += 1;
        }
        proof {
            assert(st0.store.take(n as int) =~= st0.store);
        }
        let kept_len = keep.len();
        if kept_len != n {
            proof {
                let kv = remote_view_entries(keep.entries_seq());
                lemma_reaper_keep_sorted(st0.store, conn, now);
                lemma_reaper_keep_entries(st0.store, conn, now);
                assert(keys_sorted(kv));
            }
            self.sync_peer_from_remote = keep;
            let new_table = RouteTable::rebuild(self.my_peer_id, &self.sync_peer_from_remote);
            self.route_table.copy_from(&new_table);
            self.version.inc();
            proof {
                let kv = reaper_keep(st0.store, conn, now);
                assert forall|j: int| 0 <= j < kv.len() implies (#[trigger] kv[j]).1.adv.myself
                    .peer_id == kv[j].0 && kv[j].1.last_update <= now by {
                    assert(st0.store.contains(kv[j]));
                    let x = choose|x: int| 0 <= x < st0.store.len() && st0.store[x] == kv[j];
                }
                assert(final(self)@ =~= reaper_spec(st0, conn, now).0);
            }
            true
        } else {
            proof {
                assert(final(self)@ =~= reaper_spec(st0, conn, now).0);
            }
            false
        }
    }

    /// One advertiser pass at time `now`: refresh the self-view from
    /// `new_myself`, then sweep the connected peers; see
    /// [`advertiser_spec`].  Returns the advertisements to send, in order;
    /// the caller performs the sends (a send failure changes no state, so
    /// it is the caller's to log and ignore).
    pub fn advertiser_pass(
        &mut self,
        new_myself: SyncPeerInfo,
        connected: &Vec<u128>,
        now: u64,
    ) -> (out: Vec<(u128, SyncPeer)>)
        requires
            old(self).wf(),
            times_ok(old(self)@, now),
            new_myself@.peer_id == old(self)@.my_peer_id,
        ensures
            final(self).wf(),
            times_ok(final(self)@, now),
            final(self)@ == advertiser_spec(old(self)@, new_myself@, connected@, now).0,
            out.deep_view() == advertiser_spec(old(self)@, new_myself@, connected@, now).1,
    {
        let ghost conn = connected@;
        let changed = self.update_myself(new_myself);
        if changed {
            self.version.inc();
        }
        let ghost st1 = self@;
        proof {
            assert(st1 =~= (StateV {
                myself: new_myself@,
                version: if old(self)@.myself != new_myself@ {
                    wrap_inc(old(self)@.version)
                } else {
                    old(self)@.version
                },
                ..old(self)@
            }));
        }
        let cur = self.version.get();
        let proto = self.route_table.snapshot_for_send();
        let mut new_map: IdMap<SendRecord> = IdMap::new();
        let mut out: Vec<(u128, SyncPeer)> = Vec::new();
        let ghost orig = *self;
        let n = connected.len();
        let mut i: usize = 0;
        proof {
            assert(conn.take(0) =~= Seq::<u128>::empty());
            assert(out.deep_view() =~= advertiser_fold(st1, conn.take(0), now).1);
            assert(new_map@ =~= advertiser_fold(st1, conn.take(0), now).0);
        }
        while i < n
            invariant
                *self == orig,
                self.wf(),
                st1 == self@,
                cur == st1.version,
                conn == connected@,
                n == conn.len(),
                i <= n,
                proto.deep_view() == snapshot_neighbors(st1.table.route),
                new_map.wf(),
                new_map@ == advertiser_fold(st1, conn.take(i as int), now).0,
                out.deep_view() == advertiser_fold(st1, conn.take(i as int), now).1,
                times_ok(st1, now),
            decreases n - i,
        {
            proof {
                assert(conn.take(i as int + 1).drop_last() =~= conn.take(i as int));
                assert(conn.take(i as int + 1).last() == conn[i as int]);
                self.sync_peer_from_remote.lemma_wf_entries();
                lemma_remote_view_entries_lookup(
                    self.sync_peer_from_remote.entries_seq(),
                    conn[i as int],
                );
                self.last_send_time_map.lemma_wf_entries();
            }
            let p = connected[i];
            let (in_sync, pv_saved) = match self.sync_peer_from_remote.get(p) {
                Some(rec) => (
                    opt_u32_eq(&rec.packet.peer_version, &Some(cur)),
                    Some(rec.packet.version),
                ),
                None => (false, None),
            };
            proof {
                assert(in_sync == peer_in_sync(st1, p));
                assert(pv_saved == peer_version_saved(st1, p));
            }
            let prev_opt = match self.last_send_time_map.get(p) {
                Some(rec) => Some(*rec),
                None => None,
            };
            let skip = in_sync && match prev_opt {
                Some(rec) => match rec.sent_at {
                    Some(t) => now - t < SEND_ROUTE_PERIOD_SEC,
                    None => false,
                },
                None => false,
            };
            proof {
                assert(skip == advertiser_skips(st1, p, now));
            }
            match prev_opt {
                Some(rec) if skip => {
                    new_map.insert(p, rec);
                },
                _ => {
                    new_map.insert(
                        p,
                        SendRecord { version: cur, peer_version: pv_saved, sent_at: Some(now) },
                    );
                    let adv = SyncPeer::new(
                        self.myself.clone(),
                        clone_info_vec(&proto),
                        cur,
                        pv_saved,
                        !in_sync,
                    );
                    proof {
                        assert(adv@ =~= adv_for_peer(st1, p));
                    }
                    out.push((p, adv));
                    proof {
                        assert(out.deep_view() =~= advertiser_fold(
                            st1,
                            conn.take(i as int + 1),
                            now,
                        ).1);
                    }
                },
            }
            i += 1;
        }
        proof {
            assert(conn.take(n as int) =~= conn);
            lemma_advertiser_fold_times(st1, conn, now);
        }
        self.last_send_time_map = new_map;
        proof {
            assert(final(self)@ =~= advertiser_spec(old(self)@, new_myself@, conn, now).0);
        }
        out
    }
}

impl BasicRoute {
    /// The next hop towards `dst_peer_id`, if it is reachable.
    pub fn get_next_hop(&self, dst_peer_id: u128) -> (r: Option<u128>)
        requires
            self.wf(),
        ensures
            match r {
                Some(h) => entries_have_key(self@.table.route, dst_peer_id) && h == entry_value_of(
                    self@.table.route,
                    dst_peer_id,
                ).peer_id,
                None => !entries_have_key(self@.table.route, dst_peer_id),
            },
    {
        self.route_table.next_hop(dst_peer_id)
    }

    /// The hop count towards `dst_peer_id`, if it is reachable.
    pub fn get_cost(&self, dst_peer_id: u128) -> (r: Option<u32>)
        requires
            self.wf(),
        ensures
            match r {
                Some(c) => entries_have_key(self@.table.route, dst_peer_id) && c == entry_value_of(
                    self@.table.route,
                    dst_peer_id,
                ).cost,
                None => !entries_have_key(self@.table.route, dst_peer_id),
            },
    {
        match self.route_table.get_entry(dst_peer_id) {
            Some(e) => Some(e.cost),
            None => None,
        }
    }

    /// The peer owning `ipv4_addr`: the overlay-address index first, then
    /// the first matching proxy prefix.
    pub fn get_peer_id_by_ipv4(&self, ipv4_addr: u32) -> (r: Option<u128>)
        requires
            self.wf(),
        ensures
            r == ipv4_lookup(self@.table, ipv4_addr),
    {
        if let Some(peer_id) = self.route_table.peer_by_ipv4(ipv4_addr) {
            return Some(peer_id);
        }
        self.get_peer_id_for_proxy(ipv4_addr)
    }

    /// The peer advertising the first stored proxy prefix containing
    /// `ipv4_addr`.
    pub fn get_peer_id_for_proxy(&self, ipv4_addr: u32) -> (r: Option<u128>)
        requires
            self.wf(),
        ensures
            r == crate::cidr_index::cidr_first_match(self@.table.cidr, ipv4_addr),
    {
        self.route_table.peer_for_proxy(ipv4_addr)
    }

    /// A consistent point-in-time copy of the route table: one pair per
    /// destination, in ascending destination order, each carrying the
    /// next hop, the hop count and the announced attributes.
    pub fn list_routes(&self) -> (r: Vec<(u128, SyncPeerInfo)>)
        requires
            self.wf(),
        ensures
            r.deep_view() == self@.table.route,
    {
        let ghost route = self@.table.route;
        let n = self.route_table.route_count();
        let mut r: Vec<(u128, SyncPeerInfo)> = Vec::new();
        let mut i: usize = 0;
        while i < n
            invariant
                self.wf(),
                route == self@.table.route,
                n == route.len(),
                i <= n,
                r@.len() == i,
                forall|j: int| 0 <= j < i ==> r.deep_view()[j] == route[j],
            decreases n - i,
        {
            let e = self.route_table.route_at(i);
            r.push((e.0, e.1.clone()));
            i += 1;
        }
        proof {
            assert(r.deep_view() =~= route);
        }
        r
    }

    /// The advertisement that would be sent to `peer` right now; the
    /// advertiser sends exactly this when it does not skip the peer.
    pub fn build_advertisement(&self, peer: u128) -> (r: SyncPeer)
        requires
            self.wf(),
        ensures
            r@ == adv_for_peer(self@, peer),
    {
        proof {
            self.sync_peer_from_remote.lemma_wf_entries();
            lemma_remote_view_entries_lookup(self.sync_peer_from_remote.entries_seq(), peer);
        }
        let cur = self.version.get();
        let (in_sync, pv_saved) = match self.sync_peer_from_remote.get(peer) {
            Some(rec) => (
                opt_u32_eq(&rec.packet.peer_version, &Some(cur)),
                Some(rec.packet.version),
            ),
            None => (false, None),
        };
        let r = SyncPeer::new(
            self.myself.clone(),
            self.route_table.snapshot_for_send(),
            cur,
            pv_saved,
            !in_sync,
        );
        proof {
            assert(r@ =~= adv_for_peer(self@, peer));
        }
        r
    }

    /// The stored remote view of `peer`, if any.
    pub fn get_remote_view(&self, peer: u128) -> (r: Option<&SyncPeerFromRemote>)
        requires
            self.wf(),
        ensures
            match r {
                Some(v) => entries_have_key(self@.store, peer) && v@ == entry_value_of(
                    self@.store,
                    peer,
                ),
                None => !entries_have_key(self@.store, peer),
            },
    {
        proof {
            self.sync_peer_from_remote.lemma_wf_entries();
            lemma_remote_view_entries_lookup(self.sync_peer_from_remote.entries_seq(), peer);
        }
        self.sync_peer_from_remote.get(peer)
    }
}

/// Whether `v` holds `x`.
fn contains_id(v: &Vec<u128>, x: u128) -> (r: bool)
    ensures
        r == v@.contains(x),
{
    let n = v.len();
    let mut i: usize = 0;
    while i < n
        invariant
            n == v@.len(),
            i <= n,
            forall|j: int| 0 <= j < i ==> v@[j] != x,
        decreases n - i,
    {
        if v[i] == x {
            return true;
        }
        i += 1;
    }
    proof {
        assert(!v@.contains(x)) by {
            if v@.contains(x) {
                let j = choose|j: int| 0 <= j < v@.len() && v@[j] == x;
            }
        }
    }
    false
}

/// Every send time written by an advertiser sweep lies at or before `now`.
pub proof fn lemma_advertiser_fold_times(st: StateV, conn: Seq<u128>, now: u64)
    requires
        forall|k: u128|
            st.last_send.contains_key(k) ==> match (#[trigger] st.last_send[k]).sent_at {
                Some(t) => t <= now,
                None => true,
            },
    ensures
        forall|k: u128|
            advertiser_fold(st, conn, now).0.contains_key(k) ==> match (#[trigger] advertiser_fold(
                st,
                conn,
                now,
            ).0[k]).sent_at {
                Some(t) => t <= now,
                None => true,
            },
    decreases conn.len(),
{
    if conn.len() > 0 {
        lemma_advertiser_fold_times(st, conn.drop_last(), now);
    }
}

} // verus!
