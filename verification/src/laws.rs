//! The stated properties of the engine, proved once and for all.
//!
//! The proof functions here are the library's claims about every state the
//! engine can reach and every step it can take; nothing in the executable
//! code depends on them.

use vstd::prelude::*;

use crate::engine::{
    advertiser_fold, advertiser_skips, advertiser_spec, armed_record, expired_or_gone,
    ingress_spec, ingress_updated, material_change, reaper_keep, reaper_spec, state_inv,
    times_ok, upserted_remote, StateV, FAST_REPLY_DURATION,
};
use crate::id_map::{
    entries_have_key, entries_to_map, entry_index_of, entry_value_of, keys_sorted,
    lemma_entries_canonical, lemma_entry_at, lemma_map_lookup, lemma_sorted_insert_entries,
    lemma_sorted_insert_resolved, lemma_sorted_insert_shape, sorted_insert,
};
use crate::peer_info::{route_entry_of, AdvV, PeerInfoV};
use crate::route_table::{
    apply_adv, apply_neighbors, rebuild_table, table_update, RemoteV, TableV,
};
use crate::version::wrap_inc;
use crate::{MAX_ROUTE_COST, ROUTE_EXPIRED_SEC, SEND_ROUTE_FAST_REPLY_SEC, SEND_ROUTE_PERIOD_SEC};

verus! {

/// Every neighbor announced by `a` carries a hop count of at least one.
/// Advertisements built from a route table satisfy this, since every
/// table entry's hop count is at least one.
pub open spec fn neighbors_cost_ok(a: AdvV) -> bool {
    forall|i: int| 0 <= i < a.neighbors.len() ==> (#[trigger] a.neighbors[i]).cost >= 1
}

/// Every stored advertisement satisfies [`neighbors_cost_ok`].
pub open spec fn store_neighbors_ok(vs: Seq<(u128, RemoteV)>) -> bool {
    forall|i: int| 0 <= i < vs.len() ==> neighbors_cost_ok((#[trigger] vs[i]).1.adv)
}

/// What holds of one finished route entry `e`: the hop count lies in
/// `[1, MAX_ROUTE_COST]`; the next hop is a sender with a stored view in
/// `keys_of`; an entry routed through itself is a direct neighbor; and,
/// provided every stored neighbor hop count is at least one, a hop count
/// of one occurs only on direct neighbors.
spec fn entry_ok(
    e: (u128, PeerInfoV),
    keys_of: Seq<(u128, RemoteV)>,
    full: Seq<(u128, RemoteV)>,
) -> bool {
    &&& 1 <= e.1.cost <= MAX_ROUTE_COST
    &&& entries_have_key(keys_of, e.1.peer_id)
    &&& (e.1.peer_id == e.0 ==> e.1.cost == 1)
    &&& (store_neighbors_ok(full) && e.1.cost == 1 ==> e.1.peer_id == e.0)
}

/// [`entry_ok`] weakened for the middle of one advertisement's fold, while
/// sender `s_id`'s own direct entry is not yet written.
spec fn entry_mid(
    e: (u128, PeerInfoV),
    keys_of: Seq<(u128, RemoteV)>,
    full: Seq<(u128, RemoteV)>,
    s_id: u128,
) -> bool {
    &&& 1 <= e.1.cost <= MAX_ROUTE_COST
    &&& (entries_have_key(keys_of, e.1.peer_id) || e.1.peer_id == s_id)
    &&& (e.1.peer_id == e.0 && e.1.peer_id != s_id ==> e.1.cost == 1)
    &&& (store_neighbors_ok(full) && e.1.cost == 1 ==> e.1.peer_id == e.0)
}

/// One neighbor update preserves [`entry_mid`].
proof fn lemma_update_preserves_mid(
    t: TableV,
    keys_of: Seq<(u128, RemoteV)>,
    full: Seq<(u128, RemoteV)>,
    s_id: u128,
    cost: int,
    info: PeerInfoV,
)
    requires
        keys_sorted(t.route),
        forall|j: int| 0 <= j < t.route.len() ==> entry_mid(#[trigger] t.route[j], keys_of, full, s_id),
        cost >= 1,
        store_neighbors_ok(full) ==> cost >= 2,
    ensures
        keys_sorted(table_update(t, s_id, cost, info).route),
        forall|j: int|
            0 <= j < table_update(t, s_id, cost, info).route.len() ==> entry_mid(
                #[trigger] table_update(t, s_id, cost, info).route[j],
                keys_of,
                full,
                s_id,
            ),
{
    if cost > MAX_ROUTE_COST {
    } else {
        let d = info.peer_id;
        let r = table_update(t, s_id, cost, info).route;
        if !entries_have_key(t.route, d) || entry_value_of(t.route, d).cost > cost {
            let v = route_entry_of(info, s_id, cost as u32);
            lemma_sorted_insert_entries(t.route, d, v);
            assert(r == sorted_insert(t.route, d, v));
            assert forall|j: int| 0 <= j < r.len() implies entry_mid(
                #[trigger] r[j],
                keys_of,
                full,
                s_id,
            ) by {
                if r[j] == (d, v) {
                    assert(v.peer_id == s_id);
                    assert(v.cost == cost);
                } else {
                    assert(t.route.contains(r[j]));
                    let x = choose|x: int| 0 <= x < t.route.len() && t.route[x] == r[j];
                }
            }
        }
    }
}

/// Folding a neighbor list preserves [`entry_mid`].
proof fn lemma_apply_neighbors_mid(
    t: TableV,
    keys_of: Seq<(u128, RemoteV)>,
    full: Seq<(u128, RemoteV)>,
    my_id: u128,
    s_id: u128,
    ns: Seq<PeerInfoV>,
)
    requires
        keys_sorted(t.route),
        forall|j: int| 0 <= j < t.route.len() ==> entry_mid(#[trigger] t.route[j], keys_of, full, s_id),
        store_neighbors_ok(full) ==> forall|i: int|
            0 <= i < ns.len() ==> (#[trigger] ns[i]).cost >= 1,
    ensures
        keys_sorted(apply_neighbors(t, my_id, s_id, ns).route),
        forall|j: int|
            0 <= j < apply_neighbors(t, my_id, s_id, ns).route.len() ==> entry_mid(
                #[trigger] apply_neighbors(t, my_id, s_id, ns).route[j],
                keys_of,
                full,
                s_id,
            ),
    decreases ns.len(),
{
    if ns.len() > 0 {
        let t1 = if ns[0].peer_id == my_id {
            t
        } else {
            table_update(t, s_id, ns[0].cost + 1, ns[0])
        };
        if ns[0].peer_id != my_id {
            lemma_update_preserves_mid(t, keys_of, full, s_id, ns[0].cost + 1, ns[0]);
        }
        let rest = ns.drop_first();
        assert(forall|i: int| 0 <= i < rest.len() ==> rest[i] == ns[i + 1]);
        lemma_apply_neighbors_mid(t1, keys_of, full, my_id, s_id, rest);
    }
}

/// Folding one whole advertisement turns [`entry_ok`] over the senders
/// seen so far into [`entry_ok`] over the senders including this one.
proof fn lemma_apply_adv_ok(
    t: TableV,
    keys_of: Seq<(u128, RemoteV)>,
    keys_of1: Seq<(u128, RemoteV)>,
    full: Seq<(u128, RemoteV)>,
    my_id: u128,
    a: AdvV,
)
    requires
        keys_sorted(t.route),
        forall|j: int| 0 <= j < t.route.len() ==> entry_ok(#[trigger] t.route[j], keys_of, full),
        entries_have_key(keys_of1, a.myself.peer_id),
        forall|k: u128|
            #[trigger] entries_have_key(keys_of, k) ==> entries_have_key(keys_of1, k),
        store_neighbors_ok(full) ==> neighbors_cost_ok(a),
    ensures
        keys_sorted(apply_adv(t, my_id, a).route),
        forall|j: int|
            0 <= j < apply_adv(t, my_id, a).route.len() ==> entry_ok(
                #[trigger] apply_adv(t, my_id, a).route[j],
                keys_of1,
                full,
            ),
{
    let s_id = a.myself.peer_id;
    assert(forall|j: int|
        0 <= j < t.route.len() ==> entry_mid(#[trigger] t.route[j], keys_of, full, s_id));
    lemma_apply_neighbors_mid(t, keys_of, full, my_id, s_id, a.neighbors);
    let t1 = apply_neighbors(t, my_id, s_id, a.neighbors);
    let r = apply_adv(t, my_id, a).route;
    let v = route_entry_of(a.myself, s_id, 1u32);
    assert(v.peer_id == s_id && v.cost == 1);
    if !entries_have_key(t1.route, s_id) || entry_value_of(t1.route, s_id).cost > 1 {
        assert(r == sorted_insert(t1.route, s_id, v));
        lemma_sorted_insert_entries(t1.route, s_id, v);
        if entries_have_key(t1.route, s_id) {
            let x = entry_index_of(t1.route, s_id);
            lemma_entry_at(t1.route, x);
            assert(forall|j: int| 0 <= j < x ==> (#[trigger] t1.route[j]).0 < s_id);
            lemma_sorted_insert_shape(t1.route, s_id, v, x);
            assert(r == t1.route.update(x, (s_id, v)));
            assert forall|j: int| 0 <= j < r.len() implies entry_ok(
                #[trigger] r[j],
                keys_of1,
                full,
            ) by {
                if j == x {
                } else {
                    assert(r[j] == t1.route[j]);
                    assert(entry_mid(t1.route[j], keys_of, full, s_id));
                    assert(t1.route[j].0 != s_id) by {
                        if j < x {
                            assert(t1.route[j].0 < t1.route[x].0);
                        } else {
                            assert(t1.route[x].0 < t1.route[j].0);
                        }
                    }
                }
            }
        } else {
            assert forall|j: int| 0 <= j < r.len() implies entry_ok(
                #[trigger] r[j],
                keys_of1,
                full,
            ) by {
                if r[j] == (s_id, v) {
                } else {
                    assert(t1.route.contains(r[j]));
                    let x = choose|x: int| 0 <= x < t1.route.len() && t1.route[x] == r[j];
                    lemma_entry_at(t1.route, x);
                    assert(t1.route[x].0 != s_id) by {
                        if t1.route[x].0 == s_id {
                            assert(entries_have_key(t1.route, s_id));
                        }
                    }
                }
            }
        }
    } else {
        assert(r == t1.route);
        let x = entry_index_of(t1.route, s_id);
        lemma_entry_at(t1.route, x);
        assert(entry_value_of(t1.route, s_id).cost == 1);
        assert forall|j: int| 0 <= j < r.len() implies entry_ok(#[trigger] r[j], keys_of1, full) by {
            assert(entry_mid(t1.route[j], keys_of, full, s_id));
            if j == x {
                // the direct entry already stood at hop count one; it
                // routes through some sender, and through itself exactly
                // when the neighbor hop counts are trustworthy
                assert(t1.route[j].1.cost == 1);
                if t1.route[j].1.peer_id == t1.route[j].0 {
                } else {
                }
            } else {
                assert(t1.route[j].0 != s_id) by {
                    if j < x {
                        assert(t1.route[j].0 < t1.route[x].0);
                    } else {
                        assert(t1.route[x].0 < t1.route[j].0);
                    }
                }
            }
        }
    }
}

/// The rebuilt table satisfies [`entry_ok`] over the whole store.
proof fn lemma_rebuild_ok_rec(my_id: u128, vs: Seq<(u128, RemoteV)>, full: Seq<(u128, RemoteV)>)
    requires
        keys_sorted(full),
        vs.len() <= full.len(),
        forall|i: int| 0 <= i < vs.len() ==> #[trigger] vs[i] == full[i],
        forall|i: int|
            0 <= i < full.len() ==> (#[trigger] full[i]).1.adv.myself.peer_id == full[i].0,
    ensures
        keys_sorted(rebuild_table(my_id, vs).route),
        forall|j: int|
            0 <= j < rebuild_table(my_id, vs).route.len() ==> entry_ok(
                #[trigger] rebuild_table(my_id, vs).route[j],
                vs,
                full,
            ),
    decreases vs.len(),
{
    if vs.len() > 0 {
        let front = vs.drop_last();
        assert(forall|i: int| 0 <= i < front.len() ==> front[i] == vs[i]);
        lemma_rebuild_ok_rec(my_id, front, full);
        let t = rebuild_table(my_id, front);
        let a = vs.last().1.adv;
        assert(a.myself.peer_id == vs.last().0);
        assert(entries_have_key(vs, a.myself.peer_id)) by {
            assert(vs[vs.len() - 1].0 == a.myself.peer_id);
        }
        assert forall|k: u128| #[trigger] entries_have_key(front, k) implies entries_have_key(
            vs,
            k,
        ) by {
            let x = choose|x: int| 0 <= x < front.len() && front[x].0 == k;
            assert(vs[x].0 == k);
        }
        assert(store_neighbors_ok(full) ==> neighbors_cost_ok(a)) by {
            if store_neighbors_ok(full) {
                assert(full[vs.len() - 1].1.adv == a);
            }
        }
        assert(store_neighbors_ok(full) == store_neighbors_ok(full));
        lemma_apply_adv_ok(t, front, vs, full, my_id, a);
    }
}

/// Hop-count bounds: every reachable destination in the route table of a
/// reachable engine state has a hop count between one and the ceiling.
pub proof fn lemma_route_cost_bounds(st: StateV)
    requires
        state_inv(st),
    ensures
        forall|j: int|
            0 <= j < st.table.route.len() ==> 1 <= (#[trigger] st.table.route[j]).1.cost
                <= MAX_ROUTE_COST,
{
    lemma_rebuild_ok_rec(st.my_peer_id, st.store, st.store);
}

/// Liveness of next hops: every route entry forwards through a peer that
/// has a stored remote view (the reaper keeps those exactly for the
/// currently-connected peers).
pub proof fn lemma_next_hop_has_view(st: StateV)
    requires
        state_inv(st),
    ensures
        forall|j: int|
            0 <= j < st.table.route.len() ==> entries_have_key(
                st.store,
                (#[trigger] st.table.route[j]).1.peer_id,
            ),
{
    lemma_rebuild_ok_rec(st.my_peer_id, st.store, st.store);
}

/// A destination routes through itself exactly when it is a direct
/// neighbor at hop count one.  The forward direction holds of every
/// reachable state; the backward direction additionally needs every
/// stored neighbor hop count to be at least one, which holds of every
/// advertisement built from a route table (hop counts start at one) but
/// not of a pathological advertisement announcing a neighbor at hop count
/// zero.
pub proof fn lemma_direct_iff_cost_one(st: StateV)
    requires
        state_inv(st),
        store_neighbors_ok(st.store),
    ensures
        forall|j: int|
            0 <= j < st.table.route.len() ==> (((#[trigger] st.table.route[j]).1.peer_id
                == st.table.route[j].0) <==> st.table.route[j].1.cost == 1),
{
    lemma_rebuild_ok_rec(st.my_peer_id, st.store, st.store);
}

/// Ingress keeps the structural invariant: the store stays sorted, every
/// stored advertisement still names its sender, and the table is still
/// the rebuild of the store.
pub proof fn lemma_ingress_preserves_inv(st: StateV, p: AdvV, now: u64)
    requires
        state_inv(st),
    ensures
        state_inv(ingress_spec(st, p, now)),
{
    let s = p.myself.peer_id;
    let s1 = ingress_spec(st, p, now);
    let rec = RemoteV {
        adv: if ingress_updated(st.store, p) {
            p
        } else {
            AdvV {
                myself: entry_value_of(st.store, s).adv.myself,
                neighbors: entry_value_of(st.store, s).adv.neighbors,
                version: p.version,
                peer_version: p.peer_version,
                need_reply: entry_value_of(st.store, s).adv.need_reply,
            }
        },
        last_update: now,
    };
    assert(s1.store == sorted_insert(st.store, s, rec));
    lemma_sorted_insert_entries(st.store, s, rec);
    assert(rec.adv.myself.peer_id == s) by {
        if !ingress_updated(st.store, p) {
            let x = entry_index_of(st.store, s);
            lemma_entry_at(st.store, x);
        }
    }
    assert forall|i: int| 0 <= i < s1.store.len() implies (#[trigger] s1.store[i]).1.adv.myself
        .peer_id == s1.store[i].0 by {
        if s1.store[i] == (s, rec) {
        } else {
            assert(st.store.contains(s1.store[i]));
            let x = choose|x: int| 0 <= x < st.store.len() && st.store[x] == s1.store[i];
        }
    }
    if !ingress_updated(st.store, p) {
        let x = entry_index_of(st.store, s);
        lemma_entry_at(st.store, x);
        assert(forall|j: int| 0 <= j < x ==> (#[trigger] st.store[j]).0 < s);
        lemma_sorted_insert_shape(st.store, s, rec, x);
        assert(s1.store == st.store.update(x, (s, rec)));
        assert forall|i: int| 0 <= i < st.store.len() implies (#[trigger] st.store[i]).1.adv.myself
            == s1.store[i].1.adv.myself && st.store[i].1.adv.neighbors == s1.store[i].1.adv
            .neighbors by {
            if i != x {
                assert(s1.store[i] == st.store[i]);
            }
        }
        crate::route_table::lemma_rebuild_same_advs(st.my_peer_id, st.store, s1.store);
    }
}

/// Idempotence: feeding the same advertisement to ingress a second time
/// leaves the route table and the version exactly as after the first
/// time, whatever the two arrival times.
pub proof fn lemma_ingress_idempotent(st: StateV, p: AdvV, t1: u64, t2: u64)
    requires
        keys_sorted(st.store),
    ensures
        ingress_spec(ingress_spec(st, p, t1), p, t2).table == ingress_spec(st, p, t1).table,
        ingress_spec(ingress_spec(st, p, t1), p, t2).version == ingress_spec(st, p, t1).version,
{
    let s = p.myself.peer_id;
    let s1 = ingress_spec(st, p, t1);
    let rec = RemoteV {
        adv: if ingress_updated(st.store, p) {
            p
        } else {
            AdvV {
                myself: entry_value_of(st.store, s).adv.myself,
                neighbors: entry_value_of(st.store, s).adv.neighbors,
                version: p.version,
                peer_version: p.peer_version,
                need_reply: entry_value_of(st.store, s).adv.need_reply,
            }
        },
        last_update: t1,
    };
    assert(s1.store == sorted_insert(st.store, s, rec));
    lemma_sorted_insert_resolved(st.store, s, rec);
    lemma_map_lookup(s1.store, s);
    assert(entries_to_map(s1.store) == entries_to_map(st.store).insert(s, rec));
    assert(entries_to_map(s1.store).contains_key(s));
    assert(entries_have_key(s1.store, s));
    assert(entry_value_of(s1.store, s) == rec);
    assert(rec.adv.myself == p.myself && rec.adv.neighbors == p.neighbors);
    assert(!ingress_updated(s1.store, p));
}

/// Commutativity: advertisements from two distinct senders, arriving at
/// the same clock reading, produce the same store, route table and
/// version in whichever order they are folded in.
pub proof fn lemma_ingress_commutes(st: StateV, a: AdvV, b: AdvV, now: u64)
    requires
        state_inv(st),
        a.myself.peer_id != b.myself.peer_id,
    ensures
        ingress_spec(ingress_spec(st, a, now), b, now).store == ingress_spec(
            ingress_spec(st, b, now),
            a,
            now,
        ).store,
        ingress_spec(ingress_spec(st, a, now), b, now).table == ingress_spec(
            ingress_spec(st, b, now),
            a,
            now,
        ).table,
        ingress_spec(ingress_spec(st, a, now), b, now).version == ingress_spec(
            ingress_spec(st, b, now),
            a,
            now,
        ).version,
{
    let ka = a.myself.peer_id;
    let kb = b.myself.peer_id;
    let m = entries_to_map(st.store);
    let sa = ingress_spec(st, a, now);
    let sab = ingress_spec(sa, b, now);
    let sb = ingress_spec(st, b, now);
    let sba = ingress_spec(sb, a, now);
    lemma_ingress_preserves_inv(st, a, now);
    lemma_ingress_preserves_inv(sa, b, now);
    lemma_ingress_preserves_inv(st, b, now);
    lemma_ingress_preserves_inv(sb, a, now);
    // the first fold leaves the other sender's stored view untouched
    let ra = RemoteV {
        adv: if ingress_updated(st.store, a) {
            a
        } else {
            AdvV {
                myself: entry_value_of(st.store, ka).adv.myself,
                neighbors: entry_value_of(st.store, ka).adv.neighbors,
                version: a.version,
                peer_version: a.peer_version,
                need_reply: entry_value_of(st.store, ka).adv.need_reply,
            }
        },
        last_update: now,
    };
    let rb = RemoteV {
        adv: if ingress_updated(st.store, b) {
            b
        } else {
            AdvV {
                myself: entry_value_of(st.store, kb).adv.myself,
                neighbors: entry_value_of(st.store, kb).adv.neighbors,
                version: b.version,
                peer_version: b.peer_version,
                need_reply: entry_value_of(st.store, kb).adv.need_reply,
            }
        },
        last_update: now,
    };
    lemma_sorted_insert_resolved(st.store, ka, ra);
    lemma_sorted_insert_resolved(st.store, kb, rb);
    assert(sa.store == sorted_insert(st.store, ka, ra));
    assert(sb.store == sorted_insert(st.store, kb, rb));
    assert(entries_to_map(sa.store) == m.insert(ka, ra));
    assert(entries_to_map(sb.store) == m.insert(kb, rb));
    lemma_map_lookup(sa.store, kb);
    lemma_map_lookup(sb.store, ka);
    lemma_map_lookup(st.store, ka);
    lemma_map_lookup(st.store, kb);
    assert(entries_have_key(sa.store, kb) == entries_have_key(st.store, kb));
    assert(entries_have_key(st.store, kb) ==> entry_value_of(sa.store, kb) == entry_value_of(
        st.store,
        kb,
    ));
    assert(entries_have_key(sb.store, ka) == entries_have_key(st.store, ka));
    assert(entries_have_key(st.store, ka) ==> entry_value_of(sb.store, ka) == entry_value_of(
        st.store,
        ka,
    ));
    assert(ingress_updated(sa.store, b) == ingress_updated(st.store, b));
    assert(ingress_updated(sb.store, a) == ingress_updated(st.store, a));
    assert(sab.store == sorted_insert(sa.store, kb, rb));
    assert(sba.store == sorted_insert(sb.store, ka, ra));
    lemma_sorted_insert_resolved(sa.store, kb, rb);
    lemma_sorted_insert_resolved(sb.store, ka, ra);
    assert(entries_to_map(sab.store) =~= entries_to_map(sba.store));
    lemma_entries_canonical(sab.store, sba.store);
    // equal stores and the structural invariant force equal tables
    assert(sab.table == rebuild_table(st.my_peer_id, sab.store));
    assert(sba.table == rebuild_table(st.my_peer_id, sba.store));
    // the two folds bump the version equally often in either order
    assert(sab.version == sba.version);
}

/// Monotone versioning: no engine step decreases the version, short of
/// the accepted wraparound at the top of the 32-bit range.
pub proof fn lemma_version_monotone(
    st: StateV,
    p: AdvV,
    new_myself: PeerInfoV,
    conn: Seq<u128>,
    now: u64,
)
    requires
        st.version < u32::MAX,
    ensures
        ingress_spec(st, p, now).version >= st.version,
        reaper_spec(st, conn, now).0.version >= st.version,
        advertiser_spec(st, new_myself, conn, now).0.version >= st.version,
{
}

/// The hop-count ceiling: an offered path above the ceiling writes
/// nothing at all, and one at or below it reaches the table whenever the
/// destination is new or the path is shorter.
pub proof fn lemma_cost_ceiling(t: TableV, next_hop: u128, cost: int, info: PeerInfoV)
    requires
        keys_sorted(t.route),
    ensures
        cost > MAX_ROUTE_COST ==> table_update(t, next_hop, cost, info) == t,
        (cost <= MAX_ROUTE_COST && (!entries_have_key(t.route, info.peer_id) || entry_value_of(
            t.route,
            info.peer_id,
        ).cost > cost)) ==> entries_have_key(table_update(t, next_hop, cost, info).route, info.peer_id)
            && entry_value_of(table_update(t, next_hop, cost, info).route, info.peer_id)
            == route_entry_of(info, next_hop, cost as u32),
{
    if cost <= MAX_ROUTE_COST && (!entries_have_key(t.route, info.peer_id) || entry_value_of(
        t.route,
        info.peer_id,
    ).cost > cost) {
        let v = route_entry_of(info, next_hop, cost as u32);
        lemma_sorted_insert_resolved(t.route, info.peer_id, v);
        lemma_map_lookup(sorted_insert(t.route, info.peer_id, v), info.peer_id);
        assert(entries_to_map(sorted_insert(t.route, info.peer_id, v)).contains_key(info.peer_id));
    }
}

/// The reaper's filter is exact: a stored view survives a pass precisely
/// when it is both fresh (its age is at most `ROUTE_EXPIRED_SEC` — the
/// boundary itself is kept) and its peer is still connected.
pub proof fn lemma_reaper_keeps_exactly(s: Seq<(u128, RemoteV)>, conn: Seq<u128>, now: u64)
    requires
        keys_sorted(s),
    ensures
        forall|i: int|
            0 <= i < s.len() ==> (entries_have_key(reaper_keep(s, conn, now), (#[trigger] s[i]).0)
                <==> !expired_or_gone(s[i].0, s[i].1, conn, now)),
    decreases s.len(),
{
    if s.len() > 0 {
        let t = s.drop_last();
        assert(keys_sorted(t)) by {
            assert(forall|i: int| 0 <= i < t.len() ==> t[i] == s[i]);
        }
        lemma_reaper_keeps_exactly(t, conn, now);
        let front = reaper_keep(t, conn, now);
        let r = reaper_keep(s, conn, now);
        crate::engine::lemma_reaper_keep_bound(t, conn, now, s.last().0);
        assert forall|i: int| 0 <= i < s.len() implies (entries_have_key(
            r,
            (#[trigger] s[i]).0,
        ) <==> !expired_or_gone(s[i].0, s[i].1, conn, now)) by {
            if i < s.len() - 1 {
                assert(s[i] == t[i]);
                assert(s[i].0 < s.last().0);
                if entries_have_key(front, s[i].0) {
                    let x = choose|x: int| 0 <= x < front.len() && front[x].0 == s[i].0;
                    assert(r[x].0 == s[i].0);
                    assert(entries_have_key(r, s[i].0));
                } else {
                    if entries_have_key(r, s[i].0) {
                        let x = choose|x: int| 0 <= x < r.len() && r[x].0 == s[i].0;
                        if !expired_or_gone(s.last().0, s.last().1, conn, now) && x == front.len() {
                            assert(r[x] == s.last());
                            assert(false);
                        } else {
                            assert(r[x] == front[x]);
                            assert(entries_have_key(front, s[i].0));
                        }
                    }
                }
            } else {
                assert(s[i] == s.last());
                if !expired_or_gone(s.last().0, s.last().1, conn, now) {
                    assert(r[front.len() as int] == s.last());
                    assert(entries_have_key(r, s.last().0));
                } else {
                    assert(r == front);
                    if entries_have_key(r, s.last().0) {
                        let x = choose|x: int| 0 <= x < r.len() && r[x].0 == s.last().0;
                        assert(front[x].0 < s.last().0);
                        assert(false);
                    }
                }
            }
        }
    }
}

/// Every view the reaper keeps is neither stale nor from a departed peer.
proof fn lemma_reaper_keep_not_gone(s: Seq<(u128, RemoteV)>, conn: Seq<u128>, now: u64)
    ensures
        forall|j: int|
            0 <= j < reaper_keep(s, conn, now).len() ==> !expired_or_gone(
                (#[trigger] reaper_keep(s, conn, now)[j]).0,
                reaper_keep(s, conn, now)[j].1,
                conn,
                now,
            ),
    decreases s.len(),
{
    if s.len() > 0 {
        lemma_reaper_keep_not_gone(s.drop_last(), conn, now);
        let front = reaper_keep(s.drop_last(), conn, now);
        let r = reaper_keep(s, conn, now);
        assert forall|j: int| 0 <= j < r.len() implies !expired_or_gone(
            (#[trigger] r[j]).0,
            r[j].1,
            conn,
            now,
        ) by {
            if !expired_or_gone(s.last().0, s.last().1, conn, now) && j == front.len() {
                assert(r[j] == s.last());
            } else {
                assert(r[j] == front[j]);
            }
        }
    }
}

/// A pass that drops nothing kept everything: equal lengths force the
/// kept sequence to be the store itself.
proof fn lemma_reaper_keep_full(s: Seq<(u128, RemoteV)>, conn: Seq<u128>, now: u64)
    requires
        reaper_keep(s, conn, now).len() == s.len(),
    ensures
        reaper_keep(s, conn, now) == s,
    decreases s.len(),
{
    if s.len() > 0 {
        let t = s.drop_last();
        crate::engine::lemma_reaper_keep_entries(t, conn, now);
        if expired_or_gone(s.last().0, s.last().1, conn, now) {
            assert(reaper_keep(s, conn, now).len() <= t.len());
            assert(false);
        } else {
            lemma_reaper_keep_full(t, conn, now);
            assert(reaper_keep(s, conn, now) =~= s);
        }
    }
}

/// The reaper keeps the structural invariant: the store stays sorted,
/// every kept advertisement still names its sender, and the table is
/// still the rebuild of the store.
pub proof fn lemma_reaper_preserves_inv(st: StateV, conn: Seq<u128>, now: u64)
    requires
        state_inv(st),
    ensures
        state_inv(reaper_spec(st, conn, now).0),
{
    crate::engine::lemma_reaper_keep_sorted(st.store, conn, now);
    crate::engine::lemma_reaper_keep_entries(st.store, conn, now);
    let keep = reaper_keep(st.store, conn, now);
    assert forall|j: int| 0 <= j < keep.len() implies (#[trigger] keep[j]).1.adv.myself.peer_id
        == keep[j].0 by {
        assert(st.store.contains(keep[j]));
        let x = choose|x: int| 0 <= x < st.store.len() && st.store[x] == keep[j];
    }
    if keep.len() == st.store.len() {
        lemma_reaper_keep_full(st.store, conn, now);
    }
}

/// The advertiser keeps the structural invariant: it touches neither the
/// store nor the table, and the refreshed self-view still carries this
/// node's identifier.
pub proof fn lemma_advertiser_preserves_inv(
    st: StateV,
    new_myself: PeerInfoV,
    conn: Seq<u128>,
    now: u64,
)
    requires
        state_inv(st),
        new_myself.peer_id == st.my_peer_id,
    ensures
        state_inv(advertiser_spec(st, new_myself, conn, now).0),
{
}

/// After a reaper pass over the connected set, every remaining remote
/// view belongs to a connected peer, and therefore every next hop in the
/// route table is a currently-connected peer.
pub proof fn lemma_next_hop_connected_after_reaper(st: StateV, conn: Seq<u128>, now: u64)
    requires
        state_inv(st),
    ensures
        forall|i: int|
            0 <= i < reaper_spec(st, conn, now).0.store.len() ==> conn.contains(
                (#[trigger] reaper_spec(st, conn, now).0.store[i]).0,
            ),
        forall|j: int|
            0 <= j < reaper_spec(st, conn, now).0.table.route.len() ==> conn.contains(
                (#[trigger] reaper_spec(st, conn, now).0.table.route[j]).1.peer_id,
            ),
{
    let s1 = reaper_spec(st, conn, now).0;
    lemma_reaper_keep_not_gone(st.store, conn, now);
    if reaper_keep(st.store, conn, now).len() == st.store.len() {
        lemma_reaper_keep_full(st.store, conn, now);
    }
    assert(s1.store == reaper_keep(st.store, conn, now));
    lemma_reaper_preserves_inv(st, conn, now);
    lemma_next_hop_has_view(s1);
    assert forall|j: int| 0 <= j < s1.table.route.len() implies conn.contains(
        (#[trigger] s1.table.route[j]).1.peer_id,
    ) by {
        assert(entries_have_key(s1.store, s1.table.route[j].1.peer_id));
        let x = entry_index_of(s1.store, s1.table.route[j].1.peer_id);
        assert(s1.store[x].0 == s1.table.route[j].1.peer_id);
    }
}

/// Quiescence of the reaper: when nothing is stale and every stored peer
/// is still connected, a reaper pass changes nothing and wakes nobody.
pub proof fn lemma_reaper_no_expiry(st: StateV, conn: Seq<u128>, now: u64)
    requires
        forall|i: int|
            0 <= i < st.store.len() ==> !expired_or_gone(
                (#[trigger] st.store[i]).0,
                st.store[i].1,
                conn,
                now,
            ),
    ensures
        reaper_spec(st, conn, now).0 == st,
        reaper_spec(st, conn, now).1 == false,
{
    lemma_reaper_keep_all(st.store, conn, now);
}

proof fn lemma_reaper_keep_all(s: Seq<(u128, RemoteV)>, conn: Seq<u128>, now: u64)
    requires
        forall|i: int|
            0 <= i < s.len() ==> !expired_or_gone((#[trigger] s[i]).0, s[i].1, conn, now),
    ensures
        reaper_keep(s, conn, now) == s,
    decreases s.len(),
{
    if s.len() > 0 {
        let t = s.drop_last();
        assert(forall|i: int| 0 <= i < t.len() ==> t[i] == s[i]);
        lemma_reaper_keep_all(t, conn, now);
        assert(reaper_keep(s, conn, now) =~= s);
    }
}

/// Quiescence of the advertiser: a pass that finds the self-view
/// unchanged leaves the version, the store and the table untouched.
pub proof fn lemma_advertiser_version_stable(
    st: StateV,
    new_myself: PeerInfoV,
    conn: Seq<u128>,
    now: u64,
)
    requires
        st.myself == new_myself,
    ensures
        advertiser_spec(st, new_myself, conn, now).0.version == st.version,
        advertiser_spec(st, new_myself, conn, now).0.store == st.store,
        advertiser_spec(st, new_myself, conn, now).0.table == st.table,
{
}

/// Ingress records the sender's generation and its echo: afterwards the
/// stored view of the sender carries exactly the advertised `version` and
/// `peer_version`.  This is the half of the version handshake that the
/// receiver keeps.
pub proof fn lemma_ingress_records_versions(st: StateV, p: AdvV, now: u64)
    requires
        keys_sorted(st.store),
    ensures
        entries_have_key(ingress_spec(st, p, now).store, p.myself.peer_id),
        entry_value_of(ingress_spec(st, p, now).store, p.myself.peer_id).adv.version == p.version,
        entry_value_of(ingress_spec(st, p, now).store, p.myself.peer_id).adv.peer_version
            == p.peer_version,
{
    let s = p.myself.peer_id;
    let rec = RemoteV {
        adv: if ingress_updated(st.store, p) {
            p
        } else {
            AdvV {
                myself: entry_value_of(st.store, s).adv.myself,
                neighbors: entry_value_of(st.store, s).adv.neighbors,
                version: p.version,
                peer_version: p.peer_version,
                need_reply: entry_value_of(st.store, s).adv.need_reply,
            }
        },
        last_update: now,
    };
    lemma_sorted_insert_resolved(st.store, s, rec);
    lemma_map_lookup(ingress_spec(st, p, now).store, s);
    assert(entries_to_map(ingress_spec(st, p, now).store).contains_key(s));
}

/// Fast-reply latency: after ingress of a `need_reply` advertisement at
/// time `now`, an advertiser pass at any time from
/// `now + SEND_ROUTE_FAST_REPLY_SEC` on no longer suppresses the send to
/// that peer, whatever else happened to the rest of the state meanwhile.
///
/// The clock must have run at least `FAST_REPLY_DURATION` before the
/// arming: deferral stores `now - FAST_REPLY_DURATION`, clamped at zero,
/// and the clamp stretches the deadline when the clock is younger than
/// that.
pub proof fn lemma_fast_reply_latency(st: StateV, p: AdvV, now: u64, later: u64)
    requires
        times_ok(st, now),
        p.need_reply,
        now >= FAST_REPLY_DURATION,
        later >= now + SEND_ROUTE_FAST_REPLY_SEC,
    ensures
        forall|st2: StateV|
            (#[trigger] st2.last_send) == ingress_spec(st, p, now).last_send
                ==> !advertiser_skips(st2, p.myself.peer_id, later),
{
    let s = p.myself.peer_id;
    let s1 = ingress_spec(st, p, now);
    assert forall|st2: StateV|
        (#[trigger] st2.last_send) == s1.last_send implies !advertiser_skips(st2, s, later) by {
        if st.last_send.contains_key(s) {
            let r = st.last_send[s];
            let v1 = if ingress_updated(st.store, p) {
                wrap_inc(st.version)
            } else {
                st.version
            };
            let armed = armed_record(r, v1, p.version, now);
            assert(s1.last_send[s] == armed);
            match armed.sent_at {
                None => {},
                Some(t) => {
                    assert(later - t >= SEND_ROUTE_PERIOD_SEC) by {
                        match r.sent_at {
                            None => {
                                assert(false);
                            },
                            Some(t0) => {
                                assert(t0 <= now);
                                if r.version != v1 || r.peer_version != Some(p.version) {
                                    assert(false);
                                } else if now - t0 < FAST_REPLY_DURATION {
                                    assert(t == now - FAST_REPLY_DURATION);
                                } else {
                                    assert(t == t0);
                                    assert(now - t >= FAST_REPLY_DURATION);
                                }
                            },
                        }
                    }
                },
            }
        } else {
            assert(!st2.last_send.contains_key(s));
        }
    }
}

/// A peer the advertiser does not skip receives an advertisement: the
/// sweep's output contains a message addressed to it.
pub proof fn lemma_advertiser_sends_when_due(st: StateV, conn: Seq<u128>, now: u64, p: u128)
    requires
        conn.contains(p),
        !advertiser_skips(st, p, now),
    ensures
        exists|j: int|
            0 <= j < advertiser_fold(st, conn, now).1.len() && (#[trigger] advertiser_fold(
                st,
                conn,
                now,
            ).1[j]).0 == p,
    decreases conn.len(),
{
    let msgs = advertiser_fold(st, conn, now).1;
    if conn.last() == p {
        assert(msgs[msgs.len() - 1].0 == p);
    } else {
        let t = conn.drop_last();
        assert(t.contains(p)) by {
            let x = choose|x: int| 0 <= x < conn.len() && conn[x] == p;
            assert(t[x] == p);
        }
        lemma_advertiser_sends_when_due(st, t, now, p);
        let front = advertiser_fold(st, t, now).1;
        let j = choose|j: int| 0 <= j < front.len() && front[j].0 == p;
        assert(msgs[j].0 == p);
    }
}

} // verus!
