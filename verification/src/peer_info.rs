//! The advertised attributes of a peer and the advertisement wire message.
//!
//! Peer identifiers are 128-bit values, overlay IPv4 addresses are 32-bit
//! values, and proxy CIDR prefixes travel as strings; the caller converts
//! between these plain forms and whatever richer types it uses.

use vstd::prelude::*;

verus! {

/// The mathematical value of a [`SyncPeerInfo`].
#[verifier::ext_equal]
pub ghost struct PeerInfoV {
    pub peer_id: u128,
    pub cost: u32,
    pub ipv4_addr: Option<u32>,
    pub proxy_cidrs: Seq<Seq<char>>,
    pub hostname: Option<Seq<char>>,
    pub udp_stun_info: i8,
}

/// The advertisable attributes of one peer.
///
/// Inside the route table, `peer_id` is overwritten with the next hop
/// towards the destination, and `cost` with the hop count of the path.
#[derive(Debug, PartialEq, Eq)]
pub struct SyncPeerInfo {
    pub peer_id: u128,
    pub cost: u32,
    pub ipv4_addr: Option<u32>,
    pub proxy_cidrs: Vec<String>,
    pub hostname: Option<String>,
    pub udp_stun_info: i8,
}

impl View for SyncPeerInfo {
    type V = PeerInfoV;

    open spec fn view(&self) -> PeerInfoV {
        PeerInfoV {
            peer_id: self.peer_id,
            cost: self.cost,
            ipv4_addr: self.ipv4_addr,
            proxy_cidrs: self.proxy_cidrs.deep_view(),
            hostname: self.hostname.deep_view(),
            udp_stun_info: self.udp_stun_info,
        }
    }
}

impl DeepView for SyncPeerInfo {
    type V = PeerInfoV;

    open spec fn deep_view(&self) -> PeerInfoV {
        self.view()
    }
}

/// The mathematical value of a [`SyncPeer`].
#[verifier::ext_equal]
pub ghost struct AdvV {
    pub myself: PeerInfoV,
    pub neighbors: Seq<PeerInfoV>,
    pub version: u32,
    pub peer_version: Option<u32>,
    pub need_reply: bool,
}

/// The advertisement exchanged between directly-connected peers.
///
/// `version` is the sender's current table generation; `peer_version` is
/// the highest generation the sender has observed from the receiver, echoed
/// back for the receiver's reply suppression; `need_reply` asks the
/// receiver to re-advertise promptly.
#[derive(Debug)]
pub struct SyncPeer {
    pub myself: SyncPeerInfo,
    pub neighbors: Vec<SyncPeerInfo>,
    pub version: u32,
    pub peer_version: Option<u32>,
    pub need_reply: bool,
}

impl View for SyncPeer {
    type V = AdvV;

    open spec fn view(&self) -> AdvV {
        AdvV {
            myself: self.myself@,
            neighbors: self.neighbors.deep_view(),
            version: self.version,
            peer_version: self.peer_version,
            need_reply: self.need_reply,
        }
    }
}

impl DeepView for SyncPeer {
    type V = AdvV;

    open spec fn deep_view(&self) -> AdvV {
        self.view()
    }
}

/// Compares two optional 32-bit values.
pub(crate) fn opt_u32_eq(a: &Option<u32>, b: &Option<u32>) -> (r: bool)
    ensures
        r == (*a == *b),
{
    match (a, b) {
        (Some(x), Some(y)) => *x == *y,
        (None, None) => true,
        _ => false,
    }
}

/// Compares two strings by their contents.
fn string_eq(a: &String, b: &String) -> (r: bool)
    ensures
        r == (a@ == b@),
{
    *a == *b
}

/// Compares two optional strings by their contents.
fn opt_string_eq(a: &Option<String>, b: &Option<String>) -> (r: bool)
    ensures
        r == (a.deep_view() == b.deep_view()),
{
    match (a, b) {
        (Some(x), Some(y)) => string_eq(x, y),
        (None, None) => true,
        _ => false,
    }
}

/// Compares two string vectors element by element.
fn string_vec_eq(a: &Vec<String>, b: &Vec<String>) -> (r: bool)
    ensures
        r == (a.deep_view() == b.deep_view()),
{
    if a.len() != b.len() {
        assert(a.deep_view().len() != b.deep_view().len());
        return false;
    }
    let n = a.len();
    let mut i: usize = 0;
    while i < n
        invariant
            n == a@.len() == b@.len(),
            i <= n,
            forall|j: int| 0 <= j < i ==> a.deep_view()[j] == b.deep_view()[j],
        decreases n - i,
    {
        if !string_eq(&a[i], &b[i]) {
            assert(a.deep_view()[i as int] != b.deep_view()[i as int]);
            return false;
        }
        i += 1;
    }
    proof {
        assert(a.deep_view() =~= b.deep_view());
    }
    true
}

impl SyncPeerInfo {
    /// Builds the self-view of a peer from its current attributes, at hop
    /// count zero.
    pub fn new_self(
        from_peer: u128,
        ipv4_addr: Option<u32>,
        proxy_cidrs: Vec<String>,
        hostname: Option<String>,
        udp_stun_info: i8,
    ) -> (r: Self)
        ensures
            r@ == (PeerInfoV {
                peer_id: from_peer,
                cost: 0,
                ipv4_addr: ipv4_addr,
                proxy_cidrs: proxy_cidrs.deep_view(),
                hostname: hostname.deep_view(),
                udp_stun_info: udp_stun_info,
            }),
    {
        SyncPeerInfo { peer_id: from_peer, cost: 0, ipv4_addr, proxy_cidrs, hostname, udp_stun_info }
    }

    /// The route-table form of an advertised entry: the attributes of
    /// `from`, with the identifier replaced by the next hop and the cost by
    /// the hop count of the path.
    pub fn clone_for_route_table(&self, next_hop: u128, cost: u32, from: &Self) -> (r: Self)
        ensures
            r@ == route_entry_of(from@, next_hop, cost),
    {
        SyncPeerInfo {
            peer_id: next_hop,
            cost,
            ipv4_addr: from.ipv4_addr,
            proxy_cidrs: clone_string_vec(&from.proxy_cidrs),
            hostname: clone_opt_string(&from.hostname),
            udp_stun_info: from.udp_stun_info,
        }
    }

    /// Structural equality of two attribute records.
    pub fn same_as(&self, other: &Self) -> (r: bool)
        ensures
            r == (self@ == other@),
    {
        let r = self.peer_id == other.peer_id && self.cost == other.cost
            && opt_u32_eq(&self.ipv4_addr, &other.ipv4_addr)
            && string_vec_eq(&self.proxy_cidrs, &other.proxy_cidrs)
            && opt_string_eq(&self.hostname, &other.hostname)
            && self.udp_stun_info == other.udp_stun_info;
        proof {
            if r {
                assert(self@ =~= other@);
            }
        }
        r
    }
}

/// The attributes `from`, redirected through `next_hop` at hop count `cost`.
pub open spec fn route_entry_of(from: PeerInfoV, next_hop: u128, cost: u32) -> PeerInfoV {
    PeerInfoV {
        peer_id: next_hop,
        cost: cost,
        ipv4_addr: from.ipv4_addr,
        proxy_cidrs: from.proxy_cidrs,
        hostname: from.hostname,
        udp_stun_info: from.udp_stun_info,
    }
}

/// Copies a string, keeping its contents.
fn clone_string(s: &String) -> (r: String)
    ensures
        r@ == s@,
{
    s.clone()
}

/// Copies an optional string, keeping its contents.
fn clone_opt_string(s: &Option<String>) -> (r: Option<String>)
    ensures
        r.deep_view() == s.deep_view(),
{
    match s {
        Some(x) => Some(clone_string(x)),
        None => None,
    }
}

/// Copies a string vector, keeping its contents.
fn clone_string_vec(v: &Vec<String>) -> (r: Vec<String>)
    ensures
        r.deep_view() == v.deep_view(),
{
    let n = v.len();
    let mut r: Vec<String> = Vec::new();
    let mut i: usize = 0;
    while i < n
        invariant
            n == v@.len(),
            i <= n,
            r@.len() == i,
            forall|j: int| 0 <= j < i ==> r.deep_view()[j] == v.deep_view()[j],
        decreases n - i,
    {
        r.push(clone_string(&v[i]));
        i += 1;
    }
    proof {
        assert(r.deep_view() =~= v.deep_view());
    }
    r
}

impl Clone for SyncPeerInfo {
    /// Copies the record, keeping its mathematical value.
    fn clone(&self) -> (r: Self)
        ensures
            r@ == self@,
    {
        let r = SyncPeerInfo {
            peer_id: self.peer_id,
            cost: self.cost,
            ipv4_addr: self.ipv4_addr,
            proxy_cidrs: clone_string_vec(&self.proxy_cidrs),
            hostname: clone_opt_string(&self.hostname),
            udp_stun_info: self.udp_stun_info,
        };
        proof {
            assert(r@ =~= self@);
        }
        r
    }
}

/// Copies an attribute vector, keeping its mathematical value.
pub fn clone_info_vec(v: &Vec<SyncPeerInfo>) -> (r: Vec<SyncPeerInfo>)
    ensures
        r.deep_view() == v.deep_view(),
{
    let n = v.len();
    let mut r: Vec<SyncPeerInfo> = Vec::new();
    let mut i: usize = 0;
    while i < n
        invariant
            n == v@.len(),
            i <= n,
            r@.len() == i,
            forall|j: int| 0 <= j < i ==> r.deep_view()[j] == v.deep_view()[j],
        decreases n - i,
    {
        r.push(v[i].clone());
        i += 1;
    }
    proof {
        assert(r.deep_view() =~= v.deep_view());
    }
    r
}

/// Compares two attribute vectors element by element.
pub fn info_vec_eq(a: &Vec<SyncPeerInfo>, b: &Vec<SyncPeerInfo>) -> (r: bool)
    ensures
        r == (a.deep_view() == b.deep_view()),
{
    if a.len() != b.len() {
        assert(a.deep_view().len() != b.deep_view().len());
        return false;
    }
    let n = a.len();
    let mut i: usize = 0;
    while i < n
        invariant
            n == a@.len() == b@.len(),
            i <= n,
            forall|j: int| 0 <= j < i ==> a.deep_view()[j] == b.deep_view()[j],
        decreases n - i,
    {
        if !a[i].same_as(&b[i]) {
            assert(a.deep_view()[i as int] != b.deep_view()[i as int]);
            return false;
        }
        i += 1;
    }
    proof {
        assert(a.deep_view() =~= b.deep_view());
    }
    true
}

impl SyncPeer {
    /// Assembles an advertisement.
    pub fn new(
        myself: SyncPeerInfo,
        neighbors: Vec<SyncPeerInfo>,
        version: u32,
        peer_version: Option<u32>,
        need_reply: bool,
    ) -> (r: Self)
        ensures
            r@ == (AdvV {
                myself: myself@,
                neighbors: neighbors.deep_view(),
                version: version,
                peer_version: peer_version,
                need_reply: need_reply,
            }),
    {
        SyncPeer { myself, neighbors, version, peer_version, need_reply }
    }
}

impl Clone for SyncPeer {
    /// Copies the advertisement, keeping its mathematical value.
    fn clone(&self) -> (r: Self)
        ensures
            r@ == self@,
    {
        let r = SyncPeer {
            myself: self.myself.clone(),
            neighbors: clone_info_vec(&self.neighbors),
            version: self.version,
            peer_version: self.peer_version,
            need_reply: self.need_reply,
        };
        proof {
            assert(r@ =~= self@);
        }
        r
    }
}

} // verus!
