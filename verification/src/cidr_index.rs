//! Proxy CIDR prefixes and the index from prefix to advertising peer.
//!
//! A prefix travels in an advertisement as a string; parsing it is delegated
//! to the `cidr` crate behind a trusted wrapper.  The parsed form holds the
//! network address and prefix length as plain integers, so the containment
//! test itself is verified.

use vstd::prelude::*;

verus! {

/// A parsed IP prefix: the network address and the prefix length.
#[derive(Clone, Copy, PartialEq, Eq, Structural, Debug, Hash)]
#[allow(inconsistent_fields)]
pub enum Cidr {
    V4 { net: u32, len: u8 },
    V6 { net: u128, len: u8 },
}

impl Cidr {
    /// The prefix length never exceeds the address width.
    pub open spec fn wf(self) -> bool {
        match self {
            Cidr::V4 { net, len } => len <= 32,
            Cidr::V6 { net, len } => len <= 128,
        }
    }
}

/// The prefix that the `cidr` crate's grammar reads out of a string, if any.
pub uninterp spec fn parsed_ip_cidr(s: Seq<char>) -> Option<Cidr>;

/// Relies on `str::parse::<cidr::IpCidr>`: the result is a function of the
/// string alone; a parsed prefix is the network's first address together
/// with a network length of at most the address width.
#[verifier::external_body]
pub(crate) fn parse_ip_cidr(s: &String) -> (r: Option<Cidr>)
    ensures
        r == parsed_ip_cidr(s@),
        match r {
            Some(c) => c.wf(),
            None => true,
        },
{
    match s.parse::<cidr::IpCidr>() {
        Ok(cidr::IpCidr::V4(c)) => Some(
            Cidr::V4 { net: u32::from(c.first_address()), len: c.network_length() },
        ),
        Ok(cidr::IpCidr::V6(c)) => Some(
            Cidr::V6 { net: u128::from(c.first_address()), len: c.network_length() },
        ),
        Err(_) => None,
    }
}

/// Whether the IPv4 address `ip` lies in the prefix: the first `len` bits
/// agree.  An IPv6 prefix contains no IPv4 address.
pub open spec fn cidr_contains_ipv4(c: Cidr, ip: u32) -> bool {
    match c {
        Cidr::V4 { net, len } => len == 0 || (ip >> ((32 - len) as u32)) == (net >> ((32
            - len) as u32)),
        Cidr::V6 { .. } => false,
    }
}

/// Executable form of [`cidr_contains_ipv4`].
pub fn contains_ipv4(c: &Cidr, ip: u32) -> (r: bool)
    requires
        c.wf(),
    ensures
        r == cidr_contains_ipv4(*c, ip),
{
    match c {
        Cidr::V4 { net, len } => {
            if *len == 0 {
                true
            } else {
                let shift: u32 = (32 - *len) as u32;
                (ip >> shift) == (*net >> shift)
            }
        },
        Cidr::V6 { .. } => false,
    }
}

/// `s` with the binding `(k, v)` written: an entry already carrying `k` is
/// replaced in place, otherwise the binding is appended.
pub open spec fn assoc_set(s: Seq<(Cidr, u128)>, k: Cidr, v: u128) -> Seq<(Cidr, u128)>
    decreases s.len(),
{
    if s.len() == 0 {
        seq![(k, v)]
    } else if s[0].0 == k {
        seq![(k, v)] + s.drop_first()
    } else {
        seq![s[0]] + assoc_set(s.drop_first(), k, v)
    }
}

/// No two entries of `s` carry the same prefix.
pub open spec fn cidr_keys_unique(s: Seq<(Cidr, u128)>) -> bool {
    forall|i: int, j: int| 0 <= i < j < s.len() ==> s[i].0 != s[j].0
}

/// Every prefix stored in `s` is well formed.
pub open spec fn cidr_keys_wf(s: Seq<(Cidr, u128)>) -> bool {
    forall|i: int| 0 <= i < s.len() ==> (#[trigger] s[i].0).wf()
}

/// The peer of the first entry whose prefix contains `ip`, scanning in
/// storage order.
pub open spec fn cidr_first_match(s: Seq<(Cidr, u128)>, ip: u32) -> Option<u128>
    decreases s.len(),
{
    if s.len() == 0 {
        None
    } else if cidr_contains_ipv4(s[0].0, ip) {
        Some(s[0].1)
    } else {
        cidr_first_match(s.drop_first(), ip)
    }
}

/// The index from advertised proxy prefix to advertising peer.
pub struct CidrIndex {
    entries: Vec<(Cidr, u128)>,
}

/// Writing at the first position carrying `k` is what `assoc_set`
/// describes, and it keeps the prefixes unique.
pub proof fn lemma_assoc_set_shape(s: Seq<(Cidr, u128)>, k: Cidr, v: u128, i: int)
    requires
        cidr_keys_unique(s),
        0 <= i <= s.len(),
        forall|j: int| 0 <= j < i ==> s[j].0 != k,
        i < s.len() ==> s[i].0 == k,
    ensures
        assoc_set(s, k, v) == if i < s.len() {
            s.update(i, (k, v))
        } else {
            s.push((k, v))
        },
        cidr_keys_unique(assoc_set(s, k, v)),
    decreases s.len(),
{
    if i == 0 {
        if s.len() == 0 {
            assert(assoc_set(s, k, v) =~= s.push((k, v)));
        } else if s[0].0 == k {
            assert(assoc_set(s, k, v) =~= s.update(0, (k, v)));
        } else {
            assert(false);
        }
    } else {
        let t = s.drop_first();
        assert(s[0].0 != k);
        assert(cidr_keys_unique(t)) by {
            assert(forall|x: int, y: int|
                0 <= x < y < t.len() ==> t[x] == s[x + 1] && t[y] == s[y + 1]);
        }
        assert(forall|j: int| 0 <= j < i - 1 ==> t[j] == s[j + 1] && t[j].0 != k);
        assert(i - 1 < t.len() ==> t[i - 1] == s[i]);
        lemma_assoc_set_shape(t, k, v, i - 1);
        let r = assoc_set(s, k, v);
        assert(r == seq![s[0]] + assoc_set(t, k, v));
        if i < s.len() {
            assert(r =~= s.update(i, (k, v)));
            assert(cidr_keys_unique(r)) by {
                assert(forall|x: int| 0 <= x < r.len() && x != i ==> r[x] == s[x]);
            }
        } else {
            assert(r =~= s.push((k, v)));
            assert(cidr_keys_unique(r)) by {
                assert(forall|x: int| 0 <= x < s.len() ==> r[x] == s[x]);
                assert(r[s.len() as int] == (k, v));
            }
        }
    }
}

impl CidrIndex {
    /// The stored entry sequence.
    pub closed spec fn entries_seq(&self) -> Seq<(Cidr, u128)> {
        self.entries@
    }

    /// Prefixes are unique and well formed.
    pub closed spec fn wf(&self) -> bool {
        cidr_keys_unique(self.entries@) && cidr_keys_wf(self.entries@)
    }

    pub fn new() -> (r: Self)
        ensures
            r.wf(),
            r.entries_seq() == Seq::<(Cidr, u128)>::empty(),
    {
        let r = CidrIndex { entries: Vec::new() };
        proof {
            assert(r.entries@ =~= Seq::<(Cidr, u128)>::empty());
        }
        r
    }

    /// Exposes what well-formedness says of the stored entries.
    pub proof fn lemma_wf_entries(&self)
        requires
            self.wf(),
        ensures
            cidr_keys_unique(self.entries_seq()),
            cidr_keys_wf(self.entries_seq()),
    {
    }

    /// How many prefixes are stored.
    pub fn len(&self) -> (r: usize)
        ensures
            r == self.entries_seq().len(),
    {
        self.entries.len()
    }

    /// The binding at position `i`, in storage order.
    pub fn entry_at(&self, i: usize) -> (r: (Cidr, u128))
        requires
            i < self.entries_seq().len(),
        ensures
            r == self.entries_seq()[i as int],
    {
        self.entries[i]
    }

    /// Writes the binding `prefix -> peer`, overwriting an equal prefix.
    pub fn set(&mut self, k: Cidr, v: u128)
        requires
            old(self).wf(),
            k.wf(),
        ensures
            final(self).wf(),
            final(self).entries_seq() == assoc_set(old(self).entries_seq(), k, v),
    {
        let ghost s = self.entries@;
        let n = self.entries.len();
        let mut i: usize = 0;
        while i < n && !(self.entries[i].0 == k)
            invariant
                n == self.entries@.len(),
                self.entries@ == s,
                i <= n,
                forall|j: int| 0 <= j < i ==> s[j].0 != k,
            decreases n - i,
        {
            i += 1;
        }
        proof {
            lemma_assoc_set_shape(s, k, v, i as int);
        }
        if i < n {
            self.entries.remove(i);
            self.entries.insert(i, (k, v));
            proof {
                assert(self.entries@ =~= s.update(i as int, (k, v)));
            }
        } else {
            self.entries.push((k, v));
        }
    }

    /// The peer advertising the first stored prefix that contains `ip`.
    pub fn first_match(&self, ip: u32) -> (r: Option<u128>)
        requires
            self.wf(),
        ensures
            r == cidr_first_match(self.entries_seq(), ip),
    {
        let ghost s = self.entries@;
        let n = self.entries.len();
        let mut i: usize = 0;
        proof {
            assert(s.skip(0) =~= s);
        }
        while i < n
            invariant
                n == self.entries@.len(),
                self.entries@ == s,
                cidr_keys_wf(s),
                i <= n,
                cidr_first_match(s, ip) == cidr_first_match(s.skip(i as int), ip),
            decreases n - i,
        {
            proof {
                assert(s.skip(i as int).len() > 0);
                assert(s.skip(i as int)[0] == s[i as int]);
                assert(s.skip(i as int).drop_first() =~= s.skip(i as int + 1));
            }
            let e = &self.entries[i];
            if contains_ipv4(&e.0, ip) {
                return Some(e.1);
            }
            i += 1;
        }
        proof {
            assert(s.skip(n as int).len() == 0);
        }
        None
    }
}

} // verus!
