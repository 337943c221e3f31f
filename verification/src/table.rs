//! The table: a map from IP network prefixes to values, at most one value
//! per distinct prefix, IPv4 and IPv6 entries side by side.

use vstd::prelude::*;

use crate::network::Network;
use crate::network::format_network;
use crate::network::network_text;
use crate::network::parsed_network;

verus! {

/// True when some entry of `s` has the key `k`.
pub open spec fn has_key<V>(s: Seq<(Network, V)>, k: Network) -> bool {
    exists|i: int| 0 <= i < s.len() && (#[trigger] s[i]).0 == k
}

/// The index of the entry of `s` with the key `k`; meaningful when the keys
/// of `s` are distinct and one of them is `k`.
pub open spec fn index_of_key<V>(s: Seq<(Network, V)>, k: Network) -> int {
    choose|i: int| 0 <= i < s.len() && (#[trigger] s[i]).0 == k
}

/// The value that `s` holds under the key `k`; meaningful when the keys of
/// `s` are distinct and one of them is `k`.
pub open spec fn value_of<V>(s: Seq<(Network, V)>, k: Network) -> V {
    s[index_of_key(s, k)].1
}

/// No two entries of `s` share a key.
pub open spec fn distinct_keys<V>(s: Seq<(Network, V)>) -> bool {
    forall|i: int, j: int|
        0 <= i < j < s.len() ==> (#[trigger] s[i]).0 != (#[trigger] s[j]).0
}

/// Every key of `s` is a well-formed network.
pub open spec fn keys_wf<V>(s: Seq<(Network, V)>) -> bool {
    forall|i: int| 0 <= i < s.len() ==> (#[trigger] s[i]).0.wf()
}

/// What one insertion does to the entry sequence: an entry under the same key
/// is overwritten in place, a new key is appended.
pub open spec fn insert_model<V>(s: Seq<(Network, V)>, k: Network, v: V) -> Seq<(Network, V)> {
    if has_key(s, k) {
        s.update(index_of_key(s, k), (k, v))
    } else {
        s.push((k, v))
    }
}

/// How many entries of `s` belong to the given family.
pub open spec fn count_family<V>(s: Seq<(Network, V)>, is_v6: bool) -> nat
    decreases s.len(),
{
    if s.len() == 0 {
        0
    } else {
        count_family(s.drop_last(), is_v6) + (if s.last().0.is_v6 == is_v6 {
            1nat
        } else {
            0nat
        })
    }
}

/// One insertion keeps the keys distinct.
pub proof fn lemma_insert_model_distinct<V>(s: Seq<(Network, V)>, k: Network, v: V)
    requires
        distinct_keys(s),
    ensures
        distinct_keys(insert_model(s, k, v)),
{
    let res = insert_model(s, k, v);
    if has_key(s, k) {
        let w = index_of_key(s, k);
        assert(0 <= w < s.len() && s[w].0 == k);
        assert forall|a: int, b: int| 0 <= a < b < res.len() implies (#[trigger] res[a]).0 != (
        #[trigger] res[b]).0 by {
            assert(res[a].0 == s[a].0);
            assert(res[b].0 == s[b].0);
            assert(s[a].0 != s[b].0);
        }
    } else {
        assert forall|j: int| 0 <= j < s.len() implies (#[trigger] s[j]).0 != k by {
            if s[j].0 == k {
                assert(has_key(s, k));
            }
        }
        assert forall|a: int, b: int| 0 <= a < b < res.len() implies (#[trigger] res[a]).0 != (
        #[trigger] res[b]).0 by {
            if b < s.len() {
                assert(s[a].0 != s[b].0);
            } else {
                assert(res[b].0 == k);
                assert(s[a].0 != k);
            }
        }
    }
}

/// After inserting `v` under `k`, the entries hold exactly `v` under `k`.
pub proof fn lemma_insert_model_same_key<V>(s: Seq<(Network, V)>, k: Network, v: V)
    requires
        distinct_keys(s),
    ensures
        has_key(insert_model(s, k, v), k),
        value_of(insert_model(s, k, v), k) == v,
{
    let res = insert_model(s, k, v);
    lemma_insert_model_distinct(s, k, v);
    let w: int = if has_key(s, k) {
        index_of_key(s, k)
    } else {
        s.len() as int
    };
    if has_key(s, k) {
        assert(0 <= w < s.len() && s[w].0 == k);
    }
    assert(res[w] == (k, v));
    assert(has_key(res, k));
    let j = index_of_key(res, k);
    assert(0 <= j < res.len() && res[j].0 == k);
    assert(j == w) by {
        if j < w {
            assert(res[j].0 != res[w].0);
        }
        if w < j {
            assert(res[w].0 != res[j].0);
        }
    }
    assert(value_of(res, k) == v);
}

/// An insertion under `k` neither adds, removes nor changes an entry under a
/// different key.
pub proof fn lemma_insert_model_other_key<V>(s: Seq<(Network, V)>, k: Network, v: V, other: Network)
    requires
        distinct_keys(s),
        other != k,
    ensures
        has_key(insert_model(s, k, v), other) <==> has_key(s, other),
        has_key(s, other) ==> value_of(insert_model(s, k, v), other) == value_of(s, other),
{
    let res = insert_model(s, k, v);
    lemma_insert_model_distinct(s, k, v);
    if has_key(s, k) {
        let w = index_of_key(s, k);
        assert(0 <= w < s.len() && s[w].0 == k);
        if has_key(s, other) {
            let a = index_of_key(s, other);
            assert(0 <= a < s.len() && s[a].0 == other);
            assert(res[a].0 == other);
            assert(has_key(res, other));
            let b = index_of_key(res, other);
            assert(0 <= b < res.len() && res[b].0 == other);
            assert(a == b) by {
                if a < b {
                    assert(res[a].0 != res[b].0);
                }
                if b < a {
                    assert(res[b].0 != res[a].0);
                }
            }
            assert(b != w);
            assert(value_of(res, other) == value_of(s, other));
        }
        if has_key(res, other) {
            let b = index_of_key(res, other);
            assert(0 <= b < res.len() && res[b].0 == other);
            assert(b != w);
            assert(s[b].0 == other);
            assert(has_key(s, other));
        }
    } else {
        if has_key(s, other) {
            let a = index_of_key(s, other);
            assert(0 <= a < s.len() && s[a].0 == other);
            assert(res[a].0 == other);
            assert(has_key(res, other));
            let b = index_of_key(res, other);
            assert(0 <= b < res.len() && res[b].0 == other);
            assert(b != s.len() as int);
            assert(a == b) by {
                if a < b {
                    assert(res[a].0 != res[b].0);
                }
                if b < a {
                    assert(res[b].0 != res[a].0);
                }
            }
            assert(value_of(res, other) == value_of(s, other));
        }
        if has_key(res, other) {
            let b = index_of_key(res, other);
            assert(0 <= b < res.len() && res[b].0 == other);
            if b == s.len() as int {
                assert(res[b].0 == k);
            } else {
                assert(s[b].0 == other);
                assert(has_key(s, other));
            }
        }
    }
}

/// A table mapping IP network prefixes to values. Entries are kept in
/// insertion order; the view is the sequence of (network, value) pairs in
/// that order.
pub struct IpNetworkTable<V> {
    entries: Vec<(Network, V)>,
}

impl<V> View for IpNetworkTable<V> {
    type V = Seq<(Network, V)>;

    closed spec fn view(&self) -> Seq<(Network, V)> {
        self.entries@
    }
}

impl<V> IpNetworkTable<V> {
    /// The table's invariant: keys are distinct, well-formed networks.
    pub open spec fn wf(self) -> bool {
        distinct_keys(self@) && keys_wf(self@)
    }

    /// Creates an empty table.
    pub fn new() -> (r: Self)
        ensures
            r@ == Seq::<(Network, V)>::empty(),
            r.wf(),
    {
        let r = IpNetworkTable { entries: Vec::new() };
        proof {
            assert(r@ =~= Seq::<(Network, V)>::empty());
        }
        r
    }

    /// Inserts `value` under `network`. When the exact prefix is already
    /// present its value is replaced in place and the previous value is
    /// returned; otherwise the entry is appended and `None` is returned.
    pub fn insert(&mut self, network: Network, value: V) -> (r: Option<V>)
        requires
            old(self).wf(),
            network.wf(),
        ensures
            final(self)@ == insert_model(old(self)@, network, value),
            final(self).wf(),
            r == (if has_key(old(self)@, network) {
                Some(value_of(old(self)@, network))
            } else {
                Option::<V>::None
            }),
    {
        let ghost s0: Seq<(Network, V)> = self@;
        let mut i: usize = 0;
        while i < self.entries.len()
            invariant
                self@ == s0,
                old(self)@ == s0,
                i <= s0.len(),
                distinct_keys(s0),
                keys_wf(s0),
                network.wf(),
                forall|j: int| 0 <= j < i ==> (#[trigger] s0[j]).0 != network,
            decreases s0.len() - i,
        {
            let found = self.entries[i].0 == network;
            if found {
                let previous = self.entries.remove(i);
                self.entries.insert(i, (network, value));
                proof {
                    assert(s0[i as int].0 == network);
                    assert(has_key(s0, network));
                    let w = index_of_key(s0, network);
                    assert(0 <= w < s0.len() && s0[w].0 == network);
                    assert(w == i) by {
                        if w < i as int {
                            assert(s0[w].0 != network);
                        }
                        if (i as int) < w {
                            assert(s0[i as int].0 != s0[w].0);
                        }
                    }
                    assert(self@ =~= insert_model(s0, network, value));
                    assert forall|a: int, b: int| 0 <= a < b < self@.len() implies (
                    #[trigger] self@[a]).0 != (#[trigger] self@[b]).0 by {
                        assert(self@[a].0 == s0[a].0);
                        assert(self@[b].0 == s0[b].0);
                        assert(s0[a].0 != s0[b].0);
                    }
                    assert forall|j: int| 0 <= j < self@.len() implies (
                    #[trigger] self@[j]).0.wf() by {
                        assert(self@[j].0 == s0[j].0);
                        assert(s0[j].0.wf());
                    }
                }
                return Some(previous.1);
            }
            i = i + 1;
        }
        self.entries.push((network, value));
        proof {
            assert(!has_key(s0, network)) by {
                if has_key(s0, network) {
                    let w = index_of_key(s0, network);
                    assert(0 <= w < s0.len() && s0[w].0 == network);
                    assert(s0[w].0 != network);
                }
            }
            assert(self@ =~= insert_model(s0, network, value));
            assert forall|a: int, b: int| 0 <= a < b < self@.len() implies (
            #[trigger] self@[a]).0 != (#[trigger] self@[b]).0 by {
                if b < s0.len() {
                    assert(s0[a].0 != s0[b].0);
                } else {
                    assert(self@[b].0 == network);
                    assert(s0[a].0 != network);
                }
            }
            assert forall|j: int| 0 <= j < self@.len() implies (#[trigger] self@[j]).0.wf() by {
                if j < s0.len() {
                    assert(s0[j].0.wf());
                }
            }
        }
        None
    }

    /// How many entries the table holds, per address family: first the IPv4
    /// count, then the IPv6 count. Their sum is the total number of entries.
    pub fn len(&self) -> (r: (usize, usize))
        ensures
            r.0 == count_family(self@, false),
            r.1 == count_family(self@, true),
            r.0 + r.1 == self@.len(),
    {
        let ghost s: Seq<(Network, V)> = self@;
        let mut v4: usize = 0;
        let mut v6: usize = 0;
        let mut i: usize = 0;
        while i < self.entries.len()
            invariant
                self@ == s,
                i <= s.len(),
                v4 == count_family(s.take(i as int), false),
                v6 == count_family(s.take(i as int), true),
                v4 + v6 == i,
            decreases s.len() - i,
        {
            proof {
                assert(s.take(i + 1).drop_last() =~= s.take(i as int));
                assert(s.take(i + 1).last() == s[i as int]);
            }
            if self.entries[i].0.is_v6 {
                v6 = v6 + 1;
            } else {
                v4 = v4 + 1;
            }
            i = i + 1;
        }
        proof {
            assert(s.take(s.len() as int) =~= s);
        }
        (v4, v6)
    }

    /// The total number of entries.
    pub fn num_entries(&self) -> (r: usize)
        ensures
            r == self@.len(),
    {
        self.entries.len()
    }

    /// Looks up the value stored under the exact prefix `network`: its value
    /// when the table holds that exact prefix, `None` otherwise.
    pub fn exact_match(&self, network: &Network) -> (r: Option<&V>)
        requires
            self.wf(),
        ensures
            r matches Some(v) ==> has_key(self@, *network) && *v == value_of(self@, *network),
            r is None <==> !has_key(self@, *network),
    {
        let ghost s: Seq<(Network, V)> = self@;
        let mut i: usize = 0;
        while i < self.entries.len()
            invariant
                self@ == s,
                i <= s.len(),
                distinct_keys(s),
                keys_wf(s),
                forall|j: int| 0 <= j < i ==> (#[trigger] s[j]).0 != *network,
            decreases s.len() - i,
        {
            let e = &self.entries[i];
            if e.0 == *network {
                proof {
                    assert(s[i as int].0 == *network);
                    assert(has_key(s, *network));
                    let w = index_of_key(s, *network);
                    assert(0 <= w < s.len() && s[w].0 == *network);
                    assert(w == i) by {
                        if w < i as int {
                            assert(s[w].0 != *network);
                        }
                        if (i as int) < w {
                            assert(s[i as int].0 != s[w].0);
                        }
                    }
                }
                return Some(&e.1);
            }
            i = i + 1;
        }
        proof {
            assert(!has_key(s, *network)) by {
                if has_key(s, *network) {
                    let w = index_of_key(s, *network);
                    assert(0 <= w < s.len() && s[w].0 == *network);
                    assert(s[w].0 != *network);
                }
            }
        }
        None
    }

    /// The key of the entry at position `i`, as its canonical CIDR text.
    pub fn key_at(&self, i: usize) -> (r: String)
        requires
            self.wf(),
            i < self@.len(),
        ensures
            r@ == network_text(self@[i as int].0),
            parsed_network(r@) == Some(self@[i as int].0),
    {
        proof {
            assert(self@[i as int].0.wf());
        }
        format_network(&self.entries[i].0)
    }

    /// The value of the entry at position `i`.
    pub fn value_at(&self, i: usize) -> (r: &V)
        requires
            i < self@.len(),
        ensures
            *r == self@[i as int].1,
    {
        &self.entries[i].1
    }

    /// Hands the entries out, consuming the table, in the table's own order.
    pub fn into_entries(self) -> (r: Vec<(Network, V)>)
        ensures
            r@ == self@,
    {
        let IpNetworkTable { entries } = self;
        entries
    }
}

} // verus!
