//! The codec between a table and a structured-serialization framework: the
//! encode path emits a size-hinted, ordered sequence of key/value entries,
//! and the decode path rebuilds a table from such a sequence, or from a
//! unit marker standing for an empty table.

use vstd::prelude::*;

use core::marker::PhantomData;
use crate::network::Network;
use crate::network::network_text;
use crate::network::parse_network;
use crate::network::parsed_network;
use crate::table::IpNetworkTable;
use crate::table::count_family;
use crate::table::distinct_keys;
use crate::table::has_key;
use crate::table::insert_model;
use crate::table::lemma_insert_model_distinct;
use crate::table::lemma_insert_model_other_key;
use crate::table::lemma_insert_model_same_key;
use crate::table::value_of;

verus! {

/// The two input shapes a framework may hand the decoder: a unit marker,
/// standing for an empty table, or the entries of a map in wire order, each
/// a CIDR key text with its value.
pub enum DecodeInput<V> {
    Unit,
    Entries(Vec<(String, V)>),
}

/// Why a decode failed: the key text at the given position is not a valid
/// CIDR network. A malformed value or a malformed outer shape never reaches
/// the decoder; the host framework reports those itself.
#[derive(Clone, Copy, Debug, PartialEq, Eq, Structural)]
pub enum DecodeError {
    InvalidKey(usize),
}

/// The entries with each key text taken as a character sequence.
pub open spec fn entry_views<V>(s: Seq<(String, V)>) -> Seq<(Seq<char>, V)> {
    s.map_values(|e: (String, V)| (e.0@, e.1))
}

/// Every key text among `entries` denotes a network.
pub open spec fn entry_keys_ok<V>(entries: Seq<(Seq<char>, V)>) -> bool {
    forall|i: int| 0 <= i < entries.len() ==> parsed_network((#[trigger] entries[i]).0) is Some
}

/// What decoding an entry sequence yields: the entries are consumed in
/// order, each parsed key inserted with its value (a later entry under the
/// same key silently overwrites an earlier one); one unparsable key fails
/// the whole decode.
pub open spec fn decode_model<V>(entries: Seq<(Seq<char>, V)>) -> Option<Seq<(Network, V)>>
    decreases entries.len(),
{
    if entries.len() == 0 {
        Some(Seq::<(Network, V)>::empty())
    } else {
        match decode_model(entries.drop_last()) {
            Option::None => Option::None,
            Option::Some(s) => match parsed_network(entries.last().0) {
                Option::None => Option::None,
                Option::Some(k) => Some(insert_model(s, k, entries.last().1)),
            },
        }
    }
}

/// A decoded entry sequence has distinct keys.
pub proof fn lemma_decode_distinct_keys<V>(entries: Seq<(Seq<char>, V)>, s: Seq<(Network, V)>)
    requires
        decode_model(entries) == Some(s),
    ensures
        distinct_keys(s),
    decreases entries.len(),
{
    if entries.len() == 0 {
        assert(s =~= Seq::<(Network, V)>::empty());
    } else {
        match decode_model(entries.drop_last()) {
            Option::None => {
                assert(false);
            },
            Option::Some(s1) => {
                lemma_decode_distinct_keys(entries.drop_last(), s1);
                match parsed_network(entries.last().0) {
                    Option::None => {
                        assert(false);
                    },
                    Option::Some(k) => {
                        lemma_insert_model_distinct(s1, k, entries.last().1);
                    },
                }
            },
        }
    }
}

/// The round trip: decoding any entry sequence whose keys parse back, in
/// order, to the networks of a table with distinct keys, carrying that
/// table's values, rebuilds exactly that table's entries.
pub proof fn lemma_decode_rebuilds_table<V>(entries: Seq<(Seq<char>, V)>, s: Seq<(Network, V)>)
    requires
        distinct_keys(s),
        entries.len() == s.len(),
        forall|i: int| 0 <= i < s.len() ==> parsed_network((#[trigger] entries[i]).0) == Some(
            s[i].0,
        ),
        forall|i: int| 0 <= i < s.len() ==> (#[trigger] entries[i]).1 == s[i].1,
    ensures
        decode_model(entries) == Some(s),
    decreases entries.len(),
{
    if entries.len() == 0 {
        assert(s =~= Seq::<(Network, V)>::empty());
    } else {
        let e1 = entries.drop_last();
        let s1 = s.drop_last();
        let n = entries.len() - 1;
        assert forall|a: int, b: int| 0 <= a < b < s1.len() implies (#[trigger] s1[a]).0 != (
        #[trigger] s1[b]).0 by {
            assert(s[a].0 != s[b].0);
        }
        assert forall|i: int| 0 <= i < s1.len() implies parsed_network((#[trigger] e1[i]).0)
            == Some(s1[i].0) by {
            assert(entries[i] == e1[i]);
            assert(s[i] == s1[i]);
        }
        assert forall|i: int| 0 <= i < s1.len() implies (#[trigger] e1[i]).1 == s1[i].1 by {
            assert(entries[i] == e1[i]);
            assert(s[i] == s1[i]);
        }
        lemma_decode_rebuilds_table(e1, s1);
        let k = s[n].0;
        assert(parsed_network(entries.last().0) == Some(k));
        assert(!has_key(s1, k)) by {
            if has_key(s1, k) {
                let w = crate::table::index_of_key(s1, k);
                assert(0 <= w < s1.len() && s1[w].0 == k);
                assert(s[w].0 != s[n].0);
            }
        }
        assert(insert_model(s1, k, entries.last().1) =~= s);
    }
}

/// Decoding lets the last entry under a key win: when a decode succeeds and
/// no later entry's key parses to the same network as entry `i`'s key, the
/// rebuilt table holds entry `i`'s value under that network.
pub proof fn lemma_decode_last_entry_wins<V>(
    entries: Seq<(Seq<char>, V)>,
    s: Seq<(Network, V)>,
    i: int,
    k: Network,
)
    requires
        decode_model(entries) == Some(s),
        0 <= i < entries.len(),
        parsed_network(entries[i].0) == Some(k),
        forall|j: int| i < j < entries.len() ==> parsed_network((#[trigger] entries[j]).0)
            != Some(k),
    ensures
        has_key(s, k),
        value_of(s, k) == entries[i].1,
    decreases entries.len(),
{
    let e1 = entries.drop_last();
    let n = entries.len() - 1;
    match decode_model(e1) {
        Option::None => {
            assert(false);
        },
        Option::Some(s1) => {
            match parsed_network(entries.last().0) {
                Option::None => {
                    assert(false);
                },
                Option::Some(kl) => {
                    lemma_decode_distinct_keys(e1, s1);
                    assert(s == insert_model(s1, kl, entries.last().1));
                    if i == n {
                        assert(kl == k);
                        lemma_insert_model_same_key(s1, kl, entries.last().1);
                    } else {
                        assert(kl != k) by {
                            assert(parsed_network(entries[n].0) != Some(k));
                        }
                        assert forall|j: int| i < j < e1.len() implies parsed_network((
                        #[trigger] e1[j]).0) != Some(k) by {
                            assert(e1[j] == entries[j]);
                        }
                        assert(e1[i] == entries[i]);
                        lemma_decode_last_entry_wins(e1, s1, i, k);
                        lemma_insert_model_other_key(s1, kl, entries.last().1, k);
                    }
                },
            }
        },
    }
}

/// The visitor that stands for the decoder: the framework's driver hands it
/// the detected input shape, a unit marker or the map's entries.
pub struct IpNetworkTableVisitor<V> {
    marker: PhantomData<IpNetworkTable<V>>,
}

impl<V> IpNetworkTableVisitor<V> {
    /// Creates the visitor.
    pub fn new() -> (r: Self) {
        IpNetworkTableVisitor { marker: PhantomData }
    }

    /// A unit (or null) input stands for an empty table.
    pub fn visit_unit(self) -> (r: IpNetworkTable<V>)
        ensures
            r@ == Seq::<(Network, V)>::empty(),
            r.wf(),
    {
        IpNetworkTable::new()
    }

    /// Rebuilds a table from the entries of a map, in wire order: each key
    /// text is parsed as a network and inserted with its value, a later entry
    /// under the same exact network silently overwriting an earlier one. The
    /// first key text that is not a valid CIDR network fails the whole
    /// decode, and no table is returned.
    pub fn visit_map(self, entries: Vec<(String, V)>) -> (r: Result<
        IpNetworkTable<V>,
        DecodeError,
    >)
        ensures
            (r is Ok <==> entry_keys_ok(entry_views(entries@))),
            r matches Ok(t) ==> Some(t@) == decode_model(entry_views(entries@)) && t.wf(),
            r matches Err(DecodeError::InvalidKey(ix)) ==> ix < entries@.len()
                && parsed_network(entries@[ix as int].0@) is None && (forall|j: int|
                0 <= j < ix ==> parsed_network((#[trigger] entries@[j]).0@) is Some),
    {
        let ghost orig: Seq<(String, V)> = entries@;
        let mut rest = entries;
        let total: usize = rest.len();
        proof {
            assert(orig.len() == total);
        }
        let mut table = IpNetworkTable::<V>::new();
        let mut idx: usize = 0;
        proof {
            assert(entry_views(orig.take(0)) =~= Seq::<(Seq<char>, V)>::empty());
            assert(rest@ == orig.subrange(0, orig.len() as int)) by {
                assert(orig.subrange(0, orig.len() as int) =~= orig);
            }
        }
        while rest.len() > 0
            invariant
                orig == entries@,
                orig.len() <= usize::MAX,
                idx + rest@.len() == orig.len(),
                rest@ == orig.subrange(idx as int, orig.len() as int),
                table.wf(),
                decode_model(entry_views(orig.take(idx as int))) == Some(table@),
                forall|j: int| 0 <= j < idx ==> parsed_network((#[trigger] orig[j]).0@) is Some,
            decreases rest@.len(),
        {
            let ghost rest0: Seq<(String, V)> = rest@;
            let (key, value) = rest.remove(0);
            proof {
                assert(rest0[0] == orig[idx as int]);
                assert(key == orig[idx as int].0);
                assert(value == orig[idx as int].1);
                assert(rest@ =~= orig.subrange(idx + 1, orig.len() as int));
            }
            match parse_network(key.as_str()) {
                Some(net) => {
                    table.insert(net, value);
                    proof {
                        assert(entry_views(orig.take(idx + 1)).drop_last() =~= entry_views(
                            orig.take(idx as int),
                        ));
                        assert(entry_views(orig.take(idx + 1)).last() == (
                            orig[idx as int].0@,
                            orig[idx as int].1,
                        ));
                        assert(parsed_network(orig[idx as int].0@) == Some(net));
                        assert(decode_model(entry_views(orig.take(idx + 1))) == Some(table@));
                    }
                    idx = idx + 1;
                },
                None => {
                    proof {
                        assert(parsed_network(orig[idx as int].0@) is None);
                        assert(entry_views(orig)[idx as int].0 == orig[idx as int].0@);
                        assert(!entry_keys_ok(entry_views(orig)));
                    }
                    return Err(DecodeError::InvalidKey(idx));
                },
            }
        }
        proof {
            assert(orig.take(orig.len() as int) =~= orig);
            assert(decode_model(entry_views(orig)) == Some(table@));
            assert forall|i: int| 0 <= i < entry_views(orig).len() implies parsed_network((
            #[trigger] entry_views(orig)[i]).0) is Some by {
                assert(entry_views(orig)[i].0 == orig[i].0@);
                assert(parsed_network(orig[i].0@) is Some);
            }
        }
        Ok(table)
    }
}

impl<V> IpNetworkTable<V> {
    /// The encode path: what the table hands a map serializer. The first
    /// component is the size hint, the sum of the IPv4 and IPv6 entry counts;
    /// the second holds the key of every entry as its canonical CIDR text, in
    /// the table's own iteration order, one per entry. The value of entry `i`
    /// stands at `value_at(i)`.
    pub fn serialize(&self) -> (r: (usize, Vec<String>))
        requires
            self.wf(),
        ensures
            r.0 == count_family(self@, false) + count_family(self@, true),
            r.0 == self@.len(),
            r.1@.len() == self@.len(),
            forall|i: int| 0 <= i < self@.len() ==> (#[trigger] r.1@[i])@ == network_text(
                self@[i].0,
            ),
            forall|i: int| 0 <= i < self@.len() ==> parsed_network((#[trigger] r.1@[i])@) == Some(
                self@[i].0,
            ),
    {
        let n: usize = self.num_entries();
        let (v4, v6) = self.len();
        let hint: usize = v4 + v6;
        let mut keys: Vec<String> = Vec::new();
        let mut i: usize = 0;
        while i < n
            invariant
                self.wf(),
                n == self@.len(),
                i <= n,
                keys@.len() == i,
                forall|j: int| 0 <= j < i ==> (#[trigger] keys@[j])@ == network_text(self@[j].0),
                forall|j: int| 0 <= j < i ==> parsed_network((#[trigger] keys@[j])@) == Some(
                    self@[j].0,
                ),
            decreases n - i,
        {
            let k = self.key_at(i);
            keys.push(k);
            i = i + 1;
        }
        (hint, keys)
    }

    /// The decode path: a unit input yields an empty table; a map input is
    /// rebuilt entry by entry as `IpNetworkTableVisitor::visit_map` states,
    /// and fails if and only if some key text is not a valid CIDR network.
    pub fn deserialize(input: DecodeInput<V>) -> (r: Result<IpNetworkTable<V>, DecodeError>)
        ensures
            input is Unit ==> (r matches Ok(t) && t@ == Seq::<(Network, V)>::empty() && t.wf()),
            input matches DecodeInput::Entries(entries) ==> {
                &&& (r is Ok <==> entry_keys_ok(entry_views(entries@)))
                &&& (r matches Ok(t) ==> Some(t@) == decode_model(entry_views(entries@))
                    && t.wf())
                &&& (r matches Err(DecodeError::InvalidKey(ix)) ==> ix < entries@.len()
                    && parsed_network(entries@[ix as int].0@) is None && (forall|j: int|
                    0 <= j < ix ==> parsed_network((#[trigger] entries@[j]).0@) is Some))
            },
    {
        match input {
            DecodeInput::Unit => Ok(IpNetworkTableVisitor::<V>::new().visit_unit()),
            DecodeInput::Entries(entries) => IpNetworkTableVisitor::<V>::new().visit_map(entries),
        }
    }

    /// The whole round trip: encoding a table's entries and decoding them
    /// again rebuilds exactly the same table, entry for entry.
    pub fn encode_then_decode(table: IpNetworkTable<V>) -> (r: IpNetworkTable<V>)
        requires
            table.wf(),
        ensures
            r@ == table@,
            r.wf(),
    {
        let ghost t: Seq<(Network, V)> = table@;
        let (_size_hint, keys) = table.serialize();
        let ghost key_texts: Seq<String> = keys@;
        let mut keys = keys;
        let mut values = table.into_entries();
        let mut entries: Vec<(String, V)> = Vec::new();
        proof {
            assert(keys@ == key_texts.subrange(0, t.len() as int)) by {
                assert(key_texts.subrange(0, t.len() as int) =~= key_texts);
            }
            assert(values@ == t.subrange(0, t.len() as int)) by {
                assert(t.subrange(0, t.len() as int) =~= t);
            }
        }
        while values.len() > 0
            invariant
                key_texts.len() == t.len(),
                entries@.len() + values@.len() == t.len(),
                keys@.len() == values@.len(),
                keys@ == key_texts.subrange(entries@.len() as int, t.len() as int),
                values@ == t.subrange(entries@.len() as int, t.len() as int),
                forall|j: int| 0 <= j < entries@.len() ==> (#[trigger] entries@[j]).0
                    == key_texts[j] && entries@[j].1 == t[j].1,
            decreases values@.len(),
        {
            let ghost done: int = entries@.len() as int;
            proof {
                assert(key_texts.subrange(done, t.len() as int)[0] == key_texts[done]);
                assert(t.subrange(done, t.len() as int)[0] == t[done]);
            }
            let kstr = keys.remove(0);
            let pair = values.remove(0);
            proof {
                assert(kstr == key_texts[done]);
                assert(pair == t[done]);
                assert(keys@ =~= key_texts.subrange(done + 1, t.len() as int));
                assert(values@ =~= t.subrange(done + 1, t.len() as int));
            }
            entries.push((kstr, pair.1));
        }
        proof {
            assert(entries@.len() == t.len());
            let evs = entry_views(entries@);
            assert forall|i: int| 0 <= i < t.len() implies parsed_network((#[trigger] evs[i]).0)
                == Some(t[i].0) && evs[i].1 == t[i].1 by {
                assert(evs[i].0 == entries@[i].0@);
                assert(entries@[i].0 == key_texts[i]);
                assert(parsed_network(key_texts[i]@) == Some(t[i].0));
            }
            lemma_decode_rebuilds_table(evs, t);
            assert(entry_keys_ok(evs));
        }
        match IpNetworkTable::<V>::deserialize(DecodeInput::Entries(entries)) {
            Ok(rebuilt) => rebuilt,
            Err(_) => vstd::pervasive::unreached(),
        }
    }
}

} // verus!

