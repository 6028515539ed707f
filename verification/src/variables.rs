//! The table of variable bindings an expression is evaluated against.

use vstd::prelude::*;
use crate::tokenizer::str_eq;

verus! {

/// The bindings seen as a mathematical map, a later binding for a name
/// shadowing an earlier one.
pub open spec fn entries_map(s: Seq<(String, u64)>) -> Map<Seq<char>, u64>
    decreases s.len(),
{
    if s.len() == 0 {
        Map::empty()
    } else {
        entries_map(s.drop_last()).insert(s.last().0@, s.last().1)
    }
}

/// A mapping from variable names to numeric values. The values are
/// IEEE-754 double-precision bit patterns, which this table carries as
/// opaque 64-bit words: the caller encodes a number when it binds a
/// variable and decodes the word it reads back.
pub struct VariableTable {
    entries: Vec<(String, u64)>,
}

impl View for VariableTable {
    type V = Map<Seq<char>, u64>;

    closed spec fn view(&self) -> Map<Seq<char>, u64> {
        entries_map(self.entries@)
    }
}

/// A key bound by no entry is absent from the map.
proof fn lemma_entries_map_absent(s: Seq<(String, u64)>, k: Seq<char>)
    requires
        forall|j: int| 0 <= j < s.len() ==> (#[trigger] s[j].0)@ != k,
    ensures
        !entries_map(s).contains_key(k),
    decreases s.len(),
{
    if s.len() > 0 {
        assert(s.last() == s[s.len() - 1]);
        lemma_entries_map_absent(s.drop_last(), k);
    }
}

/// The map reads back the value of the last entry bound for a key.
proof fn lemma_entries_map_found(s: Seq<(String, u64)>, k: Seq<char>, j: int)
    requires
        0 <= j < s.len(),
        (s[j].0)@ == k,
        forall|l: int| j < l < s.len() ==> (#[trigger] s[l].0)@ != k,
    ensures
        entries_map(s).contains_key(k),
        entries_map(s)[k] == s[j].1,
    decreases s.len(),
{
    if j == s.len() - 1 {
        assert(s.last() == s[j]);
    } else {
        assert(s.last() == s[s.len() - 1]);
        lemma_entries_map_found(s.drop_last(), k, j);
    }
}

impl VariableTable {
    /// An empty table.
    pub fn new() -> (r: VariableTable)
        ensures
            r@ == Map::<Seq<char>, u64>::empty(),
    {
        VariableTable { entries: Vec::new() }
    }

    /// Bind `name` to `value`, replacing any earlier binding of the same
    /// name.
    pub fn insert(&mut self, name: String, value: u64)
        ensures
            final(self)@ == old(self)@.insert(name@, value),
    {
        let ghost pre = self.entries@;
        let ghost key = name@;
        self.entries.push((name, value));
        proof {
            assert(self.entries@.drop_last() =~= pre);
            assert(self.entries@.last() == (self.entries@.last().0, value));
            assert(entries_map(self.entries@) == entries_map(pre).insert(key, value));
        }
    }

    /// The value bound to `name`, if any.
    pub fn get(&self, name: &str) -> (r: Option<u64>)
        ensures
            ({
                if self@.contains_key(name@) {
                    r == Some(self@[name@])
                } else {
                    r is None
                }
            }),
    {
        let len = self.entries.len();
        let mut i: usize = len;
        while i > 0
            invariant
                i <= len,
                len == self.entries@.len(),
                forall|l: int| i <= l < len ==> (#[trigger] self.entries@[l].0)@ != name@,
            decreases i,
        {
            let entry = &self.entries[i - 1];
            if str_eq(entry.0.as_str(), name) {
                proof {
                    lemma_entries_map_found(self.entries@, name@, i - 1);
                }
                return Some(entry.1);
            }
            i = i - 1;
        }
        proof {
            lemma_entries_map_absent(self.entries@, name@);
        }
        None
    }
}

} // verus!
