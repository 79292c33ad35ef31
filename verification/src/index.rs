//! The symbol index: fully qualified entity names mapped to their
//! declaration-kind strings. An outside extractor fills it before the
//! scan phase; rendering only reads it.

use crate::text::{chars_of, eq_chars};
use vstd::prelude::*;

verus! {

/// A lookup table from qualified names to kind strings. A later entry
/// for the same name shadows an earlier one.
pub struct SymbolIndex {
    entries: Vec<(String, String)>,
}

/// First-match lookup over the entry list.
pub open spec fn spec_lookup(es: Seq<(String, String)>, k: Seq<char>) -> Option<Seq<char>>
    decreases es.len(),
{
    if es.len() == 0 {
        None
    } else if es[0].0@ == k {
        Some(es[0].1@)
    } else {
        spec_lookup(es.drop_first(), k)
    }
}

impl View for SymbolIndex {
    type V = Seq<(String, String)>;

    closed spec fn view(&self) -> Seq<(String, String)> {
        self.entries@
    }
}

impl SymbolIndex {
    /// An empty index.
    pub fn new() -> (r: SymbolIndex)
        ensures
            r@.len() == 0,
            forall|k: Seq<char>| spec_lookup(r@, k) is None,
    {
        SymbolIndex { entries: Vec::new() }
    }

    /// Record a name with its kind; an earlier entry for the same name
    /// is shadowed.
    pub fn insert(&mut self, name: String, kind: String)
        ensures
            final(self)@.len() == old(self)@.len() + 1,
            forall|k: Seq<char>|
                spec_lookup(final(self)@, k) == if k == name@ {
                    Some(kind@)
                } else {
                    spec_lookup(old(self)@, k)
                },
    {
        let ghost name0 = name@;
        let ghost kind0 = kind@;
        let ghost es0 = self.entries@;
        self.entries.insert(0, (name, kind));
        proof {
            assert(self.entries@.drop_first() =~= es0);
            assert(self.entries@[0].0@ == name0);
            assert(self.entries@[0].1@ == kind0);
        }
    }

    /// The kind recorded for a name, if any.
    pub fn get(&self, name: &str) -> (r: Option<&String>)
        ensures
            match r {
                Some(v) => spec_lookup(self@, name@) == Some(v@),
                None => spec_lookup(self@, name@) is None,
            },
    {
        let target = chars_of(name);
        let mut i: usize = 0;
        proof {
            assert(self@.skip(0) =~= self@);
        }
        loop
            invariant
                i <= self@.len(),
                target@ == name@,
                self@ == self.entries@,
                spec_lookup(self@, name@) == spec_lookup(self@.skip(i as int), name@),
            decreases self@.len() - i,
        {
            let ghost rem = self@.skip(i as int);
            if i >= self.entries.len() {
                return None;
            }
            proof {
                assert(rem[0] == self@[i as int]);
                assert(rem.drop_first() =~= self@.skip(i + 1));
            }
            let key = chars_of(self.entries[i].0.as_str());
            if eq_chars(&key, &target) {
                return Some(&self.entries[i].1);
            }
            i = i + 1;
        }
    }

    /// How many entries the index holds.
    pub fn len(&self) -> (r: usize)
        ensures
            r == self@.len(),
    {
        self.entries.len()
    }
}

} // verus!
