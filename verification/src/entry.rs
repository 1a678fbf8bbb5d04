//! One record of an archive: the hash of some content, the names under which
//! that content was added, and the tags given to it.

use crate::sorted::{
    ascending, lemma_ascending, lemma_ascending_of_ascending, sort_dedup, strictly_ascending,
};
use crate::views::views;
use vstd::prelude::*;
use vstd::seq_lib::seq_to_set_is_finite;
use vstd::std_specs::cmp::{PartialEqSpec, PartialEqSpecImpl};

verus! {

/// What an [`Entry`] holds, as plain values.
pub struct EntryView {
    pub hash: Seq<char>,
    pub names: Seq<Seq<char>>,
    pub tags: Seq<Seq<char>>,
}

impl EntryView {
    /// This record after it has taken up the names and tags of `other`: the
    /// names of both in ascending order, each once, and so the tags. The hash
    /// stays.
    pub open spec fn combine(self, other: EntryView) -> EntryView {
        EntryView {
            hash: self.hash,
            names: ascending(self.names.to_set().union(other.names.to_set())),
            tags: ascending(self.tags.to_set().union(other.tags.to_set())),
        }
    }

    /// The names are in ascending order, each once, and so are the tags.
    pub open spec fn normal(self) -> bool {
        strictly_ascending(self.names) && strictly_ascending(self.tags)
    }

    /// This record with its names in ascending order, each once, and so its
    /// tags.
    pub open spec fn normalized(self) -> EntryView {
        EntryView {
            hash: self.hash,
            names: ascending(self.names.to_set()),
            tags: ascending(self.tags.to_set()),
        }
    }

    /// This record after another has taken up its names and tags: the hash
    /// alone is left.
    pub open spec fn drained(self) -> EntryView {
        EntryView { hash: self.hash, names: Seq::empty(), tags: Seq::empty() }
    }
}

/// A record of an archive. Its hash is what it is known by: two entries with
/// the same hash are equal, whatever their names and tags.
#[derive(Debug)]
pub struct Entry {
    pub hash: String,
    pub names: Vec<String>,
    pub tags: Vec<String>,
}

impl View for Entry {
    type V = EntryView;

    open spec fn view(&self) -> EntryView {
        EntryView { hash: self.hash@, names: views(self.names@), tags: views(self.tags@) }
    }
}

impl Entry {
    /// Moves the names and tags of `other` into `self`, then sorts both lists
    /// and leaves each string once. Neither hash is read or changed; `other`
    /// is left with empty lists.
    pub fn combine(&mut self, other: &mut Self)
        ensures
            final(self)@ == old(self)@.combine(old(other)@),
            final(other)@ == old(other)@.drained(),
    {
        proof {
            lemma_views_concat(self.names@, other.names@);
            lemma_views_concat(self.tags@, other.tags@);
        }
        self.names.append(&mut other.names);
        sort_dedup(&mut self.names);
        self.tags.append(&mut other.tags);
        sort_dedup(&mut self.tags);
        proof {
            assert(views(other.names@) =~= Seq::empty());
            assert(views(other.tags@) =~= Seq::empty());
        }
    }

    /// Sorts the names and the tags and leaves each string once.
    pub fn normalize(&mut self)
        ensures
            final(self)@ == old(self)@.normalized(),
    {
        sort_dedup(&mut self.names);
        sort_dedup(&mut self.tags);
    }
}

impl PartialEq for Entry {
    fn eq(&self, other: &Self) -> (same: bool) {
        self.hash == other.hash
    }
}

impl PartialEqSpecImpl for Entry {
    open spec fn obeys_eq_spec() -> bool {
        true
    }

    open spec fn eq_spec(&self, other: &Self) -> bool {
        self.hash@ == other.hash@
    }
}

/// The strings of two lists put together are the strings of the one and
/// those of the other.
proof fn lemma_views_concat(a: Seq<String>, b: Seq<String>)
    ensures
        views(a + b) == views(a) + views(b),
        views(a + b).to_set() == views(a).to_set().union(views(b).to_set()),
{
    assert(views(a + b) =~= views(a) + views(b));
    let s = views(a) + views(b);
    assert(s.to_set() =~= views(a).to_set().union(views(b).to_set())) by {
        assert forall|x: Seq<char>| s.to_set().contains(x) == (views(a).to_set().contains(x)
            || views(b).to_set().contains(x)) by {
            if s.contains(x) {
                let p = choose|p: int| 0 <= p < s.len() && s[p] == x;
                if p < a.len() {
                    assert(views(a)[p] == x);
                } else {
                    assert(views(b)[p - a.len()] == x);
                }
            }
            if views(a).contains(x) {
                let p = choose|p: int| 0 <= p < a.len() && views(a)[p] == x;
                assert(s[p] == x);
            }
            if views(b).contains(x) {
                let p = choose|p: int| 0 <= p < b.len() && views(b)[p] == x;
                assert(s[p + a.len()] == x);
            }
        }
    }
}

/// Entries are equal exactly when their hashes are, whatever their names and
/// tags.
pub proof fn lemma_equal_by_hash(a: Entry, b: Entry)
    ensures
        PartialEqSpec::eq_spec(&a, &b) <==> a@.hash == b@.hash,
{
}

/// An entry that takes up names and tags it already has keeps its names and
/// its tags: the same strings, now in ascending order and each once. Lists
/// that were so before are unchanged.
pub proof fn lemma_combine_idempotent(a: EntryView, b: EntryView)
    requires
        b.names.to_set() == a.names.to_set(),
        b.tags.to_set() == a.tags.to_set(),
    ensures
        a.combine(b).hash == a.hash,
        a.combine(b).names.to_set() == a.names.to_set(),
        a.combine(b).tags.to_set() == a.tags.to_set(),
        strictly_ascending(a.names) ==> a.combine(b).names == a.names,
        strictly_ascending(a.tags) ==> a.combine(b).tags == a.tags,
        a.combine(b).combine(b) == a.combine(b),
{
    assert(a.names.to_set().union(b.names.to_set()) =~= a.names.to_set());
    assert(a.tags.to_set().union(b.tags.to_set()) =~= a.tags.to_set());
    lemma_combined(a, b);
    if strictly_ascending(a.names) {
        lemma_ascending_of_ascending(a.names);
    }
    if strictly_ascending(a.tags) {
        lemma_ascending_of_ascending(a.tags);
    }
    let c = a.combine(b);
    assert(c.names.to_set().union(b.names.to_set()) =~= a.names.to_set());
    assert(c.tags.to_set().union(b.tags.to_set()) =~= a.tags.to_set());
}

/// A record put in order is in order and holds what it held; one that was
/// in order is unchanged.
pub proof fn lemma_normalized(a: EntryView)
    ensures
        a.normalized().normal(),
        a.normalized().hash == a.hash,
        a.normalized().names.to_set() == a.names.to_set(),
        a.normalized().tags.to_set() == a.tags.to_set(),
        a.normal() ==> a.normalized() == a,
{
    seq_to_set_is_finite(a.names);
    seq_to_set_is_finite(a.tags);
    lemma_ascending(a.names.to_set());
    lemma_ascending(a.tags.to_set());
    if a.normal() {
        lemma_ascending_of_ascending(a.names);
        lemma_ascending_of_ascending(a.tags);
    }
}

/// A record that has taken up another is in order, keeps its hash, and holds
/// the names and the tags of both.
pub proof fn lemma_combined(a: EntryView, b: EntryView)
    ensures
        a.combine(b).normal(),
        a.combine(b).hash == a.hash,
        a.combine(b).names.to_set() == a.names.to_set().union(b.names.to_set()),
        a.combine(b).tags.to_set() == a.tags.to_set().union(b.tags.to_set()),
{
    seq_to_set_is_finite(a.names);
    seq_to_set_is_finite(a.tags);
    seq_to_set_is_finite(b.names);
    seq_to_set_is_finite(b.tags);
    lemma_ascending(a.names.to_set().union(b.names.to_set()));
    lemma_ascending(a.tags.to_set().union(b.tags.to_set()));
}

/// What an entry holds after taking up another depends on which names and
/// tags the two hold: not on the order in which each holds them, nor on how
/// often, nor on which of the two holds which.
pub proof fn lemma_combine_order_independent(
    a: EntryView,
    b: EntryView,
    c: EntryView,
    d: EntryView,
)
    requires
        a.names.to_set() == c.names.to_set(),
        a.tags.to_set() == c.tags.to_set(),
        b.names.to_set() == d.names.to_set(),
        b.tags.to_set() == d.tags.to_set(),
    ensures
        a.combine(b).names == c.combine(d).names,
        a.combine(b).tags == c.combine(d).tags,
        a.combine(b).names == b.combine(a).names,
        a.combine(b).tags == b.combine(a).tags,
{
    assert(a.names.to_set().union(b.names.to_set()) =~= b.names.to_set().union(a.names.to_set()));
    assert(a.tags.to_set().union(b.tags.to_set()) =~= b.tags.to_set().union(a.tags.to_set()));
}

} // verus!
