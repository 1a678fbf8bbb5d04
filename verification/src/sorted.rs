//! Sets of strings kept as lists: in ascending order, nothing twice.

use crate::order::{
    lemma_text_lt_irreflexive, lemma_text_lt_total, lemma_text_lt_transitive, str_lt, text_lt,
};
use crate::views::views;
use vstd::prelude::*;

verus! {

/// Every item of `s` comes before all that follow it.
pub open spec fn strictly_ascending(s: Seq<Seq<char>>) -> bool {
    forall|i: int, j: int| 0 <= i < j < s.len() ==> text_lt(s[i], s[j])
}

/// The members of `items` as a list in ascending order.
pub open spec fn ascending(items: Set<Seq<char>>) -> Seq<Seq<char>> {
    choose|s: Seq<Seq<char>>| strictly_ascending(s) && s.to_set() == items
}

/// A strictly ascending list holds nothing twice.
pub proof fn lemma_ascending_distinct(s: Seq<Seq<char>>)
    requires
        strictly_ascending(s),
    ensures
        s.no_duplicates(),
{
    assert forall|i: int, j: int| 0 <= i < s.len() && 0 <= j < s.len() && i != j implies s[i]
        != s[j] by {
        lemma_text_lt_irreflexive(s[i]);
        if i < j {
            assert(text_lt(s[i], s[j]));
        } else {
            assert(text_lt(s[j], s[i]));
        }
    }
}

/// Two strictly ascending lists with the same members are the same list.
pub proof fn lemma_ascending_unique(a: Seq<Seq<char>>, b: Seq<Seq<char>>)
    requires
        strictly_ascending(a),
        strictly_ascending(b),
        a.to_set() == b.to_set(),
    ensures
        a == b,
    decreases a.len(),
{
    if a.len() == 0 {
        if b.len() > 0 {
            assert(b.to_set().contains(b[0]));
            assert(a.contains(b[0]));
        }
        assert(a =~= b);
    } else {
        assert(a.to_set().contains(a[0]));
        assert(b.contains(a[0]));
        let j = choose|j: int| 0 <= j < b.len() && b[j] == a[0];
        assert(b.to_set().contains(b[0]));
        assert(a.contains(b[0]));
        let i = choose|i: int| 0 <= i < a.len() && a[i] == b[0];
        if j > 0 {
            assert(text_lt(b[0], b[j]));
            if i > 0 {
                assert(text_lt(a[0], a[i]));
                lemma_text_lt_transitive(a[0], b[0], a[0]);
            }
            lemma_text_lt_irreflexive(a[0]);
        }
        let ra = a.drop_first();
        let rb = b.drop_first();
        lemma_ascending_distinct(a);
        lemma_ascending_distinct(b);
        assert(strictly_ascending(ra)) by {
            assert forall|p: int, q: int| 0 <= p < q < ra.len() implies text_lt(ra[p], ra[q]) by {
                assert(text_lt(a[p + 1], a[q + 1]));
            }
        }
        assert(strictly_ascending(rb)) by {
            assert forall|p: int, q: int| 0 <= p < q < rb.len() implies text_lt(rb[p], rb[q]) by {
                assert(text_lt(b[p + 1], b[q + 1]));
            }
        }
        assert(ra.to_set() =~= rb.to_set()) by {
            assert forall|x: Seq<char>| ra.to_set().contains(x) == rb.to_set().contains(x) by {
                lemma_rest_members(a, x);
                lemma_rest_members(b, x);
                assert(a.to_set().contains(x) == b.to_set().contains(x));
            }
        }
        lemma_ascending_unique(ra, rb);
        assert(a =~= seq![a[0]] + ra);
        assert(b =~= seq![b[0]] + rb);
    }
}

/// The members of a duplicate-free list after its first item are its members
/// but the first.
proof fn lemma_rest_members(s: Seq<Seq<char>>, x: Seq<char>)
    requires
        s.len() > 0,
        s.no_duplicates(),
    ensures
        s.drop_first().to_set().contains(x) == (s.to_set().contains(x) && x != s[0]),
{
    let r = s.drop_first();
    if r.contains(x) {
        let p = choose|p: int| 0 <= p < r.len() && r[p] == x;
        assert(s[p + 1] == x);
    }
    if s.contains(x) && x != s[0] {
        let p = choose|p: int| 0 <= p < s.len() && s[p] == x;
        assert(r[p - 1] == x);
    }
}

/// Putting `x` where it belongs keeps a list strictly ascending and adds `x`
/// to its members.
pub proof fn lemma_insert_ascending(s: Seq<Seq<char>>, at: int, x: Seq<char>)
    requires
        strictly_ascending(s),
        0 <= at <= s.len(),
        forall|i: int| 0 <= i < at ==> text_lt(s[i], x),
        at < s.len() ==> text_lt(x, s[at]),
    ensures
        strictly_ascending(s.insert(at, x)),
        s.insert(at, x).to_set() == s.to_set().insert(x),
{
    let t = s.insert(at, x);
    assert forall|i: int, j: int| 0 <= i < j < t.len() implies text_lt(t[i], t[j]) by {
        if j < at {
            assert(text_lt(s[i], s[j]));
        } else if j == at {
            assert(text_lt(s[i], x));
        } else if i == at {
            if at < j - 1 {
                assert(text_lt(s[at], s[j - 1]));
                lemma_text_lt_transitive(x, s[at], s[j - 1]);
            }
        } else if i < at {
            assert(text_lt(s[i], s[j - 1]));
        } else {
            assert(text_lt(s[i - 1], s[j - 1]));
        }
    }
    assert(t.to_set() =~= s.to_set().insert(x)) by {
        assert forall|y: Seq<char>| t.to_set().contains(y) == s.to_set().insert(x).contains(
            y,
        ) by {
            if t.contains(y) {
                let p = choose|p: int| 0 <= p < t.len() && t[p] == y;
                if p < at {
                    assert(s[p] == y);
                } else if p > at {
                    assert(s[p - 1] == y);
                }
            }
            if s.contains(y) {
                let p = choose|p: int| 0 <= p < s.len() && s[p] == y;
                if p < at {
                    assert(t[p] == y);
                } else {
                    assert(t[p + 1] == y);
                }
            }
            if y == x {
                assert(t[at] == y);
            }
        }
    }
}

/// How many items of `s` from index `from` on come before `x` without a break.
spec fn run_before(s: Seq<Seq<char>>, x: Seq<char>, from: int) -> int
    decreases s.len() - from,
{
    if 0 <= from < s.len() && text_lt(s[from], x) {
        run_before(s, x, from + 1)
    } else {
        from
    }
}

proof fn lemma_run_before(s: Seq<Seq<char>>, x: Seq<char>, from: int)
    requires
        0 <= from <= s.len(),
        forall|i: int| 0 <= i < from ==> text_lt(s[i], x),
    ensures
        from <= run_before(s, x, from) <= s.len(),
        forall|i: int| 0 <= i < run_before(s, x, from) ==> text_lt(s[i], x),
        run_before(s, x, from) < s.len() ==> !text_lt(s[run_before(s, x, from)], x),
    decreases s.len() - from,
{
    if from < s.len() && text_lt(s[from], x) {
        lemma_run_before(s, x, from + 1);
    }
}

/// Every finite set of strings has its ascending list: strictly ascending,
/// with exactly the set's members.
pub proof fn lemma_ascending(items: Set<Seq<char>>)
    requires
        items.finite(),
    ensures
        strictly_ascending(ascending(items)),
        ascending(items).to_set() == items,
    decreases items.len(),
{
    if items.len() == 0 {
        let e = Seq::<Seq<char>>::empty();
        assert(e.to_set() =~= items);
        assert(strictly_ascending(e) && e.to_set() == items);
    } else {
        let x = items.choose();
        let rest = items.remove(x);
        lemma_ascending(rest);
        let r = ascending(rest);
        let at = run_before(r, x, 0);
        lemma_run_before(r, x, 0);
        if at < r.len() {
            assert(r.to_set().contains(r[at]));
            lemma_text_lt_total(x, r[at]);
        }
        lemma_insert_ascending(r, at, x);
        let s = r.insert(at, x);
        assert(s.to_set() =~= items);
        assert(strictly_ascending(s) && s.to_set() == items);
    }
}

/// The ascending list of the members of a strictly ascending list is that list.
pub proof fn lemma_ascending_of_ascending(s: Seq<Seq<char>>)
    requires
        strictly_ascending(s),
    ensures
        ascending(s.to_set()) == s,
{
    vstd::seq_lib::seq_to_set_is_finite(s);
    lemma_ascending(s.to_set());
    lemma_ascending_unique(ascending(s.to_set()), s);
}

/// Where `s` belongs in a strictly ascending list: behind all that come
/// before it, and before all the rest.
fn place_of(v: &Vec<String>, s: &String) -> (at: usize)
    requires
        strictly_ascending(views(v@)),
    ensures
        at <= v@.len(),
        forall|i: int| 0 <= i < at ==> text_lt(views(v@)[i], s@),
        forall|i: int| at <= i < v@.len() ==> !text_lt(views(v@)[i], s@),
{
    let mut low: usize = 0;
    let mut high: usize = v.len();
    while low < high
        invariant
            strictly_ascending(views(v@)),
            low <= high <= v@.len(),
            forall|i: int| 0 <= i < low ==> text_lt(views(v@)[i], s@),
            forall|i: int| high <= i < v@.len() ==> !text_lt(views(v@)[i], s@),
        decreases high - low,
    {
        let mid: usize = low + (high - low) / 2;
        if str_lt(v[mid].as_str(), s.as_str()) {
            assert forall|i: int| 0 <= i < mid + 1 implies text_lt(views(v@)[i], s@) by {
                if i < mid {
                    assert(text_lt(views(v@)[i], views(v@)[mid as int]));
                    lemma_text_lt_transitive(views(v@)[i], views(v@)[mid as int], s@);
                }
            }
            low = mid + 1;
        } else {
            assert forall|i: int| mid <= i < v@.len() implies !text_lt(views(v@)[i], s@) by {
                if mid < i && text_lt(views(v@)[i], s@) {
                    assert(text_lt(views(v@)[mid as int], views(v@)[i]));
                    lemma_text_lt_transitive(views(v@)[mid as int], views(v@)[i], s@);
                }
            }
            high = mid;
        }
    }
    low
}

/// Puts `s` into a strictly ascending list, unless the list holds it.
fn insert_unique(v: &mut Vec<String>, s: String)
    requires
        strictly_ascending(views(old(v)@)),
    ensures
        strictly_ascending(views(final(v)@)),
        views(final(v)@).to_set() == views(old(v)@).to_set().insert(s@),
{
    let at: usize = place_of(v, &s);
    if at < v.len() && v[at] == s {
        proof {
            assert(views(v@)[at as int] == s@);
            assert(views(v@).to_set().contains(s@));
            assert(views(v@).to_set() =~= views(v@).to_set().insert(s@));
        }
    } else {
        proof {
            if at < v@.len() {
                assert(views(v@)[at as int] != s@);
                lemma_text_lt_total(s@, views(v@)[at as int]);
            }
            lemma_insert_ascending(views(v@), at as int, s@);
            assert(views(v@.insert(at as int, s)) =~= views(v@).insert(at as int, s@));
        }
        v.insert(at, s);
    }
}

/// Sorts `v` and leaves each of its strings once.
pub fn sort_dedup(v: &mut Vec<String>)
    ensures
        views(final(v)@) == ascending(views(old(v)@).to_set()),
{
    let mut out: Vec<String> = Vec::new();
    loop
        invariant
            strictly_ascending(views(out@)),
            views(out@).to_set().union(views(v@).to_set()) == views(old(v)@).to_set(),
        ensures
            v@.len() == 0,
        decreases v@.len(),
    {
        let ghost before = views(v@);
        match v.pop() {
            Some(s) => {
                proof {
                    assert(before =~= views(v@).push(s@));
                    views(v@).lemma_push_to_set_commute(s@);
                }
                insert_unique(&mut out, s);
            },
            None => {
                break;
            },
        }
    }
    proof {
        assert(views(v@).to_set() =~= Set::empty());
        assert(views(out@).to_set() =~= views(old(v)@).to_set());
        lemma_ascending_of_ascending(views(out@));
        assert(views(v@ + out@) =~= views(out@));
    }
    v.append(&mut out);
}

} // verus!
