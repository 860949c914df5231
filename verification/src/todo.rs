//! A to-do list whose entries carry a priority and can be put in ascending
//! priority order, keeping entries of equal priority in their relative order.

use vstd::prelude::*;
use crate::seq_facts::{lemma_filter_add, lemma_filter_none, lemma_filter_single};
use crate::text::{decimal, push_char, push_decimal};
use vstd::string::StringExecFns;

verus! {

/// One task: when it was entered, its text, and its priority.
pub struct TodoEntry {
    pub timestamp_seconds: u64,
    pub entry_text: String,
    pub priority: i32,
}

impl TodoEntry {
    pub fn new(timestamp_seconds: u64, entry_text: String, priority: i32) -> (entry: Self)
        ensures
            entry.timestamp_seconds == timestamp_seconds,
            entry.entry_text == entry_text,
            entry.priority == priority,
    {
        TodoEntry { timestamp_seconds, entry_text, priority }
    }
}

/// The predicate "has priority `p`", used to split a list by priority.
pub open spec fn has_priority(p: i32) -> spec_fn(TodoEntry) -> bool {
    |e: TodoEntry| e.priority == p
}

/// Priorities never decrease along the sequence.
pub open spec fn sorted_by_priority(s: Seq<TodoEntry>) -> bool {
    forall|i: int, j: int| 0 <= i <= j < s.len() ==> s[i].priority <= s[j].priority
}

/// For every priority, the entries of that priority appear in both sequences
/// in the same order.
pub open spec fn same_order_per_priority(a: Seq<TodoEntry>, b: Seq<TodoEntry>) -> bool {
    forall|p: i32| #[trigger] a.filter(has_priority(p)) == b.filter(has_priority(p))
}

/// `out` is the stable sort of `inp` by ascending priority.
pub open spec fn stable_sort_of(out: Seq<TodoEntry>, inp: Seq<TodoEntry>) -> bool {
    sorted_by_priority(out) && same_order_per_priority(out, inp)
}

/// The last element of a non-empty sequence is kept by a filter exactly when it
/// passes, and the rest of the filter comes from the shorter sequence.
proof fn lemma_filter_unfold_last(s: Seq<TodoEntry>, f: spec_fn(TodoEntry) -> bool)
    requires
        s.len() > 0,
    ensures
        s.filter(f) == (if f(s.last()) {
            s.drop_last().filter(f).push(s.last())
        } else {
            s.drop_last().filter(f)
        }),
{
    reveal(Seq::filter);
}

/// A sequence with an element of priority `p` has a non-empty `p`-filter.
proof fn lemma_filter_nonempty(s: Seq<TodoEntry>, i: int)
    requires
        0 <= i < s.len(),
    ensures
        s.filter(has_priority(s[i].priority)).len() > 0,
{
    s.lemma_filter_contains(has_priority(s[i].priority), i);
}

/// An element whose priority has a non-empty filter in a sequence sorted by
/// priority is bounded by the priority of the last element.
proof fn lemma_priority_at_most_last(s: Seq<TodoEntry>, p: i32)
    requires
        sorted_by_priority(s),
        s.filter(has_priority(p)).len() > 0,
    ensures
        s.len() > 0,
        p <= s.last().priority,
    decreases s.len(),
{
    if s.len() == 0 {
        reveal(Seq::filter);
    } else {
        lemma_filter_unfold_last(s, has_priority(p));
        if s.last().priority != p {
            let s1 = s.drop_last();
            assert(sorted_by_priority(s1));
            lemma_priority_at_most_last(s1, p);
            assert(s1.last().priority <= s.last().priority);
        }
    }
}

/// Two sequences sorted by priority that agree on the order of the entries of
/// every priority are the same sequence: the stable sort of a list is unique.
pub proof fn law_stable_sort_unique(a: Seq<TodoEntry>, b: Seq<TodoEntry>)
    requires
        sorted_by_priority(a),
        sorted_by_priority(b),
        same_order_per_priority(a, b),
    ensures
        a == b,
    decreases a.len() + b.len(),
{
    if a.len() == 0 && b.len() == 0 {
        assert(a =~= b);
    } else if a.len() == 0 {
        lemma_filter_nonempty(b, 0);
        assert(a.filter(has_priority(b[0].priority)) == b.filter(has_priority(b[0].priority)));
        lemma_priority_at_most_last(a, b[0].priority);
    } else if b.len() == 0 {
        lemma_filter_nonempty(a, 0);
        assert(a.filter(has_priority(a[0].priority)) == b.filter(has_priority(a[0].priority)));
        lemma_priority_at_most_last(b, a[0].priority);
    } else {
        let ka = a.last().priority;
        let kb = b.last().priority;
        lemma_filter_nonempty(a, a.len() - 1);
        lemma_filter_nonempty(b, b.len() - 1);
        assert(a.filter(has_priority(ka)) == b.filter(has_priority(ka)));
        assert(a.filter(has_priority(kb)) == b.filter(has_priority(kb)));
        lemma_priority_at_most_last(b, ka);
        lemma_priority_at_most_last(a, kb);
        let k = ka;
        lemma_filter_unfold_last(a, has_priority(k));
        lemma_filter_unfold_last(b, has_priority(k));
        assert(a.last() == b.last()) by {
            assert(a.filter(has_priority(k)).last() == b.filter(has_priority(k)).last());
        }
        let a1 = a.drop_last();
        let b1 = b.drop_last();
        assert forall|p: i32| #[trigger] a1.filter(has_priority(p)) == b1.filter(has_priority(p)) by {
            lemma_filter_unfold_last(a, has_priority(p));
            lemma_filter_unfold_last(b, has_priority(p));
            assert(a.filter(has_priority(p)) == b.filter(has_priority(p)));
            if p == k {
                assert(a1.filter(has_priority(p)) =~= a.filter(has_priority(p)).drop_last());
                assert(b1.filter(has_priority(p)) =~= b.filter(has_priority(p)).drop_last());
            }
        }
        law_stable_sort_unique(a1, b1);
        assert(a =~= a1.push(a.last()));
        assert(b =~= b1.push(b.last()));
    }
}

/// Sorting a list that is already in priority order leaves it unchanged.
pub proof fn law_sort_of_sorted_is_identity(out: Seq<TodoEntry>, inp: Seq<TodoEntry>)
    requires
        sorted_by_priority(inp),
        stable_sort_of(out, inp),
    ensures
        out == inp,
{
    law_stable_sort_unique(out, inp);
}

/// Sorting twice gives the same list as sorting once.
pub proof fn law_sort_idempotent(once: Seq<TodoEntry>, twice: Seq<TodoEntry>, inp: Seq<TodoEntry>)
    requires
        stable_sort_of(once, inp),
        stable_sort_of(twice, once),
    ensures
        twice == once,
{
    law_stable_sort_unique(twice, once);
}

/// The number of copies of `x` in a sequence equals the number of copies in
/// any filter that keeps `x`.
proof fn lemma_count_through_filter(s: Seq<TodoEntry>, f: spec_fn(TodoEntry) -> bool, x: TodoEntry)
    requires
        f(x),
    ensures
        s.to_multiset().count(x) == s.filter(f).to_multiset().count(x),
    decreases s.len(),
{
    broadcast use vstd::seq_lib::group_to_multiset_ensures;
    if s.len() == 0 {
        reveal(Seq::filter);
        assert(s.filter(f) =~= s);
    } else {
        let s1 = s.drop_last();
        lemma_count_through_filter(s1, f, x);
        lemma_filter_unfold_last(s, f);
        assert(s =~= s1.push(s.last()));
        assert(s.to_multiset() =~= s1.to_multiset().insert(s.last()));
        if f(s.last()) {
            assert(s.filter(f).to_multiset() =~= s1.filter(f).to_multiset().insert(s.last()));
        }
    }
}

/// Sorting only reorders: the sorted list holds exactly the same entries,
/// each as many times as before.
pub proof fn law_sort_is_permutation(out: Seq<TodoEntry>, inp: Seq<TodoEntry>)
    requires
        stable_sort_of(out, inp),
    ensures
        out.to_multiset() == inp.to_multiset(),
        out.len() == inp.len(),
{
    broadcast use vstd::seq_lib::group_to_multiset_ensures;
    assert forall|x: TodoEntry| #[trigger] out.to_multiset().count(x) == inp.to_multiset().count(x) by {
        let f = has_priority(x.priority);
        lemma_count_through_filter(out, f, x);
        lemma_count_through_filter(inp, f, x);
        assert(out.filter(f) == inp.filter(f));
    }
    assert(out.to_multiset() =~= inp.to_multiset());
    assert(out.to_multiset().len() == out.len());
    assert(inp.to_multiset().len() == inp.len());
}

/// The line that shows the task at 1-based position `position`: the position,
/// a colon, a space and the task's text.
pub open spec fn listing_line(position: nat, text: Seq<char>) -> Seq<char> {
    decimal(position) + seq![':', ' '] + text
}

/// What showing the list produces: a notice for an empty list, or one line per
/// task in priority order.
pub enum Listing {
    NoTasks,
    Lines(Vec<String>),
}

/// The ordered collection of tasks.
pub struct TodoList {
    pub entries: Vec<TodoEntry>,
}

impl TodoList {
    pub fn new() -> (list: Self)
        ensures
            list.entries@ == Seq::<TodoEntry>::empty(),
    {
        TodoList { entries: Vec::new() }
    }

    pub fn add_entry(&mut self, entry: TodoEntry)
        ensures
            final(self).entries@ == old(self).entries@.push(entry),
    {
        self.entries.push(entry);
    }

    /// Sorts the entries in ascending priority order; entries of equal
    /// priority keep their relative order.
    pub fn sort(&mut self)
        ensures
            stable_sort_of(final(self).entries@, old(self).entries@),
    {
        let n = self.entries.len();
        let ghost orig = self.entries@;
        assert(orig.subrange(0, 0) =~= Seq::<TodoEntry>::empty());
        assert(orig.subrange(0, n as int) =~= orig);
        for i in 0..n
            invariant
                n == orig.len(),
                self.entries@.len() == n,
                self.entries@.subrange(i as int, n as int) == orig.subrange(i as int, n as int),
                sorted_by_priority(self.entries@.subrange(0, i as int)),
                same_order_per_priority(
                    self.entries@.subrange(0, i as int),
                    orig.subrange(0, i as int),
                ),
        {
            let ghost before = self.entries@;
            let ghost prefix = before.subrange(0, i as int);
            let e = self.entries.remove(i);
            assert(e == orig[i as int]) by {
                assert(before.subrange(i as int, n as int)[0] == orig.subrange(i as int, n as int)[0]);
            }
            let ghost removed = self.entries@;
            assert(removed.subrange(0, i as int) =~= prefix);
            let mut j: usize = i;
            while j > 0 && self.entries[j - 1].priority > e.priority
                invariant
                    j <= i,
                    i < n,
                    self.entries@ == removed,
                    removed.len() == n - 1,
                    removed.subrange(0, i as int) == prefix,
                    forall|k: int| j <= k < i ==> #[trigger] prefix[k].priority > e.priority,
                decreases j,
            {
                j = j - 1;
            }
            self.entries.insert(j, e);
            proof {
                let a = prefix.subrange(0, j as int);
                let b = prefix.subrange(j as int, i as int);
                let newp = self.entries@.subrange(0, i + 1);
                assert(newp =~= a + seq![e] + b);
                assert(prefix =~= a + b);
                assert(orig.subrange(0, i + 1) =~= orig.subrange(0, i as int) + seq![e]);
                assert(self.entries@.subrange(i + 1, n as int) =~= orig.subrange(i + 1, n as int))
                    by {
                    assert(removed.subrange(i as int, n - 1) =~= before.subrange(i + 1, n as int));
                    assert forall|k: int| 0 <= k < n - i - 1 implies #[trigger] before.subrange(i + 1, n as int)[k]
                        == orig.subrange(i + 1, n as int)[k] by {
                        assert(before.subrange(i as int, n as int)[k + 1] == orig.subrange(i as int, n as int)[k + 1]);
                    }
                    assert(before.subrange(i + 1, n as int) =~= orig.subrange(i + 1, n as int));
                }
                // sortedness of the new prefix
                assert forall|x: int, y: int| 0 <= x <= y < newp.len() implies newp[x].priority
                    <= newp[y].priority by {
                    if y < j {
                    } else if y == j {
                        if x < j {
                            assert(prefix[x].priority <= prefix[j - 1].priority);
                        }
                    } else {
                        if x < j {
                            assert(prefix[x].priority <= prefix[y - 1].priority);
                        } else if x == j {
                            assert(prefix[y - 1].priority > e.priority);
                        } else {
                            assert(prefix[x - 1].priority <= prefix[y - 1].priority);
                        }
                    }
                }
                // per-priority order
                assert forall|p: i32| #[trigger] newp.filter(has_priority(p)) == orig.subrange(
                    0,
                    i + 1,
                ).filter(has_priority(p)) by {
                    let f = has_priority(p);
                    lemma_filter_add(a + seq![e], b, f);
                    lemma_filter_add(a, seq![e], f);
                    lemma_filter_add(a, b, f);
                    lemma_filter_add(orig.subrange(0, i as int), seq![e], f);
                    lemma_filter_single(e, f);
                    assert(prefix.filter(f) == orig.subrange(0, i as int).filter(f));
                    if p == e.priority {
                        assert forall|k: int| 0 <= k < b.len() implies !f(#[trigger] b[k]) by {
                            assert(prefix[j + k].priority > e.priority);
                        }
                        lemma_filter_none(b, f);
                        assert(a.filter(f) + Seq::<TodoEntry>::empty() =~= a.filter(f));
                        assert(newp.filter(f) =~= a.filter(f) + seq![e]);
                    } else {
                        assert(a.filter(f) + Seq::<TodoEntry>::empty() =~= a.filter(f));
                    }
                }
            }
        }
        assert(self.entries@.subrange(0, n as int) =~= self.entries@);
    }

    /// Prepares the list for showing: an empty list yields `NoTasks` and is left
    /// as it is; otherwise the list is sorted and each task, in the new order,
    /// gets a line numbered from 1.
    pub fn listing(&mut self) -> (out: Listing)
        ensures
            old(self).entries@.len() == 0 ==> out is NoTasks && final(self).entries@ == old(
                self,
            ).entries@,
            old(self).entries@.len() > 0 ==> {
                &&& stable_sort_of(final(self).entries@, old(self).entries@)
                &&& out matches Listing::Lines(lines) && lines@.len() == final(self).entries@.len()
                    && forall|i: int|
                    0 <= i < lines@.len() ==> #[trigger] lines@[i]@ == listing_line(
                        (i + 1) as nat,
                        final(self).entries@[i].entry_text@,
                    )
            },
    {
        if self.entries.len() == 0 {
            return Listing::NoTasks;
        }
        self.sort();
        let n = self.entries.len();
        let mut lines: Vec<String> = Vec::new();
        for i in 0..n
            invariant
                n == self.entries@.len(),
                lines@.len() == i,
                forall|k: int|
                    0 <= k < i ==> #[trigger] lines@[k]@ == listing_line(
                        (k + 1) as nat,
                        self.entries@[k].entry_text@,
                    ),
        {
            let mut line = String::new();
            push_decimal(&mut line, (i as u64) + 1);
            push_char(&mut line, ':');
            push_char(&mut line, ' ');
            line.append(self.entries[i].entry_text.as_str());
            assert(line@ =~= listing_line((i + 1) as nat, self.entries@[i as int].entry_text@));
            lines.push(line);
        }
        Listing::Lines(lines)
    }
}

} // verus!
