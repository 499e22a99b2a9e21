//! The history store: an ordered, duplicate-free sequence of window
//! identifiers, most recently focused first.

use vstd::prelude::*;

verus! {

/// The sequence `s` with every occurrence of `id` removed, order kept.
pub open spec fn seq_without(s: Seq<i64>, id: i64) -> Seq<i64>
    decreases s.len(),
{
    if s.len() == 0 {
        Seq::empty()
    } else {
        let rest = seq_without(s.drop_last(), id);
        if s.last() == id {
            rest
        } else {
            rest.push(s.last())
        }
    }
}

/// What a focus event does to a history sequence: the window moves to (or
/// enters at) the front, any earlier occurrence disappears, and the result
/// is cut to `cap` entries.
pub open spec fn focus_insert(s: Seq<i64>, id: i64, cap: nat) -> Seq<i64> {
    let moved = seq![id] + seq_without(s, id);
    if moved.len() <= cap {
        moved
    } else {
        moved.take(cap as int)
    }
}

/// Removing an id removes nothing else, keeps order and uniqueness, and
/// leaves a sequence free of that id.
pub proof fn lemma_seq_without(s: Seq<i64>, id: i64)
    ensures
        !seq_without(s, id).contains(id),
        seq_without(s, id).len() <= s.len(),
        forall|x: i64| x != id ==> (seq_without(s, id).contains(x) <==> s.contains(x)),
        s.no_duplicates() ==> seq_without(s, id).no_duplicates(),
        !s.contains(id) ==> seq_without(s, id) == s,
    decreases s.len(),
{
    if s.len() == 0 {
        assert(seq_without(s, id) =~= s);
    } else {
        let pre = s.drop_last();
        let rest = seq_without(pre, id);
        lemma_seq_without(pre, id);
        assert forall|x: i64| x != id implies (seq_without(s, id).contains(x) <==> s.contains(
            x,
        )) by {
            lemma_contains_drop_last(s, x);
            if s.last() != id {
                lemma_contains_push(rest, s.last(), x);
            }
        }
        if s.no_duplicates() {
            assert(pre.no_duplicates());
            if s.last() != id {
                assert(!pre.contains(s.last())) by {
                    lemma_contains_drop_last(s, s.last());
                    if pre.contains(s.last()) {
                        let i = choose|i: int| 0 <= i < pre.len() && pre[i] == s.last();
                        assert(s[i] == s[s.len() - 1]);
                    }
                }
                assert(!rest.contains(s.last()));
                lemma_no_duplicates_push(rest, s.last());
            }
        }
        if !s.contains(id) {
            assert(!pre.contains(id)) by {
                if pre.contains(id) {
                    let i = choose|i: int| 0 <= i < pre.len() && pre[i] == id;
                    assert(s[i] == id);
                }
            }
            assert(s.last() != id) by {
                assert(s[s.len() - 1] == s.last());
            }
            assert(seq_without(s, id) =~= s);
        }
    }
}

/// An element is in a sequence iff it is the last one or in the rest.
proof fn lemma_contains_drop_last(s: Seq<i64>, x: i64)
    requires
        s.len() > 0,
    ensures
        s.contains(x) <==> (s.drop_last().contains(x) || s.last() == x),
{
    if s.contains(x) {
        let i = choose|i: int| 0 <= i < s.len() && s[i] == x;
        if i < s.len() - 1 {
            assert(s.drop_last()[i] == x);
        }
    }
    if s.drop_last().contains(x) {
        let i = choose|i: int| 0 <= i < s.drop_last().len() && s.drop_last()[i] == x;
        assert(s[i] == x);
    }
    if s.last() == x {
        assert(s[s.len() - 1] == x);
    }
}

/// An element is in a pushed sequence iff it is the new one or was there.
proof fn lemma_contains_push(s: Seq<i64>, y: i64, x: i64)
    ensures
        s.push(y).contains(x) <==> (s.contains(x) || x == y),
{
    if s.push(y).contains(x) {
        let i = choose|i: int| 0 <= i < s.push(y).len() && s.push(y)[i] == x;
        if i < s.len() {
            assert(s[i] == x);
        }
    }
    if s.contains(x) {
        let i = choose|i: int| 0 <= i < s.len() && s[i] == x;
        assert(s.push(y)[i] == x);
    }
    if x == y {
        assert(s.push(y)[s.len() as int] == x);
    }
}

/// Pushing a fresh element keeps a sequence duplicate-free.
proof fn lemma_no_duplicates_push(s: Seq<i64>, y: i64)
    requires
        s.no_duplicates(),
        !s.contains(y),
    ensures
        s.push(y).no_duplicates(),
{
    assert forall|i: int, j: int|
        0 <= i < s.push(y).len() && 0 <= j < s.push(y).len() && i != j implies s.push(y)[i]
        != s.push(y)[j] by {
        if i < s.len() && j < s.len() {
            assert(s[i] != s[j]);
        } else if i < s.len() {
            assert(s.contains(s[i]));
        } else if j < s.len() {
            assert(s.contains(s[j]));
        }
    }
}

/// Putting a fresh element in front keeps a sequence duplicate-free.
pub proof fn lemma_no_duplicates_front(s: Seq<i64>, y: i64)
    requires
        s.no_duplicates(),
        !s.contains(y),
    ensures
        (seq![y] + s).no_duplicates(),
{
    let t = seq![y] + s;
    assert forall|i: int, j: int|
        0 <= i < t.len() && 0 <= j < t.len() && i != j implies t[i] != t[j] by {
        if 1 <= i && 1 <= j {
            assert(t[i] == s[i - 1] && t[j] == s[j - 1]);
        } else if 1 <= j {
            assert(t[j] == s[j - 1]);
            assert(s.contains(s[j - 1]));
        } else if 1 <= i {
            assert(t[i] == s[i - 1]);
            assert(s.contains(s[i - 1]));
        }
    }
}

/// A prefix of a duplicate-free sequence is duplicate-free.
pub proof fn lemma_no_duplicates_take(s: Seq<i64>, n: int)
    requires
        s.no_duplicates(),
        0 <= n <= s.len(),
    ensures
        s.take(n).no_duplicates(),
{
    assert forall|i: int, j: int|
        0 <= i < n && 0 <= j < n && i != j implies s.take(n)[i] != s.take(n)[j] by {
        assert(s[i] != s[j]);
    }
}

/// Removing one id from the front part of a scan: what `seq_without` does to
/// a prefix grown by one element.
proof fn lemma_seq_without_take_step(s: Seq<i64>, id: i64, i: int)
    requires
        0 <= i < s.len(),
    ensures
        seq_without(s.take(i + 1), id) == if s[i] == id {
            seq_without(s.take(i), id)
        } else {
            seq_without(s.take(i), id).push(s[i])
        },
{
    let t = s.take(i + 1);
    assert(t.drop_last() =~= s.take(i));
    assert(t.last() == s[i]);
    assert(t.len() == i + 1);
}

/// Ordered, duplicate-free store of window ids, most recent first.
pub struct History {
    items: Vec<i64>,
}

impl View for History {
    type V = Seq<i64>;

    closed spec fn view(&self) -> Seq<i64> {
        self.items@
    }
}

impl History {
    /// The store never holds the same window id twice.
    pub open spec fn wf(&self) -> bool {
        self@.no_duplicates()
    }

    /// An empty history.
    pub fn new() -> (r: History)
        ensures
            r@ == Seq::<i64>::empty(),
            r.wf(),
    {
        History { items: Vec::new() }
    }

    /// Move `id` to the front, inserting it if it was absent.
    pub fn move_to_front_or_insert(&mut self, id: i64)
        requires
            old(self).wf(),
        ensures
            final(self)@ == seq![id] + seq_without(old(self)@, id),
            final(self).wf(),
    {
        let ghost orig = self.items@;
        let n = self.items.len();
        let mut out: Vec<i64> = Vec::new();
        out.push(id);
        let mut i: usize = 0;
        while i < n
            invariant
                n == self.items.len(),
                self.items@ == orig,
                i <= n,
                out@ == seq![id] + seq_without(orig.take(i as int), id),
            decreases n - i,
        {
            let x = self.items[i];
            proof {
                lemma_seq_without_take_step(orig, id, i as int);
            }
            if x != id {
                assert(out@.push(x) =~= seq![id] + seq_without(orig.take(i as int), id).push(x));
                out.push(x);
            }
            i += 1;
        }
        assert(orig.take(n as int) =~= orig);
        proof {
            lemma_seq_without(orig, id);
            lemma_no_duplicates_front(seq_without(orig, id), id);
        }
        self.items = out;
    }

    /// Remove `id` if present; anything else is untouched.
    pub fn remove(&mut self, id: i64)
        requires
            old(self).wf(),
        ensures
            final(self)@ == seq_without(old(self)@, id),
            final(self).wf(),
    {
        let ghost orig = self.items@;
        let n = self.items.len();
        let mut out: Vec<i64> = Vec::new();
        let mut i: usize = 0;
        while i < n
            invariant
                n == self.items.len(),
                self.items@ == orig,
                i <= n,
                out@ == seq_without(orig.take(i as int), id),
            decreases n - i,
        {
            let x = self.items[i];
            proof {
                lemma_seq_without_take_step(orig, id, i as int);
            }
            if x != id {
                out.push(x);
            }
            i += 1;
        }
        assert(orig.take(n as int) =~= orig);
        proof {
            lemma_seq_without(orig, id);
        }
        self.items = out;
    }

    /// Keep only the first `capacity` entries.
    pub fn truncate(&mut self, capacity: usize)
        requires
            old(self).wf(),
        ensures
            final(self)@ == if old(self)@.len() <= capacity {
                old(self)@
            } else {
                old(self)@.take(capacity as int)
            },
            final(self).wf(),
    {
        proof {
            if self@.len() > capacity {
                lemma_no_duplicates_take(self@, capacity as int);
            }
        }
        self.items.truncate(capacity);
    }

    /// A copy of the stored sequence, front first.
    pub fn snapshot(&self) -> (r: Vec<i64>)
        ensures
            r@ == self@,
    {
        let n = self.items.len();
        let mut out: Vec<i64> = Vec::new();
        let mut i: usize = 0;
        while i < n
            invariant
                n == self.items.len(),
                i <= n,
                out@ == self.items@.take(i as int),
            decreases n - i,
        {
            out.push(self.items[i]);
            assert(out@ =~= self.items@.take(i + 1));
            i += 1;
        }
        assert(self.items@.take(n as int) =~= self.items@);
        out
    }

    /// How many windows the history holds.
    pub fn len(&self) -> (r: usize)
        ensures
            r == self@.len(),
    {
        self.items.len()
    }
}

} // verus!
