//! The inhibition ledger: a table of time-bounded leases. While at least one
//! lease is younger than the expiry window, focus events are not recorded.
//! Expired leases are purged lazily, before every inhibition check.

use vstd::prelude::*;
use vstd::set_lib::lemma_len_subset;

verus! {

/// How long a lease lasts without renewal, in milliseconds.
pub const LEASE_EXPIRY_MS: u64 = 5000;

/// A lease granted at `granted` still counts at time `now`. A lease with a
/// grant time in the future (a clock jump) has not aged and still counts.
pub open spec fn lease_live(granted: u64, now: u64) -> bool {
    now - granted < LEASE_EXPIRY_MS
}

/// The ledger after dropping every lease that is no longer live at `now`.
pub open spec fn purge_model(m: Map<u64, u64>, now: u64) -> Map<u64, u64> {
    Map::new(|k: u64| m.dom().contains(k) && lease_live(m[k], now), |k: u64| m[k])
}

/// Whether the ledger holds at least one live lease at `now`.
pub open spec fn inhibited_model(m: Map<u64, u64>, now: u64) -> bool {
    exists|k: u64| #[trigger] m.dom().contains(k) && lease_live(m[k], now)
}

/// `id` is the smallest lease id that the ledger does not hold.
pub open spec fn is_fresh_lease_id(m: Map<u64, u64>, id: u64) -> bool {
    &&& !m.dom().contains(id)
    &&& forall|d: u64| d < id ==> m.dom().contains(d)
}

/// The smallest lease id that the ledger does not hold.
pub open spec fn fresh_lease_id(m: Map<u64, u64>) -> u64 {
    choose|id: u64| is_fresh_lease_id(m, id)
}

/// A lease that has not been renewed for the expiry window or longer does
/// not count toward inhibition; a ledger of such leases inhibits nothing.
pub proof fn lemma_expired_leases_do_not_inhibit(m: Map<u64, u64>, now: u64)
    requires
        forall|k: u64| #[trigger] m.dom().contains(k) ==> now - m[k] >= LEASE_EXPIRY_MS,
    ensures
        !inhibited_model(m, now),
{
}

/// At most one id can be the smallest missing one.
proof fn lemma_fresh_lease_id_unique(m: Map<u64, u64>, a: u64, b: u64)
    requires
        is_fresh_lease_id(m, a),
        is_fresh_lease_id(m, b),
    ensures
        a == b,
{
    if a < b {
        assert(m.dom().contains(a));
    }
    if b < a {
        assert(m.dom().contains(b));
    }
}

/// One granted lease.
struct Lease {
    id: u64,
    granted_at: u64,
}

/// Some entry of `s` carries the id `k`.
spec fn has_id(s: Seq<Lease>, k: u64) -> bool {
    exists|i: int| 0 <= i < s.len() && s[i].id == k
}

/// The grant time recorded beside the id `k`.
spec fn granted_of(s: Seq<Lease>, k: u64) -> u64 {
    s[choose|i: int| 0 <= i < s.len() && s[i].id == k].granted_at
}

/// No two entries of `s` carry the same id.
spec fn unique_ids(s: Seq<Lease>) -> bool {
    forall|i: int, j: int|
        0 <= i < s.len() && 0 <= j < s.len() && i != j ==> s[i].id != s[j].id
}

/// The lease table that `s` spells out, id to grant time.
spec fn table_of(s: Seq<Lease>) -> Map<u64, u64> {
    Map::new(|k: u64| has_id(s, k), |k: u64| granted_of(s, k))
}

/// With unique ids, the grant time beside any entry is the one the table
/// gives for its id.
proof fn lemma_granted_at(s: Seq<Lease>, i: int)
    requires
        unique_ids(s),
        0 <= i < s.len(),
    ensures
        granted_of(s, s[i].id) == s[i].granted_at,
{
    let k = s[i].id;
    let j = choose|j: int| 0 <= j < s.len() && s[j].id == k;
    assert(s[j].id == k);
}

/// Live entries of `s` at `now`, in order.
spec fn live_leases(s: Seq<Lease>, now: u64) -> Seq<Lease>
    decreases s.len(),
{
    if s.len() == 0 {
        s
    } else {
        let rest = live_leases(s.drop_last(), now);
        if lease_live(s.last().granted_at, now) {
            rest.push(s.last())
        } else {
            rest
        }
    }
}

/// Every entry of `live_leases(s, now)` is an entry of `s`.
proof fn lemma_live_leases_entries(s: Seq<Lease>, now: u64, i: int)
    requires
        0 <= i < live_leases(s, now).len(),
    ensures
        exists|j: int|
            0 <= j < s.len() && s[j] == live_leases(s, now)[i] && lease_live(
                s[j].granted_at,
                now,
            ),
    decreases s.len(),
{
    let t = live_leases(s, now);
    let rest = live_leases(s.drop_last(), now);
    if i < rest.len() {
        lemma_live_leases_entries(s.drop_last(), now, i);
        let j = choose|j: int|
            0 <= j < s.drop_last().len() && s.drop_last()[j] == rest[i] && lease_live(
                s.drop_last()[j].granted_at,
                now,
            );
        assert(s[j] == t[i]);
    } else {
        assert(s[s.len() - 1] == t[i]);
    }
}

/// A live entry of `s` shows up in `live_leases(s, now)`.
proof fn lemma_live_leases_keeps(s: Seq<Lease>, now: u64, j: int)
    requires
        0 <= j < s.len(),
        lease_live(s[j].granted_at, now),
    ensures
        exists|i: int| 0 <= i < live_leases(s, now).len() && live_leases(s, now)[i] == s[j],
    decreases s.len(),
{
    let t = live_leases(s, now);
    let rest = live_leases(s.drop_last(), now);
    if j == s.len() - 1 {
        assert(t[t.len() - 1] == s[j]);
    } else {
        lemma_live_leases_keeps(s.drop_last(), now, j);
        let i = choose|i: int| 0 <= i < rest.len() && rest[i] == s.drop_last()[j];
        assert(t[i] == s[j]);
    }
}

/// Purging keeps ids unique and turns the table into its purged form.
proof fn lemma_live_leases_table(s: Seq<Lease>, now: u64)
    requires
        unique_ids(s),
    ensures
        unique_ids(live_leases(s, now)),
        table_of(live_leases(s, now)) == purge_model(table_of(s), now),
    decreases s.len(),
{
    let t = live_leases(s, now);
    assert forall|i: int, j: int|
        0 <= i < t.len() && 0 <= j < t.len() && i != j implies t[i].id != t[j].id by {
        lemma_live_leases_entries(s, now, i);
        lemma_live_leases_entries(s, now, j);
        let a = choose|a: int| 0 <= a < s.len() && s[a] == t[i] && lease_live(s[a].granted_at, now);
        let b = choose|b: int| 0 <= b < s.len() && s[b] == t[j] && lease_live(s[b].granted_at, now);
        if a == b {
            assert(t[i] == t[j]);
            lemma_live_distinct(s, now, i, j);
        }
    }
    assert forall|k: u64| #[trigger] has_id(t, k) implies has_id(s, k) && lease_live(
        granted_of(s, k),
        now,
    ) && granted_of(t, k) == granted_of(s, k) by {
        let i = choose|i: int| 0 <= i < t.len() && t[i].id == k;
        lemma_live_leases_entries(s, now, i);
        let j = choose|j: int| 0 <= j < s.len() && s[j] == t[i] && lease_live(s[j].granted_at, now);
        lemma_granted_at(s, j);
        lemma_granted_at(t, i);
    }
    assert forall|k: u64| has_id(s, k) && lease_live(granted_of(s, k), now) implies #[trigger] has_id(
        t,
        k,
    ) by {
        let j = choose|j: int| 0 <= j < s.len() && s[j].id == k;
        lemma_granted_at(s, j);
        lemma_live_leases_keeps(s, now, j);
    }
    assert(table_of(t) =~= purge_model(table_of(s), now));
}

/// Two distinct positions of the live selection hold distinct entries.
proof fn lemma_live_distinct(s: Seq<Lease>, now: u64, i: int, j: int)
    requires
        unique_ids(s),
        0 <= i < live_leases(s, now).len(),
        0 <= j < live_leases(s, now).len(),
        i != j,
    ensures
        live_leases(s, now)[i] != live_leases(s, now)[j],
    decreases s.len(),
{
    // The live selection of a unique-id sequence keeps one entry per id, so
    // two positions cannot hold the same entry; shown by walking the
    // selection as it is built.
    let t = live_leases(s, now);
    let rest = live_leases(s.drop_last(), now);
    if s.len() > 0 {
        if i < rest.len() && j < rest.len() {
            lemma_unique_drop_last(s);
            lemma_live_distinct(s.drop_last(), now, i, j);
        } else if lease_live(s.last().granted_at, now) {
            // one of the two is the last entry of s, the other lies in rest
            let (a, b) = if i < rest.len() { (i, j) } else { (j, i) };
            assert(t[b] == s.last());
            lemma_live_leases_entries(s.drop_last(), now, a);
            let p = choose|p: int|
                0 <= p < s.drop_last().len() && s.drop_last()[p] == rest[a] && lease_live(
                    s.drop_last()[p].granted_at,
                    now,
                );
            assert(s[p] == t[a]);
            assert(s[p].id != s[s.len() - 1].id);
        }
    }
}

/// Dropping the last entry keeps ids unique.
proof fn lemma_unique_drop_last(s: Seq<Lease>)
    requires
        unique_ids(s),
        s.len() > 0,
    ensures
        unique_ids(s.drop_last()),
{
    assert forall|i: int, j: int|
        0 <= i < s.drop_last().len() && 0 <= j < s.drop_last().len() && i != j implies s.drop_last(
    )[i].id != s.drop_last()[j].id by {
        assert(s[i].id != s[j].id);
    }
}

/// Entries of `s` with the id `k` taken out, in order.
spec fn leases_without(s: Seq<Lease>, k: u64) -> Seq<Lease>
    decreases s.len(),
{
    if s.len() == 0 {
        s
    } else {
        let rest = leases_without(s.drop_last(), k);
        if s.last().id == k {
            rest
        } else {
            rest.push(s.last())
        }
    }
}

/// Taking an id out keeps ids unique and removes that id from the table.
proof fn lemma_leases_without_table(s: Seq<Lease>, k: u64)
    requires
        unique_ids(s),
    ensures
        unique_ids(leases_without(s, k)),
        table_of(leases_without(s, k)) == table_of(s).remove(k),
    decreases s.len(),
{
    let t = leases_without(s, k);
    if s.len() == 0 {
        assert(table_of(t) =~= table_of(s).remove(k));
    } else {
        let pre = s.drop_last();
        let rest = leases_without(pre, k);
        lemma_unique_drop_last(s);
        lemma_leases_without_table(pre, k);
        if s.last().id == k {
            assert forall|q: u64| #[trigger] has_id(s, q) && q != k implies has_id(pre, q)
                && granted_of(pre, q) == granted_of(s, q) by {
                let i = choose|i: int| 0 <= i < s.len() && s[i].id == q;
                assert(pre[i] == s[i]);
                lemma_granted_at(s, i);
                lemma_granted_at(pre, i);
            }
            assert forall|q: u64| #[trigger] has_id(pre, q) implies has_id(s, q) && granted_of(
                s,
                q,
            ) == granted_of(pre, q) by {
                let i = choose|i: int| 0 <= i < pre.len() && pre[i].id == q;
                assert(s[i] == pre[i]);
                lemma_granted_at(s, i);
                lemma_granted_at(pre, i);
            }
            assert(!has_id(pre, k)) by {
                if has_id(pre, k) {
                    let i = choose|i: int| 0 <= i < pre.len() && pre[i].id == k;
                    assert(s[i].id == s[s.len() - 1].id);
                }
            }
            assert(table_of(t) =~= table_of(s).remove(k));
        } else {
            assert(unique_ids(t)) by {
                assert forall|i: int, j: int|
                    0 <= i < t.len() && 0 <= j < t.len() && i != j implies t[i].id != t[j].id by {
                    if i < rest.len() && j < rest.len() {
                    } else {
                        let (a, b) = if i < rest.len() { (i, j) } else { (j, i) };
                        assert(t[b] == s.last());
                        assert(has_id(rest, t[a].id)) by {
                            assert(rest[a].id == t[a].id);
                        }
                        assert(table_of(rest).dom().contains(t[a].id));
                        assert(table_of(pre).remove(k).dom().contains(t[a].id));
                        let p = choose|p: int| 0 <= p < pre.len() && pre[p].id == t[a].id;
                        assert(s[p].id != s[s.len() - 1].id);
                    }
                }
            }
            assert forall|q: u64| #[trigger] has_id(t, q) implies q != k && has_id(s, q)
                && granted_of(s, q) == granted_of(t, q) by {
                let i = choose|i: int| 0 <= i < t.len() && t[i].id == q;
                if i < rest.len() {
                    assert(has_id(rest, q)) by {
                        assert(rest[i].id == q);
                    }
                    assert(table_of(rest).dom().contains(q));
                    assert(table_of(pre).remove(k).dom().contains(q));
                    let p = choose|p: int| 0 <= p < pre.len() && pre[p].id == q;
                    assert(s[p] == pre[p]);
                    lemma_granted_at(pre, p);
                    lemma_granted_at(s, p);
                    lemma_granted_at(t, i);
                    assert(granted_of(pre, q) == table_of(pre)[q]);
                    assert(table_of(rest)[q] == table_of(pre).remove(k)[q]);
                    assert(granted_of(rest, q) == granted_of(t, q)) by {
                        let r = choose|r: int| 0 <= r < rest.len() && rest[r].id == q;
                        assert(t[r] == rest[r]);
                        lemma_granted_at(t, r);
                    }
                } else {
                    assert(t[i] == s.last());
                    assert(s[s.len() - 1].id == q);
                    lemma_granted_at(s, s.len() - 1);
                    lemma_granted_at(t, i);
                }
            }
            assert forall|q: u64| #[trigger] has_id(s, q) && q != k implies has_id(t, q) by {
                let i = choose|i: int| 0 <= i < s.len() && s[i].id == q;
                if i < pre.len() {
                    assert(has_id(pre, q)) by {
                        assert(pre[i].id == q);
                    }
                    assert(table_of(pre).remove(k).dom().contains(q));
                    assert(table_of(rest).dom().contains(q));
                    assert(has_id(rest, q));
                    let r = choose|r: int| 0 <= r < rest.len() && rest[r].id == q;
                    assert(t[r].id == q);
                } else {
                    assert(t[t.len() - 1].id == q);
                }
            }
            assert(table_of(t) =~= table_of(s).remove(k));
        }
    }
}

/// Appending an entry with a fresh id adds one binding to the table.
proof fn lemma_push_table(s: Seq<Lease>, l: Lease)
    requires
        unique_ids(s),
        !has_id(s, l.id),
    ensures
        unique_ids(s.push(l)),
        table_of(s.push(l)) == table_of(s).insert(l.id, l.granted_at),
{
    let t = s.push(l);
    assert forall|i: int, j: int|
        0 <= i < t.len() && 0 <= j < t.len() && i != j implies t[i].id != t[j].id by {
        if i < s.len() && j < s.len() {
            assert(s[i].id != s[j].id);
        } else if i < s.len() {
            assert(has_id(s, s[i].id)) by {
                assert(s[i].id == s[i].id);
            }
        } else if j < s.len() {
            assert(has_id(s, s[j].id)) by {
                assert(s[j].id == s[j].id);
            }
        }
    }
    assert forall|q: u64| #[trigger] has_id(t, q) implies (q == l.id || has_id(s, q)) by {
        let i = choose|i: int| 0 <= i < t.len() && t[i].id == q;
        if i < s.len() {
            assert(s[i].id == q);
        }
    }
    assert forall|q: u64| #[trigger] has_id(s, q) implies has_id(t, q) && granted_of(t, q)
        == granted_of(s, q) by {
        let i = choose|i: int| 0 <= i < s.len() && s[i].id == q;
        assert(t[i].id == q);
        lemma_granted_at(s, i);
        lemma_granted_at(t, i);
    }
    assert(has_id(t, l.id)) by {
        assert(t[s.len() as int].id == l.id);
    }
    assert(granted_of(t, l.id) == l.granted_at) by {
        lemma_granted_at(t, s.len() as int);
    }
    assert(table_of(t) =~= table_of(s).insert(l.id, l.granted_at));
}

/// The table of `s` has finitely many ids, no more than `s` has entries.
proof fn lemma_table_finite(s: Seq<Lease>)
    ensures
        table_of(s).dom().finite(),
        table_of(s).dom().len() <= s.len(),
    decreases s.len(),
{
    let d = table_of(s).dom();
    if s.len() == 0 {
        assert(d =~= Set::<u64>::empty());
    } else {
        let pre = s.drop_last();
        lemma_table_finite(pre);
        assert(d =~= table_of(pre).dom().insert(s.last().id)) by {
            assert forall|q: u64| #[trigger] has_id(s, q) implies has_id(pre, q) || q
                == s.last().id by {
                let i = choose|i: int| 0 <= i < s.len() && s[i].id == q;
                if i < pre.len() {
                    assert(pre[i].id == q);
                }
            }
            assert forall|q: u64| #[trigger] has_id(pre, q) implies has_id(s, q) by {
                let i = choose|i: int| 0 <= i < pre.len() && pre[i].id == q;
                assert(s[i].id == q);
            }
            assert(has_id(s, s.last().id)) by {
                assert(s[s.len() - 1].id == s.last().id);
            }
        }
    }
}

/// The ids below `n`, as a set.
spec fn ids_below(n: nat) -> Set<u64> {
    Set::new(|c: u64| (c as nat) < n)
}

/// That set is finite and holds exactly `n` ids.
proof fn lemma_ids_below(n: nat)
    requires
        n <= u64::MAX as nat + 1,
    ensures
        ids_below(n).finite(),
        ids_below(n).len() == n,
    decreases n,
{
    if n == 0 {
        assert(ids_below(0) =~= Set::<u64>::empty());
    } else {
        lemma_ids_below((n - 1) as nat);
        assert(ids_below(n) =~= ids_below((n - 1) as nat).insert((n - 1) as u64));
    }
}

/// The table of granted leases, keyed by lease id, valued by grant time.
pub struct InhibitionLedger {
    leases: Vec<Lease>,
}

impl View for InhibitionLedger {
    type V = Map<u64, u64>;

    closed spec fn view(&self) -> Map<u64, u64> {
        table_of(self.leases@)
    }
}

impl InhibitionLedger {
    /// The internal table never records an id twice.
    pub closed spec fn wf(&self) -> bool {
        unique_ids(self.leases@)
    }

    /// An empty ledger.
    pub fn new() -> (r: InhibitionLedger)
        ensures
            r@ == Map::<u64, u64>::empty(),
            r.wf(),
            r@.dom().finite(),
    {
        let r = InhibitionLedger { leases: Vec::new() };
        proof {
            assert(r@ =~= Map::<u64, u64>::empty());
        }
        r
    }

    /// Whether a lease with the id `k` is on record.
    fn holds_id(&self, k: u64) -> (r: bool)
        ensures
            r == self@.dom().contains(k),
    {
        let n = self.leases.len();
        let mut i: usize = 0;
        while i < n
            invariant
                n == self.leases.len(),
                i <= n,
                forall|j: int| 0 <= j < i ==> self.leases@[j].id != k,
            decreases n - i,
        {
            if self.leases[i].id == k {
                assert(has_id(self.leases@, k)) by {
                    assert(self.leases@[i as int].id == k);
                }
                return true;
            }
            i += 1;
        }
        assert(!has_id(self.leases@, k));
        false
    }

    /// Drop every lease that is no longer live at `now`.
    pub fn purge_expired(&mut self, now: u64)
        requires
            old(self).wf(),
        ensures
            final(self).wf(),
            final(self)@ == purge_model(old(self)@, now),
            final(self)@.dom().finite(),
    {
        let ghost orig = self.leases@;
        let n = self.leases.len();
        let mut out: Vec<Lease> = Vec::new();
        let mut i: usize = 0;
        while i < n
            invariant
                n == self.leases.len(),
                self.leases@ == orig,
                i <= n,
                out@ == live_leases(orig.take(i as int), now),
            decreases n - i,
        {
            let granted = self.leases[i].granted_at;
            proof {
                let t = orig.take(i + 1);
                assert(t.drop_last() =~= orig.take(i as int));
                assert(t.last() == orig[i as int]);
            }
            if now < granted || now - granted < LEASE_EXPIRY_MS {
                let l = Lease { id: self.leases[i].id, granted_at: granted };
                assert(l == orig[i as int]);
                out.push(l);
            }
            i += 1;
        }
        assert(orig.take(n as int) =~= orig);
        proof {
            lemma_live_leases_table(orig, now);
            lemma_table_finite(live_leases(orig, now));
        }
        self.leases = out;
    }

    /// Purge, then say whether any lease still inhibits recording at `now`.
    pub fn is_inhibited(&mut self, now: u64) -> (r: bool)
        requires
            old(self).wf(),
        ensures
            final(self).wf(),
            final(self)@ == purge_model(old(self)@, now),
            final(self)@.dom().finite(),
            r == inhibited_model(old(self)@, now),
    {
        self.purge_expired(now);
        let r = self.leases.len() > 0;
        proof {
            let m = old(self)@;
            if r {
                let l = self.leases@[0];
                assert(has_id(self.leases@, l.id)) by {
                    assert(self.leases@[0].id == l.id);
                }
                assert(self@.dom().contains(l.id));
                assert(m.dom().contains(l.id) && lease_live(m[l.id], now));
            } else {
                if inhibited_model(m, now) {
                    let k = choose|k: u64| m.dom().contains(k) && lease_live(m[k], now);
                    assert(self@.dom().contains(k));
                    let i = choose|i: int|
                        0 <= i < self.leases@.len() && self.leases@[i].id == k;
                    assert(false);
                }
            }
        }
        r
    }

    /// Record or renew the lease `k` as granted at `now`.
    fn put(&mut self, k: u64, now: u64)
        requires
            old(self).wf(),
        ensures
            final(self).wf(),
            final(self)@ == old(self)@.insert(k, now),
            final(self)@.dom().finite(),
    {
        let ghost orig = self.leases@;
        let n = self.leases.len();
        let mut out: Vec<Lease> = Vec::new();
        let mut i: usize = 0;
        while i < n
            invariant
                n == self.leases.len(),
                self.leases@ == orig,
                i <= n,
                out@ == leases_without(orig.take(i as int), k),
            decreases n - i,
        {
            let entry_id = self.leases[i].id;
            proof {
                let t = orig.take(i + 1);
                assert(t.drop_last() =~= orig.take(i as int));
                assert(t.last() == orig[i as int]);
            }
            if entry_id != k {
                let l = Lease { id: entry_id, granted_at: self.leases[i].granted_at };
                assert(l == orig[i as int]);
                out.push(l);
            }
            i += 1;
        }
        assert(orig.take(n as int) =~= orig);
        proof {
            lemma_leases_without_table(orig, k);
        }
        let ghost without = leases_without(orig, k);
        assert(!has_id(without, k)) by {
            if has_id(without, k) {
                assert(table_of(without).dom().contains(k));
            }
        }
        out.push(Lease { id: k, granted_at: now });
        proof {
            lemma_push_table(without, Lease { id: k, granted_at: now });
            assert(table_of(without).insert(k, now) =~= table_of(orig).insert(k, now));
            lemma_table_finite(without.push(Lease { id: k, granted_at: now }));
        }
        self.leases = out;
    }

    /// Grant or renew a lease: with `Some(k)` the lease `k` is (re)granted at
    /// `now`; with `None` a lease under the smallest unused id is granted.
    /// The returned id is the one recorded.
    pub fn inhibit(&mut self, lease: Option<u64>, now: u64) -> (r: u64)
        requires
            old(self).wf(),
        ensures
            final(self).wf(),
            final(self)@ == old(self)@.insert(r, now),
            final(self)@.dom().finite(),
            match lease {
                Some(k) => r == k,
                None => r == fresh_lease_id(old(self)@) && is_fresh_lease_id(old(self)@, r),
            },
    {
        let k = match lease {
            Some(k) => k,
            None => self.fresh_id(),
        };
        self.put(k, now);
        k
    }

    /// Drop the lease `k` at once, expired or not.
    pub fn release(&mut self, k: u64)
        requires
            old(self).wf(),
        ensures
            final(self).wf(),
            final(self)@ == old(self)@.remove(k),
            final(self)@.dom().finite(),
    {
        let ghost orig = self.leases@;
        let n = self.leases.len();
        let mut out: Vec<Lease> = Vec::new();
        let mut i: usize = 0;
        while i < n
            invariant
                n == self.leases.len(),
                self.leases@ == orig,
                i <= n,
                out@ == leases_without(orig.take(i as int), k),
            decreases n - i,
        {
            let entry_id = self.leases[i].id;
            proof {
                let t = orig.take(i + 1);
                assert(t.drop_last() =~= orig.take(i as int));
                assert(t.last() == orig[i as int]);
            }
            if entry_id != k {
                let l = Lease { id: entry_id, granted_at: self.leases[i].granted_at };
                assert(l == orig[i as int]);
                out.push(l);
            }
            i += 1;
        }
        assert(orig.take(n as int) =~= orig);
        proof {
            lemma_leases_without_table(orig, k);
            lemma_table_finite(leases_without(orig, k));
        }
        self.leases = out;
    }

    /// The smallest id no lease is recorded under. Scanning the first
    /// `len + 1` candidates must find one, for the table holds only `len`
    /// ids.
    fn fresh_id(&self) -> (r: u64)
        ensures
            is_fresh_lease_id(self@, r),
            r == fresh_lease_id(self@),
    {
        let n = self.leases.len();
        let mut c: u64 = 0;
        let bound: u64 = n as u64;
        while c < bound
            invariant
                bound == self.leases@.len(),
                c <= bound,
                forall|d: u64| d < c ==> self@.dom().contains(d),
            decreases bound - c,
        {
            if !self.holds_id(c) {
                proof {
                    assert(is_fresh_lease_id(self@, c));
                    let w = choose|id: u64| is_fresh_lease_id(self@, id);
                    lemma_fresh_lease_id_unique(self@, c, w);
                }
                return c;
            }
            c += 1;
        }
        if !self.holds_id(bound) {
            proof {
                assert(is_fresh_lease_id(self@, bound));
                let w = choose|id: u64| is_fresh_lease_id(self@, id);
                lemma_fresh_lease_id_unique(self@, bound, w);
            }
            return bound;
        }
        proof {
            lemma_table_finite(self.leases@);
            lemma_ids_below(bound as nat + 1);
            assert(ids_below(bound as nat + 1).subset_of(self@.dom())) by {
                assert forall|d: u64| ids_below(bound as nat + 1).contains(d) implies self@.dom(
                ).contains(d) by {
                    assert((d as nat) < bound as nat + 1);
                    if d < bound {
                    }
                }
            }
            lemma_len_subset(ids_below(bound as nat + 1), self@.dom());
            assert(false);
        }
        0
    }
}

} // verus!
