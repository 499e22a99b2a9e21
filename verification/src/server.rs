//! The event loop's state machine: the sole owner of the history store and
//! the inhibition ledger. Every input of the daemon is a [`ServerEvent`];
//! handling one yields the next state and an [`Action`] telling the caller
//! what, if anything, to do outside (reply to a client, try focus commands,
//! or quit). The surrounding process drains one ordered event channel and
//! feeds each event here, so all state transitions are serialized.

use vstd::prelude::*;

use crate::history::{focus_insert, seq_without, History};
use crate::history::{lemma_no_duplicates_front, lemma_no_duplicates_take, lemma_seq_without};
use crate::inhibit::{
    fresh_lease_id, inhibited_model, purge_model, InhibitionLedger, LEASE_EXPIRY_MS,
};

verus! {

/// How many windows the history keeps by default.
pub const DEFAULT_CAPACITY: usize = 100;

/// One input of the event loop, already translated to plain values.
#[derive(Debug, PartialEq, Eq)]
pub enum ServerEvent {
    /// The window manager reports that a window took focus.
    WindowFocused(i64),
    /// The window manager reports that a window closed.
    WindowClosed(i64),
    /// The window manager reports that a workspace took focus, so the
    /// window that will receive focus next is not known yet.
    WorkspaceFocused,
    /// A client asks to record a window as focused, inhibited or not.
    PushToHistory(i64),
    /// A client asks to focus the nth most recently used window.
    SwitchTo(usize),
    /// A client asks for the history and the empty-focus flag.
    GetHistory,
    /// A client asks for a new lease, or renews the given one.
    InhibitHistory(Option<u64>),
    /// A client gives a lease back.
    InhibitHistoryRelease(u64),
    /// A source asks the daemon to stop, cleanly or with an error.
    Stop(Option<String>),
}

/// What the caller of [`Server::handle_event`] has to do next.
#[derive(Debug, PartialEq, Eq)]
pub enum Action {
    /// Nothing; read the next event.
    Continue,
    /// Issue a focus command for each id in turn until one succeeds; when
    /// the list is exhausted without a success, report a resolution
    /// failure and carry on.
    FocusCandidates(Vec<i64>),
    /// Send the history snapshot and the empty-focus flag to the client.
    HistoryReply(Vec<i64>, bool),
    /// Send the lease id to the client.
    LeaseReply(u64),
    /// Leave the event loop, with the error carried by the stop event.
    Quit(Option<String>),
}

/// The state of the event loop, as mathematics.
#[verifier::ext_equal]
pub struct StateModel {
    /// The history sequence, most recently focused first.
    pub hist: Seq<i64>,
    /// The bound the history is cut to.
    pub cap: nat,
    /// The lease table, id to grant time.
    pub leases: Map<u64, u64>,
    /// Whether the currently focused window is not reliably known.
    pub empty_focus: bool,
}

/// What an [`Action`] asks for, as mathematics.
#[verifier::ext_equal]
pub enum ActionModel {
    Continue,
    FocusCandidates(Seq<i64>),
    HistoryReply(Seq<i64>, bool),
    LeaseReply(u64),
    Quit(Option<Seq<char>>),
}

impl View for Action {
    type V = ActionModel;

    closed spec fn view(&self) -> ActionModel {
        match self {
            Action::Continue => ActionModel::Continue,
            Action::FocusCandidates(v) => ActionModel::FocusCandidates(v@),
            Action::HistoryReply(v, f) => ActionModel::HistoryReply(v@, *f),
            Action::LeaseReply(k) => ActionModel::LeaseReply(*k),
            Action::Quit(m) => ActionModel::Quit(
                match m {
                    Some(s) => Some(s@),
                    None => None,
                },
            ),
        }
    }
}

/// The state is sound: no window twice, no more than `cap` windows, and a
/// finite lease table.
pub open spec fn model_inv(m: StateModel) -> bool {
    &&& m.hist.no_duplicates()
    &&& m.hist.len() <= m.cap
    &&& m.leases.dom().finite()
}

/// Where the walk over the history starts for a switch request: at `n`
/// when the front entry is the currently focused window, one earlier when
/// the current focus is not known, because the front entry is then the
/// window the client counts from.
pub open spec fn start_index(n: nat, empty_focus: bool) -> nat {
    if empty_focus {
        if n == 0 {
            0
        } else {
            (n - 1) as nat
        }
    } else {
        n
    }
}

/// The candidates a switch request tries, in order: the history from the
/// start index on.
pub open spec fn switch_candidates_model(h: Seq<i64>, n: nat, empty_focus: bool) -> Seq<i64> {
    let k = start_index(n, empty_focus);
    if k < h.len() {
        h.skip(k as int)
    } else {
        Seq::empty()
    }
}

/// One transition of the event loop: from a state and an event, at the
/// time `now` (milliseconds), to the next state and the action owed.
///
/// The empty-focus flag is cleared by every focus event, inhibited or
/// not: a focus event means the current focus is known again. A switch
/// request does not touch the flag itself; the focus command it issues
/// makes the window manager emit a focus event, and that event clears it.
pub open spec fn step(m: StateModel, ev: ServerEvent, now: u64) -> (StateModel, ActionModel) {
    match ev {
        ServerEvent::WindowFocused(id) => (
            StateModel {
                hist: if inhibited_model(m.leases, now) {
                    m.hist
                } else {
                    focus_insert(m.hist, id, m.cap)
                },
                cap: m.cap,
                leases: purge_model(m.leases, now),
                empty_focus: false,
            },
            ActionModel::Continue,
        ),
        ServerEvent::WindowClosed(id) => (
            StateModel {
                hist: seq_without(m.hist, id),
                cap: m.cap,
                leases: m.leases,
                empty_focus: true,
            },
            ActionModel::Continue,
        ),
        ServerEvent::WorkspaceFocused => (
            StateModel { hist: m.hist, cap: m.cap, leases: m.leases, empty_focus: true },
            ActionModel::Continue,
        ),
        ServerEvent::PushToHistory(id) => (
            StateModel {
                hist: focus_insert(m.hist, id, m.cap),
                cap: m.cap,
                leases: m.leases,
                empty_focus: m.empty_focus,
            },
            ActionModel::Continue,
        ),
        ServerEvent::SwitchTo(n) => (
            m,
            ActionModel::FocusCandidates(
                switch_candidates_model(m.hist, n as nat, m.empty_focus),
            ),
        ),
        ServerEvent::GetHistory => (m, ActionModel::HistoryReply(m.hist, m.empty_focus)),
        ServerEvent::InhibitHistory(lease) => {
            let k = match lease {
                Some(k) => k,
                None => fresh_lease_id(m.leases),
            };
            (
                StateModel {
                    hist: m.hist,
                    cap: m.cap,
                    leases: m.leases.insert(k, now),
                    empty_focus: m.empty_focus,
                },
                ActionModel::LeaseReply(k),
            )
        },
        ServerEvent::InhibitHistoryRelease(k) => (
            StateModel {
                hist: m.hist,
                cap: m.cap,
                leases: m.leases.remove(k),
                empty_focus: m.empty_focus,
            },
            ActionModel::Continue,
        ),
        ServerEvent::Stop(res) => (
            m,
            ActionModel::Quit(
                match res {
                    Some(s) => Some(s@),
                    None => None,
                },
            ),
        ),
    }
}

/// The state after a whole sequence of timed events, oldest first.
pub open spec fn run(m: StateModel, evs: Seq<(ServerEvent, u64)>) -> StateModel
    decreases evs.len(),
{
    if evs.len() == 0 {
        m
    } else {
        step(run(m, evs.drop_last()), evs.last().0, evs.last().1).0
    }
}

/// One transition keeps the state sound and never changes the capacity.
pub proof fn lemma_step_preserves_inv(m: StateModel, ev: ServerEvent, now: u64)
    requires
        model_inv(m),
    ensures
        model_inv(step(m, ev, now).0),
        step(m, ev, now).0.cap == m.cap,
{
    let m1 = step(m, ev, now).0;
    match ev {
        ServerEvent::WindowFocused(id) => {
            lemma_focus_insert_inv(m.hist, id, m.cap);
            assert(m1.leases.dom().finite()) by {
                lemma_purge_dom_finite(m.leases, now);
            }
        },
        ServerEvent::WindowClosed(id) => {
            lemma_seq_without(m.hist, id);
        },
        ServerEvent::PushToHistory(id) => {
            lemma_focus_insert_inv(m.hist, id, m.cap);
        },
        ServerEvent::InhibitHistory(lease) => {
            let k = match lease {
                Some(k) => k,
                None => fresh_lease_id(m.leases),
            };
            assert(m1.leases.dom() =~= m.leases.dom().insert(k));
        },
        ServerEvent::InhibitHistoryRelease(k) => {
            assert(m1.leases.dom() =~= m.leases.dom().remove(k));
        },
        _ => {},
    }
}

/// Purging never invents a lease, so the purged table stays finite.
proof fn lemma_purge_dom_finite(leases: Map<u64, u64>, now: u64)
    requires
        leases.dom().finite(),
    ensures
        purge_model(leases, now).dom().finite(),
{
    assert(purge_model(leases, now).dom().subset_of(leases.dom()));
    vstd::set_lib::lemma_len_subset(purge_model(leases, now).dom(), leases.dom());
}

/// A focus event keeps the history free of duplicates and within `cap`.
proof fn lemma_focus_insert_inv(s: Seq<i64>, id: i64, cap: nat)
    requires
        s.no_duplicates(),
    ensures
        focus_insert(s, id, cap).no_duplicates(),
        focus_insert(s, id, cap).len() <= cap,
{
    lemma_seq_without(s, id);
    lemma_no_duplicates_front(seq_without(s, id), id);
    let moved = seq![id] + seq_without(s, id);
    if moved.len() > cap {
        lemma_no_duplicates_take(moved, cap as int);
    }
}

/// Whatever events arrive, in whatever order and at whatever times, the
/// history never records a window twice and never outgrows its capacity.
pub proof fn lemma_history_always_bounded(m: StateModel, evs: Seq<(ServerEvent, u64)>)
    requires
        model_inv(m),
    ensures
        model_inv(run(m, evs)),
        run(m, evs).cap == m.cap,
        run(m, evs).hist.no_duplicates(),
        run(m, evs).hist.len() <= m.cap,
    decreases evs.len(),
{
    if evs.len() > 0 {
        lemma_history_always_bounded(m, evs.drop_last());
        lemma_step_preserves_inv(run(m, evs.drop_last()), evs.last().0, evs.last().1);
    }
}

/// While at least one live lease inhibits recording, a focus event leaves
/// the history unchanged.
pub proof fn lemma_focus_while_inhibited(m: StateModel, id: i64, now: u64)
    requires
        inhibited_model(m.leases, now),
    ensures
        step(m, ServerEvent::WindowFocused(id), now).0.hist == m.hist,
{
}

/// Once the sole active lease is released, the next focus event updates
/// the history again.
pub proof fn lemma_focus_after_release(
    m: StateModel,
    l: u64,
    id: i64,
    now1: u64,
    now2: u64,
)
    requires
        forall|k: u64| #[trigger] m.leases.dom().contains(k) ==> k == l,
    ensures
        ({
            let m1 = step(m, ServerEvent::InhibitHistoryRelease(l), now1).0;
            step(m1, ServerEvent::WindowFocused(id), now2).0.hist == focus_insert(
                m1.hist,
                id,
                m1.cap,
            )
        }),
{
    let m1 = step(m, ServerEvent::InhibitHistoryRelease(l), now1).0;
    assert(!inhibited_model(m1.leases, now2)) by {
        if inhibited_model(m1.leases, now2) {
            let k = choose|k: u64| m1.leases.dom().contains(k) && crate::inhibit::lease_live(
                m1.leases[k],
                now2,
            );
            assert(m.leases.dom().contains(k));
        }
    }
}

/// An explicit push updates the history even while inhibited: its effect
/// does not depend on the lease table at all.
pub proof fn lemma_push_always_updates(m: StateModel, id: i64, now: u64)
    ensures
        step(m, ServerEvent::PushToHistory(id), now).0.hist == focus_insert(m.hist, id, m.cap),
        step(m, ServerEvent::PushToHistory(id), now).0.leases == m.leases,
{
}

/// A focus event at a time when every lease has gone unrenewed for the
/// expiry window or longer updates the history: expired leases no longer
/// inhibit.
pub proof fn lemma_focus_after_expiry(m: StateModel, id: i64, now: u64)
    requires
        forall|k: u64| #[trigger] m.leases.dom().contains(k) ==> now - m.leases[k]
            >= LEASE_EXPIRY_MS,
    ensures
        step(m, ServerEvent::WindowFocused(id), now).0.hist == focus_insert(m.hist, id, m.cap),
{
    crate::inhibit::lemma_expired_leases_do_not_inhibit(m.leases, now);
}

/// Read-only requests read a consistent whole: a history request replies
/// with exactly the state's history and flag and changes nothing, and a
/// switch request changes nothing either.
pub proof fn lemma_reads_are_consistent(m: StateModel, n: usize, now: u64)
    ensures
        step(m, ServerEvent::GetHistory, now).0 == m,
        step(m, ServerEvent::GetHistory, now).1 == ActionModel::HistoryReply(
            m.hist,
            m.empty_focus,
        ),
        step(m, ServerEvent::SwitchTo(n), now).0 == m,
{
}

/// The candidates a switch request tries, in order. See
/// [`switch_candidates_model`] for the start index rule.
pub fn switch_candidates(hist: &Vec<i64>, n: usize, empty_focus: bool) -> (r: Vec<i64>)
    ensures
        r@ == switch_candidates_model(hist@, n as nat, empty_focus),
{
    let k = if empty_focus {
        if n == 0 {
            0
        } else {
            n - 1
        }
    } else {
        n
    };
    let mut out: Vec<i64> = Vec::new();
    if k >= hist.len() {
        assert(out@ =~= switch_candidates_model(hist@, n as nat, empty_focus));
        return out;
    }
    let mut i: usize = k;
    while i < hist.len()
        invariant
            k <= i <= hist.len(),
            k < hist.len(),
            out@ == hist@.subrange(k as int, i as int),
        decreases hist.len() - i,
    {
        out.push(hist[i]);
        assert(out@ =~= hist@.subrange(k as int, i + 1));
        i += 1;
    }
    assert(out@ =~= hist@.skip(k as int));
    out
}

/// The event a wire command turns into.
pub open spec fn event_of_cmd_model(c: crate::protocol::Cmd) -> ServerEvent {
    match c {
        crate::protocol::Cmd::SwitchTo(n) => ServerEvent::SwitchTo(n),
        crate::protocol::Cmd::GetHistory => ServerEvent::GetHistory,
        crate::protocol::Cmd::PushToHistory(id) => ServerEvent::PushToHistory(id),
        crate::protocol::Cmd::InhibitHistory(lease) => ServerEvent::InhibitHistory(lease),
        crate::protocol::Cmd::InhibitHistoryRelease(k) => ServerEvent::InhibitHistoryRelease(k),
    }
}

/// Turn a decoded wire command into the event the loop handles.
pub fn event_of_cmd(c: &crate::protocol::Cmd) -> (r: ServerEvent)
    ensures
        r == event_of_cmd_model(*c),
{
    match c {
        crate::protocol::Cmd::SwitchTo(n) => ServerEvent::SwitchTo(*n),
        crate::protocol::Cmd::GetHistory => ServerEvent::GetHistory,
        crate::protocol::Cmd::PushToHistory(id) => ServerEvent::PushToHistory(*id),
        crate::protocol::Cmd::InhibitHistory(lease) => ServerEvent::InhibitHistory(*lease),
        crate::protocol::Cmd::InhibitHistoryRelease(k) => ServerEvent::InhibitHistoryRelease(
            *k,
        ),
    }
}

/// The event loop's state: the history store, the lease table, the
/// capacity, and whether the current focus is known. Starts empty, with
/// the focus unknown until the first focus event.
pub struct Server {
    history: History,
    ledger: InhibitionLedger,
    capacity: usize,
    empty_focus: bool,
}

impl View for Server {
    type V = StateModel;

    closed spec fn view(&self) -> StateModel {
        StateModel {
            hist: self.history@,
            cap: self.capacity as nat,
            leases: self.ledger@,
            empty_focus: self.empty_focus,
        }
    }
}

impl Server {
    /// The state is sound; every constructor establishes this and every
    /// method keeps it. It carries [`model_inv`] of the view.
    pub closed spec fn wf(&self) -> bool {
        &&& model_inv(self@)
        &&& self.ledger.wf()
    }

    /// What well-formedness guarantees about the visible state.
    pub proof fn lemma_wf_inv(&self)
        requires
            self.wf(),
        ensures
            model_inv(self@),
    {
    }

    /// A fresh server: empty history, empty ledger, focus not yet known.
    pub fn new(capacity: usize) -> (r: Server)
        ensures
            r.wf(),
            r@ == (StateModel {
                hist: Seq::<i64>::empty(),
                cap: capacity as nat,
                leases: Map::<u64, u64>::empty(),
                empty_focus: true,
            }),
    {
        Server {
            history: History::new(),
            ledger: InhibitionLedger::new(),
            capacity,
            empty_focus: true,
        }
    }

    /// The capacity the history is held to.
    pub fn capacity(&self) -> (r: usize)
        ensures
            r == self@.cap,
    {
        self.capacity
    }

    /// Handle one event at time `now_ms` and say what to do next. This is
    /// the single place the history and the ledger change, so a caller
    /// that feeds it events one at a time gets exactly the transitions of
    /// [`step`], in order.
    pub fn handle_event(&mut self, ev: ServerEvent, now_ms: u64) -> (r: Action)
        requires
            old(self).wf(),
        ensures
            final(self).wf(),
            final(self)@ == step(old(self)@, ev, now_ms).0,
            r@ == step(old(self)@, ev, now_ms).1,
    {
        proof {
            lemma_step_preserves_inv(old(self)@, ev, now_ms);
        }
        match ev {
            ServerEvent::WindowFocused(id) => {
                let inhibited = self.ledger.is_inhibited(now_ms);
                if !inhibited {
                    self.history.move_to_front_or_insert(id);
                    self.history.truncate(self.capacity);
                }
                self.empty_focus = false;
                Action::Continue
            },
            ServerEvent::WindowClosed(id) => {
                self.history.remove(id);
                self.empty_focus = true;
                Action::Continue
            },
            ServerEvent::WorkspaceFocused => {
                self.empty_focus = true;
                Action::Continue
            },
            ServerEvent::PushToHistory(id) => {
                self.history.move_to_front_or_insert(id);
                self.history.truncate(self.capacity);
                Action::Continue
            },
            ServerEvent::SwitchTo(n) => {
                let snap = self.history.snapshot();
                let candidates = switch_candidates(&snap, n, self.empty_focus);
                Action::FocusCandidates(candidates)
            },
            ServerEvent::GetHistory => {
                Action::HistoryReply(self.history.snapshot(), self.empty_focus)
            },
            ServerEvent::InhibitHistory(lease) => {
                let k = self.ledger.inhibit(lease, now_ms);
                Action::LeaseReply(k)
            },
            ServerEvent::InhibitHistoryRelease(k) => {
                self.ledger.release(k);
                Action::Continue
            },
            ServerEvent::Stop(res) => Action::Quit(res),
        }
    }
}

} // verus!
