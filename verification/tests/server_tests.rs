use i3_focus_last::server::{Action, Server, ServerEvent};

fn snapshot(server: &mut Server, now: u64) -> (Vec<i64>, bool) {
    match server.handle_event(ServerEvent::GetHistory, now) {
        Action::HistoryReply(h, f) => (h, f),
        other => panic!("expected a history reply, got {:?}", other),
    }
}

#[test]
fn focus_events_build_recency_order() {
    let mut s = Server::new(100);
    assert_eq!(s.handle_event(ServerEvent::WindowFocused(1), 0), Action::Continue);
    assert_eq!(s.handle_event(ServerEvent::WindowFocused(2), 1), Action::Continue);
    assert_eq!(s.handle_event(ServerEvent::WindowFocused(3), 2), Action::Continue);
    let (h, empty) = snapshot(&mut s, 3);
    assert_eq!(h, vec![3, 2, 1]);
    assert!(!empty);
}

#[test]
fn refocus_moves_to_front_without_duplicates() {
    // focus A, focus B, focus A: the history holds each id once, the
    // refocused window in front, never [A, B, A]
    let mut s = Server::new(100);
    s.handle_event(ServerEvent::WindowFocused(10), 0);
    s.handle_event(ServerEvent::WindowFocused(20), 1);
    s.handle_event(ServerEvent::WindowFocused(10), 2);
    let (h, _) = snapshot(&mut s, 3);
    assert_eq!(h.len(), 2);
    assert_eq!(h, vec![10, 20]);
}

#[test]
fn capacity_bounds_history() {
    let mut s = Server::new(100);
    for id in 0..250i64 {
        s.handle_event(ServerEvent::WindowFocused(id), id as u64);
    }
    let (h, _) = snapshot(&mut s, 300);
    assert_eq!(h.len(), 100);
    assert_eq!(h[0], 249);
    assert_eq!(h[99], 150);
    for i in 0..h.len() {
        for j in 0..i {
            assert_ne!(h[i], h[j]);
        }
    }
}

#[test]
fn small_capacity_drops_oldest() {
    let mut s = Server::new(2);
    s.handle_event(ServerEvent::WindowFocused(1), 0);
    s.handle_event(ServerEvent::WindowFocused(2), 0);
    s.handle_event(ServerEvent::WindowFocused(3), 0);
    let (h, _) = snapshot(&mut s, 0);
    assert_eq!(h, vec![3, 2]);
}

#[test]
fn close_removes_and_marks_focus_unknown() {
    let mut s = Server::new(100);
    s.handle_event(ServerEvent::WindowFocused(1), 0);
    s.handle_event(ServerEvent::WindowFocused(2), 0);
    s.handle_event(ServerEvent::WindowClosed(1), 1);
    let (h, empty) = snapshot(&mut s, 2);
    assert_eq!(h, vec![2]);
    assert!(empty);
}

#[test]
fn workspace_focus_marks_focus_unknown() {
    let mut s = Server::new(100);
    s.handle_event(ServerEvent::WindowFocused(1), 0);
    s.handle_event(ServerEvent::WorkspaceFocused, 1);
    let (h, empty) = snapshot(&mut s, 2);
    assert_eq!(h, vec![1]);
    assert!(empty);
}

#[test]
fn focus_while_inhibited_leaves_history_unchanged() {
    let mut s = Server::new(100);
    s.handle_event(ServerEvent::WindowFocused(5), 0);
    let lease = match s.handle_event(ServerEvent::InhibitHistory(None), 10) {
        Action::LeaseReply(k) => k,
        other => panic!("expected a lease reply, got {:?}", other),
    };
    s.handle_event(ServerEvent::WindowFocused(7), 20);
    let (h, _) = snapshot(&mut s, 30);
    assert_eq!(h, vec![5]);
    // after the sole lease is released, the same event updates the history
    s.handle_event(ServerEvent::InhibitHistoryRelease(lease), 40);
    s.handle_event(ServerEvent::WindowFocused(7), 50);
    let (h, _) = snapshot(&mut s, 60);
    assert_eq!(h, vec![7, 5]);
}

#[test]
fn push_to_history_ignores_inhibition() {
    let mut s = Server::new(100);
    s.handle_event(ServerEvent::WindowFocused(5), 0);
    s.handle_event(ServerEvent::InhibitHistory(None), 10);
    s.handle_event(ServerEvent::PushToHistory(9), 20);
    let (h, _) = snapshot(&mut s, 30);
    assert_eq!(h, vec![9, 5]);
}

#[test]
fn expired_lease_no_longer_inhibits() {
    let mut s = Server::new(100);
    s.handle_event(ServerEvent::InhibitHistory(None), 0);
    // one millisecond short of the expiry window: still inhibited
    s.handle_event(ServerEvent::WindowFocused(1), 4999);
    let (h, _) = snapshot(&mut s, 4999);
    assert_eq!(h, Vec::<i64>::new());
    // at the expiry window: no longer inhibited
    s.handle_event(ServerEvent::WindowFocused(1), 5000);
    let (h, _) = snapshot(&mut s, 5000);
    assert_eq!(h, vec![1]);
}

#[test]
fn renewing_a_lease_extends_inhibition() {
    let mut s = Server::new(100);
    let lease = match s.handle_event(ServerEvent::InhibitHistory(None), 0) {
        Action::LeaseReply(k) => k,
        other => panic!("expected a lease reply, got {:?}", other),
    };
    match s.handle_event(ServerEvent::InhibitHistory(Some(lease)), 4000) {
        Action::LeaseReply(k) => assert_eq!(k, lease),
        other => panic!("expected a lease reply, got {:?}", other),
    }
    // 8000 is past the first grant's window but inside the renewed one
    s.handle_event(ServerEvent::WindowFocused(1), 8000);
    let (h, _) = snapshot(&mut s, 8000);
    assert_eq!(h, Vec::<i64>::new());
}

#[test]
fn fresh_lease_ids_are_smallest_unused() {
    let mut s = Server::new(100);
    let a = match s.handle_event(ServerEvent::InhibitHistory(None), 0) {
        Action::LeaseReply(k) => k,
        other => panic!("expected a lease reply, got {:?}", other),
    };
    let b = match s.handle_event(ServerEvent::InhibitHistory(None), 0) {
        Action::LeaseReply(k) => k,
        other => panic!("expected a lease reply, got {:?}", other),
    };
    assert_eq!(a, 0);
    assert_eq!(b, 1);
    s.handle_event(ServerEvent::InhibitHistoryRelease(0), 1);
    let c = match s.handle_event(ServerEvent::InhibitHistory(None), 1) {
        Action::LeaseReply(k) => k,
        other => panic!("expected a lease reply, got {:?}", other),
    };
    assert_eq!(c, 0);
}

#[test]
fn switch_to_first_tries_second_then_third() {
    // history [A, B, C] with the focus known: SwitchTo(1) tries B first,
    // then C, and the history itself stays untouched
    let mut s = Server::new(100);
    s.handle_event(ServerEvent::WindowFocused(3), 0);
    s.handle_event(ServerEvent::WindowFocused(2), 1);
    s.handle_event(ServerEvent::WindowFocused(1), 2);
    let candidates = match s.handle_event(ServerEvent::SwitchTo(1), 3) {
        Action::FocusCandidates(c) => c,
        other => panic!("expected focus candidates, got {:?}", other),
    };
    assert_eq!(candidates, vec![2, 3]);
    let (h, _) = snapshot(&mut s, 4);
    assert_eq!(h, vec![1, 2, 3]);
}

#[test]
fn switch_with_unknown_focus_starts_at_front() {
    // with the empty-focus flag set, SwitchTo(1) starts at A, not B
    let mut s = Server::new(100);
    s.handle_event(ServerEvent::WindowFocused(3), 0);
    s.handle_event(ServerEvent::WindowFocused(2), 1);
    s.handle_event(ServerEvent::WindowFocused(1), 2);
    s.handle_event(ServerEvent::WorkspaceFocused, 3);
    let candidates = match s.handle_event(ServerEvent::SwitchTo(1), 4) {
        Action::FocusCandidates(c) => c,
        other => panic!("expected focus candidates, got {:?}", other),
    };
    assert_eq!(candidates, vec![1, 2, 3]);
}

#[test]
fn switch_past_the_history_has_no_candidates() {
    let mut s = Server::new(100);
    s.handle_event(ServerEvent::WindowFocused(1), 0);
    let candidates = match s.handle_event(ServerEvent::SwitchTo(5), 1) {
        Action::FocusCandidates(c) => c,
        other => panic!("expected focus candidates, got {:?}", other),
    };
    assert_eq!(candidates, Vec::<i64>::new());
}

#[test]
fn interleaved_reads_see_whole_states() {
    // every reply reflects a complete state: the one after the events
    // handled so far, never a partial update
    let mut s = Server::new(100);
    let mut expected: Vec<i64> = Vec::new();
    for id in 1..20i64 {
        s.handle_event(ServerEvent::WindowFocused(id), id as u64);
        expected.insert(0, id);
        let (h, empty) = snapshot(&mut s, id as u64);
        assert_eq!(h, expected);
        assert!(!empty);
        let candidates = match s.handle_event(ServerEvent::SwitchTo(1), id as u64) {
            Action::FocusCandidates(c) => c,
            other => panic!("expected focus candidates, got {:?}", other),
        };
        assert_eq!(candidates, expected[1..].to_vec());
    }
}

#[test]
fn stop_carries_its_outcome() {
    let mut s = Server::new(100);
    assert_eq!(s.handle_event(ServerEvent::Stop(None), 0), Action::Quit(None));
    let msg = String::from("subscription lost");
    assert_eq!(
        s.handle_event(ServerEvent::Stop(Some(msg.clone())), 1),
        Action::Quit(Some(msg))
    );
}
