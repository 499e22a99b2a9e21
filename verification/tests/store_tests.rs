use i3_focus_last::escape::html_escape;
use i3_focus_last::tree::{focused_window, WmNode};
use i3_focus_last::history::History;
use i3_focus_last::inhibit::InhibitionLedger;
use i3_focus_last::menu::{order_windows_by_history, WindowsSortStyle};
use i3_focus_last::server::switch_candidates;

#[test]
fn history_moves_to_front_and_deduplicates() {
    let mut h = History::new();
    h.move_to_front_or_insert(1);
    h.move_to_front_or_insert(2);
    h.move_to_front_or_insert(3);
    assert_eq!(h.snapshot(), vec![3, 2, 1]);
    h.move_to_front_or_insert(1);
    assert_eq!(h.snapshot(), vec![1, 3, 2]);
    assert_eq!(h.len(), 3);
}

#[test]
fn history_remove_takes_one_id_out() {
    let mut h = History::new();
    h.move_to_front_or_insert(1);
    h.move_to_front_or_insert(2);
    h.move_to_front_or_insert(3);
    h.remove(2);
    assert_eq!(h.snapshot(), vec![3, 1]);
    h.remove(9);
    assert_eq!(h.snapshot(), vec![3, 1]);
}

#[test]
fn history_truncate_keeps_the_front() {
    let mut h = History::new();
    for id in 1..=5i64 {
        h.move_to_front_or_insert(id);
    }
    h.truncate(3);
    assert_eq!(h.snapshot(), vec![5, 4, 3]);
    h.truncate(10);
    assert_eq!(h.snapshot(), vec![5, 4, 3]);
}

#[test]
fn ledger_lazy_expiry() {
    let mut l = InhibitionLedger::new();
    assert!(!l.is_inhibited(0));
    let a = l.inhibit(None, 0);
    assert_eq!(a, 0);
    assert!(l.is_inhibited(4999));
    assert!(!l.is_inhibited(5000));
    // the expired lease was purged; a fresh grant reuses its id
    let b = l.inhibit(None, 5000);
    assert_eq!(b, 0);
}

#[test]
fn ledger_release_is_immediate() {
    let mut l = InhibitionLedger::new();
    let a = l.inhibit(None, 0);
    assert!(l.is_inhibited(1));
    l.release(a);
    assert!(!l.is_inhibited(1));
}

#[test]
fn ledger_holds_many_leases() {
    let mut l = InhibitionLedger::new();
    let a = l.inhibit(None, 0);
    let b = l.inhibit(None, 1000);
    assert_ne!(a, b);
    // the first lease expires; the second still inhibits
    assert!(l.is_inhibited(5500));
    l.release(b);
    assert!(!l.is_inhibited(5500));
}

#[test]
fn switch_candidates_follow_start_rule() {
    let hist = vec![1, 2, 3];
    assert_eq!(switch_candidates(&hist, 1, false), vec![2, 3]);
    assert_eq!(switch_candidates(&hist, 1, true), vec![1, 2, 3]);
    assert_eq!(switch_candidates(&hist, 0, false), vec![1, 2, 3]);
    assert_eq!(switch_candidates(&hist, 0, true), vec![1, 2, 3]);
    assert_eq!(switch_candidates(&hist, 2, false), vec![3]);
    assert_eq!(switch_candidates(&hist, 3, false), Vec::<i64>::new());
    assert_eq!(switch_candidates(&Vec::new(), 1, false), Vec::<i64>::new());
}

#[test]
fn escape_replaces_reserved_characters() {
    let input: Vec<char> = "a&<b>\"c'".chars().collect();
    let out: String = html_escape(&input).into_iter().collect();
    assert_eq!(out, "a&amp;&lt;b&gt;&quot;c&#39;");
    let plain: Vec<char> = "plain text".chars().collect();
    let out: String = html_escape(&plain).into_iter().collect();
    assert_eq!(out, "plain text");
    let empty: Vec<char> = Vec::new();
    assert_eq!(html_escape(&empty), Vec::<char>::new());
}

#[test]
fn picker_order_puts_known_windows_first() {
    let hist = vec![3, 1, 2];
    let present = vec![5, 2, 1, 3];
    assert_eq!(
        order_windows_by_history(&hist, &present, WindowsSortStyle::CurrentLast),
        vec![1, 2, 5, 3]
    );
    assert_eq!(
        order_windows_by_history(&hist, &present, WindowsSortStyle::CurrentFirst),
        vec![3, 1, 2, 5]
    );
}

#[test]
fn picker_order_with_empty_inputs() {
    assert_eq!(
        order_windows_by_history(&Vec::new(), &vec![4, 5], WindowsSortStyle::CurrentLast),
        vec![4, 5]
    );
    assert_eq!(
        order_windows_by_history(&vec![1, 2], &Vec::new(), WindowsSortStyle::CurrentFirst),
        Vec::<i64>::new()
    );
}

#[test]
fn focus_chain_walk_finds_the_focused_view() {
    let leaf = |id: i64, focused: bool| WmNode {
        id,
        focused,
        focus: Vec::new(),
        nodes: Vec::new(),
    };
    // root -> (1 -> 3*, 4), 2; the chain points at 1, then 3
    let tree = WmNode {
        id: 0,
        focused: false,
        focus: vec![1],
        nodes: vec![
            WmNode {
                id: 1,
                focused: false,
                focus: vec![3],
                nodes: vec![leaf(3, true), leaf(4, false)],
            },
            leaf(2, false),
        ],
    };
    assert_eq!(focused_window(&tree), Some(3));
    assert_eq!(focused_window(&leaf(9, true)), Some(9));
    // a broken chain leads nowhere
    let broken = WmNode {
        id: 0,
        focused: false,
        focus: vec![7],
        nodes: vec![leaf(2, false)],
    };
    assert_eq!(focused_window(&broken), None);
    assert_eq!(focused_window(&leaf(9, false)), None);
}
