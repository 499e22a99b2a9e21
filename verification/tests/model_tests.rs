//! Runs the event loop against a plainly written reference model of the
//! event table for many pseudo-random event sequences and checks that
//! every reply and every snapshot agree with the model.

use i3_focus_last::server::{Action, Server, ServerEvent};

const CAPACITY: usize = 5;
const EXPIRY_MS: u64 = 5000;

/// A reference model of the daemon's state, written the simple way.
struct Model {
    hist: Vec<i64>,
    leases: Vec<(u64, u64)>,
    empty_focus: bool,
}

impl Model {
    fn new() -> Model {
        Model { hist: Vec::new(), leases: Vec::new(), empty_focus: true }
    }

    fn lease_live(granted: u64, now: u64) -> bool {
        now < granted || now - granted < EXPIRY_MS
    }

    fn purge(&mut self, now: u64) {
        self.leases.retain(|&(_, granted)| Model::lease_live(granted, now));
    }

    fn inhibited(&self, now: u64) -> bool {
        self.leases.iter().any(|&(_, granted)| Model::lease_live(granted, now))
    }

    fn record_focus(&mut self, id: i64) {
        self.hist.retain(|&x| x != id);
        self.hist.insert(0, id);
        self.hist.truncate(CAPACITY);
    }

    fn fresh_lease_id(&self) -> u64 {
        let mut id: u64 = 0;
        while self.leases.iter().any(|&(k, _)| k == id) {
            id += 1;
        }
        id
    }

    fn step(&mut self, ev: &ServerEvent, now: u64) -> Option<Action> {
        match ev {
            ServerEvent::WindowFocused(id) => {
                let inhibited = self.inhibited(now);
                self.purge(now);
                if !inhibited {
                    self.record_focus(*id);
                }
                self.empty_focus = false;
                Some(Action::Continue)
            }
            ServerEvent::WindowClosed(id) => {
                self.hist.retain(|x| x != id);
                self.empty_focus = true;
                Some(Action::Continue)
            }
            ServerEvent::WorkspaceFocused => {
                self.empty_focus = true;
                Some(Action::Continue)
            }
            ServerEvent::PushToHistory(id) => {
                self.record_focus(*id);
                Some(Action::Continue)
            }
            ServerEvent::SwitchTo(n) => {
                let k = if self.empty_focus { n.saturating_sub(1) } else { *n };
                let candidates = if k < self.hist.len() {
                    self.hist[k..].to_vec()
                } else {
                    Vec::new()
                };
                Some(Action::FocusCandidates(candidates))
            }
            ServerEvent::GetHistory => {
                Some(Action::HistoryReply(self.hist.clone(), self.empty_focus))
            }
            ServerEvent::InhibitHistory(lease) => {
                let k = match lease {
                    Some(k) => *k,
                    None => self.fresh_lease_id(),
                };
                self.leases.retain(|&(id, _)| id != k);
                self.leases.push((k, now));
                Some(Action::LeaseReply(k))
            }
            ServerEvent::InhibitHistoryRelease(k) => {
                self.leases.retain(|&(id, _)| id != *k);
                Some(Action::Continue)
            }
            ServerEvent::Stop(_) => None,
        }
    }
}

/// A small deterministic generator.
struct Lcg(u64);

impl Lcg {
    fn next(&mut self) -> u64 {
        self.0 = self.0.wrapping_mul(6364136223846793005).wrapping_add(1442695040888963407);
        self.0 >> 16
    }

    fn below(&mut self, n: u64) -> u64 {
        self.next() % n
    }
}

fn random_event(rng: &mut Lcg) -> ServerEvent {
    let id = rng.below(8) as i64;
    match rng.below(9) {
        0 | 1 | 2 => ServerEvent::WindowFocused(id),
        3 => ServerEvent::WindowClosed(id),
        4 => ServerEvent::WorkspaceFocused,
        5 => ServerEvent::PushToHistory(id),
        6 => ServerEvent::SwitchTo(rng.below(4) as usize),
        7 => ServerEvent::InhibitHistory(if rng.below(2) == 0 {
            None
        } else {
            Some(rng.below(3))
        }),
        _ => ServerEvent::InhibitHistoryRelease(rng.below(3)),
    }
}

#[test]
fn server_agrees_with_the_reference_model() {
    for seed in 1..=20u64 {
        let mut rng = Lcg(seed);
        let mut server = Server::new(CAPACITY);
        let mut model = Model::new();
        let mut now: u64 = 0;
        for _ in 0..500 {
            now += rng.below(2000);
            let ev = random_event(&mut rng);
            let expected = model.step(&ev, now).expect("the generator never stops");
            let got = server.handle_event(ev, now);
            assert_eq!(got, expected);
            // the history invariant holds at every state
            if let Action::HistoryReply(h, _) = &got {
                assert!(h.len() <= CAPACITY);
                for i in 0..h.len() {
                    for j in 0..i {
                        assert_ne!(h[i], h[j]);
                    }
                }
            }
        }
        // a final snapshot agrees too
        let got = server.handle_event(ServerEvent::GetHistory, now);
        let expected = model.step(&ServerEvent::GetHistory, now).unwrap();
        assert_eq!(got, expected);
    }
}
