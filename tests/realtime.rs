use dawn_checker::models::{AuthResponse, LogEntry, Outcome};
use dawn_checker::phase::AuthReply;
use dawn_checker::realtime::{interval_in_range, AuthStep, RealtimeData, TimedEntry};

fn ok(id: u64, name: &str) -> AuthReply {
    AuthReply::Answered { body: String::from("{}"), parsed: Some(AuthResponse { id, name: name.to_string() }) }
}

fn state() -> RealtimeData {
    RealtimeData::new(vec!["a".to_string(), "b".to_string(), " ".to_string()], 90)
}

#[test]
fn interval_bounds() {
    assert!(!interval_in_range(59));
    assert!(interval_in_range(60));
    assert!(interval_in_range(360));
    assert!(!interval_in_range(361));
}

#[test]
fn cycle_reset_clears_counters_and_seen_identities() {
    let mut s = state();
    match s.check_single_cookie(0, &ok(5, "n"), "t".to_string()) {
        AuthStep::CheckBan { id, name } => {
            assert_eq!(id, 5);
            assert_eq!(s.record_ban_check(0, id, name, Some(false), "t".to_string()), Outcome::Live);
        }
        other => panic!("unexpected {:?}", other),
    }
    assert!(matches!(s.check_single_cookie(1, &ok(5, "n"), "t".to_string()), AuthStep::Recorded(Outcome::Duplicate)));
    assert_eq!(s.stats.live, 1);
    assert_eq!(s.stats.duplicates, 1);
    s.presence.online = 3;
    s.countdown = 4;
    s.begin_cycle();
    assert_eq!((s.stats.live, s.stats.dead, s.stats.banned, s.stats.error, s.stats.duplicates), (0, 0, 0, 0, 0));
    assert!(s.seen_ids.is_empty());
    assert!(s.live_ids.is_empty());
    assert_eq!(s.presence.online, 0);
    assert_eq!(s.countdown, 90);
    assert_eq!(s.logs.len(), 2);
    assert!(matches!(s.check_single_cookie(1, &ok(5, "n"), "t".to_string()), AuthStep::CheckBan { .. }));
}

#[test]
fn auth_step_outcomes() {
    let mut s = state();
    assert!(matches!(s.check_single_cookie(2, &AuthReply::Unreachable, "t".to_string()), AuthStep::Skipped));
    assert!(matches!(s.check_single_cookie(0, &AuthReply::Unreachable, "t".to_string()), AuthStep::Recorded(Outcome::Dead)));
    let moderated = AuthReply::Answered { body: "User is moderated".to_string(), parsed: None };
    assert!(matches!(s.check_single_cookie(1, &moderated, "t".to_string()), AuthStep::Recorded(Outcome::Banned)));
    assert_eq!(s.stats.dead, 1);
    assert_eq!(s.stats.banned, 1);
    assert_eq!(s.logs.len(), 2);
    assert_eq!(s.logs[0].slot, 0);
}

#[test]
fn ban_step_error_and_banned() {
    let mut s = state();
    assert_eq!(s.record_ban_check(0, 1, "a".to_string(), None, "t".to_string()), Outcome::Error);
    assert_eq!(s.record_ban_check(1, 2, "b".to_string(), Some(true), "t".to_string()), Outcome::Banned);
    assert!(s.live_ids.is_empty());
    assert_eq!(s.stats.error, 1);
    assert_eq!(s.stats.banned, 1);
}

#[test]
fn countdown_wraps_to_interval() {
    let mut s = state();
    s.countdown = 1;
    s.tick();
    assert_eq!(s.countdown, 0);
    s.tick();
    assert_eq!(s.countdown, 90);
}

#[test]
fn log_keeps_the_last_hundred_lines() {
    let mut s = state();
    for i in 0..101 {
        s.push_log(TimedEntry { stamp: String::new(), slot: i, entry: LogEntry { outcome: Outcome::Dead, name: None, id: None } });
    }
    assert_eq!(s.logs.len(), 100);
    assert_eq!(s.logs[0].slot, 1);
    assert_eq!(s.logs[99].slot, 100);
}

#[test]
fn presence_batches_and_tally() {
    let mut s = state();
    for id in 0..250u64 {
        s.record_ban_check(0, id, String::new(), Some(false), String::new());
    }
    let batches = s.presence_batches();
    assert_eq!(batches.len(), 3);
    assert_eq!(batches[0].len(), 100);
    assert_eq!(batches[2].len(), 50);
    assert_eq!(batches[2][0], 200);
    s.tally_presence(&vec![0, 1, 1, 2, 3, 3, 3, 7]);
    assert_eq!((s.presence.offline, s.presence.online, s.presence.in_game, s.presence.in_studio), (1, 2, 1, 3));
    assert!(state().presence_batches().is_empty());
}

#[test]
fn presence_batch_boundaries() {
    let mut s = state();
    for id in 0..100u64 {
        s.record_ban_check(0, id, String::new(), Some(false), String::new());
    }
    assert_eq!(s.presence_batches().len(), 1);
    s.record_ban_check(0, 100, String::new(), Some(false), String::new());
    let batches = s.presence_batches();
    assert_eq!(batches.len(), 2);
    assert_eq!(batches[1], vec![100]);
    s.record_ban_check(0, 100, String::new(), Some(false), String::new());
    assert_eq!(s.live_ids.len(), 101);
}
