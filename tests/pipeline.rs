use dawn_checker::models::{AuthResponse, BanResult, Outcome};
use dawn_checker::phase::{
    apply_friend_filter, live_list, log_order, phase1_auth, phase2_ban_check, phase3_friends_fetch,
    select_live, AuthReply, FriendFilter, PhaseData,
};

fn ok(id: u64, name: &str) -> AuthReply {
    AuthReply::Answered {
        body: format!("{{\"id\":{},\"name\":\"{}\"}}", id, name),
        parsed: Some(AuthResponse { id, name: name.to_string() }),
    }
}

fn moderated() -> AuthReply {
    AuthReply::Answered { body: "{\"errors\":\"User is moderated\"}".to_string(), parsed: None }
}

fn garbage() -> AuthReply {
    AuthReply::Answered { body: "<html>".to_string(), parsed: None }
}

fn cookies(v: &[&str]) -> Vec<String> {
    v.iter().map(|s| s.to_string()).collect()
}

#[test]
fn counters_cover_every_nonblank_slot() {
    let mut data = PhaseData::new(cookies(&["a", "  ", "b", "c", "d", "e"]));
    let replies = vec![ok(1, "one"), AuthReply::Unreachable, AuthReply::Unreachable, moderated(), ok(1, "again"), garbage()];
    phase1_auth(&mut data, &replies);
    assert_eq!(data.dead, 2);
    assert_eq!(data.banned, 1);
    assert_eq!(data.duplicates, 1);
    assert_eq!(data.accounts.len(), 1);
    assert!(!data.status_log.contains_key(&1));
    let results = vec![BanResult { index: 0, is_banned: Some(false), id: 1 }];
    phase2_ban_check(&mut data, &results);
    assert_eq!(data.live, 1);
    assert_eq!(data.live + data.dead + data.banned + data.error + data.duplicates, 5);
}

#[test]
fn first_sighting_is_never_duplicate() {
    let mut data = PhaseData::new(cookies(&["a", "b", "c", "d"]));
    let replies = vec![ok(7, "x"), ok(8, "y"), ok(7, "x2"), ok(7, "x3")];
    phase1_auth(&mut data, &replies);
    assert!(!data.status_log.contains_key(&0));
    assert!(!data.status_log.contains_key(&1));
    assert_eq!(data.status_log[&2].outcome, Outcome::Duplicate);
    assert_eq!(data.status_log[&3].outcome, Outcome::Duplicate);
    assert_eq!(data.status_log[&3].id, Some(7));
    assert_eq!(data.status_log[&3].name.as_deref(), Some("x3"));
    assert_eq!(data.accounts.len(), 2);
    assert_eq!(data.accounts[0].source_index, 0);
    assert_eq!(data.accounts[1].source_index, 1);
    assert_eq!(data.accounts[1].assigned_order, 1);
    assert_eq!(data.accounts[0].credential, "a");
}

#[test]
fn moderated_and_dead_entries() {
    let mut data = PhaseData::new(cookies(&["a", "b", "c"]));
    phase1_auth(&mut data, &vec![moderated(), AuthReply::Unreachable, garbage()]);
    assert_eq!(data.status_log[&0].outcome, Outcome::Banned);
    assert_eq!(data.status_log[&0].name, None);
    assert_eq!(data.status_log[&1].outcome, Outcome::Dead);
    assert_eq!(data.status_log[&2].outcome, Outcome::Dead);
    assert_eq!(log_order(&data), vec![0, 1, 2]);
}

fn run_phase2(results: Vec<BanResult>) -> PhaseData {
    let mut data = PhaseData::new(cookies(&["a", "b", "c", "d"]));
    phase1_auth(&mut data, &vec![ok(10, "p"), AuthReply::Unreachable, ok(11, "q"), ok(12, "r")]);
    phase2_ban_check(&mut data, &results);
    data
}

#[test]
fn log_follows_input_order_whatever_the_completion_order() {
    let in_order = vec![
        BanResult { index: 0, is_banned: Some(false), id: 10 },
        BanResult { index: 1, is_banned: Some(true), id: 11 },
        BanResult { index: 2, is_banned: None, id: 12 },
    ];
    let shuffled = vec![in_order[2], in_order[0], in_order[1]];
    let a = run_phase2(in_order);
    let b = run_phase2(shuffled);
    for d in [&a, &b] {
        assert_eq!(log_order(d), vec![0, 1, 2, 3]);
        assert_eq!(d.status_log[&0].outcome, Outcome::Live);
        assert_eq!(d.status_log[&1].outcome, Outcome::Dead);
        assert_eq!(d.status_log[&2].outcome, Outcome::Banned);
        assert_eq!(d.status_log[&3].outcome, Outcome::Error);
        assert_eq!(d.status_log[&3].name.as_deref(), Some("r"));
        assert_eq!((d.live, d.dead, d.banned, d.error, d.duplicates), (1, 1, 1, 1, 0));
        assert!(d.live_ids.contains(&10));
        assert!(!d.live_ids.contains(&11));
    }
}

#[test]
fn live_set_holds_only_live_identities() {
    let d = run_phase2(vec![
        BanResult { index: 0, is_banned: Some(false), id: 10 },
        BanResult { index: 1, is_banned: Some(false), id: 11 },
        BanResult { index: 2, is_banned: Some(true), id: 12 },
    ]);
    assert_eq!(live_list(&d), vec![10, 11]);
    assert_eq!(d.live_ids.len(), 2);
}

#[test]
fn empty_batch_runs_trivially() {
    let mut data = PhaseData::new(Vec::new());
    phase1_auth(&mut data, &Vec::new());
    phase2_ban_check(&mut data, &Vec::new());
    phase3_friends_fetch(&mut data, &Vec::new());
    select_live(&mut data);
    assert_eq!(data.live + data.dead + data.banned + data.error + data.duplicates, 0);
    assert!(data.final_ids.is_empty());
}

fn with_friends() -> PhaseData {
    let mut d = run_phase2(vec![
        BanResult { index: 0, is_banned: Some(false), id: 10 },
        BanResult { index: 1, is_banned: Some(false), id: 11 },
        BanResult { index: 2, is_banned: Some(false), id: 12 },
    ]);
    phase3_friends_fetch(&mut d, &vec![(10, Some(44)), (11, None), (12, Some(46)), (99, Some(40))]);
    select_live(&mut d);
    d
}

#[test]
fn friend_counts_only_for_live_identities() {
    let d = with_friends();
    assert_eq!(d.friends_count.get(&10), Some(&44));
    assert_eq!(d.friends_count.get(&11), None);
    assert_eq!(d.friends_count.get(&12), Some(&46));
    assert_eq!(d.friends_count.get(&99), None);
    assert_eq!(d.live, 3);
}

#[test]
fn between_filter_keeps_known_counts_in_range() {
    let mut d = with_friends();
    apply_friend_filter(&mut d, FriendFilter::Between(30, 45));
    assert!(d.final_ids.contains(&10));
    assert!(!d.final_ids.contains(&11));
    assert!(!d.final_ids.contains(&12));
    assert_eq!(d.final_ids.len(), 1);
    assert_eq!(d.live, 3);
}

#[test]
fn below_and_above_filters() {
    let mut d = with_friends();
    apply_friend_filter(&mut d, FriendFilter::Below(44));
    assert_eq!(d.final_ids.len(), 1);
    assert!(d.final_ids.contains(&10));
    let mut e = with_friends();
    apply_friend_filter(&mut e, FriendFilter::Above(45));
    assert_eq!(e.final_ids.len(), 1);
    assert!(e.final_ids.contains(&12));
}
