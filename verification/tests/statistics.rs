use glare::{
    add_team_members, classify_pull, collect_reviewers, count_diff_lines, diff_lines_sliceable,
    reload_reply, request_data_to_json, ApiFailure, DiffCounts, JsonValue, NameMap,
    PullFollowUp, PullState, RequestData, ReviewData,
};

fn s(x: &str) -> String {
    x.to_string()
}

fn names(xs: &[&str]) -> Vec<String> {
    xs.iter().map(|x| x.to_string()).collect()
}

fn fresh() -> RequestData {
    RequestData::new(false, s("octo"), s("repo"))
}

fn review(d: &RequestData, name: &str) -> Option<ReviewData> {
    d.data.get(&s(name)).copied()
}

#[test]
fn name_map_insert_and_get() {
    let mut m: NameMap<u32> = NameMap::new();
    assert_eq!(m.len(), 0);
    assert_eq!(m.get(&s("a")), None);
    m.insert(s("a"), 1);
    m.insert(s("b"), 2);
    m.insert(s("a"), 3);
    assert_eq!(m.len(), 2);
    assert_eq!(m.get(&s("a")), Some(&3));
    assert_eq!(m.get(&s("b")), Some(&2));
    let keys: Vec<&str> = m.entries().iter().map(|e| e.0.as_str()).collect();
    assert_eq!(keys, vec!["a", "b"]);
}

#[test]
fn classify_each_state() {
    assert_eq!(classify_pull(true, true, true), PullState::Draft);
    assert_eq!(classify_pull(true, false, false), PullState::Draft);
    assert_eq!(classify_pull(false, true, true), PullState::Merged);
    assert_eq!(classify_pull(false, true, false), PullState::Merged);
    assert_eq!(classify_pull(false, false, true), PullState::Closed);
    assert_eq!(classify_pull(false, false, false), PullState::Open);
}

#[test]
fn record_pull_counts_states_and_says_what_to_fetch() {
    let mut d = fresh();
    let none: Vec<String> = Vec::new();
    assert_eq!(
        d.record_pull(PullState::Draft, &none, true),
        PullFollowUp { fetch_reviews: false, fetch_diff: false }
    );
    assert_eq!(
        d.record_pull(PullState::Merged, &none, true),
        PullFollowUp { fetch_reviews: false, fetch_diff: true }
    );
    assert_eq!(
        d.record_pull(PullState::Closed, &none, false),
        PullFollowUp { fetch_reviews: true, fetch_diff: false }
    );
    assert_eq!(
        d.record_pull(PullState::Open, &none, true),
        PullFollowUp { fetch_reviews: true, fetch_diff: true }
    );
    assert_eq!(
        (d.pulls_draft, d.pulls_merged, d.pulls_closed, d.pulls_open),
        (1, 1, 1, 1)
    );
    assert_eq!(d.data.len(), 0);
}

#[test]
fn requests_are_counted_only_for_open_pulls() {
    let mut d = fresh();
    d.record_pull(PullState::Closed, &names(&["alice"]), true);
    assert_eq!(d.data.len(), 0);
    d.record_pull(PullState::Open, &names(&["alice", "bob", "alice"]), true);
    assert_eq!(review(&d, "alice"), Some(ReviewData { times_requested: 2, times_responded: 0 }));
    assert_eq!(review(&d, "bob"), Some(ReviewData { times_requested: 1, times_responded: 0 }));
}

#[test]
fn a_request_resets_responses() {
    let mut d = fresh();
    d.record_responses(&names(&["alice"]));
    assert_eq!(review(&d, "alice"), Some(ReviewData { times_requested: 1, times_responded: 1 }));
    d.record_pull(PullState::Open, &names(&["alice"]), true);
    assert_eq!(review(&d, "alice"), Some(ReviewData { times_requested: 2, times_responded: 0 }));
}

#[test]
fn can_count_stops_at_the_u8_limit() {
    let mut d = fresh();
    let many: Vec<String> = (0..254).map(|_| s("alice")).collect();
    assert!(d.can_count(&many));
    d.record_pull(PullState::Open, &many, false);
    assert_eq!(review(&d, "alice").unwrap().times_requested, 254);
    assert!(d.can_count(&names(&["alice"])));
    assert!(!d.can_count(&names(&["alice", "alice"])));
    assert!(d.can_count(&names(&["bob", "bob"])));
    d.record_responses(&names(&["alice"]));
    assert_eq!(review(&d, "alice"), Some(ReviewData { times_requested: 255, times_responded: 1 }));
    assert!(!d.can_count(&names(&["alice"])));
}

#[test]
fn reviewers_leave_out_the_author_and_repeat_nobody() {
    let teams: NameMap<Vec<String>> = NameMap::new();
    let r = collect_reviewers(
        &s("author"),
        &names(&["bob", "author", "carol", "bob"]),
        false,
        &teams,
    );
    let mut sorted = r.clone();
    sorted.sort();
    assert_eq!(sorted, names(&["bob", "carol"]));
}

#[test]
fn team_reviewers_are_the_reviewers_teams() {
    let mut teams: NameMap<Vec<String>> = NameMap::new();
    add_team_members(&mut teams, &s("core"), &names(&["bob", "carol"]));
    add_team_members(&mut teams, &s("docs"), &names(&["carol", "author"]));
    assert_eq!(teams.get(&s("carol")), Some(&names(&["core", "docs"])));
    assert_eq!(teams.get(&s("author")), Some(&names(&["docs"])));
    let r = collect_reviewers(
        &s("author"),
        &names(&["author", "bob", "carol", "dave"]),
        true,
        &teams,
    );
    let mut sorted = r.clone();
    sorted.sort();
    assert_eq!(sorted, names(&["core", "docs"]));
}

#[test]
fn team_members_repeated_get_the_team_twice() {
    let mut teams: NameMap<Vec<String>> = NameMap::new();
    add_team_members(&mut teams, &s("core"), &names(&["bob", "bob"]));
    assert_eq!(teams.get(&s("bob")), Some(&names(&["core", "core"])));
    assert_eq!(teams.len(), 1);
}

#[test]
fn record_reviews_counts_each_reviewer_once() {
    let mut d = fresh();
    d.record_pull(PullState::Open, &names(&["bob"]), false);
    let teams: NameMap<Vec<String>> = NameMap::new();
    d.record_reviews(&s("author"), &names(&["bob", "bob", "author", "carol"]), &teams);
    assert_eq!(review(&d, "bob"), Some(ReviewData { times_requested: 2, times_responded: 1 }));
    assert_eq!(review(&d, "carol"), Some(ReviewData { times_requested: 1, times_responded: 1 }));
    assert_eq!(review(&d, "author"), None);
}

#[test]
fn record_reviews_in_team_mode_credits_teams() {
    let mut d = RequestData::new(true, s("org"), s("repo"));
    let mut teams: NameMap<Vec<String>> = NameMap::new();
    add_team_members(&mut teams, &s("core"), &names(&["bob", "carol"]));
    d.record_reviews(&s("author"), &names(&["bob", "carol"]), &teams);
    assert_eq!(review(&d, "core"), Some(ReviewData { times_requested: 1, times_responded: 1 }));
    assert_eq!(review(&d, "bob"), None);
    assert_eq!(d.data.len(), 1);
}

const SAMPLE_DIFF: &str = "diff --git a/x b/x\n--- a/x\n+++ b/x\n@@ -1,3 +1,3 @@\n-old line\n+new line\n+another\n context\n---\n+++\n";

#[test]
fn diff_counts_skip_file_headers() {
    assert!(diff_lines_sliceable(SAMPLE_DIFF));
    assert_eq!(
        count_diff_lines(SAMPLE_DIFF),
        DiffCounts { additions: 3, removals: 2 }
    );
}

#[test]
fn diff_counts_of_empty_and_plain_text() {
    assert_eq!(count_diff_lines(""), DiffCounts { additions: 0, removals: 0 });
    assert_eq!(count_diff_lines("hello\nworld"), DiffCounts { additions: 0, removals: 0 });
    assert_eq!(count_diff_lines("+"), DiffCounts { additions: 1, removals: 0 });
    assert_eq!(count_diff_lines("-\n-\n"), DiffCounts { additions: 0, removals: 2 });
    assert_eq!(count_diff_lines("--- a"), DiffCounts { additions: 0, removals: 1 });
}

#[test]
fn diff_counts_add_up_across_a_line_break() {
    let a = "+one\n--- a/f\n-two";
    let c = "+++ b/f\n+three\n-four";
    let joined = format!("{}\n{}", a, c);
    let ca = count_diff_lines(a);
    let cc = count_diff_lines(c);
    let cj = count_diff_lines(&joined);
    assert_eq!(cj.additions, ca.additions + cc.additions);
    assert_eq!(cj.removals, ca.removals + cc.removals);
    assert_eq!(cj, DiffCounts { additions: 2, removals: 2 });
}

#[test]
fn a_line_cut_inside_a_character_is_reported() {
    assert!(!diff_lines_sliceable("+abcd\u{e9}"));
    assert!(!diff_lines_sliceable("x\nabcde\u{e9}z"));
    assert!(diff_lines_sliceable("+abcde\u{e9}"));
    assert!(diff_lines_sliceable("\u{e9}\u{e9}\u{e9}"));
    assert!(diff_lines_sliceable("+abcd\n\u{e9}"));
}

#[test]
fn diff_totals_accumulate() {
    let mut d = fresh();
    d.add_diff(DiffCounts { additions: 3, removals: 2 });
    d.add_diff(DiffCounts { additions: 1, removals: 0 });
    assert_eq!((d.diffs_add, d.diffs_removals), (4, 2));
}

fn member<'a>(v: &'a JsonValue, name: &str) -> &'a JsonValue {
    match v {
        JsonValue::Object(ms) => &ms.iter().find(|m| m.0 == name).expect("member").1,
        _ => panic!("not an object"),
    }
}

fn number(v: &JsonValue) -> u64 {
    match v {
        JsonValue::Number(n) => *n,
        _ => panic!("not a number"),
    }
}

#[test]
fn json_publishes_every_count() {
    let mut d = fresh();
    d.record_pull(PullState::Open, &names(&["alice", "alice"]), true);
    d.record_pull(PullState::Merged, &Vec::new(), true);
    d.record_responses(&names(&["bob"]));
    d.add_diff(DiffCounts { additions: 7, removals: 5 });
    let j = request_data_to_json(d);
    match member(&member(&j, "info"), "is_teams") {
        JsonValue::Bool(b) => assert!(!*b),
        _ => panic!("is_teams"),
    }
    match member(&member(&j, "info"), "repo_name ") {
        JsonValue::Text(t) => assert_eq!(t, "repo"),
        _ => panic!("repo_name"),
    }
    match member(&member(&j, "info"), "owner") {
        JsonValue::Text(t) => assert_eq!(t, "octo"),
        _ => panic!("owner"),
    }
    let data = member(&j, "data");
    assert_eq!(number(member(member(data, "alice"), "times_requested")), 2);
    assert_eq!(number(member(member(data, "alice"), "times_responded")), 0);
    assert_eq!(number(member(member(data, "bob"), "times_responded")), 1);
    let states = member(member(&j, "overall"), "pull_states");
    assert_eq!(number(member(states, "open")), 1);
    assert_eq!(number(member(states, "merged")), 1);
    assert_eq!(number(member(states, "closed")), 0);
    assert_eq!(number(member(states, "draft")), 0);
    let diffs = member(member(&j, "overall"), "diffs");
    assert_eq!(number(member(diffs, "additions")), 7);
    assert_eq!(number(member(diffs, "removals")), 5);
}

#[test]
fn reload_is_refused_while_locked() {
    assert_eq!(reload_reply(true), Ok("Reloading..."));
    assert_eq!(reload_reply(false), Err(ApiFailure::DataLocked));
}


#[test]
fn requests_in_two_pulls_equal_requests_at_once() {
    let mut two = fresh();
    two.record_pull(PullState::Open, &names(&["a", "b"]), true);
    two.record_pull(PullState::Open, &names(&["b", "c"]), true);
    let mut one = fresh();
    one.record_pull(PullState::Open, &names(&["a", "b", "b", "c"]), true);
    for n in ["a", "b", "c"] {
        assert_eq!(review(&two, n), review(&one, n));
    }
    assert_eq!(review(&two, "b"), Some(ReviewData { times_requested: 2, times_responded: 0 }));
}

#[test]
fn responses_never_exceed_requests() {
    let mut d = fresh();
    d.record_responses(&names(&["a", "b"]));
    d.record_pull(PullState::Open, &names(&["a"]), true);
    d.record_responses(&names(&["a", "c"]));
    for e in d.data.entries() {
        assert!(e.1.times_requested >= 1);
        assert!(e.1.times_responded <= e.1.times_requested);
    }
}
