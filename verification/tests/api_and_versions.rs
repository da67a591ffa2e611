use glare::{
    newer_version, parse_api_json, read_member_logins, read_pull, read_pull_number,
    read_pull_url, read_pulls, read_review_logins, read_team_slugs, ApiJson, JsonShapeError,
};

fn s(x: &str) -> String {
    x.to_string()
}

fn doc(text: &str) -> ApiJson {
    parse_api_json(text).expect("valid JSON")
}

#[test]
fn parse_keeps_every_kind_of_value() {
    let d = doc(r#"{"a": null, "b": true, "c": 12, "d": "x", "e": [1, "y"], "f": {"g": false}}"#);
    match d {
        ApiJson::Object(members) => {
            let names: Vec<&str> = members.iter().map(|m| m.0.as_str()).collect();
            assert_eq!(names, vec!["a", "b", "c", "d", "e", "f"]);
            assert!(matches!(members[0].1, ApiJson::Null));
            assert!(matches!(members[1].1, ApiJson::Bool(true)));
            match &members[2].1 {
                ApiJson::Number(n) => assert_eq!(n, "12"),
                _ => panic!("number"),
            }
            match &members[3].1 {
                ApiJson::Text(t) => assert_eq!(t, "x"),
                _ => panic!("text"),
            }
            match &members[4].1 {
                ApiJson::Array(items) => {
                    assert_eq!(items.len(), 2);
                    assert!(matches!(&items[1], ApiJson::Text(t) if t == "y"));
                }
                _ => panic!("array"),
            }
            match &members[5].1 {
                ApiJson::Object(inner) => {
                    assert_eq!(inner[0].0, "g");
                    assert!(matches!(inner[0].1, ApiJson::Bool(false)));
                }
                _ => panic!("object"),
            }
        }
        _ => panic!("not an object"),
    }
}

#[test]
fn parse_refuses_what_is_not_json() {
    assert!(parse_api_json("{\"a\": ").is_err());
    assert!(parse_api_json("not json").is_err());
    assert!(parse_api_json("").is_err());
}

#[test]
fn read_open_pull_with_user_requests() {
    let p = doc(r#"{"draft": false, "user": {"login": "author"}, "merged_at": null,
        "closed_at": null, "requested_reviewers": [{"login": "bob"}, {"login": "carol"}],
        "requested_teams": [{"slug": "core"}], "number": 7, "url": "https://api/x"}"#);
    let f = read_pull(&p, false).unwrap();
    assert!(!f.draft && !f.merged && !f.closed);
    assert_eq!(f.author, "author");
    assert_eq!(f.requested, vec![s("bob"), s("carol")]);
    let t = read_pull(&p, true).unwrap();
    assert_eq!(t.requested, vec![s("core")]);
    assert_eq!(read_pull_number(&p), Ok(s("7")));
    assert_eq!(read_pull_url(&p), Ok(s("https://api/x")));
}

#[test]
fn read_draft_and_closed_pulls() {
    let draft = doc(r#"{"draft": true, "merged_at": null, "closed_at": null}"#);
    let f = read_pull(&draft, false).unwrap();
    assert!(f.draft);
    assert_eq!(f.author, "");
    assert!(f.requested.is_empty());
    let merged = doc(r#"{"draft": false, "user": {"login": "a"}, "merged_at": "2020", "closed_at": "2020", "requested_reviewers": 3}"#);
    let m = read_pull(&merged, false).unwrap();
    assert!(m.merged && m.closed);
    assert!(m.requested.is_empty());
}

#[test]
fn read_pull_reports_shape_errors() {
    let no_draft = doc(r#"{"user": {"login": "a"}}"#);
    assert_eq!(read_pull(&no_draft, false).err(), Some(JsonShapeError::UnexpectedFormat));
    let no_login = doc(r#"{"draft": false, "user": {"name": "a"}}"#);
    assert_eq!(read_pull(&no_login, false).err(), Some(JsonShapeError::MissingKey));
    let bad_login = doc(r#"{"draft": false, "user": {"login": 5}}"#);
    assert_eq!(read_pull(&bad_login, false).err(), Some(JsonShapeError::UnexpectedFormat));
    let bad_requests = doc(r#"{"draft": false, "user": {"login": "a"}, "requested_reviewers": [{"login": 1}]}"#);
    assert_eq!(read_pull(&bad_requests, false).err(), Some(JsonShapeError::UnexpectedFormat));
    let no_number = doc(r#"{"number": "7"}"#);
    assert_eq!(read_pull_number(&no_number), Err(JsonShapeError::UnexpectedFormat));
    assert_eq!(read_pull_url(&no_number), Err(JsonShapeError::UnexpectedFormat));
}

#[test]
fn read_pull_list_must_be_an_array() {
    assert_eq!(read_pulls(&doc("[1, 2]")).map(|v| v.len()), Ok(2));
    assert_eq!(read_pulls(&doc("{}")).err(), Some(JsonShapeError::UnexpectedFormat));
}

#[test]
fn read_review_logins_in_order() {
    let reviews = doc(r#"[{"user": {"login": "bob"}}, {"user": {"login": "carol"}}]"#);
    assert_eq!(read_review_logins(&reviews), Ok(vec![s("bob"), s("carol")]));
    let missing = doc(r#"[{"user": {"login": "bob"}}, {"user": {}}, {"user": 3}]"#);
    assert_eq!(read_review_logins(&missing), Err(JsonShapeError::MissingKey));
    let wrong = doc(r#"[{"user": 3}, {"user": {}}]"#);
    assert_eq!(read_review_logins(&wrong), Err(JsonShapeError::UnexpectedFormat));
    assert_eq!(read_review_logins(&doc("{}")), Err(JsonShapeError::UnexpectedFormat));
}

#[test]
fn read_teams_and_members() {
    let teams = doc(r#"[{"slug": "core"}, {"slug": 4}, {"name": "x"}, {"slug": "docs"}]"#);
    assert_eq!(
        read_team_slugs(&teams),
        Some(vec![Some(s("core")), None, None, Some(s("docs"))])
    );
    assert_eq!(read_team_slugs(&doc("{}")), None);
    let members = doc(r#"[{"login": "bob"}, {"login": null}, {"login": "carol"}]"#);
    assert_eq!(read_member_logins(&members), vec![s("bob"), s("carol")]);
    assert!(read_member_logins(&doc("{\"login\": \"x\"}")).is_empty());
}

#[test]
fn newer_version_only_for_a_newer_release() {
    assert_eq!(newer_version(&s("0.1.0"), &s("0.1.0")), None);
    assert_eq!(newer_version(&s("0.1.0"), &s("0.2.0")), Some(s("0.2.0")));
    assert_eq!(newer_version(&s("0.2.0"), &s("0.1.0")), None);
    assert_eq!(newer_version(&s("0.9.0"), &s("0.10.0")), Some(s("0.10.0")));
    assert_eq!(newer_version(&s("1.2.3"), &s("1.2.4")), Some(s("1.2.4")));
    assert_eq!(newer_version(&s("2.0.0"), &s("1.9.9")), None);
}

#[test]
fn newer_version_follows_pre_release_precedence() {
    assert_eq!(newer_version(&s("1.0.0-alpha"), &s("1.0.0")), Some(s("1.0.0")));
    assert_eq!(newer_version(&s("1.0.0"), &s("1.0.0-alpha")), None);
    assert_eq!(newer_version(&s("1.0.0-alpha"), &s("1.0.0-alpha.1")), Some(s("1.0.0-alpha.1")));
    assert_eq!(newer_version(&s("1.0.0-alpha.1"), &s("1.0.0-alpha.beta")), Some(s("1.0.0-alpha.beta")));
    assert_eq!(newer_version(&s("1.0.0-beta.2"), &s("1.0.0-beta.11")), Some(s("1.0.0-beta.11")));
    assert_eq!(newer_version(&s("1.0.0-rc.1"), &s("1.0.0-beta.11")), None);
    assert_eq!(newer_version(&s("1.0.0+build.5"), &s("1.0.0")), None);
    assert_eq!(newer_version(&s("1.0.0"), &s("1.0.1+meta")), Some(s("1.0.1+meta")));
}

#[test]
fn newer_version_needs_two_semantic_versions() {
    assert_eq!(newer_version(&s("1.0"), &s("2.0.0")), None);
    assert_eq!(newer_version(&s("1.0.0"), &s("01.0.0")), None);
    assert_eq!(newer_version(&s(""), &s("1.0.0")), None);
    assert_eq!(newer_version(&s("1.0.0"), &s("1.0.1-")), None);
    assert_eq!(newer_version(&s("1.0.0"), &s("1.0.1+")), None);
    assert_eq!(newer_version(&s("1.0.0"), &s("99999999999999999999.0.0")), None);
}
