use vstd::prelude::*;

use crate::review::{PullState, RequestData, ReviewData};

verus! {

/// A JSON document as the statistics are published: booleans, unsigned
/// numbers, strings and objects. The members of an object are listed in the
/// order they were added; the server publishes the document through
/// `serde_json`, whose objects list their members sorted by name.
pub enum JsonValue {
    Bool(bool),
    Number(u64),
    Text(String),
    Object(Vec<(String, JsonValue)>),
}

/// What a `JsonValue` denotes, strings taken by their characters.
#[verifier::ext_equal]
pub enum JsonModel {
    Bool(bool),
    Number(int),
    Text(Seq<char>),
    Object(Seq<(Seq<char>, JsonModel)>),
}

impl JsonValue {
    pub open spec fn model(self) -> JsonModel
        decreases self,
    {
        match self {
            JsonValue::Bool(b) => JsonModel::Bool(b),
            JsonValue::Number(n) => JsonModel::Number(n as int),
            JsonValue::Text(s) => JsonModel::Text(s@),
            JsonValue::Object(members) => JsonModel::Object(members_model(members@)),
        }
    }
}

/// The members of an object, each name taken by its characters.
pub open spec fn members_model(members: Seq<(String, JsonValue)>) -> Seq<(Seq<char>, JsonModel)>
    decreases members,
{
    if members.len() == 0 {
        Seq::empty()
    } else {
        members_model(members.drop_last()).push(
            (members.last().0@, members.last().1.model()),
        )
    }
}

/// The object that publishes one referee's counts.
pub open spec fn review_model(d: ReviewData) -> JsonModel {
    JsonModel::Object(
        seq![
            ("times_requested"@, JsonModel::Number(d.times_requested as int)),
            ("times_responded"@, JsonModel::Number(d.times_responded as int)),
        ],
    )
}

/// The document that publishes the statistics of a repository: what was
/// examined, the counts per referee (listed in table order here; once
/// published, members are sorted by name), and the overall counts of
/// pull request states and diff lines.
pub open spec fn request_data_model(v: RequestData) -> JsonModel {
    let es = v.data.entry_seq();
    JsonModel::Object(
        seq![
            ("info"@, JsonModel::Object(
                seq![
                    ("is_teams"@, JsonModel::Bool(v.is_teams)),
                    ("owner"@, JsonModel::Text(v.owner@)),
                    ("repo_name "@, JsonModel::Text(v.repo@)),
                ],
            )),
            ("data"@, JsonModel::Object(
                Seq::new(es.len(), |i: int| (es[i].0, review_model(es[i].1))),
            )),
            ("overall"@, JsonModel::Object(
                seq![
                    ("pull_states"@, JsonModel::Object(
                        seq![
                            ("open"@, JsonModel::Number(v.pulls_open as int)),
                            ("merged"@, JsonModel::Number(v.pulls_merged as int)),
                            ("closed"@, JsonModel::Number(v.pulls_closed as int)),
                            ("draft"@, JsonModel::Number(v.pulls_draft as int)),
                        ],
                    )),
                    ("diffs"@, JsonModel::Object(
                        seq![
                            ("additions"@, JsonModel::Number(v.diffs_add as int)),
                            ("removals"@, JsonModel::Number(v.diffs_removals as int)),
                        ],
                    )),
                ],
            )),
        ],
    )
}

fn push_member(members: &mut Vec<(String, JsonValue)>, name: String, value: JsonValue)
    ensures
        members_model(final(members)@) == members_model(old(members)@).push(
            (name@, value.model()),
        ),
{
    let ghost n = name@;
    let ghost m = value.model();
    members.push((name, value));
    assert(final(members)@.drop_last() =~= old(members)@);
}

fn number_member(members: &mut Vec<(String, JsonValue)>, name: &str, n: u64)
    ensures
        members_model(final(members)@) == members_model(old(members)@).push(
            (name@, JsonModel::Number(n as int)),
        ),
{
    push_member(members, name.to_owned(), JsonValue::Number(n));
}

fn review_json(d: ReviewData) -> (r: JsonValue)
    ensures
        r.model() == review_model(d),
{
    let mut members: Vec<(String, JsonValue)> = Vec::new();
    assert(members_model(members@) =~= Seq::empty());
    number_member(&mut members, "times_requested", d.times_requested as u64);
    number_member(&mut members, "times_responded", d.times_responded as u64);
    let ghost mm = members_model(members@);
    assert(mm =~= seq![
            ("times_requested"@, JsonModel::Number(d.times_requested as int)),
            ("times_responded"@, JsonModel::Number(d.times_responded as int)),
        ]);
    let r = JsonValue::Object(members);
    assert(r.model() == JsonModel::Object(mm));
    assert(r.model() == review_model(d));
    r
}

/// The JSON document that publishes `v`.
pub fn request_data_to_json(v: RequestData) -> (r: JsonValue)
    ensures
        r.model() == request_data_model(v),
{
    let ghost empty = Seq::<(String, JsonValue)>::empty();
    assert(members_model(empty) =~= Seq::empty());
    let mut info: Vec<(String, JsonValue)> = Vec::new();
    push_member(&mut info, "is_teams".to_owned(), JsonValue::Bool(v.is_teams));
    push_member(&mut info, "owner".to_owned(), JsonValue::Text(v.owner.clone()));
    push_member(&mut info, "repo_name ".to_owned(), JsonValue::Text(v.repo.clone()));
    let ghost info_model = members_model(info@);
    assert(info_model =~= seq![
        ("is_teams"@, JsonModel::Bool(v.is_teams)),
        ("owner"@, JsonModel::Text(v.owner@)),
        ("repo_name "@, JsonModel::Text(v.repo@)),
    ]);

    let es = v.data.entries();
    let ghost spec_es = v.data.entry_seq();
    let mut data: Vec<(String, JsonValue)> = Vec::new();
    assert(members_model(data@) =~= Seq::new(
        0,
        |j: int| (spec_es[j].0, review_model(spec_es[j].1)),
    ));
    let mut i: usize = 0;
    while i < es.len()
        invariant
            0 <= i <= es@.len(),
            es@.len() == spec_es.len(),
            forall|j: int|
                0 <= j < es@.len() ==> (#[trigger] es@[j]).0@ == spec_es[j].0 && es@[j].1
                    == spec_es[j].1,
            members_model(data@) == Seq::new(
                i as nat,
                |j: int| (spec_es[j].0, review_model(spec_es[j].1)),
            ),
        decreases es@.len() - i,
    {
        let entry = &es[i];
        push_member(&mut data, entry.0.clone(), review_json(entry.1));
        assert(members_model(data@) =~= Seq::new(
            (i + 1) as nat,
            |j: int| (spec_es[j].0, review_model(spec_es[j].1)),
        ));
        i += 1;
    }
    let ghost data_model = members_model(data@);

    let mut states: Vec<(String, JsonValue)> = Vec::new();
    number_member(&mut states, "open", v.pulls_open as u64);
    number_member(&mut states, "merged", v.pulls_merged as u64);
    number_member(&mut states, "closed", v.pulls_closed as u64);
    number_member(&mut states, "draft", v.pulls_draft as u64);
    let ghost states_model = members_model(states@);
    assert(states_model =~= seq![
        ("open"@, JsonModel::Number(v.pulls_open as int)),
        ("merged"@, JsonModel::Number(v.pulls_merged as int)),
        ("closed"@, JsonModel::Number(v.pulls_closed as int)),
        ("draft"@, JsonModel::Number(v.pulls_draft as int)),
    ]);

    let mut diffs: Vec<(String, JsonValue)> = Vec::new();
    number_member(&mut diffs, "additions", v.diffs_add);
    number_member(&mut diffs, "removals", v.diffs_removals);
    let ghost diffs_model = members_model(diffs@);
    assert(diffs_model =~= seq![
        ("additions"@, JsonModel::Number(v.diffs_add as int)),
        ("removals"@, JsonModel::Number(v.diffs_removals as int)),
    ]);

    let states_json = JsonValue::Object(states);
    let diffs_json = JsonValue::Object(diffs);
    assert(states_json.model() == JsonModel::Object(states_model));
    assert(diffs_json.model() == JsonModel::Object(diffs_model));
    let mut overall: Vec<(String, JsonValue)> = Vec::new();
    push_member(&mut overall, "pull_states".to_owned(), states_json);
    push_member(&mut overall, "diffs".to_owned(), diffs_json);
    let ghost overall_model = members_model(overall@);
    assert(overall_model =~= seq![
        ("pull_states"@, JsonModel::Object(states_model)),
        ("diffs"@, JsonModel::Object(diffs_model)),
    ]);

    let info_json = JsonValue::Object(info);
    let data_json = JsonValue::Object(data);
    let overall_json = JsonValue::Object(overall);
    assert(info_json.model() == JsonModel::Object(info_model));
    assert(data_json.model() == JsonModel::Object(data_model));
    assert(overall_json.model() == JsonModel::Object(overall_model));
    let mut top: Vec<(String, JsonValue)> = Vec::new();
    push_member(&mut top, "info".to_owned(), info_json);
    push_member(&mut top, "data".to_owned(), data_json);
    push_member(&mut top, "overall".to_owned(), overall_json);
    let ghost top_model = members_model(top@);
    assert(top_model =~= seq![
        ("info"@, JsonModel::Object(info_model)),
        ("data"@, JsonModel::Object(data_model)),
        ("overall"@, JsonModel::Object(overall_model)),
    ]);
    let r = JsonValue::Object(top);
    assert(r.model() == JsonModel::Object(top_model));
    r
}

/// The first member named `key`, if any.
pub open spec fn json_member_of(members: Seq<(Seq<char>, JsonModel)>, key: Seq<char>) -> Option<
    JsonModel,
>
    decreases members.len(),
{
    if members.len() == 0 {
        None
    } else {
        match json_member_of(members.drop_last(), key) {
            Some(v) => Some(v),
            None => if members.last().0 == key {
                Some(members.last().1)
            } else {
                None
            },
        }
    }
}

/// The member named `key` of a document, when it is an object that has one.
pub open spec fn json_get(v: Option<JsonModel>, key: Seq<char>) -> Option<JsonModel> {
    match v {
        Some(JsonModel::Object(members)) => json_member_of(members, key),
        _ => None,
    }
}

proof fn lemma_json_member_unique(members: Seq<(Seq<char>, JsonModel)>, key: Seq<char>, i: int)
    requires
        0 <= i < members.len(),
        members[i].0 == key,
        forall|j: int| 0 <= j < members.len() && j != i ==> (#[trigger] members[j]).0 != key,
    ensures
        json_member_of(members, key) == Some(members[i].1),
    decreases members.len(),
{
    let d = members.drop_last();
    if i == members.len() - 1 {
        lemma_json_member_absent(d, key);
    } else {
        lemma_json_member_unique(d, key, i);
    }
}

proof fn lemma_json_member_absent(members: Seq<(Seq<char>, JsonModel)>, key: Seq<char>)
    requires
        forall|j: int| 0 <= j < members.len() ==> (#[trigger] members[j]).0 != key,
    ensures
        json_member_of(members, key) is None,
    decreases members.len(),
{
    if members.len() > 0 {
        lemma_json_member_absent(members.drop_last(), key);
        assert(members[members.len() - 1].0 != key);
    }
}

proof fn lemma_key_names()
    ensures
        "info"@.len() == 4 && "info"@[0] == 'i',
        "data"@.len() == 4 && "data"@[0] == 'd',
        "overall"@.len() == 7,
        "pull_states"@.len() == 11,
        "diffs"@.len() == 5,
        "open"@.len() == 4,
        "merged"@.len() == 6 && "merged"@[0] == 'm',
        "closed"@.len() == 6 && "closed"@[0] == 'c',
        "draft"@.len() == 5,
        "additions"@.len() == 9,
        "removals"@.len() == 8,
        "is_teams"@.len() == 8 && "is_teams"@[0] == 'i',
        "owner"@.len() == 5,
        "repo_name "@.len() == 10,
        "times_requested"@.len() == 15 && "times_requested"@[8] == 'q',
        "times_responded"@.len() == 15 && "times_responded"@[8] == 's',
{
    reveal_strlit("info");
    reveal_strlit("data");
    reveal_strlit("overall");
    reveal_strlit("pull_states");
    reveal_strlit("diffs");
    reveal_strlit("open");
    reveal_strlit("merged");
    reveal_strlit("closed");
    reveal_strlit("draft");
    reveal_strlit("additions");
    reveal_strlit("removals");
    reveal_strlit("is_teams");
    reveal_strlit("owner");
    reveal_strlit("repo_name ");
    reveal_strlit("times_requested");
    reveal_strlit("times_responded");
}

/// Each overall count and each piece of information is published under its
/// own name: `overall.pull_states.open`, `.merged`, `.closed` and `.draft`
/// carry the numbers of pull requests recorded in each of those states,
/// `overall.diffs.additions` and `.removals` the line totals, and
/// `info.is_teams`, `info.owner` and `info.repo_name ` what was examined.
pub proof fn lemma_published_counts(v: RequestData)
    ensures
        ({
            let m = Some(request_data_model(v));
            let states = json_get(json_get(m, "overall"@), "pull_states"@);
            let diffs = json_get(json_get(m, "overall"@), "diffs"@);
            let info = json_get(m, "info"@);
            &&& json_get(states, "open"@) == Some(JsonModel::Number(v.state_count(PullState::Open) as int))
            &&& json_get(states, "merged"@) == Some(JsonModel::Number(v.state_count(PullState::Merged) as int))
            &&& json_get(states, "closed"@) == Some(JsonModel::Number(v.state_count(PullState::Closed) as int))
            &&& json_get(states, "draft"@) == Some(JsonModel::Number(v.state_count(PullState::Draft) as int))
            &&& json_get(diffs, "additions"@) == Some(JsonModel::Number(v.diffs_add as int))
            &&& json_get(diffs, "removals"@) == Some(JsonModel::Number(v.diffs_removals as int))
            &&& json_get(info, "is_teams"@) == Some(JsonModel::Bool(v.is_teams))
            &&& json_get(info, "owner"@) == Some(JsonModel::Text(v.owner@))
            &&& json_get(info, "repo_name "@) == Some(JsonModel::Text(v.repo@))
        }),
{
    lemma_key_names();
    let top = request_data_model(v)->Object_0;
    lemma_json_member_unique(top, "overall"@, 2);
    lemma_json_member_unique(top, "info"@, 0);
    let overall = top[2].1->Object_0;
    lemma_json_member_unique(overall, "pull_states"@, 0);
    lemma_json_member_unique(overall, "diffs"@, 1);
    let states = overall[0].1->Object_0;
    lemma_json_member_unique(states, "open"@, 0);
    lemma_json_member_unique(states, "merged"@, 1);
    lemma_json_member_unique(states, "closed"@, 2);
    lemma_json_member_unique(states, "draft"@, 3);
    let diffs = overall[1].1->Object_0;
    lemma_json_member_unique(diffs, "additions"@, 0);
    lemma_json_member_unique(diffs, "removals"@, 1);
    let info = top[0].1->Object_0;
    lemma_json_member_unique(info, "is_teams"@, 0);
    lemma_json_member_unique(info, "owner"@, 1);
    lemma_json_member_unique(info, "repo_name "@, 2);
}

/// Every name in the table is published under `data` with its own counts,
/// and no other name is: `data.<name>.times_requested` and
/// `.times_responded` carry what the table holds for that name.
pub proof fn lemma_published_reviews(v: RequestData, k: Seq<char>)
    requires
        v.data.wf(),
    ensures
        ({
            let data = json_get(Some(request_data_model(v)), "data"@);
            &&& v.data@.contains_key(k) ==> json_get(json_get(data, k), "times_requested"@) == Some(
                JsonModel::Number(v.data@[k].times_requested as int),
            )
            &&& v.data@.contains_key(k) ==> json_get(json_get(data, k), "times_responded"@) == Some(
                JsonModel::Number(v.data@[k].times_responded as int),
            )
            &&& !v.data@.contains_key(k) ==> json_get(data, k) is None
        }),
{
    lemma_key_names();
    let top = request_data_model(v)->Object_0;
    lemma_json_member_unique(top, "data"@, 1);
    let es = v.data.entry_seq();
    let members = top[1].1->Object_0;
    assert(members == Seq::new(es.len(), |i: int| (es[i].0, review_model(es[i].1))));
    if v.data@.contains_key(k) {
        let i = choose|i: int| 0 <= i < es.len() && (#[trigger] es[i]).0 == k;
        assert forall|j: int| 0 <= j < members.len() && j != i implies (#[trigger] members[j]).0
            != k by {
            assert(es[j].0 != es[i].0);
        }
        lemma_json_member_unique(members, k, i);
        assert(es[i].1 == v.data@[k]);
        let r = review_model(es[i].1)->Object_0;
        lemma_json_member_unique(r, "times_requested"@, 0);
        lemma_json_member_unique(r, "times_responded"@, 1);
    } else {
        assert forall|j: int| 0 <= j < members.len() implies (#[trigger] members[j]).0 != k by {
            assert(es[j] == es[j]);
        }
        lemma_json_member_absent(members, k);
    }
}

} // verus!
