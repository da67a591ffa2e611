use vstd::prelude::*;

use crate::name_map::names_of;
use serde_json::Value;

verus! {

/// A JSON document as the GitHub API sends it. Numbers keep their text.
pub enum ApiJson {
    Null,
    Bool(bool),
    Number(String),
    Text(String),
    Array(Vec<ApiJson>),
    Object(Vec<(String, ApiJson)>),
}

/// What an `ApiJson` denotes, strings taken by their characters.
#[verifier::ext_equal]
pub enum ApiJsonModel {
    Null,
    Bool(bool),
    Number(Seq<char>),
    Text(Seq<char>),
    Array(Seq<ApiJsonModel>),
    Object(Seq<(Seq<char>, ApiJsonModel)>),
}

impl ApiJson {
    pub open spec fn model(self) -> ApiJsonModel
        decreases self,
    {
        match self {
            ApiJson::Null => ApiJsonModel::Null,
            ApiJson::Bool(b) => ApiJsonModel::Bool(b),
            ApiJson::Number(n) => ApiJsonModel::Number(n@),
            ApiJson::Text(s) => ApiJsonModel::Text(s@),
            ApiJson::Array(items) => ApiJsonModel::Array(items_model(items@)),
            ApiJson::Object(members) => ApiJsonModel::Object(api_members_model(members@)),
        }
    }
}

/// The elements of an array.
pub open spec fn items_model(items: Seq<ApiJson>) -> Seq<ApiJsonModel>
    decreases items,
{
    if items.len() == 0 {
        Seq::empty()
    } else {
        items_model(items.drop_last()).push(items.last().model())
    }
}

/// The members of an object, names taken by their characters.
pub open spec fn api_members_model(members: Seq<(String, ApiJson)>) -> Seq<(Seq<char>, ApiJsonModel)>
    decreases members,
{
    if members.len() == 0 {
        Seq::empty()
    } else {
        api_members_model(members.drop_last()).push(
            (members.last().0@, members.last().1.model()),
        )
    }
}

pub proof fn lemma_items_model(items: Seq<ApiJson>)
    ensures
        items_model(items).len() == items.len(),
        forall|i: int| 0 <= i < items.len() ==> #[trigger] items_model(items)[i] == items[i].model(),
    decreases items.len(),
{
    if items.len() > 0 {
        lemma_items_model(items.drop_last());
    }
}

pub proof fn lemma_api_members_model(members: Seq<(String, ApiJson)>)
    ensures
        api_members_model(members).len() == members.len(),
        forall|i: int|
            0 <= i < members.len() ==> #[trigger] api_members_model(members)[i] == (
                members[i].0@,
                members[i].1.model(),
            ),
    decreases members.len(),
{
    if members.len() > 0 {
        lemma_api_members_model(members.drop_last());
    }
}

/// The document that `serde_json` reads from `text`, if `text` is JSON.
pub uninterp spec fn parsed_api_json(text: Seq<char>) -> Option<ApiJsonModel>;

/// Calls `serde_json::from_str::<serde_json::Value>` on `text` and carries the
/// value over variant by variant (numbers by their `to_string` text; the parts
/// of arrays and objects by parsing their `to_string` text again, which
/// `serde_json` reads back to the same value). The contract claims only that
/// the outcome is a function of the text: an error exactly when the text is
/// not JSON, and otherwise the same document for the same text. It says
/// nothing of the error's message, which is `serde_json`'s.
#[verifier::external_body]
fn serde_parse(text: &str) -> (r: Result<ApiJson, String>)
    ensures
        r is Err <==> parsed_api_json(text@) is None,
        r matches Ok(d) ==> parsed_api_json(text@) == Some(d.model()),
{
    let v: Value = serde_json::from_str(text).map_err(|e| e.to_string())?;
    Ok(match v {
        Value::Null => ApiJson::Null,
        Value::Bool(b) => ApiJson::Bool(b),
        Value::Number(n) => ApiJson::Number(n.to_string()),
        Value::String(s) => ApiJson::Text(s),
        Value::Array(a) => ApiJson::Array(
            a.iter().map(|c| serde_parse(&c.to_string())).collect::<Result<_, _>>()?,
        ),
        Value::Object(m) => ApiJson::Object(
            m.iter().map(|(k, c)| Ok((k.clone(), serde_parse(&c.to_string())?))).collect::<
                Result<_, String>,
            >()?,
        ),
    })
}

/// Reads the text of an API response as JSON: an error (with the JSON
/// reader's message) exactly when the text is not JSON.
pub fn parse_api_json(text: &str) -> (r: Result<ApiJson, String>)
    ensures
        r is Err <==> parsed_api_json(text@) is None,
        r matches Ok(d) ==> parsed_api_json(text@) == Some(d.model()),
{
    serde_parse(text)
}

/// How a document departs from the shape that is read from it.
#[derive(Clone, Copy, Debug, PartialEq, Eq, Structural)]
pub enum JsonShapeError {
    /// A value has another kind than the one expected.
    UnexpectedFormat,
    /// An object that must hold a member does not.
    MissingKey,
}

/// The first member named `key`, if any.
pub open spec fn member_of(members: Seq<(Seq<char>, ApiJsonModel)>, key: Seq<char>) -> Option<
    ApiJsonModel,
>
    decreases members.len(),
{
    if members.len() == 0 {
        None
    } else {
        match member_of(members.drop_last(), key) {
            Some(v) => Some(v),
            None => if members.last().0 == key {
                Some(members.last().1)
            } else {
                None
            },
        }
    }
}

/// `v[key]`: the member named `key` of an object, and `null` where there is none
/// or `v` is no object.
pub open spec fn field(v: ApiJsonModel, key: Seq<char>) -> ApiJsonModel {
    match v {
        ApiJsonModel::Object(members) => match member_of(members, key) {
            Some(x) => x,
            None => ApiJsonModel::Null,
        },
        _ => ApiJsonModel::Null,
    }
}

/// The characters of a string value.
pub open spec fn text_of(v: ApiJsonModel) -> Option<Seq<char>> {
    match v {
        ApiJsonModel::Text(s) => Some(s),
        _ => None,
    }
}

proof fn lemma_member_of_prefix(members: Seq<(Seq<char>, ApiJsonModel)>, key: Seq<char>, i: int)
    requires
        0 <= i < members.len(),
        member_of(members.take(i), key) is None,
    ensures
        member_of(members.take(i + 1), key) == (if members[i].0 == key {
            Some(members[i].1)
        } else {
            None::<ApiJsonModel>
        }),
{
    assert(members.take(i + 1).drop_last() =~= members.take(i));
}

proof fn lemma_member_of_found(members: Seq<(Seq<char>, ApiJsonModel)>, key: Seq<char>, j: int)
    requires
        0 <= j <= members.len(),
        member_of(members.take(j), key) is Some,
    ensures
        member_of(members, key) == member_of(members.take(j), key),
    decreases members.len() - j,
{
    if j < members.len() {
        assert(members.take(j + 1).drop_last() =~= members.take(j));
        lemma_member_of_found(members, key, j + 1);
    } else {
        assert(members.take(j) =~= members);
    }
}

fn find_member<'a>(members: &'a Vec<(String, ApiJson)>, key: &String) -> (r: Option<&'a ApiJson>)
    ensures
        match r {
            Some(x) => member_of(api_members_model(members@), key@) == Some(x.model()),
            None => member_of(api_members_model(members@), key@) is None,
        },
{
    let ghost ms = api_members_model(members@);
    proof {
        lemma_api_members_model(members@);
        assert(ms.take(0) =~= Seq::<(Seq<char>, ApiJsonModel)>::empty());
    }
    let mut i: usize = 0;
    while i < members.len()
        invariant
            0 <= i <= members@.len(),
            ms == api_members_model(members@),
            ms.len() == members@.len(),
            forall|j: int| 0 <= j < members@.len() ==> #[trigger] ms[j] == (members@[j].0@, members@[j].1.model()),
            member_of(ms.take(i as int), key@) is None,
        decreases members@.len() - i,
    {
        proof {
            lemma_member_of_prefix(ms, key@, i as int);
        }
        if members[i].0 == *key {
            proof {
                lemma_member_of_found(ms, key@, i + 1);
            }
            return Some(&members[i].1);
        }
        i += 1;
    }
    assert(ms.take(members@.len() as int) =~= ms);
    None
}

/// `v[key]`, `None` standing for `null`.
fn field_of<'a>(v: &'a ApiJson, key: &String) -> (r: Option<&'a ApiJson>)
    ensures
        match r {
            Some(x) => field(v.model(), key@) == x.model() && !(x.model() is Null),
            None => field(v.model(), key@) is Null,
        },
{
    match v {
        ApiJson::Object(members) => match find_member(members, key) {
            Some(x) => match x {
                ApiJson::Null => None,
                _ => Some(x),
            },
            None => None,
        },
        _ => None,
    }
}

/// The login of the user who opened a pull request or wrote a review:
/// `user` must be an object holding a `login` member that is a string.
pub open spec fn user_login(v: ApiJsonModel) -> Result<Seq<char>, JsonShapeError> {
    match field(v, "user"@) {
        ApiJsonModel::Object(members) => match member_of(members, "login"@) {
            None => Err(JsonShapeError::MissingKey),
            Some(ApiJsonModel::Text(s)) => Ok(s),
            Some(_) => Err(JsonShapeError::UnexpectedFormat),
        },
        _ => Err(JsonShapeError::UnexpectedFormat),
    }
}

fn read_user_login(v: &ApiJson) -> (r: Result<String, JsonShapeError>)
    ensures
        match r {
            Ok(s) => user_login(v.model()) == Ok::<Seq<char>, JsonShapeError>(s@),
            Err(e) => user_login(v.model()) == Err::<Seq<char>, JsonShapeError>(e),
        },
{
    let user_key = "user".to_owned();
    let login_key = "login".to_owned();
    match field_of(v, &user_key) {
        Some(ApiJson::Object(members)) => match find_member(members, &login_key) {
            None => Err(JsonShapeError::MissingKey),
            Some(ApiJson::Text(s)) => Ok(s.clone()),
            Some(_) => Err(JsonShapeError::UnexpectedFormat),
        },
        _ => Err(JsonShapeError::UnexpectedFormat),
    }
}

/// The array of requested names and the member that names each request:
/// teams and their `slug` in team mode, users and their `login` otherwise.
pub open spec fn request_keys(teams: bool) -> (Seq<char>, Seq<char>) {
    if teams {
        ("requested_teams"@, "slug"@)
    } else {
        ("requested_reviewers"@, "login"@)
    }
}

/// The strings at `key` in each of `items`, if every one of them is a string.
pub open spec fn names_at(items: Seq<ApiJsonModel>, key: Seq<char>) -> Option<Seq<Seq<char>>> {
    if forall|i: int| 0 <= i < items.len() ==> (#[trigger] text_of(field(items[i], key))) is Some {
        Some(Seq::new(items.len(), |i: int| text_of(field(items[i], key))->Some_0))
    } else {
        None
    }
}

/// What is read of a pull request.
pub struct PullFacts {
    pub draft: bool,
    /// The login of its author (empty for a draft, whose author is not read).
    pub author: String,
    pub merged: bool,
    pub closed: bool,
    /// The names asked for a review (read for open pull requests only).
    pub requested: Vec<String>,
}

/// What a `PullFacts` holds, names taken by their characters.
pub struct PullFactsModel {
    pub draft: bool,
    pub author: Seq<char>,
    pub merged: bool,
    pub closed: bool,
    pub requested: Seq<Seq<char>>,
}

impl PullFacts {
    pub open spec fn model(self) -> PullFactsModel {
        PullFactsModel {
            draft: self.draft,
            author: self.author@,
            merged: self.merged,
            closed: self.closed,
            requested: names_of(self.requested@),
        }
    }
}

/// A pull request as read from the API: `draft` must be a boolean; for one
/// that is no draft the author's login is read; it is merged or closed when
/// `merged_at` or `closed_at` is not `null`; when it is neither, its requested
/// names (see `request_keys`) must be an array of objects naming each with a string.
pub open spec fn pull_facts(p: ApiJsonModel, teams: bool) -> Result<PullFactsModel, JsonShapeError> {
    match field(p, "draft"@) {
        ApiJsonModel::Bool(draft) => {
            let merged = !(field(p, "merged_at"@) is Null);
            let closed = !(field(p, "closed_at"@) is Null);
            if draft {
                Ok(
                    PullFactsModel {
                        draft: true,
                        author: Seq::empty(),
                        merged,
                        closed,
                        requested: Seq::empty(),
                    },
                )
            } else {
                match user_login(p) {
                    Err(e) => Err(e),
                    Ok(author) => if merged || closed {
                        Ok(
                            PullFactsModel {
                                draft: false,
                                author,
                                merged,
                                closed,
                                requested: Seq::empty(),
                            },
                        )
                    } else {
                        match field(p, request_keys(teams).0) {
                            ApiJsonModel::Array(items) => match names_at(
                                items,
                                request_keys(teams).1,
                            ) {
                                Some(requested) => Ok(
                                    PullFactsModel {
                                        draft: false,
                                        author,
                                        merged,
                                        closed,
                                        requested,
                                    },
                                ),
                                None => Err(JsonShapeError::UnexpectedFormat),
                            },
                            _ => Err(JsonShapeError::UnexpectedFormat),
                        }
                    },
                }
            }
        },
        _ => Err(JsonShapeError::UnexpectedFormat),
    }
}

/// What is read of a pull request is what its members say: `draft` is its
/// boolean, it is merged exactly when `merged_at` is not `null` and closed
/// exactly when `closed_at` is not `null` (each whatever the other says); a
/// pull request that is no draft has the author that `user.login` names; and
/// only an open one has requested names, one per element of
/// `requested_teams` (by `slug`) in team mode or of `requested_reviewers` (by
/// `login`) otherwise, in order.
pub proof fn lemma_pull_facts_members(p: ApiJsonModel, teams: bool)
    requires
        pull_facts(p, teams) is Ok,
    ensures
        ({
            let f = pull_facts(p, teams)->Ok_0;
            &&& field(p, "draft"@) == ApiJsonModel::Bool(f.draft)
            &&& f.merged <==> !(field(p, "merged_at"@) is Null)
            &&& f.closed <==> !(field(p, "closed_at"@) is Null)
            &&& !f.draft ==> user_login(p) == Ok::<Seq<char>, JsonShapeError>(f.author)
            &&& (f.draft || f.merged || f.closed) ==> f.requested.len() == 0
            &&& (!f.draft && !f.merged && !f.closed) ==> (field(
                p,
                if teams {
                    "requested_teams"@
                } else {
                    "requested_reviewers"@
                },
            ) matches ApiJsonModel::Array(items) && items.len() == f.requested.len() && forall|
                i: int,
            |
                0 <= i < items.len() ==> field(
                    #[trigger] items[i],
                    if teams {
                        "slug"@
                    } else {
                        "login"@
                    },
                ) == ApiJsonModel::Text(f.requested[i]))
        }),
{
    let f = pull_facts(p, teams)->Ok_0;
    if !f.draft && !f.merged && !f.closed {
        let items = field(p, request_keys(teams).0)->Array_0;
        let key = request_keys(teams).1;
        assert forall|i: int| 0 <= i < items.len() implies field(#[trigger] items[i], key)
            == ApiJsonModel::Text(f.requested[i]) by {
            assert(text_of(field(items[i], key)) is Some);
        }
    }
}

/// The member that `member_of` finds is the first one with that name.
pub proof fn lemma_member_of_first(members: Seq<(Seq<char>, ApiJsonModel)>, key: Seq<char>)
    ensures
        member_of(members, key) is None <==> forall|j: int|
            0 <= j < members.len() ==> (#[trigger] members[j]).0 != key,
        member_of(members, key) matches Some(x) ==> exists|i: int|
            0 <= i < members.len() && members[i] == (key, x) && forall|j: int|
                0 <= j < i ==> (#[trigger] members[j]).0 != key,
    decreases members.len(),
{
    if members.len() > 0 {
        let d = members.drop_last();
        lemma_member_of_first(d, key);
        assert forall|j: int| 0 <= j < d.len() implies d[j] == members[j] by {}
        match member_of(d, key) {
            Some(x) => {
                let i = choose|i: int|
                    0 <= i < d.len() && d[i] == (key, x) && forall|j: int|
                        0 <= j < i ==> (#[trigger] d[j]).0 != key;
                assert(members[i] == (key, x));
                assert forall|j: int| 0 <= j < i implies (#[trigger] members[j]).0 != key by {
                    assert(d[j] == members[j]);
                }
            },
            None => {
                if members.last().0 == key {
                    let i = members.len() - 1;
                    assert(members[i] == (key, members.last().1));
                    assert forall|j: int| 0 <= j < i implies (#[trigger] members[j]).0 != key by {
                        assert(d[j] == members[j]);
                    }
                } else {
                    assert forall|j: int| 0 <= j < members.len() implies (
                    #[trigger] members[j]).0 != key by {
                        if j < d.len() {
                            assert(d[j] == members[j]);
                        }
                    }
                }
            },
        }
    }
}

fn read_names_at(items: &Vec<ApiJson>, key: &String) -> (r: Option<Vec<String>>)
    ensures
        match r {
            Some(v) => names_at(items_model(items@), key@) == Some(names_of(v@)),
            None => names_at(items_model(items@), key@) is None,
        },
{
    let ghost ms = items_model(items@);
    proof {
        lemma_items_model(items@);
    }
    let mut out: Vec<String> = Vec::new();
    let mut i: usize = 0;
    while i < items.len()
        invariant
            0 <= i <= items@.len(),
            ms == items_model(items@),
            ms.len() == items@.len(),
            forall|j: int| 0 <= j < items@.len() ==> #[trigger] ms[j] == items@[j].model(),
            forall|j: int| 0 <= j < i ==> (#[trigger] text_of(field(ms[j], key@))) is Some,
            names_of(out@) == Seq::new(i as nat, |j: int| text_of(field(ms[j], key@))->Some_0),
        decreases items@.len() - i,
    {
        match field_of(&items[i], key) {
            Some(ApiJson::Text(s)) => {
                let ghost before = out@;
                assert(text_of(field(ms[i as int], key@)) == Some(s@));
                out.push(s.clone());
                assert(names_of(out@) =~= names_of(before).push(s@));
                assert(names_of(out@) =~= Seq::new(
                    (i + 1) as nat,
                    |j: int| text_of(field(ms[j], key@))->Some_0,
                ));
            },
            _ => {
                assert(text_of(field(ms[i as int], key@)) is None);
                return None;
            },
        }
        i += 1;
    }
    Some(out)
}

/// Reads a pull request of the API's pull request list.
pub fn read_pull(p: &ApiJson, teams: bool) -> (r: Result<PullFacts, JsonShapeError>)
    ensures
        match r {
            Ok(f) => pull_facts(p.model(), teams) == Ok::<PullFactsModel, JsonShapeError>(f.model()),
            Err(e) => pull_facts(p.model(), teams) == Err::<PullFactsModel, JsonShapeError>(e),
        },
{
    let draft = match field_of(p, &"draft".to_owned()) {
        Some(ApiJson::Bool(b)) => *b,
        _ => {
            return Err(JsonShapeError::UnexpectedFormat);
        },
    };
    let merged = field_of(p, &"merged_at".to_owned()).is_some();
    let closed = field_of(p, &"closed_at".to_owned()).is_some();
    if draft {
        let f = PullFacts { draft: true, author: String::new(), merged, closed, requested: Vec::new() };
        assert(f.model().requested =~= Seq::<Seq<char>>::empty());
        return Ok(f);
    }
    let author = match read_user_login(p) {
        Ok(a) => a,
        Err(e) => {
            return Err(e);
        },
    };
    if merged || closed {
        let f = PullFacts { draft: false, author, merged, closed, requested: Vec::new() };
        assert(f.model().requested =~= Seq::<Seq<char>>::empty());
        return Ok(f);
    }
    let (list_key, name_key) = if teams {
        ("requested_teams".to_owned(), "slug".to_owned())
    } else {
        ("requested_reviewers".to_owned(), "login".to_owned())
    };
    match field_of(p, &list_key) {
        Some(ApiJson::Array(items)) => match read_names_at(items, &name_key) {
            Some(requested) => Ok(PullFacts { draft: false, author, merged, closed, requested }),
            None => Err(JsonShapeError::UnexpectedFormat),
        },
        _ => Err(JsonShapeError::UnexpectedFormat),
    }
}

/// The pull requests of the API's list: the document must be an array.
pub fn read_pulls(doc: &ApiJson) -> (r: Result<&Vec<ApiJson>, JsonShapeError>)
    ensures
        match r {
            Ok(items) => doc.model() == ApiJsonModel::Array(items_model(items@)),
            Err(e) => !(doc.model() is Array) && e == JsonShapeError::UnexpectedFormat,
        },
{
    match doc {
        ApiJson::Array(items) => Ok(items),
        _ => Err(JsonShapeError::UnexpectedFormat),
    }
}

/// The number of a pull request: its `number` member must be a number.
pub fn read_pull_number(p: &ApiJson) -> (r: Result<String, JsonShapeError>)
    ensures
        match r {
            Ok(n) => field(p.model(), "number"@) == ApiJsonModel::Number(n@),
            Err(e) => !(field(p.model(), "number"@) is Number) && e
                == JsonShapeError::UnexpectedFormat,
        },
{
    match field_of(p, &"number".to_owned()) {
        Some(ApiJson::Number(n)) => Ok(n.clone()),
        _ => Err(JsonShapeError::UnexpectedFormat),
    }
}

/// The API address of a pull request: its `url` member must be a string.
pub fn read_pull_url(p: &ApiJson) -> (r: Result<String, JsonShapeError>)
    ensures
        match r {
            Ok(u) => field(p.model(), "url"@) == ApiJsonModel::Text(u@),
            Err(e) => !(field(p.model(), "url"@) is Text) && e == JsonShapeError::UnexpectedFormat,
        },
{
    match field_of(p, &"url".to_owned()) {
        Some(ApiJson::Text(u)) => Ok(u.clone()),
        _ => Err(JsonShapeError::UnexpectedFormat),
    }
}

/// The logins of the reviews' authors, in order; the first review whose
/// author cannot be read decides the error.
pub open spec fn logins_of(items: Seq<ApiJsonModel>) -> Result<Seq<Seq<char>>, JsonShapeError>
    decreases items.len(),
{
    if items.len() == 0 {
        Ok(Seq::empty())
    } else {
        match logins_of(items.drop_last()) {
            Err(e) => Err(e),
            Ok(prev) => match user_login(items.last()) {
                Err(e) => Err(e),
                Ok(l) => Ok(prev.push(l)),
            },
        }
    }
}

/// The review list of a pull request must be an array of reviews.
pub open spec fn review_logins(doc: ApiJsonModel) -> Result<Seq<Seq<char>>, JsonShapeError> {
    match doc {
        ApiJsonModel::Array(items) => logins_of(items),
        _ => Err(JsonShapeError::UnexpectedFormat),
    }
}

/// Reads the logins of the authors of a pull request's reviews.
pub fn read_review_logins(doc: &ApiJson) -> (r: Result<Vec<String>, JsonShapeError>)
    ensures
        match r {
            Ok(v) => review_logins(doc.model()) == Ok::<Seq<Seq<char>>, JsonShapeError>(names_of(v@)),
            Err(e) => review_logins(doc.model()) == Err::<Seq<Seq<char>>, JsonShapeError>(e),
        },
{
    let items = match doc {
        ApiJson::Array(items) => items,
        _ => {
            return Err(JsonShapeError::UnexpectedFormat);
        },
    };
    let ghost ms = items_model(items@);
    proof {
        lemma_items_model(items@);
        assert(ms.take(0) =~= Seq::<ApiJsonModel>::empty());
        assert(names_of(Seq::<String>::empty()) =~= Seq::<Seq<char>>::empty());
    }
    let mut out: Vec<String> = Vec::new();
    let mut i: usize = 0;
    while i < items.len()
        invariant
            0 <= i <= items@.len(),
            ms == items_model(items@),
            ms.len() == items@.len(),
            forall|j: int| 0 <= j < items@.len() ==> #[trigger] ms[j] == items@[j].model(),
            doc.model() == ApiJsonModel::Array(ms),
            logins_of(ms.take(i as int)) == Ok::<Seq<Seq<char>>, JsonShapeError>(names_of(out@)),
        decreases items@.len() - i,
    {
        assert(ms.take(i + 1).drop_last() =~= ms.take(i as int));
        assert(ms.take(i + 1).last() == items@[i as int].model());
        match read_user_login(&items[i]) {
            Ok(l) => {
                let ghost before = out@;
                let ghost lv = l@;
                out.push(l);
                assert(names_of(out@) =~= names_of(before).push(lv));
            },
            Err(e) => {
                proof {
                    assert(user_login(ms.take(i + 1).last()) == Err::<Seq<char>, JsonShapeError>(e));
                    assert(logins_of(ms.take(i + 1)) == Err::<Seq<Seq<char>>, JsonShapeError>(e));
                    lemma_logins_error(ms, i as int);
                    assert(doc.model() == ApiJsonModel::Array(ms));
                }
                return Err(e);
            },
        }
        i += 1;
    }
    assert(ms.take(items@.len() as int) =~= ms);
    Ok(out)
}

proof fn lemma_logins_error(ms: Seq<ApiJsonModel>, i: int)
    requires
        0 <= i < ms.len(),
        logins_of(ms.take(i + 1)) is Err,
    ensures
        logins_of(ms) == logins_of(ms.take(i + 1)),
    decreases ms.len() - i,
{
    if i + 1 < ms.len() {
        assert(ms.take(i + 2).drop_last() =~= ms.take(i + 1));
        lemma_logins_error(ms, i + 1);
    } else {
        assert(ms.take(i + 1) =~= ms);
    }
}

/// The teams of an organization: the document must be an array; each team
/// gives its `slug` when that is a string, and nothing otherwise.
pub open spec fn team_slugs(doc: ApiJsonModel) -> Option<Seq<Option<Seq<char>>>> {
    match doc {
        ApiJsonModel::Array(items) => Some(
            Seq::new(items.len(), |i: int| text_of(field(items[i], "slug"@))),
        ),
        _ => None,
    }
}

/// Reads the teams of an organization.
pub fn read_team_slugs(doc: &ApiJson) -> (r: Option<Vec<Option<String>>>)
    ensures
        match r {
            Some(v) => team_slugs(doc.model()) == Some(
                Seq::new(v@.len(), |i: int| if v@[i] is Some { Some(v@[i]->Some_0@) } else { None::<Seq<char>> }),
            ),
            None => team_slugs(doc.model()) is None,
        },
{
    let items = match doc {
        ApiJson::Array(items) => items,
        _ => {
            return None;
        },
    };
    let ghost ms = items_model(items@);
    proof {
        lemma_items_model(items@);
    }
    let slug_key = "slug".to_owned();
    let mut out: Vec<Option<String>> = Vec::new();
    let mut i: usize = 0;
    while i < items.len()
        invariant
            0 <= i <= items@.len(),
            ms == items_model(items@),
            ms.len() == items@.len(),
            slug_key@ == "slug"@,
            forall|j: int| 0 <= j < items@.len() ==> #[trigger] ms[j] == items@[j].model(),
            out@.len() == i,
            forall|j: int|
                0 <= j < i ==> text_of(field(ms[j], "slug"@)) == (if (#[trigger] out@[j]) is Some {
                    Some(out@[j]->Some_0@)
                } else {
                    None::<Seq<char>>
                }),
        decreases items@.len() - i,
    {
        match field_of(&items[i], &slug_key) {
            Some(ApiJson::Text(s)) => out.push(Some(s.clone())),
            _ => out.push(None),
        }
        i += 1;
    }
    let ghost expected = Seq::new(out@.len(), |i: int| if out@[i] is Some { Some(out@[i]->Some_0@) } else { None::<Seq<char>> });
    assert(Seq::new(ms.len(), |i: int| text_of(field(ms[i], "slug"@))) =~= expected);
    Some(out)
}

/// The logins of the members of a team, in order: members whose `login` is
/// no string are passed over, and a document that is no array has none.
pub open spec fn logins_at(items: Seq<ApiJsonModel>) -> Seq<Seq<char>>
    decreases items.len(),
{
    if items.len() == 0 {
        Seq::empty()
    } else {
        match text_of(field(items.last(), "login"@)) {
            Some(l) => logins_at(items.drop_last()).push(l),
            None => logins_at(items.drop_last()),
        }
    }
}

pub open spec fn member_logins(doc: ApiJsonModel) -> Seq<Seq<char>> {
    match doc {
        ApiJsonModel::Array(items) => logins_at(items),
        _ => Seq::empty(),
    }
}

/// Reads the logins of a team's members.
pub fn read_member_logins(doc: &ApiJson) -> (r: Vec<String>)
    ensures
        names_of(r@) == member_logins(doc.model()),
{
    let mut out: Vec<String> = Vec::new();
    assert(names_of(out@) =~= Seq::<Seq<char>>::empty());
    let items = match doc {
        ApiJson::Array(items) => items,
        _ => {
            return out;
        },
    };
    let ghost ms = items_model(items@);
    proof {
        lemma_items_model(items@);
        assert(ms.take(0) =~= Seq::<ApiJsonModel>::empty());
    }
    let login_key = "login".to_owned();
    let mut i: usize = 0;
    while i < items.len()
        invariant
            0 <= i <= items@.len(),
            ms == items_model(items@),
            ms.len() == items@.len(),
            login_key@ == "login"@,
            forall|j: int| 0 <= j < items@.len() ==> #[trigger] ms[j] == items@[j].model(),
            names_of(out@) == logins_at(ms.take(i as int)),
        decreases items@.len() - i,
    {
        assert(ms.take(i + 1).drop_last() =~= ms.take(i as int));
        assert(ms.take(i + 1).last() == items@[i as int].model());
        match field_of(&items[i], &login_key) {
            Some(ApiJson::Text(l)) => {
                let ghost before = out@;
                out.push(l.clone());
                assert(names_of(out@) =~= names_of(before).push(l@));
            },
            _ => {},
        }
        i += 1;
    }
    assert(ms.take(items@.len() as int) =~= ms);
    out
}

/// The logins read from a review list are one per review, in order, each the
/// login that review's `user` names; they are read exactly when every review
/// names one.
pub proof fn lemma_review_logins_items(items: Seq<ApiJsonModel>)
    ensures
        logins_of(items) is Ok <==> forall|i: int|
            0 <= i < items.len() ==> (#[trigger] user_login(items[i])) is Ok,
        logins_of(items) matches Ok(ls) ==> ls.len() == items.len() && forall|i: int|
            0 <= i < items.len() ==> #[trigger] user_login(items[i]) == Ok::<
                Seq<char>,
                JsonShapeError,
            >(ls[i]),
    decreases items.len(),
{
    if items.len() > 0 {
        let d = items.drop_last();
        lemma_review_logins_items(d);
        assert forall|i: int| 0 <= i < d.len() implies d[i] == items[i] by {}
        if !(logins_of(d) is Ok) {
            let i = choose|i: int| 0 <= i < d.len() && !((#[trigger] user_login(d[i])) is Ok);
            assert(!(user_login(items[i]) is Ok));
        }
        if !(user_login(items.last()) is Ok) {
            assert(!(user_login(items[items.len() - 1]) is Ok));
        }
    }
}

/// A team's member logins are read element by element: those of two lists
/// one after the other are those of the first followed by those of the second.
pub proof fn lemma_logins_at_concat(a: Seq<ApiJsonModel>, b: Seq<ApiJsonModel>)
    ensures
        logins_at(a + b) == logins_at(a) + logins_at(b),
    decreases b.len(),
{
    if b.len() == 0 {
        assert(a + b =~= a);
        assert(logins_at(a) + Seq::<Seq<char>>::empty() =~= logins_at(a));
    } else {
        assert((a + b).drop_last() =~= a + b.drop_last());
        lemma_logins_at_concat(a, b.drop_last());
        match text_of(field(b.last(), "login"@)) {
            Some(l) => {
                assert(logins_at(a) + logins_at(b.drop_last()).push(l) =~= (logins_at(a)
                    + logins_at(b.drop_last())).push(l));
            },
            None => {},
        }
    }
}

/// One member gives its login when that is a string, and nothing otherwise.
pub proof fn lemma_logins_at_one(x: ApiJsonModel)
    ensures
        logins_at(seq![x]) == match field(x, "login"@) {
            ApiJsonModel::Text(l) => seq![l],
            _ => Seq::<Seq<char>>::empty(),
        },
{
    assert(seq![x].drop_last() =~= Seq::<ApiJsonModel>::empty());
    assert(seq![x].last() == x);
    assert(logins_at(Seq::<ApiJsonModel>::empty()) == Seq::<Seq<char>>::empty());
    match field(x, "login"@) {
        ApiJsonModel::Text(l) => {
            assert(Seq::<Seq<char>>::empty().push(l) =~= seq![l]);
        },
        _ => {},
    }
}

/// The login read for an author is the string under `user.login`; a `user`
/// object without `login` is a missing member, and anything else (no `user`
/// object, or a `login` that is no string) an unexpected format.
pub proof fn lemma_user_login_members(v: ApiJsonModel)
    ensures
        forall|s: Seq<char>|
            #[trigger] user_login(v) == Ok::<Seq<char>, JsonShapeError>(s) <==> (field(v, "user"@) is Object
                && member_of(field(v, "user"@)->Object_0, "login"@) == Some(ApiJsonModel::Text(s))),
        user_login(v) == Err::<Seq<char>, JsonShapeError>(JsonShapeError::MissingKey) <==> (field(
            v,
            "user"@,
        ) is Object && member_of(field(v, "user"@)->Object_0, "login"@) is None),
{
}

} // verus!
