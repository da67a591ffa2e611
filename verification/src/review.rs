use vstd::prelude::*;

use crate::name_map::{names_of, NameMap};

verus! {

/// How often one referee (a user, or a team in team mode) was asked for a
/// review, and how often it answered.
#[derive(Clone, Copy, Debug, PartialEq, Eq, Structural)]
pub struct ReviewData {
    pub times_requested: u8,
    pub times_responded: u8,
}

/// How many times `k` occurs in `s`.
pub open spec fn occurrences(s: Seq<Seq<char>>, k: Seq<char>) -> nat
    decreases s.len(),
{
    if s.len() == 0 {
        0
    } else {
        occurrences(s.drop_last(), k) + if s.last() == k {
            1nat
        } else {
            0nat
        }
    }
}

/// Requests counted so far for `k` (0 for a name not in the table).
pub open spec fn requested_so_far(m: Map<Seq<char>, ReviewData>, k: Seq<char>) -> int {
    if m.contains_key(k) {
        m[k].times_requested as int
    } else {
        0
    }
}

/// Responses counted so far for `k` (0 for a name not in the table).
pub open spec fn responded_so_far(m: Map<Seq<char>, ReviewData>, k: Seq<char>) -> int {
    if m.contains_key(k) {
        m[k].times_responded as int
    } else {
        0
    }
}

/// The table after each occurrence of a name in `names` was counted as one more
/// review request for it. A name that is requested has its responses reset to 0.
pub open spec fn after_requests(m: Map<Seq<char>, ReviewData>, names: Seq<Seq<char>>) -> Map<
    Seq<char>,
    ReviewData,
> {
    Map::new(
        |k: Seq<char>| m.contains_key(k) || occurrences(names, k) > 0,
        |k: Seq<char>|
            if occurrences(names, k) > 0 {
                ReviewData {
                    times_requested: (requested_so_far(m, k) + occurrences(names, k)) as u8,
                    times_responded: 0,
                }
            } else {
                m[k]
            },
    )
}

/// The table after each occurrence of a name in `names` was counted as one more
/// review that this referee was asked for and gave.
pub open spec fn after_responses(m: Map<Seq<char>, ReviewData>, names: Seq<Seq<char>>) -> Map<
    Seq<char>,
    ReviewData,
> {
    Map::new(
        |k: Seq<char>| m.contains_key(k) || occurrences(names, k) > 0,
        |k: Seq<char>|
            if occurrences(names, k) > 0 {
                ReviewData {
                    times_requested: (requested_so_far(m, k) + occurrences(names, k)) as u8,
                    times_responded: (responded_so_far(m, k) + occurrences(names, k)) as u8,
                }
            } else {
                m[k]
            },
    )
}

/// Counting `names` once more each keeps every request count within a `u8`.
pub open spec fn increments_fit(m: Map<Seq<char>, ReviewData>, names: Seq<Seq<char>>) -> bool {
    forall|k: Seq<char>|
        #[trigger] occurrences(names, k) > 0 ==> requested_so_far(m, k) + occurrences(names, k)
            <= 255
}

/// Every referee in the table was asked at least once, and never answered
/// more often than it was asked.
pub open spec fn counts_consistent(m: Map<Seq<char>, ReviewData>) -> bool {
    forall|k: Seq<char>|
        #[trigger] m.contains_key(k) ==> 1 <= m[k].times_requested && m[k].times_responded
            <= m[k].times_requested
}

pub proof fn lemma_occurrences_push(s: Seq<Seq<char>>, x: Seq<char>, k: Seq<char>)
    ensures
        occurrences(s.push(x), k) == occurrences(s, k) + if x == k {
            1nat
        } else {
            0nat
        },
{
    assert(s.push(x).drop_last() =~= s);
}

pub proof fn lemma_occurrences_prefix(s: Seq<Seq<char>>, j: int, k: Seq<char>)
    requires
        0 <= j <= s.len(),
    ensures
        occurrences(s.take(j), k) <= occurrences(s, k),
    decreases s.len(),
{
    if j == s.len() {
        assert(s.take(j) =~= s);
    } else {
        assert(s.take(j) =~= s.drop_last().take(j));
        lemma_occurrences_prefix(s.drop_last(), j, k);
    }
}

pub proof fn lemma_occurrences_positive(s: Seq<Seq<char>>, k: Seq<char>)
    ensures
        occurrences(s, k) > 0 <==> s.contains(k),
    decreases s.len(),
{
    if s.len() > 0 {
        lemma_occurrences_positive(s.drop_last(), k);
        if s.drop_last().contains(k) {
            let i = choose|i: int| 0 <= i < s.drop_last().len() && s.drop_last()[i] == k;
            assert(s[i] == k);
        }
        if s.contains(k) && s.last() != k {
            let i = choose|i: int| 0 <= i < s.len() && s[i] == k;
            assert(s.drop_last()[i] == k);
        }
    }
}

pub proof fn lemma_occurrences_concat(a: Seq<Seq<char>>, b: Seq<Seq<char>>, k: Seq<char>)
    ensures
        occurrences(a + b, k) == occurrences(a, k) + occurrences(b, k),
    decreases b.len(),
{
    if b.len() == 0 {
        assert(a + b =~= a);
    } else {
        assert((a + b).drop_last() =~= a + b.drop_last());
        lemma_occurrences_concat(a, b.drop_last(), k);
    }
}

/// Counts one review request for each name of `names`, in order.
fn add_requests(data: &mut NameMap<ReviewData>, names: &Vec<String>)
    requires
        old(data).wf(),
        increments_fit(old(data)@, names_of(names@)),
    ensures
        final(data).wf(),
        final(data)@ == after_requests(old(data)@, names_of(names@)),
{
    let ghost m0 = data@;
    let ghost all = names_of(names@);
    let mut i: usize = 0;
    assert(after_requests(m0, all.take(0)) =~= m0);
    while i < names.len()
        invariant
            0 <= i <= names@.len(),
            all == names_of(names@),
            data.wf(),
            increments_fit(m0, all),
            data@ == after_requests(m0, all.take(i as int)),
        decreases names@.len() - i,
    {
        let name = &names[i];
        let ghost k = name@;
        let ghost before = all.take(i as int);
        assert(all.take(i + 1) =~= before.push(k));
        proof {
            lemma_occurrences_push(before, k, k);
            lemma_occurrences_prefix(all, i + 1, k);
        }
        let next = match data.get(name) {
            Some(x) => ReviewData { times_requested: x.times_requested + 1, times_responded: 0 },
            None => ReviewData { times_requested: 1, times_responded: 0 },
        };
        data.insert(name.clone(), next);
        proof {
            assert forall|key: Seq<char>| true implies occurrences(all.take(i + 1), key) == occurrences(
                before,
                key,
            ) + if k == key {
                1nat
            } else {
                0nat
            } by {
                lemma_occurrences_push(before, k, key);
            }
            assert(data@ =~= after_requests(m0, all.take(i + 1)));
        }
        i += 1;
    }
    assert(all.take(names@.len() as int) =~= all);
}

/// Counts one request and one response for each name of `names`, in order.
fn add_responses(data: &mut NameMap<ReviewData>, names: &Vec<String>)
    requires
        old(data).wf(),
        counts_consistent(old(data)@),
        increments_fit(old(data)@, names_of(names@)),
    ensures
        final(data).wf(),
        final(data)@ == after_responses(old(data)@, names_of(names@)),
{
    let ghost m0 = data@;
    let ghost all = names_of(names@);
    let mut i: usize = 0;
    assert(after_responses(m0, all.take(0)) =~= m0);
    while i < names.len()
        invariant
            0 <= i <= names@.len(),
            all == names_of(names@),
            data.wf(),
            counts_consistent(m0),
            increments_fit(m0, all),
            data@ == after_responses(m0, all.take(i as int)),
        decreases names@.len() - i,
    {
        let name = &names[i];
        let ghost k = name@;
        let ghost before = all.take(i as int);
        assert(all.take(i + 1) =~= before.push(k));
        proof {
            lemma_occurrences_push(before, k, k);
            lemma_occurrences_prefix(all, i + 1, k);
        }
        let next = match data.get(name) {
            Some(x) => ReviewData {
                times_requested: x.times_requested + 1,
                times_responded: x.times_responded + 1,
            },
            None => ReviewData { times_requested: 1, times_responded: 1 },
        };
        data.insert(name.clone(), next);
        proof {
            assert forall|key: Seq<char>| true implies occurrences(all.take(i + 1), key) == occurrences(
                before,
                key,
            ) + if k == key {
                1nat
            } else {
                0nat
            } by {
                lemma_occurrences_push(before, k, key);
            }
            assert(data@ =~= after_responses(m0, all.take(i + 1)));
        }
        i += 1;
    }
    assert(all.take(names@.len() as int) =~= all);
}

/// Where a pull request stands.
#[derive(Clone, Copy, Debug, PartialEq, Eq, Structural)]
pub enum PullState {
    Draft,
    Merged,
    Closed,
    Open,
}

/// What still has to be fetched for a pull request once its state was counted.
#[derive(Clone, Copy, Debug, PartialEq, Eq, Structural)]
pub struct PullFollowUp {
    /// Its reviews are fetched and counted (pull requests that are neither
    /// drafts nor merged).
    pub fetch_reviews: bool,
    /// Its diff is fetched and its lines counted (all but drafts, when diffs
    /// are counted at all).
    pub fetch_diff: bool,
}

/// A draft is a draft whatever else holds; otherwise a merged pull request is
/// merged, an unmerged one that was closed is closed, and the rest are open.
pub fn classify_pull(draft: bool, merged: bool, closed: bool) -> (r: PullState)
    ensures
        r == (if draft {
            PullState::Draft
        } else if merged {
            PullState::Merged
        } else if closed {
            PullState::Closed
        } else {
            PullState::Open
        }),
{
    if draft {
        PullState::Draft
    } else if merged {
        PullState::Merged
    } else if closed {
        PullState::Closed
    } else {
        PullState::Open
    }
}

/// The numbers of lines that a diff adds and removes.
#[derive(Clone, Copy, Debug, PartialEq, Eq, Structural)]
pub struct DiffCounts {
    pub additions: u64,
    pub removals: u64,
}

/// The statistics gathered for one repository.
pub struct RequestData {
    pub is_teams: bool,
    pub owner: String,
    pub repo: String,
    /// Review requests and responses per referee (a user, or a team in team mode).
    pub data: NameMap<ReviewData>,
    pub pulls_open: u8,
    pub pulls_merged: u8,
    pub pulls_draft: u8,
    pub pulls_closed: u8,
    pub diffs_add: u64,
    pub diffs_removals: u64,
}

impl RequestData {
    /// The referee table is well formed and its counts are consistent.
    pub open spec fn wf(&self) -> bool {
        &&& self.data.wf()
        &&& counts_consistent(self.data@)
    }

    /// The counter of pull requests in `state`.
    pub open spec fn state_count(&self, state: PullState) -> u8 {
        match state {
            PullState::Draft => self.pulls_draft,
            PullState::Merged => self.pulls_merged,
            PullState::Closed => self.pulls_closed,
            PullState::Open => self.pulls_open,
        }
    }

    /// All pull requests counted so far.
    pub open spec fn pulls_seen(&self) -> int {
        self.pulls_open + self.pulls_merged + self.pulls_draft + self.pulls_closed
    }

    /// Empty statistics for `owner`/`repo`.
    pub fn new(is_teams: bool, owner: String, repo: String) -> (r: Self)
        ensures
            r.wf(),
            r.is_teams == is_teams,
            r.owner == owner,
            r.repo == repo,
            r.data@ == Map::<Seq<char>, ReviewData>::empty(),
            r.data.entry_seq().len() == 0,
            r.pulls_open == 0,
            r.pulls_merged == 0,
            r.pulls_draft == 0,
            r.pulls_closed == 0,
            r.diffs_add == 0,
            r.diffs_removals == 0,
    {
        RequestData {
            is_teams,
            owner,
            repo,
            data: NameMap::new(),
            pulls_open: 0,
            pulls_merged: 0,
            pulls_draft: 0,
            pulls_closed: 0,
            diffs_add: 0,
            diffs_removals: 0,
        }
    }

    /// Whether counting one more request for each of `names` keeps every
    /// request count within a `u8`.
    pub fn can_count(&self, names: &Vec<String>) -> (r: bool)
        requires
            self.wf(),
        ensures
            r == increments_fit(self.data@, names_of(names@)),
    {
        let ghost all = names_of(names@);
        let mut i: usize = 0;
        while i < names.len()
            invariant
                0 <= i <= names@.len(),
                all == names_of(names@),
                self.wf(),
                forall|j: int|
                    0 <= j < i ==> requested_so_far(self.data@, #[trigger] all[j]) + occurrences(
                        all,
                        all[j],
                    ) <= 255,
            decreases names@.len() - i,
        {
            let name = &names[i];
            let mut count: usize = 0;
            let mut j: usize = 0;
            while j < names.len()
                invariant
                    0 <= j <= names@.len(),
                    all == names_of(names@),
                    count == occurrences(all.take(j as int), name@),
                    count <= j,
                decreases names@.len() - j,
            {
                proof {
                    assert(all.take(j + 1) =~= all.take(j as int).push(all[j as int]));
                    lemma_occurrences_push(all.take(j as int), all[j as int], name@);
                }
                if names[j] == *name {
                    count += 1;
                }
                j += 1;
            }
            assert(all.take(names@.len() as int) =~= all);
            let base: u8 = match self.data.get(name) {
                Some(d) => d.times_requested,
                None => 0,
            };
            if count > (255 - base) as usize {
                assert(occurrences(all, all[i as int]) > 0) by {
                    lemma_occurrences_positive(all, all[i as int]);
                    assert(all[i as int] == all[i as int]);
                }
                return false;
            }
            i += 1;
        }
        assert forall|k: Seq<char>| #[trigger] occurrences(all, k) > 0 implies requested_so_far(
            self.data@,
            k,
        ) + occurrences(all, k) <= 255 by {
            lemma_occurrences_positive(all, k);
            let j = choose|j: int| 0 <= j < all.len() && all[j] == k;
        }
        true
    }

    /// Counts one pull request in `state`. For an open one, each name of
    /// `requested` is counted as one more review request (the names are not
    /// read for the other states). Says what still has to be fetched for it.
    pub fn record_pull(&mut self, state: PullState, requested: &Vec<String>, count_diffs: bool) -> (r:
        PullFollowUp)
        requires
            old(self).wf(),
            old(self).state_count(state) < 255,
            state == PullState::Open ==> increments_fit(old(self).data@, names_of(requested@)),
        ensures
            final(self).wf(),
            final(self).state_count(state) == old(self).state_count(state) + 1,
            forall|other: PullState|
                other != state ==> #[trigger] final(self).state_count(other) == old(
                    self,
                ).state_count(other),
            final(self).pulls_seen() == old(self).pulls_seen() + 1,
            final(self).data@ == (if state == PullState::Open {
                after_requests(old(self).data@, names_of(requested@))
            } else {
                old(self).data@
            }),
            final(self).is_teams == old(self).is_teams,
            final(self).owner == old(self).owner,
            final(self).repo == old(self).repo,
            final(self).diffs_add == old(self).diffs_add,
            final(self).diffs_removals == old(self).diffs_removals,
            r.fetch_reviews == (state == PullState::Open || state == PullState::Closed),
            r.fetch_diff == (state != PullState::Draft && count_diffs),
    {
        match state {
            PullState::Draft => {
                self.pulls_draft = self.pulls_draft + 1;
            },
            PullState::Merged => {
                self.pulls_merged = self.pulls_merged + 1;
            },
            PullState::Closed => {
                self.pulls_closed = self.pulls_closed + 1;
            },
            PullState::Open => {
                self.pulls_open = self.pulls_open + 1;
                let ghost m0 = self.data@;
                add_requests(&mut self.data, requested);
                proof {
                    lemma_requests_consistent(m0, names_of(requested@));
                }
            },
        }
        PullFollowUp {
            fetch_reviews: state == PullState::Open || state == PullState::Closed,
            fetch_diff: state != PullState::Draft && count_diffs,
        }
    }

    /// Counts one request and one response for each name of `names`.
    pub fn record_responses(&mut self, names: &Vec<String>)
        requires
            old(self).wf(),
            increments_fit(old(self).data@, names_of(names@)),
        ensures
            final(self).wf(),
            final(self).data@ == after_responses(old(self).data@, names_of(names@)),
            final(self).is_teams == old(self).is_teams,
            final(self).owner == old(self).owner,
            final(self).repo == old(self).repo,
            final(self).pulls_open == old(self).pulls_open,
            final(self).pulls_merged == old(self).pulls_merged,
            final(self).pulls_draft == old(self).pulls_draft,
            final(self).pulls_closed == old(self).pulls_closed,
            final(self).diffs_add == old(self).diffs_add,
            final(self).diffs_removals == old(self).diffs_removals,
    {
        let ghost m0 = self.data@;
        add_responses(&mut self.data, names);
        proof {
            lemma_responses_consistent(m0, names_of(names@));
        }
    }

    /// Adds the lines that one diff adds and removes to the totals.
    pub fn add_diff(&mut self, counts: DiffCounts)
        requires
            old(self).diffs_add + counts.additions <= u64::MAX,
            old(self).diffs_removals + counts.removals <= u64::MAX,
        ensures
            final(self).diffs_add == old(self).diffs_add + counts.additions,
            final(self).diffs_removals == old(self).diffs_removals + counts.removals,
            final(self).is_teams == old(self).is_teams,
            final(self).owner == old(self).owner,
            final(self).repo == old(self).repo,
            final(self).data == old(self).data,
            final(self).pulls_open == old(self).pulls_open,
            final(self).pulls_merged == old(self).pulls_merged,
            final(self).pulls_draft == old(self).pulls_draft,
            final(self).pulls_closed == old(self).pulls_closed,
    {
        self.diffs_add = self.diffs_add + counts.additions;
        self.diffs_removals = self.diffs_removals + counts.removals;
    }
}

/// Counting requests keeps the counts consistent.
pub proof fn lemma_requests_consistent(m: Map<Seq<char>, ReviewData>, names: Seq<Seq<char>>)
    requires
        counts_consistent(m),
        increments_fit(m, names),
    ensures
        counts_consistent(after_requests(m, names)),
{
    let r = after_requests(m, names);
    assert forall|k: Seq<char>| #[trigger] r.contains_key(k) implies 1 <= r[k].times_requested
        && r[k].times_responded <= r[k].times_requested by {
        if occurrences(names, k) > 0 {
        } else {
            assert(m.contains_key(k));
        }
    }
}

/// Counting responses keeps the counts consistent.
pub proof fn lemma_responses_consistent(m: Map<Seq<char>, ReviewData>, names: Seq<Seq<char>>)
    requires
        counts_consistent(m),
        increments_fit(m, names),
    ensures
        counts_consistent(after_responses(m, names)),
{
    let r = after_responses(m, names);
    assert forall|k: Seq<char>| #[trigger] r.contains_key(k) implies 1 <= r[k].times_requested
        && r[k].times_responded <= r[k].times_requested by {
        if occurrences(names, k) > 0 {
        } else {
            assert(m.contains_key(k));
        }
    }
}

/// Counting review requests in two batches, one pull request after the other,
/// gives the same table as counting both batches at once.
pub proof fn lemma_requests_compose(
    m: Map<Seq<char>, ReviewData>,
    a: Seq<Seq<char>>,
    b: Seq<Seq<char>>,
)
    requires
        increments_fit(m, a + b),
    ensures
        increments_fit(m, a),
        increments_fit(after_requests(m, a), b),
        after_requests(after_requests(m, a), b) == after_requests(m, a + b),
{
    let m1 = after_requests(m, a);
    assert forall|k: Seq<char>| true implies occurrences(a + b, k) == occurrences(a, k)
        + occurrences(b, k) by {
        lemma_occurrences_concat(a, b, k);
    }
    assert forall|k: Seq<char>| #[trigger] occurrences(a, k) > 0 implies requested_so_far(m, k)
        + occurrences(a, k) <= 255 by {
        assert(occurrences(a + b, k) > 0);
    }
    assert forall|k: Seq<char>| #[trigger] occurrences(b, k) > 0 implies requested_so_far(m1, k)
        + occurrences(b, k) <= 255 by {
        assert(occurrences(a + b, k) > 0);
    }
    assert(after_requests(m1, b) =~= after_requests(m, a + b));
}

/// Counting reviews in two batches gives the same table as counting both
/// batches at once.
pub proof fn lemma_responses_compose(
    m: Map<Seq<char>, ReviewData>,
    a: Seq<Seq<char>>,
    b: Seq<Seq<char>>,
)
    requires
        counts_consistent(m),
        increments_fit(m, a + b),
    ensures
        increments_fit(m, a),
        increments_fit(after_responses(m, a), b),
        after_responses(after_responses(m, a), b) == after_responses(m, a + b),
{
    let m1 = after_responses(m, a);
    assert forall|k: Seq<char>| true implies occurrences(a + b, k) == occurrences(a, k)
        + occurrences(b, k) by {
        lemma_occurrences_concat(a, b, k);
    }
    assert forall|k: Seq<char>| #[trigger] occurrences(a, k) > 0 implies requested_so_far(m, k)
        + occurrences(a, k) <= 255 by {
        assert(occurrences(a + b, k) > 0);
    }
    assert forall|k: Seq<char>| #[trigger] occurrences(b, k) > 0 implies requested_so_far(m1, k)
        + occurrences(b, k) <= 255 by {
        assert(occurrences(a + b, k) > 0);
    }
    assert forall|k: Seq<char>| m.contains_key(k) implies #[trigger] responded_so_far(m, k)
        <= requested_so_far(m, k) by {}
    assert(after_responses(m1, b) =~= after_responses(m, a + b));
}

/// The table after recording a list of pull requests one by one (state and
/// requested names of each), as `record_pull` does.
pub open spec fn tally(m: Map<Seq<char>, ReviewData>, pulls: Seq<(PullState, Seq<Seq<char>>)>) -> Map<
    Seq<char>,
    ReviewData,
>
    decreases pulls.len(),
{
    if pulls.len() == 0 {
        m
    } else {
        let prev = tally(m, pulls.drop_last());
        if pulls.last().0 == PullState::Open {
            after_requests(prev, pulls.last().1)
        } else {
            prev
        }
    }
}

/// The requested names of the open pull requests of a list, in order.
pub open spec fn open_requests(pulls: Seq<(PullState, Seq<Seq<char>>)>) -> Seq<Seq<char>>
    decreases pulls.len(),
{
    if pulls.len() == 0 {
        Seq::empty()
    } else if pulls.last().0 == PullState::Open {
        open_requests(pulls.drop_last()) + pulls.last().1
    } else {
        open_requests(pulls.drop_last())
    }
}

/// Recording a whole list of pull requests one by one gives the table of
/// counting the requests of all its open pull requests at once.
pub proof fn lemma_tally_pulls(
    m: Map<Seq<char>, ReviewData>,
    pulls: Seq<(PullState, Seq<Seq<char>>)>,
)
    requires
        increments_fit(m, open_requests(pulls)),
    ensures
        tally(m, pulls) == after_requests(m, open_requests(pulls)),
    decreases pulls.len(),
{
    if pulls.len() == 0 {
        assert(after_requests(m, Seq::<Seq<char>>::empty()) =~= m);
    } else {
        let d = pulls.drop_last();
        if pulls.last().0 == PullState::Open {
            lemma_requests_compose(m, open_requests(d), pulls.last().1);
            lemma_tally_pulls(m, d);
        } else {
            lemma_tally_pulls(m, d);
        }
    }
}

/// Requesting reviews: a name that is requested `n` times gains `n` requests
/// and has no responses left; every other entry stays as it was, and no
/// other name appears.
pub proof fn lemma_requests_effect(m: Map<Seq<char>, ReviewData>, names: Seq<Seq<char>>, k: Seq<char>)
    requires
        increments_fit(m, names),
    ensures
        after_requests(m, names).contains_key(k) <==> (m.contains_key(k) || names.contains(k)),
        names.contains(k) ==> after_requests(m, names)[k].times_requested == requested_so_far(m, k)
            + occurrences(names, k) && after_requests(m, names)[k].times_responded == 0,
        !names.contains(k) && m.contains_key(k) ==> after_requests(m, names)[k] == m[k],
{
    lemma_occurrences_positive(names, k);
}

/// Counting responses: a name that occurs `n` times gains `n` requests and
/// `n` responses; every other entry stays as it was, and no other name
/// appears.
pub proof fn lemma_responses_effect(m: Map<Seq<char>, ReviewData>, names: Seq<Seq<char>>, k: Seq<char>)
    requires
        counts_consistent(m),
        increments_fit(m, names),
    ensures
        after_responses(m, names).contains_key(k) <==> (m.contains_key(k) || names.contains(k)),
        names.contains(k) ==> after_responses(m, names)[k].times_requested == requested_so_far(m, k)
            + occurrences(names, k) && after_responses(m, names)[k].times_responded
            == responded_so_far(m, k) + occurrences(names, k),
        !names.contains(k) && m.contains_key(k) ==> after_responses(m, names)[k] == m[k],
{
    lemma_occurrences_positive(names, k);
    if names.contains(k) && m.contains_key(k) {
        assert(m[k].times_responded <= m[k].times_requested);
    }
}

/// Occurrences count the positions that hold the name: none in an empty
/// list, one in a list of just that name, and never more than the list's length.
pub proof fn lemma_occurrences_count(s: Seq<Seq<char>>, k: Seq<char>)
    ensures
        occurrences(Seq::<Seq<char>>::empty(), k) == 0,
        occurrences(seq![k], k) == 1,
        occurrences(s, k) <= s.len(),
    decreases s.len(),
{
    assert(seq![k].drop_last() =~= Seq::<Seq<char>>::empty());
    assert(seq![k].last() == k);
    if s.len() > 0 {
        lemma_occurrences_count(s.drop_last(), k);
    }
}

} // verus!
