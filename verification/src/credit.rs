use vstd::prelude::*;

use crate::name_map::{distinct_names, names_of, NameMap};
use crate::review::{
    lemma_occurrences_positive, lemma_occurrences_push, occurrences, requested_so_far,
    responded_so_far, RequestData, ReviewData,
};

verus! {

/// The referees that one review by `login` stands for: nobody when the
/// author reviewed their own pull request; otherwise, in team mode, the teams
/// that `login` belongs to, and else `login` itself.
pub open spec fn review_credit(
    author: Seq<char>,
    login: Seq<char>,
    is_teams: bool,
    teams: Map<Seq<char>, Vec<String>>,
) -> Set<Seq<char>> {
    if login == author {
        Set::empty()
    } else if is_teams {
        if teams.contains_key(login) {
            names_of(teams[login]@).to_set()
        } else {
            Set::empty()
        }
    } else {
        set![login]
    }
}

/// The referees credited by reviews from `logins`.
pub open spec fn reviewer_set(
    author: Seq<char>,
    logins: Seq<Seq<char>>,
    is_teams: bool,
    teams: Map<Seq<char>, Vec<String>>,
) -> Set<Seq<char>>
    decreases logins.len(),
{
    if logins.len() == 0 {
        Set::empty()
    } else {
        reviewer_set(author, logins.drop_last(), is_teams, teams).union(
            review_credit(author, logins.last(), is_teams, teams),
        )
    }
}

/// Adds `name` to `out` unless it is there already.
fn push_new(out: &mut Vec<String>, name: &String)
    requires
        distinct_names(names_of(old(out)@)),
    ensures
        distinct_names(names_of(final(out)@)),
        names_of(final(out)@).to_set() == names_of(old(out)@).to_set().insert(name@),
{
    let ghost before = names_of(out@);
    let mut i: usize = 0;
    while i < out.len()
        invariant
            0 <= i <= out@.len(),
            before == names_of(out@),
            distinct_names(before),
            forall|j: int| 0 <= j < i ==> before[j] != name@,
        decreases out@.len() - i,
    {
        if out[i] == *name {
            assert(before.to_set() =~= before.to_set().insert(name@)) by {
                assert(before[i as int] == name@);
            }
            return;
        }
        i += 1;
    }
    out.push(name.clone());
    let ghost after = names_of(out@);
    assert(after =~= before.push(name@));
    assert(after.to_set() =~= before.to_set().insert(name@)) by {
        assert(after[before.len() as int] == name@);
        assert forall|x: Seq<char>| before.to_set().contains(x) implies after.to_set().contains(x) by {
            let j = choose|j: int| 0 <= j < before.len() && before[j] == x;
            assert(after[j] == x);
        }
        assert forall|x: Seq<char>| after.to_set().contains(x) implies x == name@
            || before.to_set().contains(x) by {
            let j = choose|j: int| 0 <= j < after.len() && after[j] == x;
            if j < before.len() {
                assert(before[j] == x);
            }
        }
    }
}

/// The distinct referees credited by the reviews from `logins` on a pull
/// request by `author`: in team mode, the teams of each referee; else the
/// referees themselves. Reviews by the author are left out.
pub fn collect_reviewers(
    author: &String,
    logins: &Vec<String>,
    is_teams: bool,
    teams: &NameMap<Vec<String>>,
) -> (r: Vec<String>)
    requires
        teams.wf(),
    ensures
        distinct_names(names_of(r@)),
        names_of(r@).to_set() == reviewer_set(author@, names_of(logins@), is_teams, teams@),
{
    let ghost all = names_of(logins@);
    let mut out: Vec<String> = Vec::new();
    assert(names_of(out@).to_set() =~= Set::<Seq<char>>::empty());
    let mut i: usize = 0;
    while i < logins.len()
        invariant
            0 <= i <= logins@.len(),
            all == names_of(logins@),
            teams.wf(),
            distinct_names(names_of(out@)),
            names_of(out@).to_set() == reviewer_set(author@, all.take(i as int), is_teams, teams@),
        decreases logins@.len() - i,
    {
        let login = &logins[i];
        let ghost prev = names_of(out@).to_set();
        assert(all.take(i + 1).drop_last() =~= all.take(i as int));
        assert(all.take(i + 1).last() == login@);
        if *login != *author {
            if is_teams {
                match teams.get(login) {
                    Some(members) => {
                        let mut j: usize = 0;
                        while j < members.len()
                            invariant
                                0 <= j <= members@.len(),
                                distinct_names(names_of(out@)),
                                names_of(out@).to_set() == prev.union(
                                    names_of(members@).take(j as int).to_set(),
                                ),
                            decreases members@.len() - j,
                        {
                            push_new(&mut out, &members[j]);
                            assert(names_of(members@).take(j + 1).to_set() =~= names_of(
                                members@,
                            ).take(j as int).to_set().insert(members@[j as int]@)) by {
                                let t = names_of(members@).take(j + 1);
                                assert(t[j as int] == members@[j as int]@);
                                assert forall|x: Seq<char>|
                                    names_of(members@).take(j as int).to_set().contains(
                                        x,
                                    ) implies t.to_set().contains(x) by {
                                    let q = choose|q: int|
                                        0 <= q < j && names_of(members@).take(j as int)[q] == x;
                                    assert(t[q] == x);
                                }
                                assert forall|x: Seq<char>| t.to_set().contains(x) implies x
                                    == members@[j as int]@ || names_of(members@).take(
                                    j as int,
                                ).to_set().contains(x) by {
                                    let q = choose|q: int| 0 <= q < t.len() && t[q] == x;
                                    if q < j {
                                        assert(names_of(members@).take(j as int)[q] == x);
                                    }
                                }
                            }
                            assert(names_of(out@).to_set() =~= prev.union(
                                names_of(members@).take(j + 1).to_set(),
                            ));
                            j += 1;
                        }
                        assert(names_of(members@).take(members@.len() as int) =~= names_of(
                            members@,
                        ));
                        assert(names_of(out@).to_set() =~= prev.union(
                            review_credit(author@, login@, is_teams, teams@),
                        ));
                    },
                    None => {
                        assert(names_of(out@).to_set() =~= prev.union(
                            review_credit(author@, login@, is_teams, teams@),
                        ));
                    },
                }
            } else {
                push_new(&mut out, login);
                assert(names_of(out@).to_set() =~= prev.union(
                    review_credit(author@, login@, is_teams, teams@),
                ));
            }
        } else {
            assert(names_of(out@).to_set() =~= prev.union(
                review_credit(author@, login@, is_teams, teams@),
            ));
        }
        i += 1;
    }
    assert(all.take(logins@.len() as int) =~= all);
    out
}

/// Team lists of `k` after `team` was added to it once per occurrence of `k`
/// among the members.
pub open spec fn teams_after(
    old_teams: Map<Seq<char>, Vec<String>>,
    team: Seq<char>,
    members: Seq<Seq<char>>,
    k: Seq<char>,
) -> Seq<Seq<char>> {
    let before = if old_teams.contains_key(k) {
        names_of(old_teams[k]@)
    } else {
        Seq::empty()
    };
    before + Seq::new(occurrences(members, k), |n: int| team)
}

/// Records that every login of `members` belongs to `team`: the team goes at
/// the end of each member's list of teams.
pub fn add_team_members(teams: &mut NameMap<Vec<String>>, team: &String, members: &Vec<String>)
    requires
        old(teams).wf(),
    ensures
        final(teams).wf(),
        forall|k: Seq<char>|
            #[trigger] final(teams)@.contains_key(k) <==> old(teams)@.contains_key(k) || occurrences(
                names_of(members@),
                k,
            ) > 0,
        forall|k: Seq<char>|
            #[trigger] final(teams)@.contains_key(k) ==> names_of(final(teams)@[k]@) == teams_after(
                old(teams)@,
                team@,
                names_of(members@),
                k,
            ),
{
    let ghost t0 = teams@;
    let ghost all = names_of(members@);
    let mut i: usize = 0;
    assert forall|k: Seq<char>| #[trigger] teams@.contains_key(k) implies names_of(teams@[k]@)
        == teams_after(t0, team@, all.take(0), k) by {
        assert(Seq::new(occurrences(all.take(0), k), |n: int| team@) =~= Seq::<Seq<char>>::empty());
        assert(names_of(teams@[k]@) + Seq::<Seq<char>>::empty() =~= names_of(teams@[k]@));
    }
    while i < members.len()
        invariant
            0 <= i <= members@.len(),
            all == names_of(members@),
            teams.wf(),
            forall|k: Seq<char>|
                #[trigger] teams@.contains_key(k) <==> t0.contains_key(k) || occurrences(
                    all.take(i as int),
                    k,
                ) > 0,
            forall|k: Seq<char>|
                #[trigger] teams@.contains_key(k) ==> names_of(teams@[k]@) == teams_after(
                    t0,
                    team@,
                    all.take(i as int),
                    k,
                ),
        decreases members@.len() - i,
    {
        let login = &members[i];
        let ghost before = all.take(i as int);
        let ghost t_prev = teams@;
        assert(all.take(i + 1) =~= before.push(login@));
        let list = match teams.get(login) {
            Some(x) => {
                let mut l = x.clone();
                assert(names_of(l@) =~= names_of(x@)) by {
                    assert forall|q: int| 0 <= q < l@.len() implies l@[q] == x@[q] by {
                        assert(cloned::<String>(x@[q], l@[q]));
                    }
                }
                l.push(team.clone());
                l
            },
            None => {
                let mut l: Vec<String> = Vec::new();
                l.push(team.clone());
                l
            },
        };
        proof {
            lemma_occurrences_push(before, login@, login@);
            let old_list = if t_prev.contains_key(login@) {
                names_of(t_prev[login@]@)
            } else {
                Seq::<Seq<char>>::empty()
            };
            assert(names_of(list@) =~= old_list.push(team@));
            let n = occurrences(before, login@);
            if !t_prev.contains_key(login@) {
                assert(n == 0);
                assert(!t0.contains_key(login@));
            }
            assert(Seq::new(n + 1, |m: int| team@) =~= Seq::new(n, |m: int| team@).push(team@));
        }
        teams.insert(login.clone(), list);
        proof {
            assert forall|k: Seq<char>| true implies occurrences(all.take(i + 1), k) == occurrences(
                before,
                k,
            ) + if login@ == k {
                1nat
            } else {
                0nat
            } by {
                lemma_occurrences_push(before, login@, k);
            }
            let n = occurrences(before, login@);
            let old_list = if t0.contains_key(login@) {
                names_of(t0[login@]@)
            } else {
                Seq::<Seq<char>>::empty()
            };
            assert(old_list + Seq::new(n + 1, |m: int| team@) =~= (old_list + Seq::new(
                n,
                |m: int| team@,
            )).push(team@));
        }
        i += 1;
    }
    assert(all.take(members@.len() as int) =~= all);
}

/// In a list without repeats each name occurs once or not at all.
pub proof fn lemma_distinct_occurrences(s: Seq<Seq<char>>, k: Seq<char>)
    requires
        distinct_names(s),
    ensures
        occurrences(s, k) == if s.to_set().contains(k) {
            1nat
        } else {
            0nat
        },
    decreases s.len(),
{
    lemma_occurrences_positive(s, k);
    if s.len() > 0 {
        let d = s.drop_last();
        assert(distinct_names(d));
        lemma_distinct_occurrences(d, k);
        if s.last() == k {
            if d.to_set().contains(k) {
                let j = choose|j: int| 0 <= j < d.len() && d[j] == k;
                assert(s[j] == s[s.len() - 1]);
            }
        }
        lemma_occurrences_positive(d, k);
    }
}

/// The table after each member of `credited` was counted once more as asked
/// for a review and as having given one.
pub open spec fn after_reviews(m: Map<Seq<char>, ReviewData>, credited: Set<Seq<char>>) -> Map<
    Seq<char>,
    ReviewData,
> {
    Map::new(
        |k: Seq<char>| m.contains_key(k) || credited.contains(k),
        |k: Seq<char>|
            if credited.contains(k) {
                ReviewData {
                    times_requested: (requested_so_far(m, k) + 1) as u8,
                    times_responded: (responded_so_far(m, k) + 1) as u8,
                }
            } else {
                m[k]
            },
    )
}

/// Outside team mode the author of a pull request is never credited with a
/// review of it.
pub proof fn lemma_author_not_credited(
    author: Seq<char>,
    logins: Seq<Seq<char>>,
    teams: Map<Seq<char>, Vec<String>>,
)
    ensures
        !reviewer_set(author, logins, false, teams).contains(author),
    decreases logins.len(),
{
    if logins.len() > 0 {
        lemma_author_not_credited(author, logins.drop_last(), teams);
    }
}

/// A referee is credited exactly when some review (not the author's) stands
/// for it.
pub proof fn lemma_reviewer_set_members(
    author: Seq<char>,
    logins: Seq<Seq<char>>,
    is_teams: bool,
    teams: Map<Seq<char>, Vec<String>>,
    k: Seq<char>,
)
    ensures
        reviewer_set(author, logins, is_teams, teams).contains(k) <==> exists|i: int|
            0 <= i < logins.len() && #[trigger] review_credit(author, logins[i], is_teams, teams).contains(k),
    decreases logins.len(),
{
    if logins.len() > 0 {
        let d = logins.drop_last();
        lemma_reviewer_set_members(author, d, is_teams, teams, k);
        if reviewer_set(author, d, is_teams, teams).contains(k) {
            let i = choose|i: int| 0 <= i < d.len() && #[trigger] review_credit(author, d[i], is_teams, teams).contains(k);
            assert(logins[i] == d[i]);
        }
        if exists|i: int| 0 <= i < logins.len() && #[trigger] review_credit(author, logins[i], is_teams, teams).contains(k) {
            let i = choose|i: int| 0 <= i < logins.len() && #[trigger] review_credit(author, logins[i], is_teams, teams).contains(k);
            if i < d.len() {
                assert(d[i] == logins[i]);
            }
        }
    }
}

/// Reviews written by the author of a pull request credit nobody, in either
/// mode: when every review is the author's, no one is credited.
pub proof fn lemma_own_reviews_credit_nobody(
    author: Seq<char>,
    logins: Seq<Seq<char>>,
    is_teams: bool,
    teams: Map<Seq<char>, Vec<String>>,
)
    requires
        forall|i: int| 0 <= i < logins.len() ==> logins[i] == author,
    ensures
        reviewer_set(author, logins, is_teams, teams) == Set::<Seq<char>>::empty(),
    decreases logins.len(),
{
    if logins.len() > 0 {
        lemma_own_reviews_credit_nobody(author, logins.drop_last(), is_teams, teams);
        assert(reviewer_set(author, logins, is_teams, teams) =~= Set::<Seq<char>>::empty());
    }
}

/// A review by the author adds nobody to those credited by the other reviews.
pub proof fn lemma_own_review_adds_nobody(
    author: Seq<char>,
    logins: Seq<Seq<char>>,
    is_teams: bool,
    teams: Map<Seq<char>, Vec<String>>,
)
    ensures
        reviewer_set(author, logins.push(author), is_teams, teams) == reviewer_set(
            author,
            logins,
            is_teams,
            teams,
        ),
{
    assert(logins.push(author).drop_last() =~= logins);
    assert(reviewer_set(author, logins.push(author), is_teams, teams) =~= reviewer_set(
        author,
        logins,
        is_teams,
        teams,
    ));
}

/// Outside team mode the credited names are exactly the logins that reviewed,
/// the author's left out.
pub proof fn lemma_user_credit(
    author: Seq<char>,
    logins: Seq<Seq<char>>,
    teams: Map<Seq<char>, Vec<String>>,
    k: Seq<char>,
)
    ensures
        reviewer_set(author, logins, false, teams).contains(k) <==> (k != author && logins.contains(
            k,
        )),
{
    lemma_reviewer_set_members(author, logins, false, teams, k);
    if logins.contains(k) && k != author {
        let i = choose|i: int| 0 <= i < logins.len() && logins[i] == k;
        assert(review_credit(author, logins[i], false, teams).contains(k));
    }
    if reviewer_set(author, logins, false, teams).contains(k) {
        let i = choose|i: int|
            0 <= i < logins.len() && #[trigger] review_credit(author, logins[i], false, teams).contains(k);
        assert(logins[i] == k);
    }
}

/// In team mode the credited names are exactly the teams of those who reviewed
/// other than the author, as the team table lists them.
pub proof fn lemma_team_credit(
    author: Seq<char>,
    logins: Seq<Seq<char>>,
    teams: Map<Seq<char>, Vec<String>>,
    k: Seq<char>,
)
    ensures
        reviewer_set(author, logins, true, teams).contains(k) <==> exists|i: int|
            0 <= i < logins.len() && logins[i] != author && teams.contains_key(logins[i])
                && #[trigger] names_of(teams[logins[i]]@).contains(k),
{
    lemma_reviewer_set_members(author, logins, true, teams, k);
    if exists|i: int|
        0 <= i < logins.len() && logins[i] != author && teams.contains_key(logins[i])
            && #[trigger] names_of(teams[logins[i]]@).contains(k) {
        let i = choose|i: int|
            0 <= i < logins.len() && logins[i] != author && teams.contains_key(logins[i])
                && #[trigger] names_of(teams[logins[i]]@).contains(k);
        assert(review_credit(author, logins[i], true, teams).contains(k));
    }
    if reviewer_set(author, logins, true, teams).contains(k) {
        let i = choose|i: int|
            0 <= i < logins.len() && #[trigger] review_credit(author, logins[i], true, teams).contains(k);
        assert(logins[i] != author && teams.contains_key(logins[i]) && names_of(
            teams[logins[i]]@,
        ).contains(k));
    }
}

/// Counting the reviews of a pull request: each credited name gains one
/// request and one response; every other entry stays as it was, and no other
/// name appears.
pub proof fn lemma_reviews_effect(m: Map<Seq<char>, ReviewData>, credited: Set<Seq<char>>, k: Seq<char>)
    ensures
        after_reviews(m, credited).contains_key(k) <==> (m.contains_key(k) || credited.contains(k)),
        credited.contains(k) && requested_so_far(m, k) < 255 && responded_so_far(m, k) < 255
            ==> after_reviews(m, credited)[k].times_requested == requested_so_far(m, k) + 1
            && after_reviews(m, credited)[k].times_responded == responded_so_far(m, k) + 1,
        !credited.contains(k) && m.contains_key(k) ==> after_reviews(m, credited)[k] == m[k],
{
}

impl RequestData {
    /// Counts the reviews from `logins` on a pull request by `author`: each
    /// distinct referee they credit (see `collect_reviewers`) is counted once
    /// more as asked for a review and as having given one.
    pub fn record_reviews(
        &mut self,
        author: &String,
        logins: &Vec<String>,
        teams: &NameMap<Vec<String>>,
    )
        requires
            old(self).wf(),
            teams.wf(),
            forall|k: Seq<char>|
                #[trigger] reviewer_set(author@, names_of(logins@), old(self).is_teams, teams@).contains(
                    k,
                ) ==> requested_so_far(old(self).data@, k) < 255,
        ensures
            final(self).wf(),
            final(self).data@ == after_reviews(
                old(self).data@,
                reviewer_set(author@, names_of(logins@), old(self).is_teams, teams@),
            ),
            final(self).is_teams == old(self).is_teams,
            final(self).owner == old(self).owner,
            final(self).repo == old(self).repo,
            final(self).pulls_open == old(self).pulls_open,
            final(self).pulls_merged == old(self).pulls_merged,
            final(self).pulls_draft == old(self).pulls_draft,
            final(self).pulls_closed == old(self).pulls_closed,
            final(self).diffs_add == old(self).diffs_add,
            final(self).diffs_removals == old(self).diffs_removals,
    {
        let reviewers = collect_reviewers(author, logins, self.is_teams, teams);
        let ghost names = names_of(reviewers@);
        let ghost set = reviewer_set(author@, names_of(logins@), self.is_teams, teams@);
        let ghost m0 = self.data@;
        assert forall|k: Seq<char>| #[trigger] occurrences(names, k) > 0 implies requested_so_far(
            m0,
            k,
        ) + occurrences(names, k) <= 255 by {
            lemma_distinct_occurrences(names, k);
        }
        self.record_responses(&reviewers);
        assert forall|k: Seq<char>| true implies occurrences(names, k) == if set.contains(k) {
            1nat
        } else {
            0nat
        } by {
            lemma_distinct_occurrences(names, k);
        }
        assert(self.data@ =~= after_reviews(m0, set));
    }
}

} // verus!
