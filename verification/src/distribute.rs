//! The team distributor: deal a ranked roster out into teams with a
//! serpentine (snake-draft) sweep.
//!
//! The sweep repeatedly takes the last person of the ranked roster — the
//! highest-ranked one remaining, since ranking is ascending — and appends
//! them to the team under a cursor. The cursor starts at team 0 moving
//! forward; on reaching either end of the team list it reverses, so that
//! consecutive top picks alternate across teams instead of always favouring
//! team 0.

use vstd::multiset::Multiset;
use vstd::prelude::*;

use crate::roster::Person;
use crate::roster::PersonView;
use crate::roster::Team;
use crate::roster::person_dup;
use crate::roster::views_of;

verus! {

/// Which way the cursor is sweeping.
enum Direction {
    Forward,
    Backward,
}

/// One move of the serpentine cursor over `k` teams. The cursor state is the
/// pair of the team index and whether the sweep is moving forward; at either
/// boundary the direction flips and the index stays put for that move.
pub open spec fn cursor_step(c: (nat, bool), k: nat) -> (nat, bool) {
    if c.1 {
        if c.0 + 1 < k {
            (c.0 + 1, true)
        } else {
            (c.0, false)
        }
    } else {
        if c.0 > 0 {
            ((c.0 - 1) as nat, false)
        } else {
            (c.0, true)
        }
    }
}

/// The cursor state after `t` picks: start at team 0 moving forward, then
/// move once per pick.
pub open spec fn cursor_after(t: nat, k: nat) -> (nat, bool)
    decreases t,
{
    if t == 0 {
        (0, true)
    } else {
        cursor_step(cursor_after((t - 1) as nat, k), k)
    }
}

/// The team that receives pick `t`.
pub open spec fn snake_index(t: nat, k: nat) -> nat {
    cursor_after(t, k).0
}

/// The cursor never leaves the team range.
pub proof fn lemma_cursor_in_range(t: nat, k: nat)
    requires
        k >= 1,
    ensures
        cursor_after(t, k).0 < k,
    decreases t,
{
    if t > 0 {
        lemma_cursor_in_range((t - 1) as nat, k);
    }
}

/// `k` teams with nobody assigned yet.
pub open spec fn empty_teams(k: nat) -> Seq<Seq<PersonView>> {
    Seq::new(k, |i: int| Seq::empty())
}

/// The teams after the first `t` picks of the sweep over `roster`:
/// pick `t` removes `roster[roster.len() - 1 - t]` and appends it to team
/// `snake_index(t, k)`.
pub open spec fn snake_upto(roster: Seq<PersonView>, k: nat, t: nat) -> Seq<Seq<PersonView>>
    decreases t,
{
    if t == 0 {
        empty_teams(k)
    } else {
        let prev = snake_upto(roster, k, (t - 1) as nat);
        let j = snake_index((t - 1) as nat, k);
        prev.update(j as int, prev[j as int].push(roster[roster.len() - t]))
    }
}

/// The teams after the whole roster has been dealt out.
pub open spec fn snake_teams(roster: Seq<PersonView>, k: nat) -> Seq<Seq<PersonView>> {
    snake_upto(roster, k, roster.len())
}

/// The sweep never changes how many teams there are.
pub proof fn lemma_snake_upto_len(roster: Seq<PersonView>, k: nat, t: nat)
    requires
        k >= 1,
    ensures
        snake_upto(roster, k, t).len() == k,
    decreases t,
{
    if t > 0 {
        lemma_snake_upto_len(roster, k, (t - 1) as nat);
        lemma_cursor_in_range((t - 1) as nat, k);
    }
}

/// Everything the teams hold, as one multiset of people.
pub open spec fn teams_multiset(ts: Seq<Seq<PersonView>>) -> Multiset<PersonView>
    decreases ts.len(),
{
    if ts.len() == 0 {
        Multiset::empty()
    } else {
        ts.first().to_multiset().add(teams_multiset(ts.drop_first()))
    }
}

/// Teams with nobody assigned hold nobody.
proof fn lemma_empty_teams_multiset(k: nat)
    ensures
        teams_multiset(empty_teams(k)) == Multiset::<PersonView>::empty(),
    decreases k,
{
    if k > 0 {
        broadcast use vstd::seq_lib::group_to_multiset_ensures;

        lemma_empty_teams_multiset((k - 1) as nat);
        assert(empty_teams(k).drop_first() =~= empty_teams((k - 1) as nat));
        let e = Seq::<PersonView>::empty();
        assert(empty_teams(k).first() == e);
        assert forall|x: PersonView| e.to_multiset().count(x) == 0 by {
            assert(!e.contains(x));
        }
        assert(e.to_multiset() =~= Multiset::<PersonView>::empty());
        assert(teams_multiset(empty_teams(k)) =~= Multiset::<PersonView>::empty());
    }
}

/// Appending one person to one team adds exactly that person to the teams'
/// combined contents.
proof fn lemma_teams_multiset_update_push(ts: Seq<Seq<PersonView>>, j: int, p: PersonView)
    requires
        0 <= j < ts.len(),
    ensures
        teams_multiset(ts.update(j, ts[j].push(p))) == teams_multiset(ts).insert(p),
    decreases ts.len(),
{
    broadcast use vstd::seq_lib::group_to_multiset_ensures;

    let up = ts.update(j, ts[j].push(p));
    if j == 0 {
        assert(up.first() == ts.first().push(p));
        assert(up.drop_first() =~= ts.drop_first());
        assert(teams_multiset(up) =~= teams_multiset(ts).insert(p));
    } else {
        lemma_teams_multiset_update_push(ts.drop_first(), j - 1, p);
        assert(up.first() == ts.first());
        assert(up.drop_first() =~= ts.drop_first().update(j - 1, ts.drop_first()[j - 1].push(p)));
        assert(teams_multiset(up) =~= teams_multiset(ts).insert(p));
    }
}

/// After `t` picks the teams hold exactly the last `t` people of the roster.
proof fn lemma_snake_upto_multiset(roster: Seq<PersonView>, k: nat, t: nat)
    requires
        k >= 1,
        t <= roster.len(),
    ensures
        teams_multiset(snake_upto(roster, k, t)) == roster.skip(roster.len() - t).to_multiset(),
    decreases t,
{
    broadcast use vstd::seq_lib::group_to_multiset_ensures;

    let len = roster.len();
    if t == 0 {
        lemma_empty_teams_multiset(k);
        assert(roster.skip(len as int) =~= Seq::<PersonView>::empty());
    } else {
        lemma_snake_upto_multiset(roster, k, (t - 1) as nat);
        lemma_snake_upto_len(roster, k, (t - 1) as nat);
        lemma_cursor_in_range((t - 1) as nat, k);
        let prev = snake_upto(roster, k, (t - 1) as nat);
        let j = snake_index((t - 1) as nat, k);
        let p = roster[len - t];
        lemma_teams_multiset_update_push(prev, j as int, p);
        let tail = roster.skip(len - t + 1);
        let whole = roster.skip(len - t);
        vstd::seq_lib::lemma_multiset_commutative(seq![p], tail);
        assert(seq![p] + tail =~= whole);
        assert(seq![p] =~= Seq::<PersonView>::empty().push(p));
        assert(seq![p].to_multiset() =~= Multiset::<PersonView>::empty().insert(p));
        assert(whole.to_multiset() =~= tail.to_multiset().insert(p));
    }
}

/// The sweep neither drops nor duplicates anyone: the combined contents of
/// the returned teams are exactly the roster.
pub proof fn lemma_snake_teams_complete(roster: Seq<PersonView>, k: nat)
    requires
        k >= 1,
    ensures
        teams_multiset(snake_teams(roster, k)) == roster.to_multiset(),
{
    lemma_snake_upto_multiset(roster, k, roster.len());
    assert(roster.skip(0) =~= roster);
}

/// Distribution is deterministic: the same ranked roster and the same team
/// count always give the same teams, in content and in order.
pub proof fn lemma_snake_teams_deterministic(a: Seq<PersonView>, b: Seq<PersonView>, k: nat)
    requires
        a == b,
    ensures
        snake_teams(a, k) == snake_teams(b, k),
{
}

/// The views of a list of teams.
pub open spec fn views_of_teams(ts: Seq<Team>) -> Seq<Seq<PersonView>> {
    ts.map_values(|t: Team| t@)
}

/// Deals the whole roster out into `number_of_teams` fresh teams with the
/// serpentine sweep, leaving the roster itself untouched.
pub fn distribute_people(people: &Vec<Person>, number_of_teams: usize) -> (teams: Vec<Team>)
    requires
        number_of_teams >= 1,
    ensures
        teams@.len() == number_of_teams,
        views_of_teams(teams@) == snake_teams(views_of(people@), number_of_teams as nat),
        teams_multiset(views_of_teams(teams@)) == views_of(people@).to_multiset(),
{
    let ghost roster = views_of(people@);
    let k = number_of_teams;
    let mut teams: Vec<Team> = Vec::new();
    for c in 0..k
        invariant
            teams@.len() == c,
            views_of_teams(teams@) == empty_teams(c as nat),
    {
        let fresh = Team { people: Vec::new() };
        let ghost gfresh = fresh;
        let ghost before = teams@;
        teams.push(fresh);
        proof {
            assert(teams@ == before.push(gfresh));
            assert forall|i: int| 0 <= i < c + 1 implies views_of_teams(teams@)[i] =~= empty_teams(
                (c + 1) as nat,
            )[i] by {
                if i < c {
                    assert(teams@[i] == before[i]);
                    assert(views_of_teams(before)[i] == before[i]@);
                } else {
                    assert(teams@[i] == gfresh);
                    assert(gfresh@.len() == 0);
                }
            }
            assert(views_of_teams(teams@) =~~= empty_teams((c + 1) as nat));
        }
    }
    let total = people.len();
    let mut direction = Direction::Forward;
    let mut team_index: usize = 0;
    let mut t: usize = 0;
    while t < total
        invariant
            t <= total,
            total == people@.len(),
            roster == views_of(people@),
            roster.len() == total,
            k == number_of_teams,
            k >= 1,
            teams@.len() == k,
            views_of_teams(teams@) == snake_upto(roster, k as nat, t as nat),
            (team_index as nat, direction is Forward) == cursor_after(t as nat, k as nat),
            team_index < k,
        decreases total - t,
    {
        let person = person_dup(&people[total - 1 - t]);
        let ghost before = teams@;
        let mut team = teams.remove(team_index);
        let ghost old_team = team;
        team.people.push(person);
        teams.insert(team_index, team);
        proof {
            let ti = team_index as int;
            assert(teams@ =~= before.update(ti, team));
            assert(team@ =~= before[ti]@.push(person@)) by {
                assert(team.people@ =~= old_team.people@.push(person));
            }
            assert(views_of_teams(teams@) =~= views_of_teams(before).update(ti, team@));
            assert(person@ == roster[total - 1 - t]);
            assert(views_of_teams(teams@) =~= snake_upto(roster, k as nat, (t + 1) as nat));
        }
        match direction {
            Direction::Forward => {
                if team_index < k - 1 {
                    team_index = team_index + 1;
                } else {
                    direction = Direction::Backward;
                }
            },
            Direction::Backward => {
                if team_index > 0 {
                    team_index = team_index - 1;
                } else {
                    direction = Direction::Forward;
                }
            },
        }
        t = t + 1;
        proof {
            lemma_cursor_in_range(t as nat, k as nat);
        }
    }
    proof {
        lemma_snake_teams_complete(roster, k as nat);
    }
    teams
}

} // verus!
