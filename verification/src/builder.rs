//! The engine's owner: holds the loaded roster text, the skill names, the
//! people, and the teams of the latest distribution, and drives the
//! pipeline of scoring, ranking and distributing.

use vstd::prelude::*;

use crate::distribute::distribute_people;
use crate::distribute::snake_teams;
use crate::distribute::teams_multiset;
use crate::distribute::views_of_teams;
use crate::ingest::ProcessError;
use crate::ingest::build_roster;
use crate::ingest::csv_rows;
use crate::ingest::read_rows;
use crate::ingest::roster_of;
use crate::roster::Person;
use crate::roster::Team;
use crate::roster::levels_dup;
use crate::roster::views_of;
use crate::roster::with_average;
use crate::sort::rank_people;
use crate::sort::ranked;
use crate::sort::sorted_by_key;
use crate::sort::valid_skill_index;

verus! {

/// The whole engine state. Each pipeline stage reads or rewrites one field:
/// ingestion fills `skills` and `people` from `people_file`, the calculator
/// and the ranker rewrite `people` in place, and the distributor replaces
/// `teams`.
#[derive(Clone, Default)]
pub struct TeamBuilder {
    pub teams: Vec<Team>,
    pub skills: Vec<String>,
    pub people: Vec<Person>,
    pub people_file: String,
}

impl TeamBuilder {
    /// A builder with nothing loaded.
    pub fn new() -> (r: TeamBuilder)
        ensures
            r.teams@.len() == 0,
            r.skills@.len() == 0,
            r.people@.len() == 0,
            r.people_file@.len() == 0,
    {
        TeamBuilder {
            teams: Vec::new(),
            skills: Vec::new(),
            people: Vec::new(),
            people_file: String::new(),
        }
    }

    /// Stores roster file text that the host has already read; reading from
    /// disk is the host's business, not the engine's.
    pub fn set_people_file(&mut self, contents: String)
        ensures
            final(self).people_file == contents,
            final(self).teams == old(self).teams,
            final(self).skills == old(self).skills,
            final(self).people == old(self).people,
    {
        self.people_file = contents;
    }

    /// Rebuilds the skills and the roster from the loaded file text and
    /// discards any previous teams. On any rejection — text the reader
    /// refuses, a short row, a bad rating cell — the builder is left
    /// exactly as it was and the error says which defect came first.
    pub fn process_file(&mut self) -> (r: Result<(), ProcessError>)
        ensures
            final(self).people_file == old(self).people_file,
            match csv_rows(old(self).people_file@) {
                None => r == Err::<(), ProcessError>(ProcessError::MalformedCsv) && *final(self)
                    == *old(self),
                Some(rows) => match roster_of(rows) {
                    Err(e) => r == Err::<(), ProcessError>(e) && *final(self) == *old(self),
                    Ok(sp) => r is Ok && final(self).teams@.len() == 0
                        && final(self).skills.deep_view() == sp.0
                        && views_of(final(self).people@) == sp.1,
                },
            },
    {
        match read_rows(self.people_file.as_str()) {
            None => Err(ProcessError::MalformedCsv),
            Some(rows) => match build_roster(&rows) {
                Err(e) => Err(e),
                Ok((skills, people)) => {
                    self.teams = Vec::new();
                    self.skills = skills;
                    self.people = people;
                    Ok(())
                },
            },
        }
    }

    /// The distribution plan for the requested team size: none when the
    /// size would not leave at least two teams, else exactly the quotient
    /// and remainder of the roster size by the team size. A team size of
    /// zero is the caller's error, ruled out up front.
    pub fn check_number_of_teams(&self, people_per_team: usize) -> (r: Option<(usize, usize)>)
        requires
            people_per_team >= 1,
        ensures
            people_per_team >= self.people@.len() ==> r is None,
            people_per_team < self.people@.len() ==> r == Some(
                (
                    (self.people@.len() as int / people_per_team as int) as usize,
                    (self.people@.len() as int % people_per_team as int) as usize,
                ),
            ),
    {
        if people_per_team >= self.people.len() {
            return None;
        }
        let quotient = self.people.len() / people_per_team;
        let remainder = self.people.len() % people_per_team;
        Some((quotient, remainder))
    }

    /// Fills every person's `average_skill_level` with the exact mean of
    /// their ratings, overwriting whatever was there; nothing else changes.
    #[verifier::loop_isolation(false)]
    pub fn calculate_teams_skill_level(&mut self)
        ensures
            final(self).teams == old(self).teams,
            final(self).skills == old(self).skills,
            final(self).people_file == old(self).people_file,
            final(self).people@.len() == old(self).people@.len(),
            forall|i: int|
                0 <= i < old(self).people@.len() ==> #[trigger] final(self).people@[i]@
                    == with_average(old(self).people@[i]@),
    {
        let n = self.people.len();
        for i in 0..n
            invariant
                self.people@.len() == n,
                self.teams == old(self).teams,
                self.skills == old(self).skills,
                self.people_file == old(self).people_file,
                forall|t: int|
                    0 <= t < i ==> #[trigger] self.people@[t]@ == with_average(
                        old(self).people@[t]@,
                    ),
                forall|t: int| i <= t < n ==> #[trigger] self.people@[t] == old(self).people@[t],
        {
            let p = &self.people[i];
            let updated = Person {
                surname: p.surname.clone(),
                skill_levels: levels_dup(&p.skill_levels),
                average_skill_level: p.get_average_skills(),
            };
            self.people.set(i, updated);
        }
    }

    /// Reorders the roster ascending by the chosen criterion — aggregate
    /// score for `None`, the skill dimension `i` for `Some(i)` — keeping
    /// people with equal keys in their relative order. A skill index must
    /// be valid for the whole roster; that is the caller's obligation.
    pub fn sort_teams_by_skill_level(&mut self, sort_by: Option<usize>)
        requires
            sort_by matches Some(i) ==> valid_skill_index(views_of(old(self).people@), i),
        ensures
            final(self).teams == old(self).teams,
            final(self).skills == old(self).skills,
            final(self).people_file == old(self).people_file,
            views_of(final(self).people@) == ranked(views_of(old(self).people@), sort_by),
            sorted_by_key(views_of(final(self).people@), sort_by),
            views_of(final(self).people@).to_multiset() == views_of(
                old(self).people@,
            ).to_multiset(),
    {
        rank_people(&mut self.people, sort_by);
    }

    /// Deals the ranked roster out into fresh teams with the serpentine
    /// sweep, replacing the teams of any previous run and leaving the
    /// roster itself untouched. The plan must be viable — the team size
    /// below the roster size — as `check_number_of_teams` demands.
    pub fn assign_people_to_team(&mut self, people_per_team: usize)
        requires
            1 <= people_per_team < old(self).people@.len(),
        ensures
            final(self).people == old(self).people,
            final(self).skills == old(self).skills,
            final(self).people_file == old(self).people_file,
            final(self).teams@.len() == old(self).people@.len() as int / people_per_team as int,
            views_of_teams(final(self).teams@) == snake_teams(
                views_of(old(self).people@),
                (old(self).people@.len() as int / people_per_team as int) as nat,
            ),
            teams_multiset(views_of_teams(final(self).teams@)) == views_of(
                old(self).people@,
            ).to_multiset(),
    {
        let total = self.people.len();
        let number_of_teams: usize = match self.check_number_of_teams(people_per_team) {
            Some(plan) => plan.0,
            None => {
                proof {
                    assert(false);
                }
                0
            },
        };
        proof {
            vstd::arithmetic::div_mod::lemma_div_non_zero(total as int, people_per_team as int);
            vstd::arithmetic::div_mod::lemma_div_nonincreasing(total as int, people_per_team as int);
            assert(number_of_teams as int == total as int / people_per_team as int);
            assert(number_of_teams >= 1);
        }
        let teams = distribute_people(&self.people, number_of_teams);
        self.teams = teams;
    }
}

} // verus!
