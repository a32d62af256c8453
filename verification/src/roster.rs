//! The data model: one person with their skill ratings, the exact mean of
//! those ratings, and a team of people.

use vstd::prelude::*;

verus! {

/// The arithmetic mean of a row of skill ratings, kept exact as the pair of
/// the ratings' sum and their count: the mean is `sum / count`.
///
/// A freshly ingested person carries the empty average `sum == 0, count == 0`;
/// the batch calculator fills the real one in.
#[derive(Debug, Clone, Copy, PartialEq, Eq, Structural, Default)]
pub struct SkillAverage {
    /// Sum of the ratings. A `u128` holds any sum of `u32` ratings a vector
    /// can carry, so no caller has to promise anything about magnitudes.
    pub sum: u128,
    /// How many ratings were summed.
    pub count: usize,
}

/// One roster member: a display name (not necessarily unique) and one `u32`
/// rating per skill dimension, in the roster's dimension order.
#[derive(Debug, Clone, PartialEq, Default)]
pub struct Person {
    pub surname: String,
    pub skill_levels: Vec<u32>,
    pub average_skill_level: SkillAverage,
}

/// The mathematical content of a `Person`: the same three fields, with the
/// containers abstracted to sequences.
pub ghost struct PersonView {
    pub surname: Seq<char>,
    pub skill_levels: Seq<u32>,
    pub average_skill_level: SkillAverage,
}

impl View for Person {
    type V = PersonView;

    open spec fn view(&self) -> PersonView {
        PersonView {
            surname: self.surname@,
            skill_levels: self.skill_levels@,
            average_skill_level: self.average_skill_level,
        }
    }
}

/// An ordered group of people produced by one distribution run.
#[derive(Debug, Clone, Default)]
pub struct Team {
    pub people: Vec<Person>,
}

impl View for Team {
    type V = Seq<PersonView>;

    open spec fn view(&self) -> Seq<PersonView> {
        views_of(self.people@)
    }
}

/// The sequence of views of a sequence of people.
pub open spec fn views_of(people: Seq<Person>) -> Seq<PersonView> {
    people.map_values(|p: Person| p@)
}

/// The sum of a sequence of ratings, as an unbounded integer.
pub open spec fn sum_of(levels: Seq<u32>) -> int
    decreases levels.len(),
{
    if levels.len() == 0 {
        0
    } else {
        sum_of(levels.drop_last()) + levels.last()
    }
}

/// The exact average a person's ratings reduce to.
pub open spec fn average_of(levels: Seq<u32>) -> SkillAverage {
    SkillAverage { sum: sum_of(levels) as u128, count: levels.len() as usize }
}

/// The same person with the average filled in from their ratings.
pub open spec fn with_average(p: PersonView) -> PersonView {
    PersonView { average_skill_level: average_of(p.skill_levels), ..p }
}

/// Every sum of `u32` ratings stays below `len * u32::MAX`.
proof fn lemma_sum_of_bound(levels: Seq<u32>)
    ensures
        0 <= sum_of(levels) <= levels.len() * u32::MAX,
    decreases levels.len(),
{
    if levels.len() > 0 {
        lemma_sum_of_bound(levels.drop_last());
        assert((levels.len() - 1) * u32::MAX + u32::MAX == levels.len() * u32::MAX)
            by (nonlinear_arith);
    }
}

impl Person {
    /// Reduces this person's ratings to their arithmetic mean, returned as
    /// the exact pair of sum and count. With no ratings at all the result is
    /// the empty average `0 / 0`, which no later stage interprets as a mean.
    pub fn get_average_skills(&self) -> (avg: SkillAverage)
        ensures
            avg == average_of(self.skill_levels@),
    {
        let mut sum: u128 = 0;
        let n = self.skill_levels.len();
        proof {
            lemma_sum_of_bound(self.skill_levels@);
        }
        for i in 0..n
            invariant
                n == self.skill_levels@.len(),
                sum == sum_of(self.skill_levels@.take(i as int)),
                sum <= i * u32::MAX,
        {
            proof {
                assert(self.skill_levels@.take(i + 1).drop_last() =~= self.skill_levels@.take(
                    i as int,
                ));
                assert(i * u32::MAX + u32::MAX == (i + 1) * u32::MAX) by (nonlinear_arith);
                lemma_sum_of_bound(self.skill_levels@.take(i + 1));
            }
            sum = sum + self.skill_levels[i] as u128;
        }
        proof {
            assert(self.skill_levels@.take(n as int) =~= self.skill_levels@);
        }
        SkillAverage { sum, count: n }
    }
}

/// An exact duplicate of a vector of ratings.
pub fn levels_dup(v: &Vec<u32>) -> (r: Vec<u32>)
    ensures
        r@ == v@,
{
    let r = v.clone();
    proof {
        assert(r@ =~= v@);
    }
    r
}

/// An exact duplicate of a person, for building a working copy of a roster
/// without touching the original.
pub fn person_dup(p: &Person) -> (r: Person)
    ensures
        r@ == p@,
{
    Person {
        surname: p.surname.clone(),
        skill_levels: levels_dup(&p.skill_levels),
        average_skill_level: p.average_skill_level,
    }
}

} // verus!
