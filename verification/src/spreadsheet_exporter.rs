//! The tabular export: one row per team, a caption cell followed by the
//! members' surnames. Writing the rows into a workbook on disk is the
//! host's business; the rows themselves are computed here.

use vstd::prelude::*;

use vstd::string::StringExecFns;

use crate::distribute::views_of_teams;
use crate::roster::PersonView;
use crate::roster::Team;

verus! {

/// One export row per team: the caption cell, then the surnames in team
/// order.
pub open spec fn sheet_row(team: Seq<PersonView>) -> Seq<Seq<char>> {
    Seq::new(
        team.len() + 1,
        |j: int|
            if j == 0 {
                "Team name"@
            } else {
                team[j - 1].surname
            },
    )
}

/// The whole export: the rows of all teams, in team order.
pub open spec fn sheet_rows(teams: Seq<Seq<PersonView>>) -> Seq<Seq<Seq<char>>> {
    teams.map_values(|team: Seq<PersonView>| sheet_row(team))
}

/// Computes the rows of the tabular export, exactly as `sheet_rows` lays
/// down.
#[verifier::loop_isolation(false)]
pub fn spreadsheet_rows(teams: &[Team]) -> (r: Vec<Vec<String>>)
    ensures
        r.deep_view() == sheet_rows(views_of_teams(teams@)),
{
    let ghost tv = views_of_teams(teams@);
    let mut rows: Vec<Vec<String>> = Vec::new();
    let n = teams.len();
    for i in 0..n
        invariant
            rows@.len() == i,
            forall|w: int| 0 <= w < i ==> #[trigger] rows@[w].deep_view() == sheet_row(tv[w]),
    {
        let team = vstd::slice::slice_index_get(teams, i);
        let mut row: Vec<String> = Vec::new();
        row.push(String::from_str("Team name"));
        let m = team.people.len();
        for j in 0..m
            invariant
                m == team.people@.len(),
                row@.len() == j + 1,
                row@[0]@ == "Team name"@,
                forall|w: int| 0 <= w < j ==> #[trigger] row@[w + 1]@ == team@[w].surname,
        {
            row.push(team.people[j].surname.clone());
        }
        proof {
            assert(tv[i as int] == team@);
            assert forall|w: int| 0 <= w < row@.len() implies row.deep_view()[w] == sheet_row(
                tv[i as int],
            )[w] by {
                if w > 0 {
                    assert(row@[(w - 1) + 1]@ == team@[w - 1].surname);
                }
            }
            assert(row.deep_view() =~= sheet_row(tv[i as int]));
        }
        rows.push(row);
    }
    proof {
        assert(rows.deep_view() =~= sheet_rows(tv));
    }
    rows
}

} // verus!
