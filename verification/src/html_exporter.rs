//! Rendering a team list as an HTML table: one row per team, one cell per
//! member's surname.

use vstd::prelude::*;

use vstd::string::StringExecFns;

use crate::distribute::views_of_teams;
use crate::roster::PersonView;
use crate::roster::Team;

verus! {

/// The document head of the export: page setup and table styling.
pub open spec fn html_header() -> Seq<char> {
    "<!DOCTYPE html>
<html>
<head>
<title>Team Builder</title>
<style>
table {
  font-family: arial, sans-serif;
  border-collapse: collapse;
}

td, th {
  border: 1px solid #dddddd;
  text-align: left;
  padding: 8px;
}

tr:nth-child(even) {
  background-color: #dddddd;
}
</style>
</head>
<body>"@
}

/// The document tail of the export.
pub open spec fn html_footer() -> Seq<char> {
    "</body>
</html>"@
}

/// One table cell per team member, in team order.
pub open spec fn html_cells(people: Seq<PersonView>) -> Seq<char>
    decreases people.len(),
{
    if people.len() == 0 {
        Seq::empty()
    } else {
        html_cells(people.drop_last()) + "<td>"@ + people.last().surname + "</td>"@
    }
}

/// One table row per team, in team order, each opened by a caption cell.
pub open spec fn html_rows(teams: Seq<Seq<PersonView>>) -> Seq<char>
    decreases teams.len(),
{
    if teams.len() == 0 {
        Seq::empty()
    } else {
        html_rows(teams.drop_last()) + "<tr>"@ + "<th>Team name</th>"@ + html_cells(teams.last())
            + "</tr>"@
    }
}

/// The whole exported document.
pub open spec fn html_document(teams: Seq<Seq<PersonView>>) -> Seq<char> {
    html_header() + "<table>"@ + html_rows(teams) + "</table>"@ + html_footer()
}

/// Renders the teams as an HTML table, exactly the document `html_document`
/// lays down. Never declines: the result is always present.
#[verifier::loop_isolation(false)]
pub fn generate_html(teams: &[Team]) -> (r: Option<String>)
    ensures
        r is Some,
        r.unwrap()@ == html_document(views_of_teams(teams@)),
{
    let ghost tv = views_of_teams(teams@);
    let mut html = String::new();
    html.append(
        "<!DOCTYPE html>
<html>
<head>
<title>Team Builder</title>
<style>
table {
  font-family: arial, sans-serif;
  border-collapse: collapse;
}

td, th {
  border: 1px solid #dddddd;
  text-align: left;
  padding: 8px;
}

tr:nth-child(even) {
  background-color: #dddddd;
}
</style>
</head>
<body>",
    );
    html.append("<table>");
    proof {
        assert(html@ =~= html_header() + "<table>"@);
        assert(html_rows(tv.take(0)).len() == 0);
        assert(html@ =~= html_header() + "<table>"@ + html_rows(tv.take(0)));
    }
    let n = teams.len();
    for i in 0..n
        invariant
            html@ == html_header() + "<table>"@ + html_rows(tv.take(i as int)),
    {
        let team = vstd::slice::slice_index_get(teams, i);
        html.append("<tr>");
        html.append("<th>Team name</th>");
        let ghost row_open = html@;
        proof {
            assert(row_open =~= html_header() + "<table>"@ + html_rows(tv.take(i as int)) + "<tr>"@
                + "<th>Team name</th>"@);
            assert(html_cells(team@.take(0)).len() == 0);
            assert(html@ =~= row_open + html_cells(team@.take(0)));
        }
        let m = team.people.len();
        for j in 0..m
            invariant
                m == team.people@.len(),
                html@ == row_open + html_cells(team@.take(j as int)),
        {
            html.append("<td>");
            html.append(team.people[j].surname.as_str());
            html.append("</td>");
            proof {
                assert(team@.take(j + 1).drop_last() =~= team@.take(j as int));
                assert(team@.take(j + 1).last() == team@[j as int]);
                assert(team@[j as int].surname == team.people@[j as int].surname@);
                assert(html@ =~= row_open + html_cells(team@.take(j + 1)));
            }
        }
        html.append("</tr>");
        proof {
            assert(team@.take(m as int) =~= team@);
            assert(tv.take(i + 1).drop_last() =~= tv.take(i as int));
            assert(tv.take(i + 1).last() == tv[i as int]);
            assert(tv[i as int] == team@);
            assert(html@ =~= html_header() + "<table>"@ + html_rows(tv.take(i + 1)));
        }
    }
    html.append("</table>");
    html.append(
        "</body>
</html>",
    );
    proof {
        assert(tv.take(n as int) =~= tv);
        assert(html@ =~= html_document(tv));
    }
    Some(html)
}

} // verus!
