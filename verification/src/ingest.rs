//! Turning a loaded roster file into skills and people.
//!
//! The file is semicolon-delimited text: a header row whose first field is a
//! caption and whose remaining fields name the skill dimensions, then one
//! row per person holding a surname and one rating per dimension. The
//! delimited-text reading itself is done by the csv crate; everything read
//! out of it is checked and assembled here.

use vstd::prelude::*;

use crate::parse::parse_u32;
use crate::parse::parsed_u32;
use crate::roster::Person;
use crate::roster::PersonView;
use crate::roster::SkillAverage;
use crate::roster::views_of;

verus! {

/// Why a roster file's contents were rejected.
#[derive(Debug, Clone, Copy, PartialEq, Eq, Structural)]
pub enum ProcessError {
    /// The text is not well-formed delimited data (for instance rows of
    /// unequal widths, or a broken quote).
    MalformedCsv,
    /// A data row is narrower than the header: a surname or rating cell is
    /// missing.
    MissingField,
    /// A rating cell is not a decimal numeral that fits the rating type.
    BadSkillValue,
}

/// What the csv reader, configured for semicolon-delimited input without a
/// header row, reads out of a text: every record in order, each a row of
/// field strings; `None` where the reader rejects the text.
pub uninterp spec fn csv_rows(contents: Seq<char>) -> Option<Seq<Seq<Seq<char>>>>;

/// Relies on csv::ReaderBuilder and csv::Reader::records: reading all
/// records of a semicolon-delimited text, each record a row of fields, with
/// any read error turned into `None`.
#[verifier::external_body]
pub(crate) fn read_rows(contents: &str) -> (r: Option<Vec<Vec<String>>>)
    ensures
        r.deep_view() == csv_rows(contents@),
{
    let mut reader = csv::ReaderBuilder::new()
        .delimiter(b';')
        .has_headers(false)
        .from_reader(contents.as_bytes());
    let mut rows: Vec<Vec<String>> = Vec::new();
    for record in reader.records() {
        match record {
            Ok(rec) => rows.push(rec.iter().map(|field| field.to_string()).collect()),
            Err(_) => return None,
        }
    }
    Some(rows)
}

/// How many skill dimensions a header row declares: every field after the
/// leading caption names one.
pub open spec fn skill_count(header: Seq<Seq<char>>) -> int {
    if header.len() == 0 {
        0
    } else {
        header.len() - 1
    }
}

/// The error one data row earns, if any: a missing field is reported before
/// a bad rating cell.
pub open spec fn row_error(row: Seq<Seq<char>>, nskills: int) -> Option<ProcessError> {
    if row.len() < nskills + 1 {
        Some(ProcessError::MissingField)
    } else if exists|j: int| 1 <= j <= nskills && parsed_u32(#[trigger] row[j]) is None {
        Some(ProcessError::BadSkillValue)
    } else {
        None
    }
}

/// The first error among the data rows, scanned in order.
pub open spec fn rows_error(rows: Seq<Seq<Seq<char>>>, nskills: int) -> Option<ProcessError>
    decreases rows.len(),
{
    if rows.len() == 0 {
        None
    } else if row_error(rows[0], nskills) is Some {
        row_error(rows[0], nskills)
    } else {
        rows_error(rows.drop_first(), nskills)
    }
}

/// The person one well-formed data row describes: the surname from the
/// first field, one parsed rating per skill, and the average still unset.
pub open spec fn person_of_row(row: Seq<Seq<char>>, nskills: int) -> PersonView {
    PersonView {
        surname: row[0],
        skill_levels: Seq::new(nskills as nat, |j: int| parsed_u32(row[j + 1]).unwrap()),
        average_skill_level: SkillAverage { sum: 0, count: 0 },
    }
}

/// What a table of records builds into: on no rows at all, an empty roster;
/// otherwise the header's skill names and one person per data row, or the
/// first error a data row earns.
pub open spec fn roster_of(rows: Seq<Seq<Seq<char>>>) -> Result<
    (Seq<Seq<char>>, Seq<PersonView>),
    ProcessError,
> {
    if rows.len() == 0 {
        Ok((Seq::empty(), Seq::empty()))
    } else {
        let nskills = skill_count(rows[0]);
        match rows_error(rows.drop_first(), nskills) {
            Some(e) => Err(e),
            None => Ok(
                (
                    Seq::new(nskills as nat, |j: int| rows[0][j + 1]),
                    Seq::new((rows.len() - 1) as nat, |i: int| person_of_row(rows[i + 1], nskills)),
                ),
            ),
        }
    }
}

/// A clean prefix and an erring row pin down the first error.
proof fn lemma_rows_error_at(rs: Seq<Seq<Seq<char>>>, nskills: int, j: int)
    requires
        0 <= j < rs.len(),
        forall|t: int| 0 <= t < j ==> row_error(#[trigger] rs[t], nskills) is None,
        row_error(rs[j], nskills) is Some,
    ensures
        rows_error(rs, nskills) == row_error(rs[j], nskills),
    decreases j,
{
    if j > 0 {
        let tail = rs.drop_first();
        assert(forall|t: int| 0 <= t < tail.len() ==> tail[t] == rs[t + 1]);
        lemma_rows_error_at(tail, nskills, j - 1);
    }
}

/// Rows that are all clean earn no error.
proof fn lemma_rows_error_none(rs: Seq<Seq<Seq<char>>>, nskills: int)
    requires
        forall|t: int| 0 <= t < rs.len() ==> row_error(#[trigger] rs[t], nskills) is None,
    ensures
        rows_error(rs, nskills) is None,
    decreases rs.len(),
{
    if rs.len() > 0 {
        let tail = rs.drop_first();
        assert(forall|t: int| 0 <= t < tail.len() ==> tail[t] == rs[t + 1]);
        lemma_rows_error_none(tail, nskills);
    }
}

/// Assembles a table of records into the skill names and the roster, or the
/// first error a data row earns, exactly as `roster_of` lays down.
#[verifier::loop_isolation(false)]
pub fn build_roster(rows: &Vec<Vec<String>>) -> (r: Result<
    (Vec<String>, Vec<Person>),
    ProcessError,
>)
    ensures
        ({
            let spec_r = roster_of(rows.deep_view());
            match r {
                Ok(sp) => spec_r == Ok::<_, ProcessError>((sp.0.deep_view(), views_of(sp.1@))),
                Err(e) => spec_r == Err::<(Seq<Seq<char>>, Seq<PersonView>), ProcessError>(e),
            }
        }),
{
    let ghost drows = rows.deep_view();
    proof {
        assert(drows.len() == rows@.len());
        assert(forall|i: int| 0 <= i < rows@.len() ==> drows[i] == #[trigger] rows@[i].deep_view());
    }
    let mut skills: Vec<String> = Vec::new();
    let mut people: Vec<Person> = Vec::new();
    if rows.len() == 0 {
        proof {
            assert(skills.deep_view() =~= Seq::<Seq<char>>::empty());
            assert(views_of(people@) =~= Seq::<PersonView>::empty());
        }
        return Ok((skills, people));
    }
    let ncols = rows[0].len();
    if ncols > 0 {
        for j in 1..ncols
            invariant
                skills@.len() == j - 1,
                forall|t: int| 0 <= t < j - 1 ==> #[trigger] skills@[t]@ == drows[0][t + 1],
        {
            let cell = rows[0][j].clone();
            proof {
                assert(drows[0] == rows@[0].deep_view());
                assert(cell@ == drows[0][j as int]);
            }
            skills.push(cell);
        }
    }
    let nskills = skills.len();
    let ghost ns: int = nskills as int;
    proof {
        assert(ns == skill_count(drows[0]));
    }
    for i in 1..rows.len()
        invariant
            drows == rows.deep_view(),
            rows@.len() == drows.len(),
            1 <= i <= drows.len(),
            ns == nskills && ns == skill_count(drows[0]),
            nskills < usize::MAX,
            people@.len() == i - 1,
            forall|t: int| 1 <= t < i ==> row_error(#[trigger] drows[t], ns) is None,
            forall|t: int|
                0 <= t < i - 1 ==> views_of(people@)[t] == person_of_row(
                    #[trigger] drows[t + 1],
                    ns,
                ),
    {
        let row = &rows[i];
        proof {
            assert(drows[i as int] == row.deep_view());
            assert(row.deep_view().len() == row@.len());
        }
        if row.len() < nskills + 1 {
            proof {
                assert(row_error(drows[i as int], ns) == Some(ProcessError::MissingField));
                let data = drows.drop_first();
                assert forall|t: int| 0 <= t < i - 1 implies row_error(
                    #[trigger] data[t],
                    ns,
                ) is None by {
                    assert(data[t] == drows[t + 1]);
                    assert(row_error(drows[t + 1], ns) is None);
                }
                assert(data[i - 1] == drows[i as int]);
                lemma_rows_error_at(data, ns, i - 1);
            }
            return Err(ProcessError::MissingField);
        }
        let mut levels: Vec<u32> = Vec::new();
        for j in 0..nskills
            invariant
                drows == rows.deep_view(),
                rows@.len() == drows.len(),
                1 <= i < drows.len(),
                nskills < usize::MAX,
                ns == nskills,
                drows[i as int].len() >= nskills + 1,
                drows[i as int] == rows@[i as int].deep_view(),
                levels@.len() == j,
                forall|t: int|
                    0 <= t < j ==> parsed_u32(#[trigger] drows[i as int][t + 1]) == Some(
                        levels@[t],
                    ),
        {
            let cell = &rows[i][j + 1];
            proof {
                assert(drows[i as int][j + 1] == cell@);
            }
            match parse_u32(cell.as_str()) {
                Some(v) => {
                    levels.push(v);
                },
                None => {
                    proof {
                        assert(parsed_u32(drows[i as int][j + 1]) is None);
                        assert(row_error(drows[i as int], ns) == Some(
                            ProcessError::BadSkillValue,
                        ));
                        let data = drows.drop_first();
                        assert forall|t: int| 0 <= t < i - 1 implies row_error(
                            #[trigger] data[t],
                            ns,
                        ) is None by {
                            assert(data[t] == drows[t + 1]);
                            assert(row_error(drows[t + 1], ns) is None);
                        }
                        assert(data[i - 1] == drows[i as int]);
                        lemma_rows_error_at(data, ns, i - 1);
                    }
                    return Err(ProcessError::BadSkillValue);
                },
            }
        }
        let surname = rows[i][0].clone();
        let person = Person {
            surname,
            skill_levels: levels,
            average_skill_level: SkillAverage { sum: 0, count: 0 },
        };
        people.push(person);
        proof {
            let dr = drows[i as int];
            assert(person@.surname == dr[0]) by {
                assert(dr[0] == rows@[i as int]@[0]@);
            }
            assert(person@.skill_levels =~= person_of_row(dr, ns).skill_levels);
            assert(person@ == person_of_row(dr, ns));
            assert forall|j: int| 1 <= j <= ns implies parsed_u32(#[trigger] dr[j]) is Some by {
                assert(parsed_u32(drows[i as int][(j - 1) + 1]) == Some(levels@[j - 1]));
            }
            assert(row_error(dr, ns) is None);
            assert(forall|t: int|
                0 <= t < i ==> views_of(people@)[t] == person_of_row(
                    #[trigger] drows[t + 1],
                    ns,
                ));
        }
    }
    proof {
        let data = drows.drop_first();
        assert forall|t: int| 0 <= t < data.len() implies row_error(
            #[trigger] data[t],
            ns,
        ) is None by {
            assert(data[t] == drows[t + 1]);
            assert(row_error(drows[t + 1], ns) is None);
        }
        lemma_rows_error_none(data, ns);
        assert(skills.deep_view() =~= Seq::new(ns as nat, |j: int| drows[0][j + 1]));
        assert(views_of(people@) =~= Seq::new(
            (drows.len() - 1) as nat,
            |i: int| person_of_row(drows[i + 1], ns),
        ));
    }
    Ok((skills, people))
}

} // verus!
