//! The ranker: a stable ascending sort of a roster by a chosen criterion.
//!
//! The criterion is either the aggregate score (`None`) or one skill
//! dimension (`Some(i)`). The sort is ascending and stable: people with equal
//! keys keep their relative order, which the distributor depends on because
//! it drafts from the end of the ranked roster.

use vstd::prelude::*;

use crate::roster::Person;
use crate::roster::PersonView;
use crate::roster::SkillAverage;
use crate::roster::views_of;

verus! {

/// The scalar a person is ranked by: the stored average's sum for the
/// aggregate criterion, or the rating in dimension `i`.
///
/// Ranking by the stored sum ranks by the mean itself whenever every average
/// in the roster was built over the same positive number of ratings, which
/// the roster invariant guarantees; see `lemma_sum_order_is_mean_order`.
pub open spec fn sort_key(sort_by: Option<usize>, p: PersonView) -> u128 {
    match sort_by {
        None => p.average_skill_level.sum,
        Some(i) => p.skill_levels[i as int] as u128,
    }
}

/// `i` is a skill index every person in `s` has a rating for.
pub open spec fn valid_skill_index(s: Seq<PersonView>, i: usize) -> bool {
    forall|t: int| 0 <= t < s.len() ==> (i as int) < s[t].skill_levels.len()
}

/// `s` is ascending under the chosen key.
pub open spec fn sorted_by_key(s: Seq<PersonView>, sort_by: Option<usize>) -> bool {
    forall|i: int, j: int|
        0 <= i <= j < s.len() ==> sort_key(sort_by, s[i]) <= sort_key(sort_by, s[j])
}

/// Insert `p` into the sorted sequence `s`, after every element whose key is
/// at most `p`'s. Placing `p` after its equals is what makes the sort stable.
pub open spec fn insert_in_order(
    s: Seq<PersonView>,
    p: PersonView,
    sort_by: Option<usize>,
) -> Seq<PersonView>
    decreases s.len(),
{
    if s.len() == 0 {
        seq![p]
    } else if sort_key(sort_by, s.last()) <= sort_key(sort_by, p) {
        s.push(p)
    } else {
        insert_in_order(s.drop_last(), p, sort_by).push(s.last())
    }
}

/// The stable ascending ordering of `s` under the chosen key: the result of
/// inserting each element, in input order, into the sorted ordering of the
/// elements before it.
pub open spec fn ranked(s: Seq<PersonView>, sort_by: Option<usize>) -> Seq<PersonView>
    decreases s.len(),
{
    if s.len() == 0 {
        Seq::empty()
    } else {
        insert_in_order(ranked(s.drop_last(), sort_by), s.last(), sort_by)
    }
}

/// Inserting into a sorted sequence keeps it sorted, grows it by one, and
/// adds exactly the inserted element to its contents.
pub proof fn lemma_insert_in_order_ensures(
    s: Seq<PersonView>,
    p: PersonView,
    sort_by: Option<usize>,
)
    requires
        sorted_by_key(s, sort_by),
    ensures
        insert_in_order(s, p, sort_by).len() == s.len() + 1,
        sorted_by_key(insert_in_order(s, p, sort_by), sort_by),
        insert_in_order(s, p, sort_by).to_multiset() == s.to_multiset().insert(p),
    decreases s.len(),
{
    broadcast use vstd::seq_lib::group_to_multiset_ensures;

    let r = insert_in_order(s, p, sort_by);
    if s.len() == 0 {
        assert(r =~= Seq::<PersonView>::empty().push(p));
        assert(s =~= Seq::<PersonView>::empty());
        assert(r.to_multiset() =~= s.to_multiset().insert(p));
    } else if sort_key(sort_by, s.last()) <= sort_key(sort_by, p) {
        assert(r == s.push(p));
        assert(r.to_multiset() =~= s.to_multiset().insert(p));
    } else {
        let t = s.drop_last();
        assert(sorted_by_key(t, sort_by));
        lemma_insert_in_order_ensures(t, p, sort_by);
        let rt = insert_in_order(t, p, sort_by);
        assert(r == rt.push(s.last()));
        // every element of rt came out of t or is p, so its key stays below
        // the key of s.last()
        assert forall|i: int, j: int| 0 <= i <= j < r.len() implies sort_key(sort_by, r[i])
            <= sort_key(sort_by, r[j]) by {
            if j == r.len() - 1 && i < j {
                assert(rt.to_multiset().contains(rt[i]));
                if rt[i] != p {
                    assert(t.to_multiset().contains(rt[i]));
                    assert(t.contains(rt[i]));
                    let w = choose|w: int| 0 <= w < t.len() && t[w] == rt[i];
                    assert(sort_key(sort_by, s[w]) <= sort_key(sort_by, s.last()));
                }
            }
        }
        assert(t.push(s.last()) =~= s);
        assert(r.to_multiset() =~= s.to_multiset().insert(p));
    }
}

/// The ranked roster is sorted and holds exactly the input's people.
pub proof fn lemma_ranked_ensures(s: Seq<PersonView>, sort_by: Option<usize>)
    ensures
        ranked(s, sort_by).len() == s.len(),
        sorted_by_key(ranked(s, sort_by), sort_by),
        ranked(s, sort_by).to_multiset() == s.to_multiset(),
    decreases s.len(),
{
    broadcast use vstd::seq_lib::group_to_multiset_ensures;

    if s.len() == 0 {
        assert(ranked(s, sort_by).to_multiset() =~= s.to_multiset());
    } else {
        let t = s.drop_last();
        lemma_ranked_ensures(t, sort_by);
        lemma_insert_in_order_ensures(ranked(t, sort_by), s.last(), sort_by);
        assert(t.push(s.last()) =~= s);
        assert(ranked(s, sort_by).to_multiset() =~= s.to_multiset());
    }
}

/// Where the insertion point is already known, `insert_in_order` is plain
/// sequence insertion: `j` must sit after every key at most `p`'s and before
/// every key above it.
proof fn lemma_insert_at_position(s: Seq<PersonView>, p: PersonView, sort_by: Option<usize>, j: int)
    requires
        sorted_by_key(s, sort_by),
        0 <= j <= s.len(),
        forall|t: int| j <= t < s.len() ==> sort_key(sort_by, s[t]) > sort_key(sort_by, p),
        j > 0 ==> sort_key(sort_by, s[j - 1]) <= sort_key(sort_by, p),
    ensures
        insert_in_order(s, p, sort_by) == s.insert(j, p),
    decreases s.len(),
{
    if s.len() == 0 {
        assert(insert_in_order(s, p, sort_by) =~= s.insert(j, p));
    } else if sort_key(sort_by, s.last()) <= sort_key(sort_by, p) {
        assert(j == s.len());
        assert(s.push(p) =~= s.insert(j, p));
    } else {
        assert(j < s.len());
        let t = s.drop_last();
        lemma_insert_at_position(t, p, sort_by, j);
        assert(insert_in_order(s, p, sort_by) == t.insert(j, p).push(s.last()));
        t.insert_ensures(j, p);
        s.insert_ensures(j, p);
        assert(t.insert(j, p).push(s.last()) =~= s.insert(j, p));
    }
}

/// Ranking an already ranked roster changes nothing: the sort is idempotent.
pub proof fn lemma_ranked_of_sorted(s: Seq<PersonView>, sort_by: Option<usize>)
    requires
        sorted_by_key(s, sort_by),
    ensures
        ranked(s, sort_by) == s,
    decreases s.len(),
{
    if s.len() > 0 {
        let t = s.drop_last();
        assert(sorted_by_key(t, sort_by));
        lemma_ranked_of_sorted(t, sort_by);
        if t.len() == 0 {
            assert(ranked(s, sort_by) =~= s);
        } else {
            assert(sort_key(sort_by, t.last()) <= sort_key(sort_by, s.last()));
            assert(t.push(s.last()) =~= s);
        }
    }
}

/// With every average built over the same positive number of ratings,
/// comparing stored sums is comparing the means themselves:
/// `a.sum / c <= b.sum / c` exactly when `a.sum <= b.sum`.
pub proof fn lemma_sum_order_is_mean_order(a: SkillAverage, b: SkillAverage)
    requires
        a.count == b.count,
        a.count > 0,
    ensures
        (a.sum <= b.sum) <==> (a.sum * b.count <= b.sum * a.count),
{
    assert((a.sum <= b.sum) <==> (a.sum * b.count <= b.sum * a.count)) by (nonlinear_arith)
        requires
            a.count == b.count,
            a.count > 0,
    ;
}

/// The ranking key of one person, computed. For a skill criterion the index
/// must be a dimension this person has a rating for.
fn key_of(p: &Person, sort_by: Option<usize>) -> (r: u128)
    requires
        sort_by matches Some(i) ==> (i as int) < p.skill_levels@.len(),
    ensures
        r == sort_key(sort_by, p@),
{
    match sort_by {
        None => p.average_skill_level.sum,
        Some(i) => p.skill_levels[i] as u128,
    }
}

/// A multiset-equal reshuffle keeps every skill index valid.
proof fn lemma_valid_skill_index_perm(a: Seq<PersonView>, b: Seq<PersonView>, i: usize)
    requires
        a.to_multiset() == b.to_multiset(),
        valid_skill_index(a, i),
    ensures
        valid_skill_index(b, i),
{
    broadcast use vstd::seq_lib::group_to_multiset_ensures;

    assert forall|t: int| 0 <= t < b.len() implies (i as int) < b[t].skill_levels.len() by {
        assert(b.to_multiset().contains(b[t]));
        assert(a.contains(b[t]));
        let w = choose|w: int| 0 <= w < a.len() && a[w] == b[t];
        assert((i as int) < a[w].skill_levels.len());
    }
}

/// After `i` insertion steps the working sequence still holds exactly the
/// original people.
proof fn lemma_sort_prefix_perm(orig: Seq<PersonView>, sort_by: Option<usize>, i: int)
    requires
        0 <= i <= orig.len(),
    ensures
        (ranked(orig.take(i), sort_by) + orig.skip(i)).to_multiset() == orig.to_multiset(),
{
    lemma_ranked_ensures(orig.take(i), sort_by);
    vstd::seq_lib::lemma_multiset_commutative(ranked(orig.take(i), sort_by), orig.skip(i));
    vstd::seq_lib::lemma_multiset_commutative(orig.take(i), orig.skip(i));
    assert(orig.take(i) + orig.skip(i) =~= orig);
}

/// One step of the insertion sort: moving the element at `i` to the found
/// position `j` turns a sorted-prefix-of-`i` arrangement into a
/// sorted-prefix-of-`i + 1` arrangement.
proof fn lemma_sort_step(
    orig: Seq<PersonView>,
    sort_by: Option<usize>,
    i: int,
    cur: Seq<PersonView>,
    j: int,
)
    requires
        0 < i < orig.len(),
        cur == ranked(orig.take(i), sort_by) + orig.skip(i),
        0 <= j <= i,
        forall|t: int| j <= t < i ==> sort_key(sort_by, cur[t]) > sort_key(sort_by, cur[i]),
        j > 0 ==> sort_key(sort_by, cur[j - 1]) <= sort_key(sort_by, cur[i]),
    ensures
        cur.remove(i).insert(j, cur[i]) == ranked(orig.take(i + 1), sort_by) + orig.skip(i + 1),
{
    let pre = ranked(orig.take(i), sort_by);
    lemma_ranked_ensures(orig.take(i), sort_by);
    assert(pre.len() == i);
    assert(cur[i] == orig.skip(i)[0]);
    assert(cur[i] == orig[i]);
    assert(forall|t: int| 0 <= t < i ==> cur[t] == pre[t]);
    lemma_insert_at_position(pre, orig[i], sort_by, j);
    let nxt = ranked(orig.take(i + 1), sort_by);
    assert(orig.take(i + 1).drop_last() =~= orig.take(i));
    assert(orig.take(i + 1).last() == orig[i]);
    assert(nxt == insert_in_order(pre, orig[i], sort_by));
    assert(nxt == pre.insert(j, orig[i]));
    pre.insert_ensures(j, orig[i]);
    cur.remove_ensures(i);
    cur.remove(i).insert_ensures(j, cur[i]);
    assert(cur.remove(i).insert(j, cur[i]) =~= nxt + orig.skip(i + 1));
}

/// Dropping one person commutes with taking views.
proof fn lemma_views_remove(s: Seq<Person>, i: int)
    requires
        0 <= i < s.len(),
    ensures
        views_of(s.remove(i)) == views_of(s).remove(i),
{
    s.remove_ensures(i);
    views_of(s).remove_ensures(i);
    assert(views_of(s.remove(i)) =~= views_of(s).remove(i));
}

/// Inserting one person commutes with taking views.
proof fn lemma_views_insert(s: Seq<Person>, i: int, p: Person)
    requires
        0 <= i <= s.len(),
    ensures
        views_of(s.insert(i, p)) == views_of(s).insert(i, p@),
{
    s.insert_ensures(i, p);
    views_of(s).insert_ensures(i, p@);
    assert(views_of(s.insert(i, p)) =~= views_of(s).insert(i, p@));
}

/// Reorders `people` into `ranked(old(people), sort_by)`: ascending by the
/// chosen key, stable on ties. For a skill criterion the index must be valid
/// for the whole roster.
pub fn rank_people(people: &mut Vec<Person>, sort_by: Option<usize>)
    requires
        sort_by matches Some(i) ==> valid_skill_index(views_of(old(people)@), i),
    ensures
        views_of(final(people)@) == ranked(views_of(old(people)@), sort_by),
        sorted_by_key(views_of(final(people)@), sort_by),
        views_of(final(people)@).to_multiset() == views_of(old(people)@).to_multiset(),
        final(people)@.len() == old(people)@.len(),
{
    let ghost orig = views_of(old(people)@);
    proof {
        lemma_ranked_ensures(orig, sort_by);
    }
    let n = people.len();
    if n <= 1 {
        proof {
            if n == 0 {
                assert(views_of(people@) =~= ranked(orig, sort_by));
            } else {
                assert(orig.drop_last().len() == 0);
                assert(ranked(orig.drop_last(), sort_by).len() == 0);
                assert(ranked(orig, sort_by) =~= views_of(people@));
            }
        }
        return ;
    }
    proof {
        assert(ranked(orig.take(1), sort_by) + orig.skip(1) =~= views_of(people@)) by {
            assert(orig.take(1).drop_last().len() == 0);
            assert(ranked(orig.take(1).drop_last(), sort_by).len() == 0);
            assert(ranked(orig.take(1), sort_by) =~= orig.take(1));
        }
    }
    for i in 1..n
        invariant
            n == people@.len(),
            n == orig.len(),
            views_of(people@) == ranked(orig.take(i as int), sort_by) + orig.skip(i as int),
            sort_by matches Some(idx) ==> valid_skill_index(orig, idx),
    {
        let ghost cur = views_of(people@);
        proof {
            lemma_ranked_ensures(orig.take(i as int), sort_by);
            lemma_sort_prefix_perm(orig, sort_by, i as int);
            if sort_by is Some {
                lemma_valid_skill_index_perm(orig, cur, sort_by.unwrap());
                assert((sort_by.unwrap() as int) < cur[i as int].skill_levels.len());
            }
        }
        let kx = key_of(&people[i], sort_by);
        let mut j: usize = i;
        while j > 0
            invariant
                j <= i < n,
                n == people@.len(),
                cur == views_of(people@),
                kx == sort_key(sort_by, cur[i as int]),
                sort_by matches Some(idx) ==> valid_skill_index(cur, idx),
                forall|t: int| j <= t < i ==> sort_key(sort_by, cur[t]) > kx,
            ensures
                j <= i,
                forall|t: int| j <= t < i ==> sort_key(sort_by, cur[t]) > kx,
                j > 0 ==> sort_key(sort_by, cur[j - 1]) <= kx,
            decreases j,
        {
            proof {
                if sort_by is Some {
                    assert((sort_by.unwrap() as int) < cur[j - 1].skill_levels.len());
                }
            }
            if key_of(&people[j - 1], sort_by) <= kx {
                break ;
            }
            j = j - 1;
        }
        let ghost before = people@;
        let x = people.remove(i);
        let ghost mid = people@;
        people.insert(j, x);
        proof {
            lemma_views_remove(before, i as int);
            assert(views_of(mid) == cur.remove(i as int));
            lemma_views_insert(mid, j as int, x);
            assert(x@ == cur[i as int]);
            assert(views_of(people@) == cur.remove(i as int).insert(j as int, cur[i as int]));
            lemma_sort_step(orig, sort_by, i as int, cur, j as int);
        }
    }
    proof {
        assert(orig.take(n as int) =~= orig);
        assert(orig.skip(n as int).len() == 0);
        assert(views_of(people@) =~= ranked(orig, sort_by));
    }
}

} // verus!
