//! Lists kept in the order of names: datasets by their name, and pool
//! names without repetition.

use crate::order::{
    lemma_lex_antisymmetric, lemma_lex_reflexive, lemma_lex_total, lemma_lex_transitive, lex_le,
    str_eq, str_le,
};
use crate::types::Dataset;
use vstd::prelude::*;

verus! {

/// The names are in order; equal names may follow one another.
pub open spec fn sorted_by_name(s: Seq<Dataset>) -> bool {
    forall|i: int, j: int|
        #![trigger s[i], s[j]]
        0 <= i < j < s.len() ==> lex_le(s[i].name@, s[j].name@)
}

/// The number of datasets whose name is not behind `key`.
pub open spec fn rank(s: Seq<Dataset>, key: Seq<char>) -> nat
    decreases s.len(),
{
    if s.len() == 0 {
        0
    } else {
        rank(s.drop_last(), key) + if lex_le(s.last().name@, key) {
            1nat
        } else {
            0nat
        }
    }
}

/// The list with `d` put behind every dataset whose name is not behind
/// its own.
pub open spec fn insert_by_name(s: Seq<Dataset>, d: Dataset) -> Seq<Dataset> {
    s.insert(rank(s, d.name@) as int, d)
}

/// The datasets in the order of their names; those of one name in the
/// order in which they came.
pub open spec fn sort_by_name(s: Seq<Dataset>) -> Seq<Dataset>
    decreases s.len(),
{
    if s.len() == 0 {
        Seq::empty()
    } else {
        insert_by_name(sort_by_name(s.drop_last()), s.last())
    }
}

/// The texts of a list of strings.
pub open spec fn names(v: Seq<String>) -> Seq<Seq<char>> {
    Seq::new(v.len(), |i: int| v[i]@)
}

/// The names are in order and no name occurs twice.
pub open spec fn strictly_sorted(s: Seq<Seq<char>>) -> bool {
    forall|i: int, j: int|
        #![trigger s[i], s[j]]
        0 <= i < j < s.len() ==> lex_le(s[i], s[j]) && s[i] != s[j]
}

/// A list of names that is strictly sorted holds no name twice.
pub proof fn lemma_strictly_sorted_no_duplicates(s: Seq<Seq<char>>)
    requires
        strictly_sorted(s),
    ensures
        s.no_duplicates(),
{
    assert forall|i: int, j: int| 0 <= i < s.len() && 0 <= j < s.len() && i != j implies s[i]
        != s[j] by {
        if i < j {
            assert(lex_le(s[i], s[j]) && s[i] != s[j]);
        } else {
            assert(lex_le(s[j], s[i]) && s[j] != s[i]);
        }
    }
}

/// No more datasets stand before a name than the list holds.
proof fn lemma_rank_bound(s: Seq<Dataset>, key: Seq<char>)
    ensures
        rank(s, key) <= s.len(),
    decreases s.len(),
{
    if s.len() > 0 {
        lemma_rank_bound(s.drop_last(), key);
    }
}

/// Where the datasets not behind `key` are exactly the first `at`, the
/// rank of `key` is `at`.
proof fn lemma_rank_of_split(s: Seq<Dataset>, key: Seq<char>, at: int)
    requires
        0 <= at <= s.len(),
        forall|k: int| 0 <= k < at ==> lex_le(#[trigger] s[k].name@, key),
        forall|k: int| at <= k < s.len() ==> !lex_le(#[trigger] s[k].name@, key),
    ensures
        rank(s, key) == at,
    decreases s.len(),
{
    if s.len() > 0 {
        let front = s.drop_last();
        if at == s.len() {
            lemma_rank_of_split(front, key, at - 1);
        } else {
            lemma_rank_of_split(front, key, at);
        }
    }
}

/// In a sorted list the datasets not behind `key` come first.
proof fn lemma_rank_splits(s: Seq<Dataset>, key: Seq<char>)
    requires
        sorted_by_name(s),
    ensures
        rank(s, key) <= s.len(),
        forall|k: int| 0 <= k < rank(s, key) ==> lex_le(#[trigger] s[k].name@, key),
        forall|k: int| rank(s, key) <= k < s.len() ==> !lex_le(#[trigger] s[k].name@, key),
    decreases s.len(),
{
    if s.len() > 0 {
        let front = s.drop_last();
        assert(sorted_by_name(front));
        lemma_rank_splits(front, key);
        lemma_rank_bound(front, key);
        if lex_le(s.last().name@, key) {
            assert forall|k: int| 0 <= k < s.len() implies lex_le(#[trigger] s[k].name@, key) by {
                if k < s.len() - 1 {
                    lemma_lex_transitive(s[k].name@, s.last().name@, key);
                }
            }
            assert forall|k: int| 0 <= k < front.len() implies lex_le(
                #[trigger] front[k].name@,
                key,
            ) by {
                assert(front[k] == s[k]);
            }
            lemma_rank_of_split(front, key, front.len() as int);
        } else {
            assert forall|k: int| 0 <= k < rank(s, key) implies lex_le(
                #[trigger] s[k].name@,
                key,
            ) by {
                assert(front[k] == s[k]);
            }
            assert forall|k: int| rank(s, key) <= k < s.len() implies !lex_le(
                #[trigger] s[k].name@,
                key,
            ) by {
                if k < front.len() {
                    assert(front[k] == s[k]);
                }
            }
        }
    }
}

/// Putting a dataset into a sorted list by its name leaves the list sorted.
pub proof fn lemma_insert_by_name_sorted(s: Seq<Dataset>, d: Dataset)
    requires
        sorted_by_name(s),
    ensures
        sorted_by_name(insert_by_name(s, d)),
{
    let at = rank(s, d.name@) as int;
    let t = insert_by_name(s, d);
    lemma_rank_splits(s, d.name@);
    assert forall|i: int, j: int|
        #![trigger t[i], t[j]]
        0 <= i < j < t.len() implies lex_le(t[i].name@, t[j].name@) by {
        if j == at {
            assert(t[i] == s[i] && t[j] == d);
            assert(lex_le(s[i].name@, d.name@));
        } else if i == at {
            assert(t[j] == s[j - 1] && t[i] == d);
            assert(!lex_le(s[j - 1].name@, d.name@));
            lemma_lex_total(s[j - 1].name@, d.name@);
        } else if j < at {
            assert(t[i] == s[i] && t[j] == s[j]);
            assert(lex_le(s[i].name@, s[j].name@));
        } else if i < at {
            assert(t[i] == s[i] && t[j] == s[j - 1]);
            assert(lex_le(s[i].name@, s[j - 1].name@));
        } else {
            assert(t[i] == s[i - 1] && t[j] == s[j - 1]);
            assert(lex_le(s[i - 1].name@, s[j - 1].name@));
        }
    }
}

/// The sorted list is in the order of names.
pub proof fn lemma_sort_by_name_sorted(s: Seq<Dataset>)
    ensures
        sorted_by_name(sort_by_name(s)),
    decreases s.len(),
{
    if s.len() > 0 {
        lemma_sort_by_name_sorted(s.drop_last());
        lemma_insert_by_name_sorted(sort_by_name(s.drop_last()), s.last());
    }
}

/// The sorted list holds every dataset as often as the list it was made
/// from, and nothing else.
pub proof fn lemma_sort_by_name_permutes(s: Seq<Dataset>)
    ensures
        sort_by_name(s).to_multiset() == s.to_multiset(),
        sort_by_name(s).len() == s.len(),
    decreases s.len(),
{
    broadcast use vstd::seq_lib::group_to_multiset_ensures;

    if s.len() == 0 {
        assert(s == Seq::<Dataset>::empty());
    } else {
        let front = s.drop_last();
        let sorted = sort_by_name(front);
        let at = rank(sorted, s.last().name@) as int;
        lemma_sort_by_name_permutes(front);
        lemma_rank_bound(sorted, s.last().name@);
        let t = sorted.insert(at, s.last());
        assert(t.remove(at) == sorted);
        assert(t[at] == s.last());
        assert(t.to_multiset().remove(s.last()) == sorted.to_multiset());
        assert(t.to_multiset().count(s.last()) > 0);
        assert(t.to_multiset() =~= sorted.to_multiset().insert(s.last()));
        assert(s == front.push(s.last()));
        assert(s.to_multiset() =~= front.to_multiset().insert(s.last()));
    }
}

/// No two datasets of the list have the same name.
pub open spec fn distinct_names(s: Seq<Dataset>) -> bool {
    forall|i: int, j: int|
        #![trigger s[i], s[j]]
        0 <= i < j < s.len() ==> s[i].name@ != s[j].name@
}

/// A list without equal names holds every dataset once at most, and so
/// does every list made of the same datasets, whose names are then
/// distinct too.
pub proof fn lemma_distinct_names_carry_over(s: Seq<Dataset>, t: Seq<Dataset>)
    requires
        distinct_names(s),
        forall|d: Dataset| t.to_multiset().count(d) <= s.to_multiset().count(d),
    ensures
        distinct_names(t),
{
    broadcast use vstd::seq_lib::group_to_multiset_ensures;

    assert(s.no_duplicates()) by {
        assert forall|i: int, j: int| 0 <= i < s.len() && 0 <= j < s.len() && i != j implies s[i]
            != s[j] by {
            if i < j {
                assert(s[i].name@ != s[j].name@);
            } else {
                assert(s[j].name@ != s[i].name@);
            }
        }
    }
    s.lemma_multiset_has_no_duplicates();
    assert forall|d: Dataset| t.to_multiset().contains(d) implies t.to_multiset().count(d)
        == 1 by {
        assert(t.to_multiset().count(d) > 0);
        assert(s.to_multiset().contains(d));
    }
    t.lemma_multiset_has_no_duplicates_conv();
    assert forall|i: int, j: int| 0 <= i < j < t.len() implies t[i].name@ != t[j].name@ by {
        assert(t.contains(t[i]) && t.contains(t[j]));
        assert(s.to_multiset().count(t[i]) > 0 && s.to_multiset().count(t[j]) > 0);
        assert(s.contains(t[i]) && s.contains(t[j]));
        let p = choose|p: int| 0 <= p < s.len() && s[p] == t[i];
        let q = choose|q: int| 0 <= q < s.len() && s[q] == t[j];
        if p < q {
            assert(s[p].name@ != s[q].name@);
        } else if q < p {
            assert(s[q].name@ != s[p].name@);
        } else {
            assert(t[i] == t[j]);
        }
    }
}

/// Two sorted lists of the same datasets, no two of one name, are the
/// same list.
pub proof fn lemma_sorted_is_unique(s: Seq<Dataset>, t: Seq<Dataset>)
    requires
        sorted_by_name(s),
        sorted_by_name(t),
        distinct_names(s),
        s.to_multiset() == t.to_multiset(),
    ensures
        s == t,
    decreases s.len(),
{
    broadcast use vstd::seq_lib::group_to_multiset_ensures;

    vstd::seq_lib::to_multiset_len(s);
    vstd::seq_lib::to_multiset_len(t);
    if s.len() == 0 {
        assert(s =~= t);
    } else {
        let n = s.len() as int;
        assert(t.contains(t[n - 1]));
        assert(s.to_multiset().count(t[n - 1]) > 0);
        assert(s.contains(t[n - 1]));
        let m = choose|m: int| 0 <= m < n && s[m] == t[n - 1];
        assert(s.contains(s[n - 1]));
        assert(t.to_multiset().count(s[n - 1]) > 0);
        assert(t.contains(s[n - 1]));
        let k = choose|k: int| 0 <= k < n && t[k] == s[n - 1];
        if m < n - 1 {
            assert(lex_le(s[m].name@, s[n - 1].name@));
            if k < n - 1 {
                assert(lex_le(t[k].name@, t[n - 1].name@));
            } else {
                lemma_lex_reflexive(s[n - 1].name@);
            }
            lemma_lex_antisymmetric(s[m].name@, s[n - 1].name@);
            assert(s[m].name@ != s[n - 1].name@);
        }
        assert(s[n - 1] == t[n - 1]);
        assert(s.drop_last() == s.remove(n - 1));
        assert(t.drop_last() == t.remove(n - 1));
        assert(s.drop_last().to_multiset() == t.drop_last().to_multiset());
        assert(sorted_by_name(s.drop_last()));
        assert(sorted_by_name(t.drop_last()));
        assert(distinct_names(s.drop_last()));
        lemma_sorted_is_unique(s.drop_last(), t.drop_last());
        assert(s == s.drop_last().push(s[n - 1]));
        assert(t == t.drop_last().push(t[n - 1]));
    }
}

/// Puts a dataset into a sorted list, behind every dataset whose name is
/// not behind its own.
pub fn insert_sorted(v: &mut Vec<Dataset>, d: Dataset)
    requires
        sorted_by_name(old(v)@),
    ensures
        final(v)@ == insert_by_name(old(v)@, d),
        sorted_by_name(final(v)@),
{
    let mut low: usize = 0;
    let mut high: usize = v.len();
    while low < high
        invariant
            low <= high <= v@.len(),
            sorted_by_name(v@),
            forall|k: int| 0 <= k < low ==> lex_le(#[trigger] v@[k].name@, d.name@),
            forall|k: int| high <= k < v@.len() ==> !lex_le(#[trigger] v@[k].name@, d.name@),
        decreases high - low,
    {
        let middle: usize = low + (high - low) / 2;
        if str_le(v[middle].name.as_str(), d.name.as_str()) {
            assert forall|k: int| 0 <= k < middle + 1 implies lex_le(
                #[trigger] v@[k].name@,
                d.name@,
            ) by {
                if k < middle {
                    lemma_lex_transitive(v@[k].name@, v@[middle as int].name@, d.name@);
                }
            }
            low = middle + 1;
        } else {
            assert forall|k: int| middle <= k < v@.len() implies !lex_le(
                #[trigger] v@[k].name@,
                d.name@,
            ) by {
                if k > middle && lex_le(v@[k].name@, d.name@) {
                    lemma_lex_transitive(v@[middle as int].name@, v@[k].name@, d.name@);
                }
            }
            high = middle;
        }
    }
    proof {
        lemma_rank_of_split(v@, d.name@, low as int);
        lemma_insert_by_name_sorted(v@, d);
    }
    v.insert(low, d);
}

/// A name that a sorted list lacks can be put where the names behind it
/// begin: the list stays sorted and gains that name alone.
proof fn lemma_insert_name(before: Seq<Seq<char>>, at: int, name: Seq<char>)
    requires
        strictly_sorted(before),
        0 <= at <= before.len(),
        forall|k: int| 0 <= k < at ==> !lex_le(name, #[trigger] before[k]),
        forall|k: int| at <= k < before.len() ==> lex_le(name, #[trigger] before[k]),
        at < before.len() ==> before[at] != name,
    ensures
        strictly_sorted(before.insert(at, name)),
        forall|x: Seq<char>|
            before.insert(at, name).contains(x) <==> (before.contains(x) || x == name),
        !before.contains(name),
{
    let after = before.insert(at, name);
    lemma_lex_reflexive(name);
    assert forall|k: int| 0 <= k < before.len() implies #[trigger] before[k] != name by {
        if k > at && before[k] == name {
            assert(lex_le(before[at], before[k]));
            assert(lex_le(name, before[at]));
            lemma_lex_antisymmetric(name, before[at]);
        }
    }
    assert forall|i: int, j: int|
        #![trigger after[i], after[j]]
        0 <= i < j < after.len() implies lex_le(after[i], after[j]) && after[i] != after[j] by {
        if j == at {
            assert(after[i] == before[i]);
            assert(after[j] == name);
            lemma_lex_total(name, before[i]);
            assert(!lex_le(name, before[i]));
            assert(before[i] != name);
        } else if i == at {
            assert(after[i] == name);
            assert(after[j] == before[j - 1]);
            assert(lex_le(name, before[j - 1]));
            assert(before[j - 1] != name);
        } else if j < at {
            assert(after[i] == before[i] && after[j] == before[j]);
            assert(lex_le(before[i], before[j]) && before[i] != before[j]);
        } else if i < at {
            assert(after[i] == before[i] && after[j] == before[j - 1]);
            assert(lex_le(before[i], before[j - 1]) && before[i] != before[j - 1]);
        } else {
            assert(after[i] == before[i - 1] && after[j] == before[j - 1]);
            assert(lex_le(before[i - 1], before[j - 1]) && before[i - 1] != before[j - 1]);
        }
    }
    assert forall|x: Seq<char>| after.contains(x) <==> (before.contains(x) || x == name) by {
        if after.contains(x) {
            let k = choose|k: int| 0 <= k < after.len() && after[k] == x;
            if k < at {
                assert(before[k] == x);
            } else if k > at {
                assert(before[k - 1] == x);
            }
        }
        if before.contains(x) {
            let k = choose|k: int| 0 <= k < before.len() && before[k] == x;
            if k < at {
                assert(after[k] == x);
            } else {
                assert(after[k + 1] == x);
            }
        }
        if x == name {
            assert(after[at] == x);
        }
    }
}

/// Adds a name to a sorted list of names unless the list holds it.
pub fn insert_unique(v: &mut Vec<String>, name: &String)
    requires
        strictly_sorted(names(old(v)@)),
    ensures
        strictly_sorted(names(final(v)@)),
        forall|x: Seq<char>|
            names(final(v)@).contains(x) <==> (names(old(v)@).contains(x) || x == name@),
        names(old(v)@).contains(name@) ==> final(v)@ == old(v)@,
{
    let ghost before = names(v@);
    let mut low: usize = 0;
    let mut high: usize = v.len();
    while low < high
        invariant
            low <= high <= v@.len(),
            v@ == old(v)@,
            before == names(v@),
            strictly_sorted(before),
            forall|k: int| 0 <= k < low ==> !lex_le(name@, #[trigger] before[k]),
            forall|k: int| high <= k < before.len() ==> lex_le(name@, #[trigger] before[k]),
        decreases high - low,
    {
        let middle: usize = low + (high - low) / 2;
        assert(before[middle as int] == v@[middle as int]@);
        if str_le(name.as_str(), v[middle].as_str()) {
            assert forall|k: int| middle <= k < before.len() implies lex_le(
                name@,
                #[trigger] before[k],
            ) by {
                if k > middle {
                    lemma_lex_transitive(name@, before[middle as int], before[k]);
                }
            }
            high = middle;
        } else {
            assert forall|k: int| 0 <= k < middle + 1 implies !lex_le(
                name@,
                #[trigger] before[k],
            ) by {
                if k < middle && lex_le(name@, before[k]) {
                    lemma_lex_transitive(name@, before[k], before[middle as int]);
                }
            }
            low = middle + 1;
        }
    }
    proof {
        assert(before == names(old(v)@));
        if low < before.len() {
            assert(before[low as int] == v@[low as int]@);
        }
    }
    if low < v.len() && str_eq(v[low].as_str(), name.as_str()) {
        assert(before.contains(name@));
        assert forall|x: Seq<char>| before.contains(x) <==> (before.contains(x) || x
            == name@) by {}
    } else {
        proof {
            lemma_insert_name(before, low as int, name@);
        }
        v.insert(low, name.clone());
        assert(names(v@) == before.insert(low as int, name@));
    }
}

} // verus!
