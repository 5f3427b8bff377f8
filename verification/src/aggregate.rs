//! The summary of a listing: its pools, its datasets by category, and the
//! space that its top-level filesystems use and have left.

use crate::rounding::saturated;
use crate::order::{at_most_once, count_of, str_eq};
use crate::size::{format_bytes, is_size_text, parse_size, parse_size_string, size_text};
use crate::sorted::{
    distinct_names, insert_by_name, insert_sorted, insert_unique,
    lemma_distinct_names_carry_over, lemma_sort_by_name_permutes, lemma_sort_by_name_sorted,
    lemma_sorted_is_unique, names, sort_by_name, sorted_by_name, strictly_sorted,
};
use crate::types::{datasets_of, Dataset, ZfsListOutput, ZfsStats};
use vstd::prelude::*;

verus! {

/// The type name of a filesystem.
pub open spec fn filesystem_tag() -> Seq<char> {
    "FILESYSTEM"@
}

/// The type name of a snapshot.
pub open spec fn snapshot_tag() -> Seq<char> {
    "SNAPSHOT"@
}

/// The type name of a bookmark.
pub open spec fn bookmark_tag() -> Seq<char> {
    "BOOKMARK"@
}

/// The kinds of dataset that a summary lists.
#[derive(Debug, Clone, Copy, PartialEq, Eq, Structural)]
pub enum Category {
    Filesystem,
    Snapshot,
    Bookmark,
}

/// The category that a type name stands for, if any. Case matters.
pub open spec fn category_of(tag: Seq<char>) -> Option<Category> {
    if tag == filesystem_tag() {
        Some(Category::Filesystem)
    } else if tag == snapshot_tag() {
        Some(Category::Snapshot)
    } else if tag == bookmark_tag() {
        Some(Category::Bookmark)
    } else {
        None
    }
}

/// The category of a dataset by the name of its type; `None` for a type
/// that a summary leaves out.
pub fn classify(dataset_type: &str) -> (r: Option<Category>)
    ensures
        r == category_of(dataset_type@),
        dataset_type@ == filesystem_tag() ==> r == Some(Category::Filesystem),
        dataset_type@ == snapshot_tag() ==> r == Some(Category::Snapshot),
        dataset_type@ == bookmark_tag() ==> r == Some(Category::Bookmark),
{
    proof {
        lemma_category_names();
    }
    if str_eq(dataset_type, "FILESYSTEM") {
        Some(Category::Filesystem)
    } else if str_eq(dataset_type, "SNAPSHOT") {
        Some(Category::Snapshot)
    } else if str_eq(dataset_type, "BOOKMARK") {
        Some(Category::Bookmark)
    } else {
        None
    }
}

/// Each of the three type names stands for its own category.
pub proof fn lemma_category_names()
    ensures
        category_of(filesystem_tag()) == Some(Category::Filesystem),
        category_of(snapshot_tag()) == Some(Category::Snapshot),
        category_of(bookmark_tag()) == Some(Category::Bookmark),
{
    reveal_strlit("FILESYSTEM");
    reveal_strlit("SNAPSHOT");
    reveal_strlit("BOOKMARK");
    assert(filesystem_tag()[0] == 'F');
    assert(snapshot_tag()[0] == 'S');
    assert(bookmark_tag()[0] == 'B');
}

/// The datasets of one category, in the order in which they came.
pub open spec fn of_category(s: Seq<Dataset>, category: Category) -> Seq<Dataset>
    decreases s.len(),
{
    if s.len() == 0 {
        Seq::empty()
    } else if category_of(s.last().dataset_type@) == Some(category) {
        of_category(s.drop_last(), category).push(s.last())
    } else {
        of_category(s.drop_last(), category)
    }
}

/// Some dataset belongs to the pool.
pub open spec fn has_pool(s: Seq<Dataset>, pool: Seq<char>) -> bool {
    exists|i: int| 0 <= i < s.len() && #[trigger] s[i].pool@ == pool
}

/// A filesystem at the top of its pool: its name holds one slash at most.
/// Only these count towards the totals, so that nothing is counted twice.
pub open spec fn is_counted(d: Dataset) -> bool {
    category_of(d.dataset_type@) == Some(Category::Filesystem) && count_of(d.name@, '/') <= 1
}

/// The bytes that a size stands for; none where it cannot be decoded.
pub open spec fn bytes_or_zero(text: Seq<char>) -> nat {
    match parse_size(text) {
        Ok(bytes) => bytes as nat,
        Err(_) => 0,
    }
}

/// What a dataset adds to the space used: its `used` size where it counts.
pub open spec fn used_share(d: Dataset) -> nat {
    if is_counted(d) {
        bytes_or_zero(d.properties.used.value@)
    } else {
        0
    }
}

/// What a dataset adds to the space left: its `available` size where it
/// counts.
pub open spec fn available_share(d: Dataset) -> nat {
    if is_counted(d) {
        bytes_or_zero(d.properties.available.value@)
    } else {
        0
    }
}

/// The sum of what each dataset adds.
pub open spec fn sum_of(s: Seq<Dataset>, share: spec_fn(Dataset) -> nat) -> nat
    decreases s.len(),
{
    if s.len() == 0 {
        0
    } else {
        sum_of(s.drop_last(), share) + share(s.last())
    }
}

/// The space used by the filesystems that count.
pub open spec fn used_bytes(s: Seq<Dataset>) -> nat {
    sum_of(s, |d: Dataset| used_share(d))
}

/// The space left to the filesystems that count.
pub open spec fn available_bytes(s: Seq<Dataset>) -> nat {
    sum_of(s, |d: Dataset| available_share(d))
}

/// Every dataset in the list is of the category.
pub open spec fn all_of_category(s: Seq<Dataset>, category: Category) -> bool {
    forall|i: int|
        0 <= i < s.len() ==> category_of((#[trigger] s[i]).dataset_type@) == Some(category)
}

impl ZfsStats {
    /// A summary is well formed when its pools are named once each and in
    /// order, when each of its lists is in the order of names and holds
    /// datasets of its own type only, and when its totals are encoded sizes.
    pub open spec fn wf(&self) -> bool {
        &&& strictly_sorted(names(self.pools@))
        &&& sorted_by_name(self.filesystems@)
        &&& sorted_by_name(self.snapshots@)
        &&& sorted_by_name(self.bookmarks@)
        &&& all_of_category(self.filesystems@, Category::Filesystem)
        &&& all_of_category(self.snapshots@, Category::Snapshot)
        &&& all_of_category(self.bookmarks@, Category::Bookmark)
        &&& is_size_text(self.total_used@)
        &&& is_size_text(self.total_available@)
    }
}

/// How often a dataset stands among those of a category: as often as in
/// the listing where it is of the category, and never where it is not.
pub proof fn lemma_of_category_count(s: Seq<Dataset>, category: Category, d: Dataset)
    ensures
        of_category(s, category).to_multiset().count(d) == if category_of(d.dataset_type@)
            == Some(category) {
            s.to_multiset().count(d)
        } else {
            0
        },
    decreases s.len(),
{
    broadcast use vstd::seq_lib::group_to_multiset_ensures;

    if s.len() == 0 {
        assert(s == Seq::<Dataset>::empty());
    } else {
        let front = s.drop_last();
        lemma_of_category_count(front, category, d);
        assert(s == front.push(s.last()));
        assert(s.to_multiset() =~= front.to_multiset().insert(s.last()));
        if category_of(s.last().dataset_type@) == Some(category) {
            assert(of_category(s, category).to_multiset() =~= of_category(
                front,
                category,
            ).to_multiset().insert(s.last()));
        }
    }
}

/// The sorted list of a category is in the order of names and holds
/// datasets of that category only.
pub proof fn lemma_sorted_of_category(s: Seq<Dataset>, category: Category)
    ensures
        all_of_category(sort_by_name(of_category(s, category)), category),
        sorted_by_name(sort_by_name(of_category(s, category))),
{
    broadcast use vstd::seq_lib::group_to_multiset_ensures;

    let chosen = of_category(s, category);
    let sorted = sort_by_name(chosen);
    lemma_sort_by_name_sorted(chosen);
    lemma_sort_by_name_permutes(chosen);
    assert forall|i: int| 0 <= i < sorted.len() implies category_of(
        (#[trigger] sorted[i]).dataset_type@,
    ) == Some(category) by {
        let d = sorted[i];
        assert(sorted.contains(d));
        assert(sorted.to_multiset().count(d) > 0);
        lemma_of_category_count(s, category, d);
    }
}

/// Every dataset of a listing stands in the list of its category as often
/// as in the listing and in no other list; a dataset of no category stands
/// in none.
pub proof fn lemma_dataset_in_one_list(records: Seq<Dataset>, d: Dataset, category: Category)
    ensures
        sort_by_name(of_category(records, category)).to_multiset().count(d) == if category_of(
            d.dataset_type@,
        ) == Some(category) {
            records.to_multiset().count(d)
        } else {
            0
        },
{
    lemma_of_category_count(records, category, d);
    lemma_sort_by_name_permutes(of_category(records, category));
}

/// A sum is the sum without one dataset, plus what that dataset adds.
proof fn lemma_sum_without(s: Seq<Dataset>, share: spec_fn(Dataset) -> nat, at: int)
    requires
        0 <= at < s.len(),
    ensures
        sum_of(s, share) == sum_of(s.remove(at), share) + share(s[at]),
    decreases s.len(),
{
    let front = s.drop_last();
    if at == s.len() - 1 {
        assert(s.remove(at) == front);
    } else {
        lemma_sum_without(front, share, at);
        let rest = s.remove(at);
        assert(rest.drop_last() == front.remove(at));
        assert(rest.last() == s.last());
    }
}

/// A sum over the datasets of a list depends on the datasets alone, not
/// on their order.
pub proof fn lemma_sum_of_permuted(a: Seq<Dataset>, b: Seq<Dataset>, share: spec_fn(Dataset) -> nat)
    requires
        a.to_multiset() == b.to_multiset(),
    ensures
        sum_of(a, share) == sum_of(b, share),
    decreases a.len(),
{
    broadcast use vstd::seq_lib::group_to_multiset_ensures;

    vstd::seq_lib::to_multiset_len(a);
    vstd::seq_lib::to_multiset_len(b);
    if a.len() > 0 {
        let last = a.last();
        let front = a.drop_last();
        assert(a.contains(last));
        assert(b.to_multiset().count(last) > 0);
        assert(b.contains(last));
        let at = choose|at: int| 0 <= at < b.len() && b[at] == last;
        assert(front == a.remove(a.len() - 1));
        assert(front.to_multiset() == b.remove(at).to_multiset());
        lemma_sum_of_permuted(front, b.remove(at), share);
        lemma_sum_without(b, share, at);
    }
}

/// The order in which a listing names its datasets does not show in its
/// summary: two listings of the same datasets, no two of one name, have the
/// same pools, the same lists and the same totals.
pub proof fn lemma_order_is_insignificant(a: Seq<Dataset>, b: Seq<Dataset>, category: Category)
    requires
        a.to_multiset() == b.to_multiset(),
        distinct_names(a),
    ensures
        forall|pool: Seq<char>| has_pool(a, pool) <==> has_pool(b, pool),
        sort_by_name(of_category(a, category)) == sort_by_name(of_category(b, category)),
        used_bytes(a) == used_bytes(b),
        available_bytes(a) == available_bytes(b),
{
    broadcast use vstd::seq_lib::group_to_multiset_ensures;

    assert forall|pool: Seq<char>| has_pool(a, pool) <==> has_pool(b, pool) by {
        if has_pool(a, pool) {
            let i = choose|i: int| 0 <= i < a.len() && #[trigger] a[i].pool@ == pool;
            assert(a.contains(a[i]));
            assert(b.to_multiset().count(a[i]) > 0);
            assert(b.contains(a[i]));
            let j = choose|j: int| 0 <= j < b.len() && b[j] == a[i];
            assert(b[j].pool@ == pool);
        }
        if has_pool(b, pool) {
            let i = choose|i: int| 0 <= i < b.len() && #[trigger] b[i].pool@ == pool;
            assert(b.contains(b[i]));
            assert(a.to_multiset().count(b[i]) > 0);
            assert(a.contains(b[i]));
            let j = choose|j: int| 0 <= j < a.len() && a[j] == b[i];
            assert(a[j].pool@ == pool);
        }
    }
    let left = sort_by_name(of_category(a, category));
    let right = sort_by_name(of_category(b, category));
    lemma_sort_by_name_sorted(of_category(a, category));
    lemma_sort_by_name_sorted(of_category(b, category));
    lemma_sort_by_name_permutes(of_category(a, category));
    lemma_sort_by_name_permutes(of_category(b, category));
    assert forall|d: Dataset| left.to_multiset().count(d) == right.to_multiset().count(d)
        && left.to_multiset().count(d) <= a.to_multiset().count(d) by {
        lemma_of_category_count(a, category, d);
        lemma_of_category_count(b, category, d);
    }
    assert(left.to_multiset() =~= right.to_multiset());
    lemma_distinct_names_carry_over(a, left);
    lemma_sorted_is_unique(left, right);
    lemma_sum_of_permuted(a, b, |d: Dataset| used_share(d));
    lemma_sum_of_permuted(a, b, |d: Dataset| available_share(d));
}

/// Entries in another order hold their datasets in another order, and
/// nothing else.
proof fn lemma_datasets_permuted(x: Seq<(String, Dataset)>, y: Seq<(String, Dataset)>)
    requires
        x.to_multiset() == y.to_multiset(),
    ensures
        datasets_of(x).to_multiset() == datasets_of(y).to_multiset(),
    decreases x.len(),
{
    broadcast use vstd::seq_lib::group_to_multiset_ensures;

    vstd::seq_lib::to_multiset_len(x);
    vstd::seq_lib::to_multiset_len(y);
    if x.len() == 0 {
        assert(datasets_of(x) =~= datasets_of(y));
    } else {
        let last = x.last();
        let front = x.drop_last();
        assert(x.contains(last));
        assert(y.to_multiset().count(last) > 0);
        assert(y.contains(last));
        let at = choose|at: int| 0 <= at < y.len() && y[at] == last;
        let rest = y.remove(at);
        assert(front == x.remove(x.len() - 1));
        assert(front.to_multiset() == rest.to_multiset());
        lemma_datasets_permuted(front, rest);
        assert(datasets_of(x) == datasets_of(front).push(last.1));
        assert(datasets_of(rest) == datasets_of(y).remove(at));
        assert(datasets_of(y)[at] == last.1);
        let whole = datasets_of(y).to_multiset();
        assert(datasets_of(y).contains(last.1));
        assert(whole.count(last.1) > 0);
        assert(whole =~= whole.remove(last.1).insert(last.1));
    }
}

/// A well-formed listing is a map from keys to datasets, and its summary
/// depends on the map alone: two well-formed listings of the same
/// entries, in whatever order, have the same pools, the same lists and the
/// same totals.
pub proof fn lemma_summary_of_a_map(a: ZfsListOutput, b: ZfsListOutput, category: Category)
    requires
        a.wf(),
        b.wf(),
        forall|e: (String, Dataset)| a.datasets@.contains(e) <==> b.datasets@.contains(e),
    ensures
        forall|pool: Seq<char>| has_pool(a.records(), pool) <==> has_pool(b.records(), pool),
        sort_by_name(of_category(a.records(), category)) == sort_by_name(
            of_category(b.records(), category),
        ),
        used_bytes(a.records()) == used_bytes(b.records()),
        available_bytes(a.records()) == available_bytes(b.records()),
{
    broadcast use vstd::seq_lib::group_to_multiset_ensures;

    let x = a.datasets@;
    let y = b.datasets@;
    // no entry occurs twice, since no key does
    assert(x.no_duplicates()) by {
        assert forall|i: int, j: int| 0 <= i < x.len() && 0 <= j < x.len() && i != j implies x[i]
            != x[j] by {
            assert(a.keys()[i] == x[i].0@ && a.keys()[j] == x[j].0@);
        }
    }
    assert(y.no_duplicates()) by {
        assert forall|i: int, j: int| 0 <= i < y.len() && 0 <= j < y.len() && i != j implies y[i]
            != y[j] by {
            assert(b.keys()[i] == y[i].0@ && b.keys()[j] == y[j].0@);
        }
    }
    x.lemma_multiset_has_no_duplicates();
    y.lemma_multiset_has_no_duplicates();
    assert forall|e: (String, Dataset)| x.to_multiset().count(e) == y.to_multiset().count(e) by {
        if x.contains(e) {
            assert(y.contains(e));
            assert(x.to_multiset().contains(e) && y.to_multiset().contains(e));
        } else {
            assert(!y.contains(e));
        }
    }
    assert(x.to_multiset() =~= y.to_multiset());
    lemma_datasets_permuted(x, y);
    lemma_order_is_insignificant(a.records(), b.records(), category);
}

/// What one more dataset changes in the sorted list of a category: it
/// goes into the list of its own and leaves the others as they were.
proof fn lemma_sorted_of_category_step(seen: Seq<Dataset>, d: Dataset, category: Category)
    ensures
        sort_by_name(of_category(seen.push(d), category)) == if category_of(d.dataset_type@)
            == Some(category) {
            insert_by_name(sort_by_name(of_category(seen, category)), d)
        } else {
            sort_by_name(of_category(seen, category))
        },
{
    let next = seen.push(d);
    assert(next.drop_last() == seen);
    assert(next.last() == d);
    if category_of(d.dataset_type@) == Some(category) {
        let chosen = of_category(seen, category).push(d);
        assert(chosen.drop_last() == of_category(seen, category));
        assert(chosen.last() == d);
    }
}

/// Adds what a size stands for to a total that stops at the largest value.
fn tally(total: u64, text: &str) -> (r: u64)
    ensures
        r == saturated(total as nat + bytes_or_zero(text@)),
{
    match parse_size_string(text) {
        Ok(bytes) => total.saturating_add(bytes),
        Err(_) => total,
    }
}

/// Summarises a listing.
///
/// Every pool that owns a dataset is named once, in the order of names.
/// Filesystems, snapshots and bookmarks are listed apart, each list in the
/// order of names; a dataset of another type is left out. The totals add up
/// the sizes of the filesystems at the top of their pools; a size that
/// cannot be decoded adds nothing, and a total stops at the largest 64-bit
/// value.
pub fn aggregate(input: ZfsListOutput) -> (stats: ZfsStats)
    ensures
        strictly_sorted(names(stats.pools@)),
        forall|pool: Seq<char>|
            names(stats.pools@).contains(pool) <==> has_pool(input.records(), pool),
        stats.filesystems@ == sort_by_name(of_category(input.records(), Category::Filesystem)),
        stats.snapshots@ == sort_by_name(of_category(input.records(), Category::Snapshot)),
        stats.bookmarks@ == sort_by_name(of_category(input.records(), Category::Bookmark)),
        stats.total_used@ == size_text(saturated(used_bytes(input.records())) as nat),
        stats.total_available@ == size_text(saturated(available_bytes(input.records())) as nat),
        stats.wf(),
{
    let ghost records = input.records();
    let mut pools: Vec<String> = Vec::new();
    let mut filesystems: Vec<Dataset> = Vec::new();
    let mut snapshots: Vec<Dataset> = Vec::new();
    let mut bookmarks: Vec<Dataset> = Vec::new();
    let mut total_used: u64 = 0;
    let mut total_available: u64 = 0;
    let entries = input.datasets;
    assert(names(pools@) == Seq::<Seq<char>>::empty());
    for entry in it: entries
        invariant
            it.seq().len() == records.len(),
            forall|i: int| 0 <= i < records.len() ==> records[i] == (#[trigger] it.seq()[i]).1,
            strictly_sorted(names(pools@)),
            forall|pool: Seq<char>|
                names(pools@).contains(pool) <==> has_pool(
                    records.take(it.index() as int),
                    pool,
                ),
            filesystems@ == sort_by_name(
                of_category(records.take(it.index() as int), Category::Filesystem),
            ),
            snapshots@ == sort_by_name(
                of_category(records.take(it.index() as int), Category::Snapshot),
            ),
            bookmarks@ == sort_by_name(
                of_category(records.take(it.index() as int), Category::Bookmark),
            ),
            sorted_by_name(filesystems@),
            sorted_by_name(snapshots@),
            sorted_by_name(bookmarks@),
            total_used == saturated(used_bytes(records.take(it.index() as int))),
            total_available == saturated(available_bytes(records.take(it.index() as int))),
    {
        let ghost seen = records.take(it.index() as int);
        let ghost next = records.take(it.index() + 1);
        let dataset = entry.1;
        proof {
            assert(next == seen.push(dataset));
            assert(next.drop_last() == seen);
            assert(next.last() == dataset);
            lemma_sorted_of_category_step(seen, dataset, Category::Filesystem);
            lemma_sorted_of_category_step(seen, dataset, Category::Snapshot);
            lemma_sorted_of_category_step(seen, dataset, Category::Bookmark);
            assert forall|pool: Seq<char>| has_pool(next, pool) <==> (has_pool(seen, pool) || pool
                == dataset.pool@) by {
                if has_pool(next, pool) {
                    let i = choose|i: int| 0 <= i < next.len() && #[trigger] next[i].pool@ == pool;
                    if i < seen.len() {
                        assert(seen[i].pool@ == pool);
                    }
                }
                if has_pool(seen, pool) {
                    let i = choose|i: int| 0 <= i < seen.len() && #[trigger] seen[i].pool@ == pool;
                    assert(next[i].pool@ == pool);
                }
                if pool == dataset.pool@ {
                    assert(next[next.len() - 1].pool@ == pool);
                }
            }
        }
        insert_unique(&mut pools, &dataset.pool);
        match classify(dataset.dataset_type.as_str()) {
            Some(Category::Filesystem) => {
                if at_most_once(dataset.name.as_str(), '/') {
                    total_used = tally(total_used, dataset.properties.used.value.as_str());
                    total_available =
                    tally(total_available, dataset.properties.available.value.as_str());
                }
                insert_sorted(&mut filesystems, dataset);
            },
            Some(Category::Snapshot) => insert_sorted(&mut snapshots, dataset),
            Some(Category::Bookmark) => insert_sorted(&mut bookmarks, dataset),
            None => {},
        }
    }
    proof {
        assert(records.take(records.len() as int) == records);
        lemma_sorted_of_category(records, Category::Filesystem);
        lemma_sorted_of_category(records, Category::Snapshot);
        lemma_sorted_of_category(records, Category::Bookmark);
    }
    ZfsStats {
        pools,
        filesystems,
        snapshots,
        bookmarks,
        total_used: format_bytes(total_used),
        total_available: format_bytes(total_available),
    }
}

} // verus!
