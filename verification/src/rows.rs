//! The rows of the list of changed files: one for each file, in the order of the paths.

use crate::model::Change;
use crate::path::{is_path_before, is_same_path};
use crate::state::FileChange;
use vstd::prelude::*;

verus! {

/// Whether changes number `i` and `j` are of the same file.
pub open spec fn same_file(changes: Seq<Change>, i: int, j: int) -> bool {
    crate::path::same_path(changes[i].path, changes[j].path)
}

/// Whether change number `f` is the first of its file.
pub open spec fn is_first(changes: Seq<Change>, f: int) -> bool {
    forall|j: int| 0 <= j < f ==> !same_file(changes, j, f)
}

/// Whether change number `l` is the most recent of its file among the first `n` changes;
/// of several at the same time it is the first.
pub open spec fn is_latest(changes: Seq<Change>, n: int, l: int) -> bool {
    forall|j: int|
        0 <= j < n && #[trigger] same_file(changes, j, l) ==> changes[j].timestamp
            <= changes[l].timestamp && (j < l ==> changes[j].timestamp < changes[l].timestamp)
}

/// Whether the pair of change numbers `row` is the row of a file: its first change, whose
/// path names the file, and its most recent one.
pub open spec fn is_row(changes: Seq<Change>, n: int, row: (int, int)) -> bool {
    &&& 0 <= row.0 < n
    &&& 0 <= row.1 < n
    &&& same_file(changes, row.0, row.1)
    &&& is_first(changes, row.0)
    &&& is_latest(changes, n, row.1)
}

/// Whether some row is the one of the file that change number `j` is of.
pub open spec fn has_row(changes: Seq<Change>, rows: Seq<(int, int)>, j: int) -> bool {
    exists|i: int| 0 <= i < rows.len() && same_file(changes, (#[trigger] rows[i]).0, j)
}

/// Whether the rows stand in the order of their paths, no two of them of the same file.
pub open spec fn in_path_order(changes: Seq<Change>, rows: Seq<(int, int)>) -> bool {
    forall|i: int, j: int|
        0 <= i < j < rows.len() ==> crate::path::path_before(
            changes[(#[trigger] rows[i]).0].path,
            changes[(#[trigger] rows[j]).0].path,
        )
}

/// Whether `rows` lists the files of the first `n` changes.
pub open spec fn lists_files(changes: Seq<Change>, n: int, rows: Seq<(int, int)>) -> bool {
    &&& forall|i: int| 0 <= i < rows.len() ==> is_row(changes, n, #[trigger] rows[i])
    &&& forall|j: int| 0 <= j < n ==> #[trigger] has_row(changes, rows, j)
    &&& in_path_order(changes, rows)
}

/// The rows of the list of changed files.
pub open spec fn file_rows(changes: Seq<Change>) -> Seq<(int, int)> {
    choose|rows: Seq<(int, int)>| lists_files(changes, changes.len() as int, rows)
}

/// The row numbers in mathematical form.
pub open spec fn as_rows(rows: Seq<(usize, usize)>) -> Seq<(int, int)> {
    rows.map_values(|r: (usize, usize)| (r.0 as int, r.1 as int))
}

/// The files that the rows are of, each by the components of its path.
pub open spec fn files_of(changes: Seq<Change>, rows: Seq<(int, int)>) -> Seq<Seq<Seq<u8>>> {
    rows.map_values(|row: (int, int)| crate::path::components(changes[row.0].path))
}

/// Whether some change is of the file with these components.
pub open spec fn is_changed(changes: Seq<Change>, file: Seq<Seq<u8>>) -> bool {
    exists|j: int|
        0 <= j < changes.len() && crate::path::components((#[trigger] changes[j]).path) == file
}

/// The files that the rows are of: the changed ones, in order.
proof fn lemma_files(changes: Seq<Change>, rows: Seq<(int, int)>)
    requires
        lists_files(changes, changes.len() as int, rows),
    ensures
        crate::order::is_sorted(
            files_of(changes, rows),
            crate::order::dictionary(crate::path::component_order()),
        ),
        forall|file: Seq<Seq<u8>>| #[trigger]
            files_of(changes, rows).contains(file) <==> is_changed(changes, file),
{
    let files = files_of(changes, rows);
    let n = changes.len() as int;
    assert forall|file: Seq<Seq<u8>>| #[trigger] files.contains(file) <==> is_changed(
        changes,
        file,
    ) by {
        if files.contains(file) {
            let i = choose|i: int| 0 <= i < files.len() && files[i] == file;
            assert(is_row(changes, n, rows[i]));
            assert(crate::path::components(changes[rows[i].0].path) == file);
        }
        if is_changed(changes, file) {
            let j = choose|j: int|
                0 <= j < changes.len() && crate::path::components((#[trigger] changes[j]).path)
                    == file;
            assert(has_row(changes, rows, j));
            let i = choose|i: int|
                0 <= i < rows.len() && same_file(changes, (#[trigger] rows[i]).0, j);
            assert(files[i] == file);
        }
    }
    let before = crate::order::dictionary(crate::path::component_order());
    assert forall|i: int, j: int| 0 <= i < j < files.len() implies before(
        #[trigger] files[i],
        #[trigger] files[j],
    ) by {
        assert(crate::path::path_before(changes[rows[i].0].path, changes[rows[j].0].path));
    }
}

/// The rows stand in the same order whatever happened to the files and when: two lists
/// of changes to the same files give rows of the same files in the same places.
pub proof fn law_order_is_stable(a: Seq<Change>, b: Seq<Change>)
    requires
        forall|file: Seq<Seq<u8>>| #[trigger] is_changed(a, file) <==> is_changed(b, file),
    ensures
        files_of(a, file_rows(a)) == files_of(b, file_rows(b)),
{
    let (c, d) = (files_of(a, file_rows(a)), files_of(b, file_rows(b)));
    law_one_row_for_each_file(a);
    law_one_row_for_each_file(b);
    lemma_files(a, file_rows(a));
    lemma_files(b, file_rows(b));
    assert forall|file: Seq<Seq<u8>>| #[trigger] c.contains(file) <==> d.contains(file) by {
        assert(is_changed(a, file) <==> is_changed(b, file));
    }
    crate::path::lemma_component_order();
    crate::order::law_dictionary_is_strict(crate::path::component_order());
    crate::order::law_sorted_unique(
        c,
        d,
        crate::order::dictionary(crate::path::component_order()),
    );
}

/// Two lists of the same changes are the same list.
proof fn lemma_rows_unique(changes: Seq<Change>, a: Seq<(int, int)>, b: Seq<(int, int)>)
    requires
        lists_files(changes, changes.len() as int, a),
        lists_files(changes, changes.len() as int, b),
    ensures
        a == b,
{
    let n = changes.len() as int;
    let (c, d) = (files_of(changes, a), files_of(changes, b));
    lemma_files(changes, a);
    lemma_files(changes, b);
    assert forall|file: Seq<Seq<u8>>| #[trigger] c.contains(file) <==> d.contains(file) by {
        assert(is_changed(changes, file) == is_changed(changes, file));
    }
    crate::path::lemma_component_order();
    crate::order::law_dictionary_is_strict(crate::path::component_order());
    crate::order::law_sorted_unique(
        c,
        d,
        crate::order::dictionary(crate::path::component_order()),
    );
    assert forall|i: int| 0 <= i < a.len() implies a[i] == b[i] by {
        assert(c[i] == d[i]);
        assert(is_row(changes, n, a[i]));
        assert(is_row(changes, n, b[i]));
        assert(same_file(changes, a[i].0, b[i].0));
        assert(same_file(changes, b[i].0, a[i].0));
        assert(same_file(changes, a[i].1, b[i].1));
        assert(same_file(changes, b[i].1, a[i].1));
    }
    assert(c.len() == a.len() && d.len() == b.len());
    assert(a =~= b);
}

/// A file with a row is of no other row.
proof fn lemma_only_row(changes: Seq<Change>, n: int, rows: Seq<(int, int)>, p: int, q: int)
    requires
        lists_files(changes, n, rows),
        0 <= p < rows.len(),
        0 <= q < rows.len(),
        same_file(changes, rows[p].0, rows[q].0),
    ensures
        p == q,
{
    let path = changes[rows[p].0].path;
    crate::path::law_path_order(path, path, path);
    if p < q {
        assert(crate::path::path_before(changes[rows[p].0].path, changes[rows[q].0].path));
    } else if q < p {
        assert(crate::path::path_before(changes[rows[q].0].path, changes[rows[p].0].path));
    }
}

/// Change number `n` is of the file of row `p`, and more recent.
proof fn lemma_newer(changes: Seq<Change>, n: int, rows: Seq<(int, int)>, p: int)
    requires
        0 <= n < changes.len(),
        lists_files(changes, n, rows),
        0 <= p < rows.len(),
        same_file(changes, rows[p].0, n),
        changes[n].timestamp > changes[rows[p].1].timestamp,
    ensures
        lists_files(changes, n + 1, rows.update(p, (rows[p].0, n))),
{
    let after = rows.update(p, (rows[p].0, n));
    assert(is_row(changes, n, rows[p]));
    assert forall|i: int| 0 <= i < after.len() implies is_row(changes, n + 1, #[trigger] after[i]) by {
        assert(is_row(changes, n, rows[i]));
        if i != p && same_file(changes, n, rows[i].1) {
            lemma_only_row(changes, n, rows, i, p);
        }
        if i == p {
            assert forall|j: int| 0 <= j < n + 1 && #[trigger] same_file(changes, j, n) implies
                changes[j].timestamp <= changes[n].timestamp && (j < n ==> changes[j].timestamp
                < changes[n].timestamp) by {
                if j < n {
                    assert(same_file(changes, j, rows[p].1));
                }
            }
        }
    }
    lemma_rows_kept(changes, n, rows, after, p);
}

/// Change number `n` is of the file of row `p`, and not more recent.
proof fn lemma_older(changes: Seq<Change>, n: int, rows: Seq<(int, int)>, p: int)
    requires
        0 <= n < changes.len(),
        lists_files(changes, n, rows),
        0 <= p < rows.len(),
        same_file(changes, rows[p].0, n),
        changes[n].timestamp <= changes[rows[p].1].timestamp,
    ensures
        lists_files(changes, n + 1, rows),
{
    assert forall|i: int| 0 <= i < rows.len() implies is_row(changes, n + 1, #[trigger] rows[i]) by {
        assert(is_row(changes, n, rows[i]));
        if i != p && same_file(changes, n, rows[i].1) {
            lemma_only_row(changes, n, rows, i, p);
        }
    }
    lemma_rows_kept(changes, n, rows, rows, p);
}

/// Rows of the same files, one of them that of change number `n`, in the same places.
proof fn lemma_rows_kept(
    changes: Seq<Change>,
    n: int,
    rows: Seq<(int, int)>,
    after: Seq<(int, int)>,
    p: int,
)
    requires
        lists_files(changes, n, rows),
        0 <= p < rows.len(),
        same_file(changes, rows[p].0, n),
        after.len() == rows.len(),
        forall|i: int| 0 <= i < rows.len() ==> (#[trigger] after[i]).0 == rows[i].0,
    ensures
        forall|j: int| 0 <= j < n + 1 ==> #[trigger] has_row(changes, after, j),
        in_path_order(changes, after),
{
    assert forall|j: int| 0 <= j < n + 1 implies #[trigger] has_row(changes, after, j) by {
        if j == n {
            assert(same_file(changes, after[p].0, j));
        } else {
            assert(has_row(changes, rows, j));
            let i = choose|i: int|
                0 <= i < rows.len() && same_file(changes, (#[trigger] rows[i]).0, j);
            assert(same_file(changes, after[i].0, j));
        }
    }
    assert forall|i: int, j: int| 0 <= i < j < after.len() implies crate::path::path_before(
        changes[(#[trigger] after[i]).0].path,
        changes[(#[trigger] after[j]).0].path,
    ) by {
        assert(crate::path::path_before(changes[rows[i].0].path, changes[rows[j].0].path));
    }
}

/// Change number `n` is of a file without a row, whose place is `p`.
proof fn lemma_new_file(changes: Seq<Change>, n: int, rows: Seq<(int, int)>, p: int)
    requires
        0 <= n < changes.len(),
        lists_files(changes, n, rows),
        0 <= p <= rows.len(),
        forall|q: int|
            0 <= q < p ==> crate::path::path_before(
                changes[(#[trigger] rows[q]).0].path,
                changes[n].path,
            ),
        p < rows.len() ==> !crate::path::path_before(changes[rows[p].0].path, changes[n].path)
            && !same_file(changes, rows[p].0, n),
    ensures
        lists_files(changes, n + 1, rows.insert(p, (n, n))),
{
    let after = rows.insert(p, (n, n));
    let path = changes[n].path;
    crate::path::law_path_order(path, path, path);
    assert forall|q: int| p <= q < rows.len() implies crate::path::path_before(
        path,
        changes[(#[trigger] rows[q]).0].path,
    ) by {
        crate::path::law_path_order(path, changes[rows[p].0].path, changes[rows[q].0].path);
        if p < q {
            assert(crate::path::path_before(changes[rows[p].0].path, changes[rows[q].0].path));
        }
    }
    assert forall|q: int| 0 <= q < rows.len() implies !same_file(
        changes,
        (#[trigger] rows[q]).0,
        n,
    ) by {
        crate::path::law_path_order(changes[rows[q].0].path, path, path);
        crate::path::law_path_order(path, changes[rows[q].0].path, path);
    }
    assert forall|j: int| 0 <= j < n implies !same_file(changes, j, n) by {
        assert(has_row(changes, rows, j));
        let i = choose|i: int| 0 <= i < rows.len() && same_file(changes, (#[trigger] rows[i]).0, j);
        assert(!same_file(changes, rows[i].0, n));
    }
    assert forall|i: int| 0 <= i < after.len() implies is_row(changes, n + 1, #[trigger] after[i]) by {
        if i != p {
            let k = if i < p { i } else { i - 1 };
            assert(after[i] == rows[k]);
            assert(is_row(changes, n, rows[k]));
            assert(!same_file(changes, rows[k].0, n));
            assert(!same_file(changes, n, rows[k].1));
        }
    }
    assert forall|j: int| 0 <= j < n + 1 implies #[trigger] has_row(changes, after, j) by {
        if j == n {
            assert(same_file(changes, after[p].0, j));
        } else {
            assert(has_row(changes, rows, j));
            let i = choose|i: int|
                0 <= i < rows.len() && same_file(changes, (#[trigger] rows[i]).0, j);
            let k = if i < p { i } else { i + 1 };
            assert(after[k] == rows[i]);
            assert(same_file(changes, after[k].0, j));
        }
    }
    assert forall|i: int, j: int| 0 <= i < j < after.len() implies crate::path::path_before(
        changes[(#[trigger] after[i]).0].path,
        changes[(#[trigger] after[j]).0].path,
    ) by {
        let k = if i < p { i } else { i - 1 };
        let l = if j < p { j } else { j - 1 };
        if i != p && j != p {
            assert(after[i] == rows[k] && after[j] == rows[l]);
            assert(crate::path::path_before(changes[rows[k].0].path, changes[rows[l].0].path));
        } else if i == p {
            assert(after[j] == rows[l]);
        } else {
            assert(after[i] == rows[k]);
        }
    }
}

/// The place of change number `n` among the rows from `from` on.
proof fn lemma_place(changes: Seq<Change>, n: int, rows: Seq<(int, int)>, from: int) -> (p: int)
    requires
        0 <= from <= rows.len(),
        forall|q: int|
            0 <= q < from ==> crate::path::path_before(
                changes[(#[trigger] rows[q]).0].path,
                changes[n].path,
            ),
    ensures
        from <= p <= rows.len(),
        forall|q: int|
            0 <= q < p ==> crate::path::path_before(
                changes[(#[trigger] rows[q]).0].path,
                changes[n].path,
            ),
        p < rows.len() ==> !crate::path::path_before(changes[rows[p].0].path, changes[n].path),
    decreases rows.len() - from,
{
    if from < rows.len() && crate::path::path_before(changes[rows[from].0].path, changes[n].path) {
        lemma_place(changes, n, rows, from + 1)
    } else {
        from
    }
}

proof fn lemma_rows_exist(changes: Seq<Change>, n: int)
    requires
        0 <= n <= changes.len(),
    ensures
        exists|rows: Seq<(int, int)>| lists_files(changes, n, rows),
    decreases n,
{
    if n == 0 {
        assert(lists_files(changes, 0, Seq::empty()));
    } else {
        let k = n - 1;
        lemma_rows_exist(changes, k);
        let rows = choose|rows: Seq<(int, int)>| lists_files(changes, k, rows);
        let p = lemma_place(changes, k, rows, 0);
        if p < rows.len() && same_file(changes, rows[p].0, k) {
            if changes[k].timestamp > changes[rows[p].1].timestamp {
                lemma_newer(changes, k, rows, p);
            } else {
                lemma_older(changes, k, rows, p);
            }
        } else {
            lemma_new_file(changes, k, rows, p);
        }
    }
}

/// The list has one row for each changed file, which shows its most recent change, and
/// the rows stand in the order of the paths.
pub proof fn law_one_row_for_each_file(changes: Seq<Change>)
    ensures
        lists_files(changes, changes.len() as int, file_rows(changes)),
{
    lemma_rows_exist(changes, changes.len() as int);
}

/// A row stands for one file: it has the path of the file's first change, and what happened
/// to it last; of several changes at that time, the first of them.
pub proof fn law_row_shows_the_latest_change(changes: Seq<Change>, i: int, j: int)
    requires
        0 <= i < file_rows(changes).len(),
        0 <= j < changes.len(),
    ensures
        ({
            let (first, latest) = file_rows(changes)[i];
            let file = crate::path::components(changes[first].path);
            &&& 0 <= first < changes.len() && 0 <= latest < changes.len()
            &&& crate::path::components(changes[latest].path) == file
            &&& crate::path::components(changes[j].path) == file ==> {
                &&& first <= j
                &&& changes[j].timestamp <= changes[latest].timestamp
                &&& changes[j].timestamp == changes[latest].timestamp ==> latest <= j
            }
        }),
{
    law_one_row_for_each_file(changes);
    let row = file_rows(changes)[i];
    assert(is_row(changes, changes.len() as int, row));
    if crate::path::components(changes[j].path) == crate::path::components(changes[row.0].path) {
        assert(same_file(changes, j, row.1));
        if j < row.0 {
            assert(!same_file(changes, j, row.0));
        }
    }
}

/// Every changed file has a row, rows further down are of later paths, and there are as many
/// rows as there are files.
pub proof fn law_rows_are_the_files(changes: Seq<Change>, j: int)
    ensures
        0 <= j < changes.len() ==> exists|i: int|
            0 <= i < file_rows(changes).len() && crate::path::components(
                changes[(#[trigger] file_rows(changes)[i]).0].path,
            ) == crate::path::components(changes[j].path),
        forall|a: int, b: int|
            0 <= a < b < file_rows(changes).len() ==> crate::path::path_before(
                changes[(#[trigger] file_rows(changes)[a]).0].path,
                changes[(#[trigger] file_rows(changes)[b]).0].path,
            ),
        file_rows(changes).len() == changes.map_values(
            |c: Change| crate::path::components(c.path),
        ).to_set().len(),
        file_rows(changes).len() <= changes.len(),
{
    law_one_row_for_each_file(changes);
    let rows = file_rows(changes);
    if 0 <= j < changes.len() {
        assert(has_row(changes, rows, j));
        let i = choose|i: int| 0 <= i < rows.len() && same_file(changes, (#[trigger] rows[i]).0, j);
        assert(crate::path::components(changes[rows[i].0].path) == crate::path::components(
            changes[j].path,
        ));
    }
    let all = changes.map_values(|c: Change| crate::path::components(c.path));
    let files = files_of(changes, rows);
    lemma_files(changes, rows);
    assert forall|a: int, b: int| 0 <= a < files.len() && 0 <= b < files.len() && a
        != b implies files[a] != files[b] by {
        if files[a] == files[b] {
            lemma_only_row(changes, changes.len() as int, rows, a, b);
        }
    }
    assert(files.no_duplicates());
    files.unique_seq_to_set();
    assert forall|file: Seq<Seq<u8>>| #[trigger] files.to_set().contains(file)
        == all.to_set().contains(file) by {
        if is_changed(changes, file) {
            let k = choose|k: int|
                0 <= k < changes.len() && crate::path::components((#[trigger] changes[k]).path)
                    == file;
            assert(all[k] == file);
        }
        if all.contains(file) {
            let k = choose|k: int| 0 <= k < all.len() && all[k] == file;
            assert(crate::path::components(changes[k].path) == file);
        }
        assert(files.contains(file) <==> is_changed(changes, file));
    }
    assert(files.to_set() =~= all.to_set());
    vstd::seq_lib::seq_to_set_is_finite(all);
    all.lemma_cardinality_of_set();
}

/// Lists the changed files.
pub(crate) fn list_files(changes: &Vec<FileChange>) -> (rows: Vec<(usize, usize)>)
    ensures
        as_rows(rows@) == file_rows(crate::state::changes_of(changes@)),
{
    let ghost all = crate::state::changes_of(changes@);
    let mut rows: Vec<(usize, usize)> = Vec::new();
    let mut n: usize = 0;
    while n < changes.len()
        invariant
            n <= changes@.len(),
            all == crate::state::changes_of(changes@),
            lists_files(all, n as int, as_rows(rows@)),
        decreases changes@.len() - n,
    {
        add_change(changes, &mut rows, n);
        n += 1;
    }
    proof {
        law_one_row_for_each_file(all);
        lemma_rows_unique(all, as_rows(rows@), file_rows(all));
    }
    rows
}

/// Enters change number `n` in the rows of the changes before it.
fn add_change(changes: &Vec<FileChange>, rows: &mut Vec<(usize, usize)>, n: usize)
    requires
        n < changes@.len(),
        lists_files(crate::state::changes_of(changes@), n as int, as_rows(old(rows)@)),
    ensures
        lists_files(crate::state::changes_of(changes@), n + 1, as_rows(final(rows)@)),
{
    let ghost all = crate::state::changes_of(changes@);
    let ghost before = as_rows(rows@);
    let mut p: usize = 0;
    assert forall|q: int| 0 <= q < rows@.len() implies 0 <= (#[trigger] rows@[q]).0 < n && 0
        <= rows@[q].1 < n && before[q].0 == rows@[q].0 && before[q].1 == rows@[q].1 by {
        assert(is_row(all, n as int, before[q]));
    }
    assert(all[n as int].path == changes@[n as int].path@);
    while p < rows.len() && is_path_before(
        changes[rows[p].0].path.as_slice(),
        changes[n].path.as_slice(),
    )
        invariant
            *rows == *old(rows),
            before == as_rows(rows@),
            all == crate::state::changes_of(changes@),
            n < changes@.len(),
            lists_files(all, n as int, before),
            p <= rows@.len(),
            forall|q: int|
                0 <= q < p ==> crate::path::path_before(
                    all[(#[trigger] before[q]).0].path,
                    all[n as int].path,
                ),
            forall|q: int|
                0 <= q < rows@.len() ==> 0 <= (#[trigger] rows@[q]).0 < n && 0 <= rows@[q].1 < n
                    && before[q].0 == rows@[q].0 && before[q].1 == rows@[q].1,
        decreases rows@.len() - p,
    {
        assert(before[p as int].0 == rows@[p as int].0);
        p += 1;
    }
    if p < rows.len() {
        assert(is_row(all, n as int, before[p as int]));
        if is_same_path(changes[rows[p].0].path.as_slice(), changes[n].path.as_slice()) {
            let row: (usize, usize) = rows[p];
            if changes[n].timestamp > changes[row.1].timestamp {
                rows.set(p, (row.0, n));
                proof {
                    assert(as_rows(rows@) =~= before.update(p as int, (row.0 as int, n as int)));
                    lemma_newer(all, n as int, before, p as int);
                }
            } else {
                proof {
                    lemma_older(all, n as int, before, p as int);
                }
            }
            return ;
        }
    }
    rows.insert(p, (n, n));
    proof {
        assert(as_rows(rows@) =~= before.insert(p as int, (n as int, n as int)));
        lemma_new_file(all, n as int, before, p as int);
    }
}

} // verus!
