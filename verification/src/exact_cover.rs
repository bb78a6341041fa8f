//! Exact covers of named elements by boolean rows, searched on shrinking
//! sub-matrices: branch on the column with the fewest `true`s, keep the
//! rows that share no column with the chosen row and the columns the
//! chosen row leaves, and recurse.
use vstd::prelude::*;
use crate::exact_cover2::{elements_of, upto, member, lemma_elements_of};

verus! {

/// A row of the matrix: its name (its position in the input) and its
/// membership vector.
pub struct Row {
    pub name: usize,
    pub array: Vec<bool>,
}

/// A row as a plain value.
pub type RowView = (usize, Seq<bool>);

pub open spec fn rview(r: Row) -> RowView {
    (r.name, r.array@)
}

pub open spec fn mview(m: Seq<Row>) -> Seq<RowView> {
    m.map_values(|r: Row| rview(r))
}

/// `set` cut or padded with `false` to length `n`.
pub open spec fn fitted(set: Seq<bool>, n: nat) -> Seq<bool> {
    if set.len() >= n {
        set.take(n as int)
    } else {
        set + Seq::new((n - set.len()) as nat, |i: int| false)
    }
}

/// The positions of `a1` from `i` on, with `a2` walked alongside from `j`:
/// a value equal to `a2`'s current one moves `a2` on, any other adds its
/// position; the walk stops once `a2` is used up.
pub open spec fn diff_from(a1: Seq<usize>, a2: Seq<usize>, i: int, j: int) -> Seq<usize>
    decreases a1.len() - i,
{
    if i < 0 || i >= a1.len() || j < 0 || j >= a2.len() {
        Seq::empty()
    } else if a1[i] == a2[j] {
        diff_from(a1, a2, i + 1, j + 1)
    } else {
        seq![i as usize] + diff_from(a1, a2, i + 1, j)
    }
}

/// The number of `true`s.
pub open spec fn count_true(list: Seq<bool>) -> nat
    decreases list.len(),
{
    if list.len() == 0 {
        0
    } else {
        count_true(list.drop_last()) + if list.last() { 1nat } else { 0nat }
    }
}

/// Column `j` of the matrix.
pub open spec fn column(m: Seq<RowView>, j: int) -> Seq<bool> {
    Seq::new(m.len(), |i: int| m[i].1[j])
}

/// The columns of the matrix, as wide as its first row.
pub open spec fn columns_of(m: Seq<RowView>) -> Seq<Seq<bool>> {
    Seq::new(m[0].1.len(), |j: int| column(m, j))
}

/// The first of the lists `0..n` with the fewest `true`s.
pub open spec fn least_index(cs: Seq<Seq<bool>>, n: int) -> int
    decreases n,
{
    if n <= 1 {
        0
    } else {
        let e = least_index(cs, n - 1);
        if count_true(cs[n - 1]) < count_true(cs[e]) { n - 1 } else { e }
    }
}

/// `row` has no `true` at any of `cols`.
pub open spec fn misses(row: Seq<bool>, cols: Seq<usize>) -> bool {
    forall|k: int| 0 <= k < cols.len() ==> !row[#[trigger] cols[k] as int]
}

/// The positions below `n` of the rows that have no `true` at any of
/// `cols`, in order.
pub open spec fn rows_without(m: Seq<RowView>, cols: Seq<usize>, n: int) -> Seq<usize>
    decreases n,
{
    if n <= 0 {
        Seq::empty()
    } else {
        let rest = rows_without(m, cols, n - 1);
        if misses(m[n - 1].1, cols) { rest.push((n - 1) as usize) } else { rest }
    }
}

/// The rows at `rows`, each cut down to the columns `cols`.
pub open spec fn submatrix(m: Seq<RowView>, rows: Seq<usize>, cols: Seq<usize>) -> Seq<RowView> {
    Seq::new(rows.len(), |k: int| (m[rows[k] as int].0, Seq::new(cols.len(), |c: int| m[rows[k] as int].1[cols[c] as int])))
}

/// The columns left after choosing row `r`.
pub open spec fn cols_after(m: Seq<RowView>, r: int) -> Seq<usize> {
    diff_from(upto(m[r].1.len()), elements_of(m[r].1), 0, 0)
}

/// The matrix left after choosing row `r`.
pub open spec fn branch(m: Seq<RowView>, r: int) -> Seq<RowView> {
    submatrix(m, rows_without(m, elements_of(m[r].1), m.len() as int), cols_after(m, r))
}

/// Every row has the width of the first.
pub open spec fn uniform(m: Seq<RowView>) -> bool {
    forall|i: int| 0 <= i < m.len() ==> (#[trigger] m[i]).1.len() == m[0].1.len()
}

/// The rows to branch on: those with a `true` in the column with the
/// fewest.
pub open spec fn candidates(m: Seq<RowView>) -> Seq<usize> {
    elements_of(columns_of(m)[least_index(columns_of(m), m[0].1.len() as int)])
}

/// The solutions the search finds, each the names of its rows: none for
/// no rows; one row is a solution alone when all of it is `true`;
/// otherwise the solutions of each candidate row in turn.
pub open spec fn solutions_of(m: Seq<RowView>) -> Seq<Seq<usize>>
    decreases m.len(), 1int, 0int,
{
    if m.len() == 0 {
        Seq::empty()
    } else if m.len() == 1 {
        if forall|p: int| 0 <= p < m[0].1.len() ==> m[0].1[p] { seq![seq![m[0].0]] } else { Seq::empty() }
    } else {
        solutions_each(m, candidates(m))
    }
}

/// The solutions of branching on each of `cands`, in order; those of one
/// branch come last to first, each with the chosen row's name added.
pub open spec fn solutions_each(m: Seq<RowView>, cands: Seq<usize>) -> Seq<Seq<usize>>
    decreases m.len(), 0int, cands.len(),
{
    if cands.len() == 0 {
        Seq::empty()
    } else {
        let r = cands.last() as int;
        let b = branch(m, r);
        let subs = if b.len() < m.len() { solutions_of(b) } else { Seq::empty() };
        solutions_each(m, cands.drop_last()) + subs.map_values(|s: Seq<usize>| s.push(m[r].0)).reverse()
    }
}

/// The search never meets a matrix of two rows or more and no column,
/// where it finds no column to branch on.
pub open spec fn searchable(m: Seq<RowView>) -> bool
    decreases m.len(), 1int, 0int,
{
    if m.len() <= 1 {
        true
    } else {
        m[0].1.len() >= 1 && searchable_each(m, candidates(m))
    }
}

pub open spec fn searchable_each(m: Seq<RowView>, cands: Seq<usize>) -> bool
    decreases m.len(), 0int, cands.len(),
{
    if cands.len() == 0 {
        true
    } else {
        let b = branch(m, cands.last() as int);
        searchable_each(m, cands.drop_last()) && (b.len() < m.len() ==> searchable(b))
    }
}

// ---------------------------------------------------------------------
// The pieces of the search
// ---------------------------------------------------------------------

/// The row named `index` holding `set` cut or padded with `false` to
/// `num_of_elements` entries.
pub fn make_row(num_of_elements: usize, index: usize, set: Vec<bool>) -> (r: Row)
    ensures
        r.name == index,
        r.array@ == fitted(set@, num_of_elements as nat),
{
    let mut set = set;
    let ghost s0 = set@;
    if set.len() > num_of_elements {
        let extra = set.len() - num_of_elements;
        let mut i: usize = 0;
        while i < extra
            invariant
                i <= extra,
                extra == s0.len() - num_of_elements,
                set@ == s0.take(s0.len() - i),
            decreases extra - i,
        {
            set.pop();
            i += 1;
            assert(set@ =~= s0.take(s0.len() - i));
        }
    }
    if set.len() < num_of_elements {
        let missing = num_of_elements - set.len();
        let mut i: usize = 0;
        while i < missing
            invariant
                i <= missing,
                missing == num_of_elements - s0.len(),
                s0.len() < num_of_elements,
                set@ == s0 + Seq::new(i as nat, |k: int| false),
            decreases missing - i,
        {
            set.push(false);
            i += 1;
            assert(set@ =~= s0 + Seq::new(i as nat, |k: int| false));
        }
    }
    proof {
        if s0.len() > num_of_elements {
            assert(set@ =~= s0.take(num_of_elements as int));
        } else if s0.len() == num_of_elements {
            assert(set@ =~= s0.take(num_of_elements as int));
        }
    }
    Row { name: index, array: set }
}

/// The positions of the `true`s, in order.
pub fn true_indices(array: &[bool]) -> (r: Vec<usize>)
    ensures
        r@ == elements_of(array@),
{
    let mut r: Vec<usize> = Vec::new();
    let mut i: usize = 0;
    while i < array.len()
        invariant
            i <= array@.len(),
            r@ == elements_of(array@.take(i as int)),
        decreases array@.len() - i,
    {
        assert(array@.take(i + 1).drop_last() == array@.take(i as int));
        if array[i] {
            r.push(i);
        }
        i += 1;
    }
    assert(array@.take(i as int) == array@);
    r
}

/// The positions of `array1` left by walking `array2` alongside: see
/// `diff_from`.
pub fn diff(array1: &[usize], array2: &[usize]) -> (r: Vec<usize>)
    ensures
        r@ == diff_from(array1@, array2@, 0, 0),
{
    let mut result: Vec<usize> = Vec::new();
    let mut j: usize = 0;
    let mut i: usize = 0;
    while i < array1.len()
        invariant
            i <= array1@.len(),
            j <= array2@.len(),
            result@ + diff_from(array1@, array2@, i as int, j as int) == diff_from(array1@, array2@, 0, 0),
        decreases array1@.len() - i,
    {
        if j < array2.len() {
            if array1[i] == array2[j] {
                j += 1;
            } else {
                let ghost before = result@;
                result.push(i);
                assert(before + diff_from(array1@, array2@, i as int, j as int) =~= result@ + diff_from(
                    array1@,
                    array2@,
                    i + 1,
                    j as int,
                ));
            }
        } else {
            assert(result@ + diff_from(array1@, array2@, i as int, j as int) =~= result@);
            return result;
        }
        i += 1;
    }
    assert(result@ + diff_from(array1@, array2@, i as int, j as int) =~= result@);
    result
}

/// The number of `true`s.
pub fn count_trues(list: &Vec<bool>) -> (r: usize)
    ensures
        r == count_true(list@),
{
    let mut r: usize = 0;
    let mut i: usize = 0;
    while i < list.len()
        invariant
            i <= list@.len(),
            r == count_true(list@.take(i as int)),
            r <= i,
        decreases list@.len() - i,
    {
        assert(list@.take(i + 1).drop_last() == list@.take(i as int));
        if list[i] {
            r += 1;
        }
        i += 1;
    }
    assert(list@.take(i as int) == list@);
    r
}

/// The columns of a non-empty matrix whose rows share one width.
pub fn gencolumns(matrix: &Vec<Row>) -> (r: Vec<Vec<bool>>)
    requires
        matrix@.len() > 0,
        uniform(mview(matrix@)),
    ensures
        r@.map_values(|c: Vec<bool>| c@) == columns_of(mview(matrix@)),
{
    let ghost m = mview(matrix@);
    let column_count = matrix[0].array.len();
    let mut columns: Vec<Vec<bool>> = Vec::new();
    let mut j: usize = 0;
    while j < column_count
        invariant
            j <= column_count,
            m == mview(matrix@),
            column_count == m[0].1.len(),
            uniform(m),
            matrix@.len() > 0,
            columns@.map_values(|c: Vec<bool>| c@) == columns_of(m).take(j as int),
        decreases column_count - j,
    {
        let mut col: Vec<bool> = Vec::new();
        let mut i: usize = 0;
        while i < matrix.len()
            invariant
                i <= matrix@.len(),
                j < column_count,
                m == mview(matrix@),
                column_count == m[0].1.len(),
                uniform(m),
                col@ == column(m, j as int).take(i as int),
            decreases matrix@.len() - i,
        {
            assert(m[i as int].1.len() == column_count);
            assert(m[i as int].1 == matrix@[i as int].array@);
            col.push(matrix[i].array[j]);
            i += 1;
            assert(col@ =~= column(m, j as int).take(i as int));
        }
        assert(col@ =~= column(m, j as int));
        let ghost before = columns@;
        let ghost cv = col@;
        assert(before.map_values(|c: Vec<bool>| c@).len() == before.len());
        assert(columns_of(m).take(j as int).len() == j);
        assert(before.len() == j);
        columns.push(col);
        proof {
            assert(columns@.len() == j + 1);
            assert(columns@[j as int]@ == cv);
            let t = columns_of(m).take(j + 1);
            assert(columns_of(m)[j as int] == column(m, j as int));
            assert forall|k: int| 0 <= k < j + 1 implies columns@.map_values(|c: Vec<bool>| c@)[k] == t[k] by {
                if k < j {
                    assert(columns@[k] == before[k]);
                    assert(before.map_values(|c: Vec<bool>| c@)[k] == columns_of(m).take(j as int)[k]);
                } else {
                    assert(columns@[k]@ == cv);
                }
            }
        }
        j += 1;
        assert(columns@.map_values(|c: Vec<bool>| c@) =~= columns_of(m).take(j as int));
    }
    assert(columns_of(m).take(j as int) =~= columns_of(m));
    columns
}

/// The first of the lists with the fewest `true`s.
pub fn least_trues_index(array: &Vec<Vec<bool>>) -> (r: usize)
    requires
        array@.len() > 0,
    ensures
        r == least_index(array@.map_values(|c: Vec<bool>| c@), array@.len() as int),
        r < array@.len(),
{
    let ghost cs = array@.map_values(|c: Vec<bool>| c@);
    let mut best: usize = 0;
    let mut best_count = count_trues(&array[0]);
    let mut i: usize = 1;
    while i < array.len()
        invariant
            1 <= i <= array@.len(),
            cs == array@.map_values(|c: Vec<bool>| c@),
            best == least_index(cs, i as int),
            best < i,
            best_count == count_true(cs[best as int]),
        decreases array@.len() - i,
    {
        let c = count_trues(&array[i]);
        if c < best_count {
            best = i;
            best_count = c;
        }
        i += 1;
    }
    best
}

/// The positions below `n` of the rows that have no `true` at any of
/// `covered_cols`, in order.
pub fn covered_rows(matrix: &Vec<Row>, covered_cols: &[usize]) -> (r: Vec<usize>)
    requires
        forall|i: int, k: int| 0 <= i < matrix@.len() && 0 <= k < covered_cols@.len() ==> #[trigger] covered_cols@[k] < (#[trigger] matrix@[i]).array@.len(),
    ensures
        r@ == rows_without(mview(matrix@), covered_cols@, matrix@.len() as int),
{
    let ghost m = mview(matrix@);
    let mut r: Vec<usize> = Vec::new();
    let mut i: usize = 0;
    while i < matrix.len()
        invariant
            i <= matrix@.len(),
            m == mview(matrix@),
            forall|a: int, k: int| 0 <= a < matrix@.len() && 0 <= k < covered_cols@.len() ==> #[trigger] covered_cols@[k] < (#[trigger] matrix@[a]).array@.len(),
            r@ == rows_without(m, covered_cols@, i as int),
        decreases matrix@.len() - i,
    {
        let row = &matrix[i].array;
        let mut hit = false;
        let mut k: usize = 0;
        while k < covered_cols.len()
            invariant
                k <= covered_cols@.len(),
                i < matrix@.len(),
                row@ == m[i as int].1,
                forall|a: int, k: int| 0 <= a < matrix@.len() && 0 <= k < covered_cols@.len() ==> #[trigger] covered_cols@[k] < (#[trigger] matrix@[a]).array@.len(),
                m == mview(matrix@),
                hit <==> exists|x: int| 0 <= x < k && row@[#[trigger] covered_cols@[x] as int],
            decreases covered_cols@.len() - k,
        {
            assert(covered_cols@[k as int] < matrix@[i as int].array@.len());
            if row[covered_cols[k]] {
                hit = true;
            }
            k += 1;
        }
        if !hit {
            r.push(i);
        }
        i += 1;
    }
    r
}

/// The rows at `rows`, each cut down to the columns `cols`.
pub fn gensubmatrix(matrix: &Vec<Row>, rows: &[usize], cols: &[usize]) -> (r: Vec<Row>)
    requires
        forall|k: int| 0 <= k < rows@.len() ==> #[trigger] rows@[k] < matrix@.len(),
        forall|i: int, c: int| 0 <= i < matrix@.len() && 0 <= c < cols@.len() ==> #[trigger] cols@[c] < (#[trigger] matrix@[i]).array@.len(),
    ensures
        mview(r@) == submatrix(mview(matrix@), rows@, cols@),
{
    let ghost m = mview(matrix@);
    let mut sub: Vec<Row> = Vec::new();
    let mut k: usize = 0;
    while k < rows.len()
        invariant
            k <= rows@.len(),
            m == mview(matrix@),
            forall|k: int| 0 <= k < rows@.len() ==> #[trigger] rows@[k] < matrix@.len(),
            forall|i: int, c: int| 0 <= i < matrix@.len() && 0 <= c < cols@.len() ==> #[trigger] cols@[c] < (#[trigger] matrix@[i]).array@.len(),
            mview(sub@) == submatrix(m, rows@, cols@).take(k as int),
        decreases rows@.len() - k,
    {
        let row = rows[k];
        let mut new_row: Vec<bool> = Vec::new();
        let mut c: usize = 0;
        while c < cols.len()
            invariant
                c <= cols@.len(),
                k < rows@.len(),
                row == rows@[k as int],
                row < matrix@.len(),
                m == mview(matrix@),
                forall|i: int, c: int| 0 <= i < matrix@.len() && 0 <= c < cols@.len() ==> #[trigger] cols@[c] < (#[trigger] matrix@[i]).array@.len(),
                new_row@ == Seq::new(cols@.len(), |x: int| m[row as int].1[cols@[x] as int]).take(c as int),
            decreases cols@.len() - c,
        {
            assert(cols@[c as int] < matrix@[row as int].array@.len());
            new_row.push(matrix[row].array[cols[c]]);
            c += 1;
            assert(new_row@ =~= Seq::new(cols@.len(), |x: int| m[row as int].1[cols@[x] as int]).take(c as int));
        }
        let ghost before = sub@;
        sub.push(Row { name: matrix[row].name, array: new_row });
        proof {
            let t = submatrix(m, rows@, cols@).take(k + 1);
            assert(mview(before).len() == before.len());
            assert(before.len() == k);
            assert forall|x: int| 0 <= x < k + 1 implies mview(sub@)[x] == t[x] by {
                if x < k {
                    assert(sub@[x] == before[x]);
                    assert(mview(before)[x] == submatrix(m, rows@, cols@).take(k as int)[x]);
                } else {
                    assert(new_row@ =~= Seq::new(cols@.len(), |y: int| m[row as int].1[cols@[y] as int]));
                }
            }
            assert(mview(sub@) =~= t);
        }
        k += 1;
    }
    assert(submatrix(m, rows@, cols@).take(k as int) =~= submatrix(m, rows@, cols@));
    sub
}

/// The positions `0..n`.
fn range_upto(n: usize) -> (r: Vec<usize>)
    ensures
        r@ == upto(n as nat),
{
    let mut r: Vec<usize> = Vec::new();
    let mut i: usize = 0;
    while i < n
        invariant
            i <= n,
            r@ == upto(i as nat),
        decreases n - i,
    {
        r.push(i);
        i += 1;
        assert(r@ =~= upto(i as nat));
    }
    r
}

/// The plain values of lists of names.
pub open spec fn lists(v: Seq<Vec<usize>>) -> Seq<Seq<usize>> {
    v.map_values(|x: Vec<usize>| x@)
}

/// Moves the lists of `source` to the end of `dest`, last to first.
pub fn push_to(dest: &mut Vec<Vec<usize>>, source: Vec<Vec<usize>>)
    ensures
        lists(final(dest)@) == lists(old(dest)@) + lists(source@).reverse(),
{
    let ghost d0 = dest@;
    let ghost s0 = source@;
    let mut array = source;
    while array.len() > 0
        invariant
            array@ == s0.take(array@.len() as int),
            array@.len() <= s0.len(),
            lists(dest@) == lists(d0) + lists(s0).reverse().take(s0.len() - array@.len()),
        decreases array@.len(),
    {
        let ghost before = dest@;
        let ghost n = array@.len();
        if let Some(res) = array.pop() {
            dest.push(res);
            proof {
                assert(array@ =~= s0.take(array@.len() as int));
                let t = lists(d0) + lists(s0).reverse().take(s0.len() - array@.len());
                assert(res == s0[n - 1]);
                assert(lists(before).len() == before.len());
                assert(lists(s0).reverse().len() == s0.len());
                assert(lists(dest@).len() == dest@.len());
                assert(before.len() == d0.len() + s0.len() - n);
                assert(t.len() == dest@.len());
                assert(lists(s0).reverse()[s0.len() - n] == lists(s0)[n - 1]);
                assert forall|x: int| 0 <= x < dest@.len() implies lists(dest@)[x] == t[x] by {
                    if x < before.len() {
                        assert(dest@[x] == before[x]);
                        assert(lists(before)[x] == (lists(d0) + lists(s0).reverse().take(s0.len() - n))[x]);
                    } else {
                        assert(dest@[x] == res);
                    }
                }
                assert(lists(dest@) =~= t);
            }
        }
    }
    assert(lists(s0).reverse().take(s0.len() as int) =~= lists(s0).reverse());
}

proof fn lemma_rows_without(m: Seq<RowView>, cols: Seq<usize>, n: int, r: int)
    requires
        0 <= n <= m.len(),
        m.len() <= usize::MAX,
    ensures
        rows_without(m, cols, n).len() <= n,
        forall|k: int| 0 <= k < rows_without(m, cols, n).len() ==> #[trigger] rows_without(m, cols, n)[k] < n,
        0 <= r < n && !misses(m[r].1, cols) ==> rows_without(m, cols, n).len() < n,
        forall|k: int| 0 <= k < rows_without(m, cols, n).len() ==> misses(m[#[trigger] rows_without(m, cols, n)[k] as int].1, cols),
        forall|a: int, b: int|
            0 <= a < b < rows_without(m, cols, n).len() ==> #[trigger] rows_without(m, cols, n)[a] < #[trigger] rows_without(m, cols, n)[b],
    decreases n,
{
    if n > 0 {
        lemma_rows_without(m, cols, n - 1, r);
        let rest = rows_without(m, cols, n - 1);
        let all = rows_without(m, cols, n);
        assert forall|k: int| 0 <= k < all.len() implies #[trigger] all[k] < n && misses(m[all[k] as int].1, cols) by {
            if k < rest.len() {
                assert(all[k] == rest[k]);
            }
        }
        assert forall|a: int, b: int| 0 <= a < b < all.len() implies #[trigger] all[a] < #[trigger] all[b] by {
            assert(all[a] == rest[a]);
            if b < rest.len() {
                assert(all[b] == rest[b]);
            }
        }
    }
}

proof fn lemma_diff_bound(a1: Seq<usize>, a2: Seq<usize>, i: int, j: int)
    requires
        0 <= i,
        a1.len() <= usize::MAX,
    ensures
        forall|k: int| 0 <= k < diff_from(a1, a2, i, j).len() ==> i <= #[trigger] diff_from(a1, a2, i, j)[k] < a1.len(),
        i <= a1.len() ==> diff_from(a1, a2, i, j).len() <= a1.len() - i,
    decreases a1.len() - i,
{
    if !(i < 0 || i >= a1.len() || j < 0 || j >= a2.len()) {
        if a1[i] == a2[j] {
            lemma_diff_bound(a1, a2, i + 1, j + 1);
            assert(diff_from(a1, a2, i, j) == diff_from(a1, a2, i + 1, j + 1));
        } else {
            lemma_diff_bound(a1, a2, i + 1, j);
            let d = diff_from(a1, a2, i, j);
            let rest = diff_from(a1, a2, i + 1, j);
            assert(d == seq![i as usize] + rest);
            assert(d[0] == i as usize);
            assert forall|k: int| 0 <= k < d.len() implies i <= #[trigger] d[k] < a1.len() by {
                if k > 0 {
                    assert(d[k] == rest[k - 1]);
                }
            }
        }
    }
}

proof fn lemma_searchable_at(m: Seq<RowView>, cands: Seq<usize>, k: int)
    requires
        searchable_each(m, cands),
        0 <= k < cands.len(),
    ensures
        branch(m, cands[k] as int).len() < m.len() ==> searchable(branch(m, cands[k] as int)),
    decreases cands.len(),
{
    if k < cands.len() - 1 {
        assert(cands.drop_last()[k] == cands[k]);
        lemma_searchable_at(m, cands.drop_last(), k);
    }
}

/// The solutions of the matrix, each with `row_name` added.
fn gen_row_subresults(matrix: &Vec<Row>, row_name: usize) -> (r: Vec<Vec<usize>>)
    requires
        uniform(mview(matrix@)),
        searchable(mview(matrix@)),
    ensures
        lists(r@) == solutions_of(mview(matrix@)).map_values(|s: Seq<usize>| s.push(row_name)),
    decreases matrix@.len(), 1int,
{
    let subresults = row_solutions(matrix);
    let ghost sv = lists(subresults@);
    let mut out: Vec<Vec<usize>> = Vec::new();
    let mut i: usize = 0;
    while i < subresults.len()
        invariant
            i <= subresults@.len(),
            sv == lists(subresults@),
            lists(out@) == sv.take(i as int).map_values(|s: Seq<usize>| s.push(row_name)),
        decreases subresults@.len() - i,
    {
        let mut result = subresults[i].clone();
        result.push(row_name);
        let ghost before = out@;
        out.push(result);
        proof {
            let t = sv.take(i + 1).map_values(|s: Seq<usize>| s.push(row_name));
            assert(lists(before).len() == before.len());
            assert forall|x: int| 0 <= x < i + 1 implies lists(out@)[x] == t[x] by {
                if x < i {
                    assert(out@[x] == before[x]);
                    assert(lists(before)[x] == sv.take(i as int).map_values(|s: Seq<usize>| s.push(row_name))[x]);
                } else {
                    assert(sv[x] == subresults@[x]@);
                }
            }
            assert(lists(out@) =~= t);
        }
        i += 1;
    }
    assert(sv.take(i as int) =~= sv);
    out
}

/// Every solution of the matrix, each the names of its rows: see
/// `solutions_of`.
pub fn row_solutions(matrix: &Vec<Row>) -> (r: Vec<Vec<usize>>)
    requires
        uniform(mview(matrix@)),
        searchable(mview(matrix@)),
    ensures
        lists(r@) == solutions_of(mview(matrix@)),
    decreases matrix@.len(), 0int,
{
    let ghost m = mview(matrix@);
    if matrix.len() == 0 {
        assert(lists(Seq::<Vec<usize>>::empty()) =~= solutions_of(m));
        return Vec::new();
    }
    if matrix.len() == 1 {
        let row = &matrix[0];
        let mut all = true;
        let mut k: usize = 0;
        while k < row.array.len()
            invariant
                k <= row.array@.len(),
                m.len() == 1,
                row.array@ == m[0].1,
                all <==> forall|p: int| 0 <= p < k ==> m[0].1[p],
            decreases row.array@.len() - k,
        {
            if !row.array[k] {
                all = false;
            }
            k += 1;
        }
        if all {
            let mut one: Vec<usize> = Vec::new();
            one.push(row.name);
            let mut r: Vec<Vec<usize>> = Vec::new();
            r.push(one);
            assert(lists(r@) =~= solutions_of(m));
            return r;
        } else {
            assert(lists(Seq::<Vec<usize>>::empty()) =~= solutions_of(m));
            return Vec::new();
        }
    }
    let mut solutions: Vec<Vec<usize>> = Vec::new();
    let columns = gencolumns(matrix);
    assert(columns@.map_values(|c: Vec<bool>| c@).len() == columns@.len());
    let best_col = least_trues_index(&columns);
    let select_rows = true_indices(columns[best_col].as_slice());
    let ghost w = m[0].1.len();
    let ghost cands = candidates(m);
    proof {
        assert(columns@[best_col as int]@ == columns_of(m)[best_col as int]);
        assert(select_rows@ == cands);
        lemma_elements_of(column(m, best_col as int));
        assert(columns_of(m)[best_col as int] == column(m, best_col as int));
        assert(lists(solutions@) =~= solutions_each(m, cands.take(0)));
    }
    let mut k: usize = 0;
    while k < select_rows.len()
        invariant
            k <= select_rows@.len(),
            m == mview(matrix@),
            matrix@.len() >= 2,
            uniform(m),
            searchable(m),
            w == m[0].1.len(),
            best_col < w,
            select_rows@ == cands,
            cands == candidates(m),
            cands == elements_of(column(m, best_col as int)),
            forall|x: int| 0 <= x < cands.len() ==> member(column(m, best_col as int), #[trigger] cands[x] as int),
            lists(solutions@) == solutions_each(m, cands.take(k as int)),
        decreases select_rows@.len() - k,
    {
        let selected_row = select_rows[k];
        let ghost r = selected_row as int;
        assert(member(column(m, best_col as int), cands[k as int] as int));
        let row = &matrix[selected_row].array;
        let cols_range = range_upto(row.len());
        let remove_cols = true_indices(row.as_slice());
        let remaining_cols = diff(cols_range.as_slice(), remove_cols.as_slice());
        proof {
            assert(m[r].1 == row@);
            assert(m[r].1.len() == w);
            lemma_elements_of(row@);
            assert forall|i: int, x: int| 0 <= i < matrix@.len() && 0 <= x < remove_cols@.len() implies #[trigger] remove_cols@[x]
                < (#[trigger] matrix@[i]).array@.len() by {
                assert(member(row@, remove_cols@[x] as int));
                assert(m[i].1.len() == w);
                assert(m[i].1 == matrix@[i].array@);
            }
        }
        let remaining_rows = covered_rows(matrix, remove_cols.as_slice());
        proof {
            lemma_diff_bound(upto(w), remove_cols@, 0, 0);
            assert(m[r].1[best_col as int]);
            assert(remove_cols@.contains(best_col));
            let xb = choose|x: int| 0 <= x < remove_cols@.len() && remove_cols@[x] == best_col;
            assert(!misses(m[r].1, remove_cols@)) by {
                assert(m[r].1[remove_cols@[xb] as int]);
            }
            assert(m.len() == matrix@.len() && matrix@.len() == matrix.len());
            lemma_rows_without(m, remove_cols@, m.len() as int, r);
            assert forall|i: int, c: int| 0 <= i < matrix@.len() && 0 <= c < remaining_cols@.len() implies #[trigger] remaining_cols@[c]
                < (#[trigger] matrix@[i]).array@.len() by {
                assert(m[i].1.len() == w);
                assert(m[i].1 == matrix@[i].array@);
            }
        }
        let submatrix = gensubmatrix(matrix, remaining_rows.as_slice(), remaining_cols.as_slice());
        let ghost b = branch(m, r);
        proof {
            assert(cols_after(m, r) == remaining_cols@);
            assert(mview(submatrix@) == b);
            assert(b.len() < m.len());
            assert forall|i: int| 0 <= i < b.len() implies (#[trigger] b[i]).1.len() == b[0].1.len() by {}
            lemma_searchable_at(m, cands, k as int);
        }
        let selected_row_name = matrix[selected_row].name;
        let subresults = gen_row_subresults(&submatrix, selected_row_name);
        let ghost before = solutions@;
        push_to(&mut solutions, subresults);
        proof {
            let ck = cands.take(k + 1);
            assert(ck.drop_last() =~= cands.take(k as int));
            assert(ck.last() == selected_row);
            assert(selected_row_name == m[r].0);
        }
        k += 1;
    }
    proof {
        assert(cands.take(k as int) =~= cands);
    }
    solutions
}

/// Some row of the matrix is named `x`.
pub open spec fn names_in(m: Seq<RowView>, x: usize) -> bool {
    exists|i: int| 0 <= i < m.len() && (#[trigger] m[i]).0 == x
}

/// Every name in the solutions is the name of a row of the matrix.
pub open spec fn named_from(m: Seq<RowView>, sols: Seq<Seq<usize>>) -> bool {
    forall|c: int, k: int| 0 <= c < sols.len() && 0 <= k < sols[c].len() ==> names_in(m, #[trigger] sols[c][k])
}

proof fn lemma_least_index(cs: Seq<Seq<bool>>, n: int)
    requires
        1 <= n,
    ensures
        0 <= least_index(cs, n) < n,
    decreases n,
{
    if n > 1 {
        lemma_least_index(cs, n - 1);
    }
}

proof fn lemma_names(m: Seq<RowView>)
    requires
        m.len() <= usize::MAX,
        searchable(m),
    ensures
        named_from(m, solutions_of(m)),
    decreases m.len(), 1int, 0int,
{
    if m.len() == 1 {
        let s = solutions_of(m);
        assert forall|c: int, k: int| 0 <= c < s.len() && 0 <= k < s[c].len() implies names_in(m, #[trigger] s[c][k]) by {
            assert(s[c][k] == m[0].0);
        }
    } else if m.len() > 1 {
        lemma_least_index(columns_of(m), m[0].1.len() as int);
        let col = columns_of(m)[least_index(columns_of(m), m[0].1.len() as int)];
        assert(col.len() == m.len());
        lemma_elements_of_bound(col);
        lemma_names_each(m, candidates(m));
    }
}

proof fn lemma_elements_of_bound(arr: Seq<bool>)
    ensures
        forall|k: int| 0 <= k < elements_of(arr).len() ==> #[trigger] elements_of(arr)[k] < arr.len(),
    decreases arr.len(),
{
    if arr.len() > 0 {
        lemma_elements_of_bound(arr.drop_last());
        let rest = elements_of(arr.drop_last());
        assert forall|k: int| 0 <= k < elements_of(arr).len() implies #[trigger] elements_of(arr)[k] < arr.len() by {
            if k < rest.len() {
                assert(elements_of(arr)[k] == rest[k]);
            }
        }
    }
}

proof fn lemma_names_each(m: Seq<RowView>, cands: Seq<usize>)
    requires
        m.len() <= usize::MAX,
        searchable_each(m, cands),
        forall|x: int| 0 <= x < cands.len() ==> #[trigger] cands[x] < m.len(),
    ensures
        named_from(m, solutions_each(m, cands)),
    decreases m.len(), 0int, cands.len(),
{
    if cands.len() > 0 {
        let c0 = cands.drop_last();
        assert forall|x: int| 0 <= x < c0.len() implies #[trigger] c0[x] < m.len() by {
            assert(c0[x] == cands[x]);
        }
        lemma_names_each(m, c0);
        let r = cands.last() as int;
        assert(cands[cands.len() - 1] < m.len());
        let b = branch(m, r);
        let rows = rows_without(m, elements_of(m[r].1), m.len() as int);
        lemma_rows_without(m, elements_of(m[r].1), m.len() as int, 0);
        let subs = if b.len() < m.len() { solutions_of(b) } else { Seq::empty() };
        if b.len() < m.len() {
            lemma_names(b);
        }
        let mapped = subs.map_values(|s: Seq<usize>| s.push(m[r].0));
        let tail = mapped.reverse();
        let f0 = solutions_each(m, c0);
        let all = solutions_each(m, cands);
        assert(all == f0 + tail);
        assert forall|c: int, k: int| 0 <= c < all.len() && 0 <= k < all[c].len() implies names_in(m, #[trigger] all[c][k]) by {
            if c < f0.len() {
                assert(all[c] == f0[c]);
            } else {
                let q = mapped.len() - 1 - (c - f0.len());
                assert(all[c] == tail[c - f0.len()]);
                assert(tail[c - f0.len()] == mapped[q]);
                assert(mapped[q] == subs[q].push(m[r].0));
                if k < subs[q].len() {
                    assert(all[c][k] == subs[q][k]);
                    assert(names_in(b, subs[q][k]));
                    let i = choose|i: int| 0 <= i < b.len() && (#[trigger] b[i]).0 == subs[q][k];
                    assert(b[i].0 == m[rows[i] as int].0);
                    assert(rows[i] < m.len());
                    assert(m[rows[i] as int].0 == all[c][k]);
                } else {
                    assert(all[c][k] == m[r].0);
                }
            }
        }
    }
}

// ---------------------------------------------------------------------
// What every reported solution satisfies
// ---------------------------------------------------------------------

/// No two rows of the matrix share a name.
pub open spec fn distinct_names(m: Seq<RowView>) -> bool {
    forall|i: int, j: int| 0 <= i < m.len() && 0 <= j < m.len() && i != j ==> (#[trigger] m[i]).0 != (#[trigger] m[j]).0
}

/// The column the search branches on: the first with the fewest `true`s.
pub open spec fn branch_column(m: Seq<RowView>) -> int {
    least_index(columns_of(m), m[0].1.len() as int)
}

/// `s` is a solution of what is left after choosing one of `cands`, with
/// the chosen row's name added.
pub open spec fn from_branch(m: Seq<RowView>, cands: Seq<usize>, s: Seq<usize>) -> bool {
    exists|x: int, sub: Seq<usize>|
        0 <= x < cands.len() && branch(m, cands[x] as int).len() < m.len() && #[trigger] solutions_of(
            branch(m, cands[x] as int),
        ).contains(sub) && s == sub.push(m[cands[x] as int].0)
}

proof fn lemma_each_shape(m: Seq<RowView>, cands: Seq<usize>)
    ensures
        forall|c: int| 0 <= c < solutions_each(m, cands).len() ==> #[trigger] from_branch(m, cands, solutions_each(m, cands)[c]),
    decreases cands.len(),
{
    if cands.len() > 0 {
        let c0 = cands.drop_last();
        lemma_each_shape(m, c0);
        let r = cands.last() as int;
        let b = branch(m, r);
        let subs = if b.len() < m.len() { solutions_of(b) } else { Seq::empty() };
        let mapped = subs.map_values(|t: Seq<usize>| t.push(m[r].0));
        let tail = mapped.reverse();
        let f0 = solutions_each(m, c0);
        let all = solutions_each(m, cands);
        assert(all == f0 + tail);
        assert forall|c: int| 0 <= c < all.len() implies #[trigger] from_branch(m, cands, all[c]) by {
            if c < f0.len() {
                assert(all[c] == f0[c]);
                assert(from_branch(m, c0, f0[c]));
                let (x, sub) = choose|x: int, sub: Seq<usize>|
                    0 <= x < c0.len() && branch(m, c0[x] as int).len() < m.len() && #[trigger] solutions_of(
                        branch(m, c0[x] as int),
                    ).contains(sub) && f0[c] == sub.push(m[c0[x] as int].0);
                assert(c0[x] == cands[x]);
                assert(solutions_of(branch(m, cands[x] as int)).contains(sub));
            } else {
                let q = mapped.len() - 1 - (c - f0.len());
                assert(all[c] == tail[c - f0.len()]);
                assert(tail[c - f0.len()] == mapped[q]);
                assert(b.len() < m.len());
                assert(mapped[q] == subs[q].push(m[r].0));
                let x = cands.len() - 1;
                assert(cands[x] as int == r);
                assert(solutions_of(b).contains(subs[q]));
            }
        }
    }
}

/// What every solution the search reports satisfies, for a matrix whose
/// rows share one width and have distinct names: no row is chosen twice;
/// with one row, a solution is reported only when the row is all `true`;
/// with two rows or more, the row chosen first (listed last) holds the
/// column the search branches on, and no other row of the solution shares
/// a `true` with it.
pub proof fn lemma_solution_laws(m: Seq<RowView>)
    requires
        m.len() <= usize::MAX,
        m.len() > 0 ==> m[0].1.len() <= usize::MAX,
        uniform(m),
        searchable(m),
        distinct_names(m),
    ensures
        forall|c: int, k1: int, k2: int|
            0 <= c < solutions_of(m).len() && 0 <= k1 < k2 < solutions_of(m)[c].len() ==> #[trigger] solutions_of(m)[c][k1]
                != #[trigger] solutions_of(m)[c][k2],
        m.len() == 1 ==> (solutions_of(m).len() > 0 <==> forall|p: int| 0 <= p < m[0].1.len() ==> m[0].1[p]),
        m.len() == 1 ==> solutions_of(m).len() <= 1,
        m.len() == 1 && solutions_of(m).len() > 0 ==> solutions_of(m)[0] == seq![m[0].0],
        m.len() >= 2 ==> forall|c: int|
            0 <= c < solutions_of(m).len() ==> (#[trigger] solutions_of(m)[c]).len() >= 1 && forall|i: int|
                0 <= i < m.len() && m[i].0 == solutions_of(m)[c].last() ==> {
                    &&& m[i].1[branch_column(m)]
                    &&& forall|k: int, i2: int, p: int|
                        #![trigger solutions_of(m)[c][k], m[i2].1[p]]
                        0 <= k < solutions_of(m)[c].len() - 1 && 0 <= i2 < m.len() && m[i2].0 == solutions_of(m)[c][k] && 0 <= p
                            < m[i].1.len() && m[i].1[p] ==> !m[i2].1[p]
                },
    decreases m.len(),
{
    let sols = solutions_of(m);
    if m.len() >= 2 {
        let w = m[0].1.len();
        let cands = candidates(m);
        let j0 = branch_column(m);
        lemma_least_index(columns_of(m), w as int);
        let col = columns_of(m)[j0];
        assert(col == column(m, j0));
        lemma_elements_of(col);
        lemma_elements_of_bound(col);
        lemma_each_shape(m, cands);
        assert(sols == solutions_each(m, cands));
        assert forall|c: int| 0 <= c < sols.len() implies {
            &&& forall|k1: int, k2: int| 0 <= k1 < k2 < sols[c].len() ==> #[trigger] sols[c][k1] != #[trigger] sols[c][k2]
            &&& (#[trigger] sols[c]).len() >= 1
            &&& forall|i: int|
                0 <= i < m.len() && m[i].0 == sols[c].last() ==> {
                    &&& m[i].1[j0]
                    &&& forall|k: int, i2: int, p: int|
                        #![trigger sols[c][k], m[i2].1[p]]
                        0 <= k < sols[c].len() - 1 && 0 <= i2 < m.len() && m[i2].0 == sols[c][k] && 0 <= p < m[i].1.len()
                            && m[i].1[p] ==> !m[i2].1[p]
                }
        } by {
            assert(from_branch(m, cands, sols[c]));
            let (x, sub) = choose|x: int, sub: Seq<usize>|
                0 <= x < cands.len() && branch(m, cands[x] as int).len() < m.len() && #[trigger] solutions_of(
                    branch(m, cands[x] as int),
                ).contains(sub) && sols[c] == sub.push(m[cands[x] as int].0);
            let r = cands[x] as int;
            let b = branch(m, r);
            let er = elements_of(m[r].1);
            let rows = rows_without(m, er, m.len() as int);
            assert(member(col, cands[x] as int));
            assert(m[r].1[j0]);
            assert(m[r].1.len() == w);
            lemma_elements_of(m[r].1);
            assert(er.contains(j0 as usize));
            lemma_rows_without(m, er, m.len() as int, 0);
            lemma_searchable_at(m, cands, x);
            lemma_diff_bound(upto(w), er, 0, 0);
            assert(cols_after(m, r).len() <= w);
            assert(uniform(b)) by {
                assert forall|i: int| 0 <= i < b.len() implies (#[trigger] b[i]).1.len() == b[0].1.len() by {}
            }
            assert(distinct_names(b)) by {
                assert forall|i: int, j: int| 0 <= i < b.len() && 0 <= j < b.len() && i != j implies (#[trigger] b[i]).0
                    != (#[trigger] b[j]).0 by {
                    if i < j {
                        assert(rows[i] < rows[j]);
                    } else {
                        assert(rows[j] < rows[i]);
                    }
                }
            }
            lemma_names(b);
            lemma_solution_laws(b);
            let t = choose|t: int| 0 <= t < solutions_of(b).len() && solutions_of(b)[t] == sub;
            // every chosen row of `sub` is a row that misses `r`'s `true`s
            assert forall|k: int| 0 <= k < sub.len() implies exists|q: int|
                0 <= q < m.len() && q != r && m[q].0 == #[trigger] sub[k] && misses(m[q].1, er) by {
                assert(names_in(b, solutions_of(b)[t][k]));
                let i = choose|i: int| 0 <= i < b.len() && (#[trigger] b[i]).0 == sub[k];
                let q = rows[i] as int;
                assert(b[i].0 == m[q].0);
                assert(misses(m[q].1, er));
                let kk = choose|kk: int| 0 <= kk < er.len() && er[kk] == j0 as usize;
                assert(!m[q].1[er[kk] as int]);
                assert(q != r);
            }
            let s = sols[c];
            assert(s.last() == m[r].0);
            assert forall|k1: int, k2: int| 0 <= k1 < k2 < s.len() implies #[trigger] s[k1] != #[trigger] s[k2] by {
                assert(s[k1] == sub[k1]);
                if k2 < sub.len() {
                    assert(s[k2] == sub[k2]);
                    assert(solutions_of(b)[t][k1] != solutions_of(b)[t][k2]);
                } else {
                    assert(s[k2] == m[r].0);
                    let q = choose|q: int| 0 <= q < m.len() && q != r && m[q].0 == #[trigger] sub[k1] && misses(m[q].1, er);
                }
            }
            assert forall|i: int| 0 <= i < m.len() && m[i].0 == s.last() implies {
                &&& m[i].1[j0]
                &&& forall|k: int, i2: int, p: int|
                    #![trigger s[k], m[i2].1[p]]
                    0 <= k < s.len() - 1 && 0 <= i2 < m.len() && m[i2].0 == s[k] && 0 <= p < m[i].1.len() && m[i].1[p]
                        ==> !m[i2].1[p]
            } by {
                assert(i == r);
                assert forall|k: int, i2: int, p: int|
                    #![trigger s[k], m[i2].1[p]]
                    0 <= k < s.len() - 1 && 0 <= i2 < m.len() && m[i2].0 == s[k] && 0 <= p < m[i].1.len() && m[i].1[p]
                        implies !m[i2].1[p] by {
                    assert(s[k] == sub[k]);
                    let q = choose|q: int| 0 <= q < m.len() && q != r && m[q].0 == #[trigger] sub[k] && misses(m[q].1, er);
                    assert(i2 == q);
                    assert(er.contains(p as usize));
                    let kk = choose|kk: int| 0 <= kk < er.len() && er[kk] == p as usize;
                    assert(!m[q].1[er[kk] as int]);
                }
            }
        }
    }
}

/// The elements at the `true`s of `row`, in order.
pub open spec fn picked_elements<'a>(elements: Seq<&'a str>, row: Seq<bool>) -> Seq<&'a str>
    decreases row.len(),
{
    if row.len() == 0 {
        Seq::empty()
    } else {
        let rest = picked_elements(elements, row.drop_last());
        if row.last() { rest.push(elements[row.len() - 1]) } else { rest }
    }
}

/// The elements of the row at `selected_row`.
fn column_set<'a>(matrix: &Vec<Row>, elements: &Vec<&'a str>, selected_row: usize) -> (r: Vec<&'a str>)
    requires
        selected_row < matrix@.len(),
        matrix@[selected_row as int].array@.len() <= elements@.len(),
    ensures
        r@ == picked_elements(elements@, matrix@[selected_row as int].array@),
{
    let row = &matrix[selected_row].array;
    let mut columns: Vec<&'a str> = Vec::new();
    let mut i: usize = 0;
    while i < row.len()
        invariant
            i <= row@.len(),
            row@.len() <= elements@.len(),
            columns@ == picked_elements(elements@, row@.take(i as int)),
        decreases row@.len() - i,
    {
        assert(row@.take(i + 1).drop_last() == row@.take(i as int));
        if row[i] {
            columns.push(elements[i]);
        }
        i += 1;
    }
    assert(row@.take(i as int) == row@);
    columns
}

/// For each solution, the elements of each of its rows.
fn set_solutions<'a>(matrix: &Vec<Row>, elements: &Vec<&'a str>, row_sets: &Vec<Vec<usize>>) -> (r: Vec<Vec<Vec<&'a str>>>)
    requires
        forall|c: int, k: int| 0 <= c < row_sets@.len() && 0 <= k < row_sets@[c]@.len() ==> #[trigger] row_sets@[c]@[k] < matrix@.len(),
        forall|i: int| 0 <= i < matrix@.len() ==> (#[trigger] matrix@[i]).array@.len() <= elements@.len(),
    ensures
        r@.len() == row_sets@.len(),
        forall|c: int| 0 <= c < r@.len() ==> (#[trigger] r@[c])@.len() == row_sets@[c]@.len(),
        forall|c: int, k: int| 0 <= c < r@.len() && 0 <= k < r@[c]@.len() ==> (#[trigger] r@[c]@[k])@ == picked_elements(
            elements@,
            matrix@[row_sets@[c]@[k] as int].array@,
        ),
{
    let mut solutions: Vec<Vec<Vec<&'a str>>> = Vec::new();
    let mut c: usize = 0;
    while c < row_sets.len()
        invariant
            c <= row_sets@.len(),
            forall|c: int, k: int| 0 <= c < row_sets@.len() && 0 <= k < row_sets@[c]@.len() ==> #[trigger] row_sets@[c]@[k] < matrix@.len(),
            forall|i: int| 0 <= i < matrix@.len() ==> (#[trigger] matrix@[i]).array@.len() <= elements@.len(),
            solutions@.len() == c,
            forall|a: int| 0 <= a < c ==> (#[trigger] solutions@[a])@.len() == row_sets@[a]@.len(),
            forall|a: int, k: int| 0 <= a < c && 0 <= k < solutions@[a]@.len() ==> (#[trigger] solutions@[a]@[k])@ == picked_elements(
                elements@,
                matrix@[row_sets@[a]@[k] as int].array@,
            ),
        decreases row_sets@.len() - c,
    {
        let row_set = &row_sets[c];
        let mut solution: Vec<Vec<&'a str>> = Vec::new();
        let mut k: usize = 0;
        while k < row_set.len()
            invariant
                k <= row_set@.len(),
                c < row_sets@.len(),
                row_set@ == row_sets@[c as int]@,
                forall|c: int, k: int| 0 <= c < row_sets@.len() && 0 <= k < row_sets@[c]@.len() ==> #[trigger] row_sets@[c]@[k] < matrix@.len(),
                forall|i: int| 0 <= i < matrix@.len() ==> (#[trigger] matrix@[i]).array@.len() <= elements@.len(),
                solution@.len() == k,
                forall|x: int| 0 <= x < k ==> (#[trigger] solution@[x])@ == picked_elements(elements@, matrix@[row_set@[x] as int].array@),
            decreases row_set@.len() - k,
        {
            let row = row_set[k];
            assert(row_sets@[c as int]@[k as int] < matrix@.len());
            solution.push(column_set(matrix, elements, row));
            k += 1;
        }
        solutions.push(solution);
        c += 1;
    }
    solutions
}

/// The rows the search starts from: each set, named by its position, cut
/// or padded to `n` entries.
pub open spec fn input_matrix(n: nat, sets: Seq<Vec<bool>>) -> Seq<RowView> {
    Seq::new(sets.len(), |i: int| (i as usize, fitted(sets[i]@, n)))
}

/// The element the search branches on first: the first of those in the
/// fewest sets.
pub open spec fn fewest_element(n: nat, sets: Seq<Vec<bool>>) -> int {
    branch_column(input_matrix(n, sets))
}

/// The exact covers the search finds of `elements` by `sets`: each set is
/// cut or padded to one entry per element, and each solution lists, for
/// each of its rows, the elements at the row's `true`s.  The search
/// branches on the first column with the fewest `true`s, and keeps only
/// the columns before the last one the chosen row covers (see
/// `solutions_of`); it is not run on inputs where it meets two rows or
/// more and no column.
pub fn exact_cover<'a>(elements: Vec<&'a str>, sets: Vec<Vec<bool>>) -> (r: Vec<Vec<Vec<&'a str>>>)
    requires
        searchable(input_matrix(elements@.len() as nat, sets@)),
    ensures
        r@.len() == solutions_of(input_matrix(elements@.len() as nat, sets@)).len(),
        forall|c: int|
            0 <= c < r@.len() ==> (#[trigger] r@[c])@.len() == solutions_of(input_matrix(elements@.len() as nat, sets@))[c].len(),
        forall|c: int, k: int|
            0 <= c < r@.len() && 0 <= k < r@[c]@.len() ==> {
                let row = solutions_of(input_matrix(elements@.len() as nat, sets@))[c][k] as int;
                &&& row < sets@.len()
                &&& (#[trigger] r@[c]@[k])@ == picked_elements(elements@, fitted(sets@[row]@, elements@.len() as nat))
            },
        sets@.len() == 0 ==> r@.len() == 0,
        sets@.len() == 1 ==> r@.len() <= 1,
        sets@.len() == 1 ==> (r@.len() == 1 <==> forall|p: int|
            0 <= p < elements@.len() ==> #[trigger] fitted(sets@[0]@, elements@.len() as nat)[p]),
        sets@.len() == 1 && r@.len() == 1 ==> r@[0]@.len() == 1 && r@[0]@[0]@ == picked_elements(
            elements@,
            fitted(sets@[0]@, elements@.len() as nat),
        ),
        forall|c: int, k1: int, k2: int|
            0 <= c < r@.len() && 0 <= k1 < k2 < r@[c]@.len() ==> #[trigger] solutions_of(
                input_matrix(elements@.len() as nat, sets@),
            )[c][k1] != #[trigger] solutions_of(input_matrix(elements@.len() as nat, sets@))[c][k2],
        sets@.len() >= 2 ==> forall|c: int|
            0 <= c < r@.len() ==> (#[trigger] r@[c])@.len() >= 1 && {
                let sol = solutions_of(input_matrix(elements@.len() as nat, sets@))[c];
                let first = sets@[sol.last() as int]@;
                let n = elements@.len() as nat;
                &&& fitted(first, n)[fewest_element(n, sets@)]
                &&& forall|k: int, p: int|
                    0 <= k < sol.len() - 1 && 0 <= p < n && #[trigger] fitted(first, n)[p] ==> !#[trigger] fitted(
                        sets@[sol[k] as int]@,
                        n,
                    )[p]
            },
{
    let ghost m = input_matrix(elements@.len() as nat, sets@);
    let mut rows: Vec<Row> = Vec::new();
    let mut i: usize = 0;
    while i < sets.len()
        invariant
            i <= sets@.len(),
            m == input_matrix(elements@.len() as nat, sets@),
            mview(rows@) == m.take(i as int),
        decreases sets@.len() - i,
    {
        let set = sets[i].clone();
        assert(set@ =~= sets@[i as int]@);
        let row = make_row(elements.len(), i, set);
        let ghost before = rows@;
        rows.push(row);
        proof {
            assert(mview(before).len() == before.len());
            assert forall|x: int| 0 <= x < i + 1 implies mview(rows@)[x] == m.take(i + 1)[x] by {
                if x < i {
                    assert(rows@[x] == before[x]);
                    assert(mview(before)[x] == m.take(i as int)[x]);
                }
            }
            assert(mview(rows@) =~= m.take(i + 1));
        }
        i += 1;
    }
    assert(m.take(i as int) =~= m);
    assert(mview(rows@) == m);
    proof {
        assert forall|x: int| 0 <= x < m.len() implies (#[trigger] m[x]).1.len() == m[0].1.len() by {}
        assert(m.len() == sets@.len() && sets@.len() == sets.len());
        lemma_names(m);
    }
    let row_sets = row_solutions(&rows);
    let ghost sols = solutions_of(m);
    proof {
        assert(lists(row_sets@) == sols);
        assert(lists(row_sets@).len() == row_sets@.len());
        assert forall|c: int, k: int| 0 <= c < row_sets@.len() && 0 <= k < row_sets@[c]@.len() implies #[trigger] row_sets@[c]@[k]
            < rows@.len() by {
            assert(lists(row_sets@)[c] == row_sets@[c]@);
            assert(names_in(m, sols[c][k]));
            let x = choose|x: int| 0 <= x < m.len() && (#[trigger] m[x]).0 == sols[c][k];
            assert(m[x].0 == x as usize);
        }
        assert forall|x: int| 0 <= x < rows@.len() implies (#[trigger] rows@[x]).array@.len() <= elements@.len() by {
            assert(mview(rows@)[x] == m[x]);
        }
    }
    let r = set_solutions(&rows, &elements, &row_sets);
    proof {
        let n = elements@.len() as nat;
        assert(distinct_names(m)) by {
            assert forall|i: int, j: int| 0 <= i < m.len() && 0 <= j < m.len() && i != j implies (#[trigger] m[i]).0 != (
            #[trigger] m[j]).0 by {
                assert(m[i].0 == i as usize && m[j].0 == j as usize);
            }
        }
        assert(m.len() > 0 ==> m[0].1.len() == n);
        assert(elements@.len() == elements.len());
        lemma_solution_laws(m);
        if sets@.len() >= 2 {
            assert forall|c: int| 0 <= c < r@.len() implies (#[trigger] r@[c])@.len() >= 1 && {
                let sol = sols[c];
                let first = sets@[sol.last() as int]@;
                &&& fitted(first, n)[fewest_element(n, sets@)]
                &&& forall|k: int, p: int|
                    0 <= k < sol.len() - 1 && 0 <= p < n && #[trigger] fitted(first, n)[p] ==> !#[trigger] fitted(
                        sets@[sol[k] as int]@,
                        n,
                    )[p]
            } by {
                assert(lists(row_sets@)[c] == row_sets@[c]@);
                let sol = sols[c];
                assert(sol.len() >= 1);
                let li = sol.last() as int;
                assert(names_in(m, sol[sol.len() - 1]));
                assert(li < m.len());
                assert(m[li].0 == sol.last());
                assert(m[li].1 == fitted(sets@[li]@, n));
                assert forall|k: int, p: int|
                    0 <= k < sol.len() - 1 && 0 <= p < n && #[trigger] fitted(sets@[li]@, n)[p] implies !#[trigger] fitted(
                        sets@[sol[k] as int]@,
                        n,
                    )[p] by {
                    let i2 = sol[k] as int;
                    assert(names_in(m, sol[k]));
                    assert(i2 < m.len());
                    assert(m[i2].0 == sol[k]);
                    assert(m[i2].1 == fitted(sets@[i2]@, n));
                    assert(m[li].1[p]);
                }
            }
        }
    }
    proof {
        assert forall|c: int| 0 <= c < r@.len() implies (#[trigger] r@[c])@.len() == sols[c].len() by {
            assert(lists(row_sets@)[c] == row_sets@[c]@);
        }
        assert forall|c: int, k: int| 0 <= c < r@.len() && 0 <= k < r@[c]@.len() implies {
            let row = sols[c][k] as int;
            &&& row < sets@.len()
            &&& (#[trigger] r@[c]@[k])@ == picked_elements(elements@, fitted(sets@[row]@, elements@.len() as nat))
        } by {
            assert(lists(row_sets@)[c] == row_sets@[c]@);
            let row = row_sets@[c]@[k] as int;
            assert(row < rows@.len());
            assert(mview(rows@)[row] == m[row]);
        }
    }
    r
}

} // verus!
