//! The view-index engine and the keyed file cache.
//!
//! Given a sort specification and a filter specification, the engine
//! recomputes the ordered subset of row indices that satisfy the filters, in
//! sort order, and memoizes it under a structural signature of the
//! specifications. The cache maps each open file's path to its parsed table
//! and that derived view state.

use vstd::prelude::*;
use crate::numcmp::{cell_cmp, cmp_cells, lemma_cmp_cells_flip};
use crate::parser::{rows_view, ParsedFile};
use crate::TsvError;
use crate::text::{
    all_space, contains_seq, flip, lower_of, parse_usize_spec, str_contains, str_eq, str_is_blank,
    strs, parse_usize, to_lower, Rel,
};

pub use crate::parser::FileMetadata;

verus! {

/// One sort key: a column reference and a direction (`"asc"` or `"desc"`).
#[derive(Debug)]
pub struct SortItem {
    pub col_id: String,
    pub sort: String,
}

/// One column filter: the widget kind it came from, the predicate kind, and
/// the operand text.
#[derive(Debug)]
pub struct FilterItem {
    pub filter_type: String,
    pub filter_op: String,
    pub filter: String,
}

/// One page of rows in view order, with the post-filter total.
#[derive(Debug)]
pub struct RowsResult {
    pub rows: Vec<Vec<String>>,
    pub last_row: usize,
}

// ---------------------------------------------------------------- columns

/// The index of the first header equal to the reference, or `-1`.
pub open spec fn header_index(headers: Seq<Seq<char>>, col_id: Seq<char>) -> int
    decreases headers.len(),
{
    if headers.len() == 0 {
        -1
    } else if headers[0] == col_id {
        0
    } else {
        let r = header_index(headers.skip(1), col_id);
        if r < 0 {
            -1
        } else {
            1 + r
        }
    }
}

/// How a column reference resolves: by header name first, else as a
/// zero-based column position, else not at all.
pub open spec fn resolve_col(headers: Seq<Seq<char>>, col_id: Seq<char>) -> Option<int> {
    if header_index(headers, col_id) >= 0 {
        Some(header_index(headers, col_id))
    } else {
        parse_usize_spec(col_id)
    }
}

/// The cell of a row at a column, or empty text where the row is too short.
pub open spec fn cell_at(row: Seq<Seq<char>>, idx: int) -> Seq<char> {
    if 0 <= idx < row.len() {
        row[idx]
    } else {
        Seq::empty()
    }
}

/// `header_index` finds exactly the first equal header.
proof fn lemma_header_index_at(headers: Seq<Seq<char>>, col_id: Seq<char>, k: int)
    requires
        0 <= k <= headers.len(),
        forall|j: int| 0 <= j < k ==> #[trigger] headers[j] != col_id,
        k < headers.len() ==> headers[k] == col_id,
    ensures
        k < headers.len() ==> header_index(headers, col_id) == k,
        k == headers.len() ==> header_index(headers, col_id) == -1,
    decreases k + 1,
{
    if headers.len() == 0 {
    } else if k == 0 {
    } else {
        assert(headers[0] != col_id);
        let rest = headers.skip(1);
        assert(forall|j: int| 0 <= j < k - 1 ==> rest[j] == headers[j + 1]);
        if k - 1 < rest.len() {
            assert(rest[k - 1] == headers[k]);
        }
        lemma_header_index_at(rest, col_id, k - 1);
    }
}

/// Finds the first header equal to the reference.
fn find_header(headers: &Vec<String>, col_id: &str) -> (r: Option<usize>)
    ensures
        match r {
            Some(i) => header_index(strs(headers@), col_id@) == i,
            None => header_index(strs(headers@), col_id@) == -1,
        },
{
    let mut k: usize = 0;
    while k < headers.len()
        invariant
            0 <= k <= headers@.len(),
            forall|j: int| 0 <= j < k ==> #[trigger] strs(headers@)[j] != col_id@,
        decreases headers@.len() - k,
    {
        if str_eq(headers[k].as_str(), col_id) {
            proof {
                lemma_header_index_at(strs(headers@), col_id@, k as int);
            }
            return Some(k);
        }
        k += 1;
    }
    proof {
        lemma_header_index_at(strs(headers@), col_id@, headers@.len() as int);
    }
    None
}

/// Resolves a column reference against the headers: by name, else as a
/// parsed position.
fn resolve_col_exec(headers: &Vec<String>, col_id: &str) -> (r: Option<usize>)
    ensures
        match resolve_col(strs(headers@), col_id@) {
            Some(i) => r matches Some(v) && v == i,
            None => r is None,
        },
{
    match find_header(headers, col_id) {
        Some(i) => Some(i),
        None => parse_usize(col_id),
    }
}

// ---------------------------------------------------------------- filters

/// The beginning of the text equals the pattern.
pub open spec fn starts_with_seq(s: Seq<char>, p: Seq<char>) -> bool {
    p.len() <= s.len() && s.subrange(0, p.len() as int) == p
}

/// The end of the text equals the pattern.
pub open spec fn ends_with_seq(s: Seq<char>, p: Seq<char>) -> bool {
    p.len() <= s.len() && s.subrange(s.len() - p.len(), s.len() as int) == p
}

/// Whether a cell satisfies one predicate. Text comparisons are
/// case-insensitive; `blank` means empty after trimming whitespace; an
/// unknown predicate kind constrains nothing.
pub open spec fn filter_passes(cell: Seq<char>, op: Seq<char>, operand: Seq<char>) -> bool {
    if op == "contains"@ {
        contains_seq(lower_of(cell), lower_of(operand))
    } else if op == "notContains"@ {
        !contains_seq(lower_of(cell), lower_of(operand))
    } else if op == "equals"@ {
        lower_of(cell) == lower_of(operand)
    } else if op == "notEqual"@ {
        lower_of(cell) != lower_of(operand)
    } else if op == "startsWith"@ {
        starts_with_seq(lower_of(cell), lower_of(operand))
    } else if op == "endsWith"@ {
        ends_with_seq(lower_of(cell), lower_of(operand))
    } else if op == "blank"@ {
        all_space(cell)
    } else if op == "notBlank"@ {
        !all_space(cell)
    } else {
        true
    }
}

/// Applies one filter predicate to one cell.
pub fn apply_filter(cell: &str, filter: &FilterItem) -> (r: bool)
    ensures
        r == filter_passes(cell@, filter.filter_op@, filter.filter@),
{
    let op = filter.filter_op.as_str();
    if str_eq(op, "contains") {
        let cl = to_lower(cell);
        let fl = to_lower(filter.filter.as_str());
        str_contains(cl.as_str(), fl.as_str())
    } else if str_eq(op, "notContains") {
        let cl = to_lower(cell);
        let fl = to_lower(filter.filter.as_str());
        !str_contains(cl.as_str(), fl.as_str())
    } else if str_eq(op, "equals") {
        let cl = to_lower(cell);
        let fl = to_lower(filter.filter.as_str());
        str_eq(cl.as_str(), fl.as_str())
    } else if str_eq(op, "notEqual") {
        let cl = to_lower(cell);
        let fl = to_lower(filter.filter.as_str());
        !str_eq(cl.as_str(), fl.as_str())
    } else if str_eq(op, "startsWith") {
        let cl = to_lower(cell);
        let fl = to_lower(filter.filter.as_str());
        crate::text::str_starts_with(cl.as_str(), fl.as_str())
    } else if str_eq(op, "endsWith") {
        let cl = to_lower(cell);
        let fl = to_lower(filter.filter.as_str());
        crate::text::str_ends_with(cl.as_str(), fl.as_str())
    } else if str_eq(op, "blank") {
        str_is_blank(cell)
    } else if str_eq(op, "notBlank") {
        !str_is_blank(cell)
    } else {
        true
    }
}

/// Whether a row satisfies the quick filter: vacuously when it is empty,
/// else some cell contains it case-insensitively.
pub open spec fn quick_ok(row: Seq<Seq<char>>, qf: Seq<char>) -> bool {
    qf.len() == 0 || exists|j: int|
        0 <= j < row.len() && contains_seq(lower_of(#[trigger] row[j]), lower_of(qf))
}

/// Whether a row satisfies one filter entry: vacuously when its column
/// reference does not resolve.
pub open spec fn entry_ok(
    headers: Seq<Seq<char>>,
    row: Seq<Seq<char>>,
    col_id: Seq<char>,
    op: Seq<char>,
    operand: Seq<char>,
) -> bool {
    match resolve_col(headers, col_id) {
        Some(ci) => filter_passes(cell_at(row, ci), op, operand),
        None => true,
    }
}

/// Whether a row survives filtering: it satisfies the quick filter and every
/// resolvable entry of the filter model.
pub open spec fn row_passes(
    headers: Seq<Seq<char>>,
    row: Seq<Seq<char>>,
    filters: Seq<(String, FilterItem)>,
    qf: Seq<char>,
) -> bool {
    &&& quick_ok(row, qf)
    &&& forall|k: int|
        0 <= k < filters.len() ==> entry_ok(
            headers,
            row,
            (#[trigger] filters[k]).0@,
            filters[k].1.filter_op@,
            filters[k].1.filter@,
        )
}

/// Whether a row survives filtering.
fn row_passes_exec(
    headers: &Vec<String>,
    row: &Vec<String>,
    filters: &Vec<(String, FilterItem)>,
    qf: &str,
) -> (r: bool)
    ensures
        r == row_passes(strs(headers@), strs(row@), filters@, qf@),
{
    if qf.unicode_len() > 0 {
        let ql = to_lower(qf);
        let mut j: usize = 0;
        let mut matched = false;
        while j < row.len() && !matched
            invariant
                0 <= j <= row@.len(),
                ql@ == lower_of(qf@),
                matched ==> quick_ok(strs(row@), qf@),
                !matched ==> forall|i: int|
                    0 <= i < j ==> !contains_seq(lower_of(#[trigger] strs(row@)[i]), lower_of(qf@)),
            decreases row@.len() - j,
        {
            let cl = to_lower(row[j].as_str());
            let hit = str_contains(cl.as_str(), ql.as_str());
            proof {
                assert(cl@ == lower_of(strs(row@)[j as int]));
                assert(ql@ == lower_of(qf@));
            }
            if hit {
                matched = true;
                assert(quick_ok(strs(row@), qf@)) by {
                    assert(contains_seq(lower_of(strs(row@)[j as int]), lower_of(qf@)));
                }
            } else {
                assert(!contains_seq(lower_of(strs(row@)[j as int]), lower_of(qf@)));
            }
            j += 1;
        }
        if !matched {
            assert(!quick_ok(strs(row@), qf@));
            return false;
        }
    }
    assert(quick_ok(strs(row@), qf@));
    let mut k: usize = 0;
    while k < filters.len()
        invariant
            0 <= k <= filters@.len(),
            quick_ok(strs(row@), qf@),
            forall|i: int|
                0 <= i < k ==> entry_ok(
                    strs(headers@),
                    strs(row@),
                    (#[trigger] filters@[i]).0@,
                    filters@[i].1.filter_op@,
                    filters@[i].1.filter@,
                ),
        decreases filters@.len() - k,
    {
        let col_id = filters[k].0.as_str();
        let item = &filters[k].1;
        match resolve_col_exec(headers, col_id) {
            Some(ci) => {
                let pass = if ci < row.len() {
                    apply_filter(row[ci].as_str(), item)
                } else {
                    proof {
                        reveal_strlit("");
                    }
                    apply_filter("", item)
                };
                proof {
                    reveal_strlit("");
                    assert(""@ =~= Seq::<char>::empty());
                    if ci < row.len() {
                        assert(cell_at(strs(row@), ci as int) == strs(row@)[ci as int]);
                    } else {
                        assert(cell_at(strs(row@), ci as int) =~= Seq::<char>::empty());
                    }
                }
                if !pass {
                    return false;
                }
            },
            None => {},
        }
        k += 1;
    }
    true
}

/// The indices of the first `n` rows that survive filtering, in row order.
pub open spec fn filtered_prefix(
    headers: Seq<Seq<char>>,
    rows: Seq<Seq<Seq<char>>>,
    filters: Seq<(String, FilterItem)>,
    qf: Seq<char>,
    n: int,
) -> Seq<usize>
    decreases n,
{
    if n <= 0 {
        Seq::empty()
    } else {
        let pre = filtered_prefix(headers, rows, filters, qf, n - 1);
        if row_passes(headers, cell_at_row(rows, n - 1), filters, qf) {
            pre.push((n - 1) as usize)
        } else {
            pre
        }
    }
}

/// The row of a table at an index, or an empty row out of range.
pub open spec fn cell_at_row(rows: Seq<Seq<Seq<char>>>, idx: int) -> Seq<Seq<char>> {
    if 0 <= idx < rows.len() {
        rows[idx]
    } else {
        Seq::empty()
    }
}

/// The indices of all rows that survive filtering, in row order.
pub open spec fn spec_filtered(
    headers: Seq<Seq<char>>,
    rows: Seq<Seq<Seq<char>>>,
    filters: Seq<(String, FilterItem)>,
    qf: Seq<char>,
) -> Seq<usize> {
    filtered_prefix(headers, rows, filters, qf, rows.len() as int)
}


// ------------------------------------------------------------------- sort

/// The column a sort key reads: its reference resolved, or column zero when
/// the reference resolves to nothing.
pub open spec fn resolve_sort_col(headers: Seq<Seq<char>>, col_id: Seq<char>) -> int {
    match resolve_col(headers, col_id) {
        Some(i) => i,
        None => 0,
    }
}

/// How two rows compare under a chain of sort keys: each key compares its
/// column's cells (numerically when both parse as numbers, ordinally
/// otherwise), `"desc"` reverses that key alone, and the first non-tie
/// decides.
#[verifier::opaque]
pub open spec fn sort_key_cmp(
    headers: Seq<Seq<char>>,
    rows: Seq<Seq<Seq<char>>>,
    items: Seq<SortItem>,
    a: int,
    b: int,
) -> Rel
    decreases items.len(),
{
    if items.len() == 0 {
        Rel::Eq
    } else {
        let ci = resolve_sort_col(headers, items[0].col_id@);
        let c0 = cmp_cells(cell_at(cell_at_row(rows, a), ci), cell_at(cell_at_row(rows, b), ci));
        let c1 = if items[0].sort@ == "desc"@ {
            flip(c0)
        } else {
            c0
        };
        if c1 != Rel::Eq {
            c1
        } else {
            sort_key_cmp(headers, rows, items.skip(1), a, b)
        }
    }
}

/// Swapping the rows of a sort comparison reverses its outcome.
pub proof fn lemma_sort_key_cmp_flip(
    headers: Seq<Seq<char>>,
    rows: Seq<Seq<Seq<char>>>,
    items: Seq<SortItem>,
    a: int,
    b: int,
)
    ensures
        sort_key_cmp(headers, rows, items, b, a) == flip(sort_key_cmp(headers, rows, items, a, b)),
    decreases items.len(),
{
    reveal(sort_key_cmp);
    if items.len() > 0 {
        let ci = resolve_sort_col(headers, items[0].col_id@);
        lemma_cmp_cells_flip(
            cell_at(cell_at_row(rows, a), ci),
            cell_at(cell_at_row(rows, b), ci),
        );
        lemma_sort_key_cmp_flip(headers, rows, items.skip(1), a, b);
    }
}

/// Compares two rows under the chain of sort keys.
fn compare_rows(
    headers: &Vec<String>,
    rows: &Vec<Vec<String>>,
    items: &Vec<SortItem>,
    a: usize,
    b: usize,
) -> (r: Rel)
    requires
        a < rows@.len(),
        b < rows@.len(),
    ensures
        r == sort_key_cmp(strs(headers@), rows_view(rows@), items@, a as int, b as int),
{
    let ghost h = strs(headers@);
    let ghost rv = rows_view(rows@);
    proof {
        reveal(sort_key_cmp);
        assert(items@.skip(0) =~= items@);
    }
    let mut k: usize = 0;
    while k < items.len()
        invariant
            0 <= k <= items@.len(),
            a < rows@.len(),
            b < rows@.len(),
            h == strs(headers@),
            rv == rows_view(rows@),
            sort_key_cmp(h, rv, items@, a as int, b as int) == sort_key_cmp(
                h,
                rv,
                items@.skip(k as int),
                a as int,
                b as int,
            ),
        decreases items@.len() - k,
    {
        let ghost rest = items@.skip(k as int);
        proof {
            reveal(sort_key_cmp);
            assert(rest[0] == items@[k as int]);
        }
        let item = &items[k];
        let ci = match resolve_col_exec(headers, item.col_id.as_str()) {
            Some(i) => i,
            None => 0,
        };
        assert(ci as int == resolve_sort_col(h, item.col_id@));
        let row_a = &rows[a];
        let row_b = &rows[b];
        let va = if ci < row_a.len() {
            row_a[ci].as_str()
        } else {
            ""
        };
        let vb = if ci < row_b.len() {
            row_b[ci].as_str()
        } else {
            ""
        };
        proof {
            reveal_strlit("");
            assert(""@ =~= Seq::<char>::empty());
            assert(strs(row_a@) == rv[a as int] && strs(row_b@) == rv[b as int]);
            assert(va@ == cell_at(cell_at_row(rv, a as int), ci as int));
            assert(vb@ == cell_at(cell_at_row(rv, b as int), ci as int));
        }
        let c0 = cell_cmp(va, vb);
        let desc = str_eq(item.sort.as_str(), "desc");
        let c1 = if desc {
            match c0 {
                Rel::Lt => Rel::Gt,
                Rel::Eq => Rel::Eq,
                Rel::Gt => Rel::Lt,
            }
        } else {
            c0
        };
        match c1 {
            Rel::Eq => {},
            _ => {
                return c1;
            },
        }
        assert(rest.skip(1) =~= items@.skip(k as int + 1));
        k += 1;
    }
    proof {
        reveal(sort_key_cmp);
        assert(items@.skip(items@.len() as int).len() == 0);
    }
    Rel::Eq
}

/// Inserting an element anywhere adds exactly that element to the multiset.
proof fn lemma_insert_multiset(s: Seq<usize>, i: int, x: usize)
    requires
        0 <= i <= s.len(),
    ensures
        s.insert(i, x).to_multiset() =~= s.to_multiset().insert(x),
{
    broadcast use vstd::seq_lib::group_seq_properties;
    broadcast use vstd::multiset::group_multiset_axioms;

    let pre = s.subrange(0, i);
    let post = s.subrange(i, s.len() as int);
    assert(s.insert(i, x) == pre.push(x) + post);
    vstd::seq_lib::lemma_multiset_commutative(pre.push(x), post);
    pre.to_multiset_ensures();
    assert(pre.push(x).to_multiset() =~= pre.to_multiset().insert(x));
    assert(s =~= pre + post);
    vstd::seq_lib::lemma_multiset_commutative(pre, post);
}

/// Every adjacent pair of the index sequence is in sort order.
pub open spec fn sorted_adjacent(
    headers: Seq<Seq<char>>,
    rows: Seq<Seq<Seq<char>>>,
    items: Seq<SortItem>,
    s: Seq<usize>,
) -> bool {
    forall|k: int|
        0 <= k && k + 1 < s.len() ==> sort_key_cmp(
            headers,
            rows,
            items,
            (#[trigger] s[k]) as int,
            s[k + 1] as int,
        ) != Rel::Gt
}

/// Adjacent view entries whose rows tie under the whole sort chain keep
/// their original (increasing) row order: the sort is stable.
pub open spec fn tie_stable(
    headers: Seq<Seq<char>>,
    rows: Seq<Seq<Seq<char>>>,
    items: Seq<SortItem>,
    s: Seq<usize>,
) -> bool {
    forall|k: int|
        0 <= k && k + 1 < s.len() && sort_key_cmp(
            headers,
            rows,
            items,
            (#[trigger] s[k]) as int,
            s[k + 1] as int,
        ) == Rel::Eq ==> s[k] < s[k + 1]
}

/// Inserting an element at the scanned position keeps adjacent pairs in
/// order and ties stable, and adds exactly that element.
#[verifier::spinoff_prover]
#[verifier::rlimit(100)]
proof fn lemma_sorted_insert(
    headers: Seq<Seq<char>>,
    rows: Seq<Seq<Seq<char>>>,
    items: Seq<SortItem>,
    s: Seq<usize>,
    p: int,
    x: usize,
)
    requires
        0 <= p <= s.len(),
        sorted_adjacent(headers, rows, items, s),
        tie_stable(headers, rows, items, s),
        forall|q: int| 0 <= q < s.len() ==> (#[trigger] s[q]) < x,
        forall|q: int|
            p <= q < s.len() ==> sort_key_cmp(
                headers,
                rows,
                items,
                (#[trigger] s[q]) as int,
                x as int,
            ) == Rel::Gt,
        p > 0 ==> sort_key_cmp(headers, rows, items, s[p - 1] as int, x as int) != Rel::Gt,
    ensures
        sorted_adjacent(headers, rows, items, s.insert(p, x)),
        tie_stable(headers, rows, items, s.insert(p, x)),
        s.insert(p, x).to_multiset() =~= s.to_multiset().insert(x),
{
    s.insert_ensures(p, x);
    lemma_insert_multiset(s, p, x);
    let t = s.insert(p, x);
    assert forall|k: int| 0 <= k && k + 1 < t.len() implies sort_key_cmp(
        headers,
        rows,
        items,
        (#[trigger] t[k]) as int,
        t[k + 1] as int,
    ) != Rel::Gt by {
        if k + 1 < p {
            assert(t[k] == s[k] && t[k + 1] == s[k + 1]);
        } else if k + 1 == p {
            assert(t[k] == s[k] && t[k + 1] == x);
        } else if k == p {
            assert(t[k] == x && t[k + 1] == s[k]);
            assert(sort_key_cmp(headers, rows, items, s[k] as int, x as int) == Rel::Gt);
            lemma_sort_key_cmp_flip(headers, rows, items, s[k] as int, x as int);
        } else {
            assert(t[k] == s[k - 1] && t[k + 1] == s[k]);
        }
    }
    assert forall|k: int|
        0 <= k && k + 1 < t.len() && sort_key_cmp(
            headers,
            rows,
            items,
            (#[trigger] t[k]) as int,
            t[k + 1] as int,
        ) == Rel::Eq implies t[k] < t[k + 1] by {
        if k + 1 < p {
            assert(t[k] == s[k] && t[k + 1] == s[k + 1]);
        } else if k + 1 == p {
            assert(t[k] == s[k] && t[k + 1] == x);
        } else if k == p {
            assert(t[k] == x && t[k + 1] == s[k]);
            assert(sort_key_cmp(headers, rows, items, s[k] as int, x as int) == Rel::Gt);
            lemma_sort_key_cmp_flip(headers, rows, items, s[k] as int, x as int);
        } else {
            assert(t[k] == s[k - 1] && t[k + 1] == s[k]);
        }
    }
}

/// One insertion step of the sort: inserting the next input index at the
/// scanned position keeps the order properties and extends the multiset by
/// exactly that index.
#[verifier::spinoff_prover]
#[verifier::rlimit(100)]
proof fn lemma_insert_step(
    headers: Seq<Seq<char>>,
    rows: Seq<Seq<Seq<char>>>,
    items: Seq<SortItem>,
    input: Seq<usize>,
    s: Seq<usize>,
    p: int,
    t: int,
)
    requires
        0 <= t < input.len(),
        0 <= p <= s.len(),
        s.to_multiset() == input.take(t).to_multiset(),
        forall|j: int, k: int|
            0 <= j < k < input.len() ==> (#[trigger] input[j]) < (#[trigger] input[k]),
        forall|q: int| 0 <= q < s.len() ==> (#[trigger] s[q]) < input[t],
        sorted_adjacent(headers, rows, items, s),
        tie_stable(headers, rows, items, s),
        forall|q: int|
            p <= q < s.len() ==> sort_key_cmp(
                headers,
                rows,
                items,
                (#[trigger] s[q]) as int,
                input[t] as int,
            ) == Rel::Gt,
        p > 0 ==> sort_key_cmp(headers, rows, items, s[p - 1] as int, input[t] as int) != Rel::Gt,
    ensures
        s.insert(p, input[t]).to_multiset() == input.take(t + 1).to_multiset(),
        sorted_adjacent(headers, rows, items, s.insert(p, input[t])),
        tie_stable(headers, rows, items, s.insert(p, input[t])),
        t + 1 < input.len() ==> forall|k: int|
            0 <= k < s.insert(p, input[t]).len() ==> (#[trigger] s.insert(p, input[t])[k])
                < input[t + 1],
{
    let x = input[t];
    lemma_sorted_insert(headers, rows, items, s, p, x);
    s.insert_ensures(p, x);
    s.to_multiset_ensures();
    assert(input.take(t + 1) =~= input.take(t).push(x)) by {
        assert(input[t] == x);
    }
    input.take(t).to_multiset_ensures();
    assert(s.insert(p, x).to_multiset() =~= input.take(t + 1).to_multiset());
    if t + 1 < input.len() {
        assert forall|k: int|
            0 <= k < s.insert(p, x).len() implies (#[trigger] s.insert(p, x)[k]) < input[t
            + 1] by {
            if k < p {
                assert(s.insert(p, x)[k] == s[k]);
            } else if k == p {
                assert(s.insert(p, x)[k] == x);
            } else {
                assert(s.insert(p, x)[k] == s[k - 1]);
            }
            assert(input[t] < input[t + 1]);
        }
    }
}

/// Stable insertion sort of row indices under the sort-key chain: the result
/// holds exactly the given indices, every adjacent pair is in order, and
/// tied rows keep their original order.
#[verifier::spinoff_prover]
#[verifier::rlimit(100)]
fn sort_indices(
    headers: &Vec<String>,
    rows: &Vec<Vec<String>>,
    items: &Vec<SortItem>,
    input: Vec<usize>,
) -> (out: Vec<usize>)
    requires
        forall|k: int| 0 <= k < input@.len() ==> (#[trigger] input@[k]) < rows@.len(),
        forall|j: int, k: int|
            0 <= j < k < input@.len() ==> (#[trigger] input@[j]) < (#[trigger] input@[k]),
    ensures
        out@.to_multiset() == input@.to_multiset(),
        forall|k: int| 0 <= k < out@.len() ==> (#[trigger] out@[k]) < rows@.len(),
        sorted_adjacent(strs(headers@), rows_view(rows@), items@, out@),
        tie_stable(strs(headers@), rows_view(rows@), items@, out@),
{
    let ghost h = strs(headers@);
    let ghost rv = rows_view(rows@);
    let mut out: Vec<usize> = Vec::new();
    proof {
        assert(input@.take(0) =~= Seq::<usize>::empty());
        assert(out@ =~= Seq::<usize>::empty());
    }
    let mut t: usize = 0;
    while t < input.len()
        invariant
            0 <= t <= input@.len(),
            h == strs(headers@),
            rv == rows_view(rows@),
            forall|k: int| 0 <= k < input@.len() ==> (#[trigger] input@[k]) < rows@.len(),
            forall|j: int, k: int|
                0 <= j < k < input@.len() ==> (#[trigger] input@[j]) < (#[trigger] input@[k]),
            out@.to_multiset() == input@.take(t as int).to_multiset(),
            forall|k: int| 0 <= k < out@.len() ==> (#[trigger] out@[k]) < rows@.len(),
            t < input@.len() ==> forall|k: int|
                0 <= k < out@.len() ==> (#[trigger] out@[k]) < input@[t as int],
            sorted_adjacent(h, rv, items@, out@),
            tie_stable(h, rv, items@, out@),
        decreases input@.len() - t,
    {
        let x = input[t];
        let mut p: usize = out.len();
        loop
            invariant_except_break
                0 <= p <= out@.len(),
                x < rows@.len(),
                h == strs(headers@),
                rv == rows_view(rows@),
                forall|k: int| 0 <= k < out@.len() ==> (#[trigger] out@[k]) < rows@.len(),
                forall|q: int|
                    p <= q < out@.len() ==> sort_key_cmp(
                        h,
                        rv,
                        items@,
                        (#[trigger] out@[q]) as int,
                        x as int,
                    ) == Rel::Gt,
            ensures
                0 <= p <= out@.len(),
                forall|q: int|
                    p <= q < out@.len() ==> sort_key_cmp(
                        h,
                        rv,
                        items@,
                        (#[trigger] out@[q]) as int,
                        x as int,
                    ) == Rel::Gt,
                p > 0 ==> sort_key_cmp(h, rv, items@, out@[p - 1] as int, x as int) != Rel::Gt,
            decreases p,
        {
            if p == 0 {
                break;
            }
            let c = compare_rows(headers, rows, items, out[p - 1], x);
            match c {
                Rel::Gt => {},
                _ => {
                    break;
                },
            }
            p -= 1;
        }
        let ghost old_out = out@;
        out.insert(p, x);
        proof {
            lemma_insert_step(h, rv, items@, input@, old_out, p as int, t as int);
            assert(out@ == old_out.insert(p as int, input@[t as int]));
        }
        t += 1;
    }
    assert(input@.take(input@.len() as int) =~= input@);
    out
}


// ------------------------------------------------------------ memoization

/// Structural equality of two sort specifications.
pub open spec fn sort_models_match(a: Seq<SortItem>, b: Seq<SortItem>) -> bool {
    a.len() == b.len() && forall|k: int|
        0 <= k < a.len() ==> (#[trigger] a[k]).col_id@ == b[k].col_id@ && a[k].sort@ == b[k].sort@
}

/// Structural equality of two filter specifications.
pub open spec fn filter_models_match(
    a: Seq<(String, FilterItem)>,
    b: Seq<(String, FilterItem)>,
) -> bool {
    a.len() == b.len() && forall|k: int|
        0 <= k < a.len() ==> {
            &&& (#[trigger] a[k]).0@ == b[k].0@
            &&& a[k].1.filter_type@ == b[k].1.filter_type@
            &&& a[k].1.filter_op@ == b[k].1.filter_op@
            &&& a[k].1.filter@ == b[k].1.filter@
        }
}

/// Structural comparison of two sort specifications.
fn sort_models_eq(a: &Vec<SortItem>, b: &Vec<SortItem>) -> (r: bool)
    ensures
        r == sort_models_match(a@, b@),
{
    if a.len() != b.len() {
        return false;
    }
    let mut k: usize = 0;
    while k < a.len()
        invariant
            0 <= k <= a@.len(),
            a@.len() == b@.len(),
            forall|j: int|
                0 <= j < k ==> (#[trigger] a@[j]).col_id@ == b@[j].col_id@ && a@[j].sort@
                    == b@[j].sort@,
        decreases a@.len() - k,
    {
        if !str_eq(a[k].col_id.as_str(), b[k].col_id.as_str()) {
            return false;
        }
        if !str_eq(a[k].sort.as_str(), b[k].sort.as_str()) {
            return false;
        }
        k += 1;
    }
    true
}

/// Structural comparison of two filter specifications.
fn filter_models_eq(a: &Vec<(String, FilterItem)>, b: &Vec<(String, FilterItem)>) -> (r: bool)
    ensures
        r == filter_models_match(a@, b@),
{
    if a.len() != b.len() {
        return false;
    }
    let mut k: usize = 0;
    while k < a.len()
        invariant
            0 <= k <= a@.len(),
            a@.len() == b@.len(),
            forall|j: int|
                0 <= j < k ==> {
                    &&& (#[trigger] a@[j]).0@ == b@[j].0@
                    &&& a@[j].1.filter_type@ == b@[j].1.filter_type@
                    &&& a@[j].1.filter_op@ == b@[j].1.filter_op@
                    &&& a@[j].1.filter@ == b@[j].1.filter@
                },
        decreases a@.len() - k,
    {
        if !str_eq(a[k].0.as_str(), b[k].0.as_str()) {
            return false;
        }
        if !str_eq(a[k].1.filter_type.as_str(), b[k].1.filter_type.as_str()) {
            return false;
        }
        if !str_eq(a[k].1.filter_op.as_str(), b[k].1.filter_op.as_str()) {
            return false;
        }
        if !str_eq(a[k].1.filter.as_str(), b[k].1.filter.as_str()) {
            return false;
        }
        k += 1;
    }
    true
}

/// Copies a sort specification, preserving its content.
fn clone_sort_model(v: &Vec<SortItem>) -> (r: Vec<SortItem>)
    ensures
        sort_models_match(r@, v@),
{
    let mut out: Vec<SortItem> = Vec::new();
    let mut k: usize = 0;
    while k < v.len()
        invariant
            0 <= k <= v@.len(),
            out@.len() == k,
            forall|j: int|
                0 <= j < k ==> (#[trigger] out@[j]).col_id@ == v@[j].col_id@ && out@[j].sort@
                    == v@[j].sort@,
        decreases v@.len() - k,
    {
        out.push(SortItem { col_id: v[k].col_id.clone(), sort: v[k].sort.clone() });
        k += 1;
    }
    out
}

/// Copies a filter specification, preserving its content.
fn clone_filter_model(v: &Vec<(String, FilterItem)>) -> (r: Vec<(String, FilterItem)>)
    ensures
        filter_models_match(r@, v@),
{
    let mut out: Vec<(String, FilterItem)> = Vec::new();
    let mut k: usize = 0;
    while k < v.len()
        invariant
            0 <= k <= v@.len(),
            out@.len() == k,
            forall|j: int|
                0 <= j < k ==> {
                    &&& (#[trigger] out@[j]).0@ == v@[j].0@
                    &&& out@[j].1.filter_type@ == v@[j].1.filter_type@
                    &&& out@[j].1.filter_op@ == v@[j].1.filter_op@
                    &&& out@[j].1.filter@ == v@[j].1.filter@
                },
        decreases v@.len() - k,
    {
        out.push(
            (
                v[k].0.clone(),
                FilterItem {
                    filter_type: v[k].1.filter_type.clone(),
                    filter_op: v[k].1.filter_op.clone(),
                    filter: v[k].1.filter.clone(),
                },
            ),
        );
        k += 1;
    }
    out
}

/// Structurally equal filter specifications pass the same rows.
proof fn lemma_row_passes_congr(
    headers: Seq<Seq<char>>,
    row: Seq<Seq<char>>,
    f1: Seq<(String, FilterItem)>,
    f2: Seq<(String, FilterItem)>,
    qf: Seq<char>,
)
    requires
        filter_models_match(f1, f2),
    ensures
        row_passes(headers, row, f1, qf) == row_passes(headers, row, f2, qf),
{
    if row_passes(headers, row, f1, qf) {
        assert forall|k: int|
            0 <= k < f2.len() implies entry_ok(
            headers,
            row,
            (#[trigger] f2[k]).0@,
            f2[k].1.filter_op@,
            f2[k].1.filter@,
        ) by {
            assert(entry_ok(headers, row, f1[k].0@, f1[k].1.filter_op@, f1[k].1.filter@));
            assert(f1[k].0@ == f2[k].0@);
        }
        assert(row_passes(headers, row, f2, qf));
    }
    if row_passes(headers, row, f2, qf) {
        assert forall|k: int|
            0 <= k < f1.len() implies entry_ok(
            headers,
            row,
            (#[trigger] f1[k]).0@,
            f1[k].1.filter_op@,
            f1[k].1.filter@,
        ) by {
            assert(entry_ok(headers, row, f2[k].0@, f2[k].1.filter_op@, f2[k].1.filter@));
            assert(f1[k].0@ == f2[k].0@);
        }
        assert(row_passes(headers, row, f1, qf));
    }
}

/// Structurally equal filter specifications keep the same row indices.
proof fn lemma_filtered_congr(
    headers: Seq<Seq<char>>,
    rows: Seq<Seq<Seq<char>>>,
    f1: Seq<(String, FilterItem)>,
    f2: Seq<(String, FilterItem)>,
    qf: Seq<char>,
    n: int,
)
    requires
        filter_models_match(f1, f2),
    ensures
        filtered_prefix(headers, rows, f1, qf, n) == filtered_prefix(headers, rows, f2, qf, n),
    decreases n,
{
    if n > 0 {
        lemma_filtered_congr(headers, rows, f1, f2, qf, n - 1);
        lemma_row_passes_congr(headers, cell_at_row(rows, n - 1), f1, f2, qf);
    }
}

/// Structurally equal sort specifications order rows the same way.
proof fn lemma_sort_key_congr(
    headers: Seq<Seq<char>>,
    rows: Seq<Seq<Seq<char>>>,
    s1: Seq<SortItem>,
    s2: Seq<SortItem>,
    a: int,
    b: int,
)
    requires
        sort_models_match(s1, s2),
    ensures
        sort_key_cmp(headers, rows, s1, a, b) == sort_key_cmp(headers, rows, s2, a, b),
    decreases s1.len(),
{
    reveal(sort_key_cmp);
    if s1.len() > 0 {
        assert(s1[0].col_id@ == s2[0].col_id@ && s1[0].sort@ == s2[0].sort@);
        assert(sort_models_match(s1.skip(1), s2.skip(1))) by {
            assert(forall|j: int| 0 <= j < s1.skip(1).len() ==> s1.skip(1)[j] == s1[j + 1]);
            assert(forall|j: int| 0 <= j < s2.skip(1).len() ==> s2.skip(1)[j] == s2[j + 1]);
        }
        lemma_sort_key_congr(headers, rows, s1.skip(1), s2.skip(1), a, b);
    }
}

/// Structurally equal sort specifications order every adjacent view pair
/// the same way.
proof fn lemma_view_cmp_congr(
    headers: Seq<Seq<char>>,
    rows: Seq<Seq<Seq<char>>>,
    s1: Seq<SortItem>,
    s2: Seq<SortItem>,
    view: Seq<usize>,
)
    requires
        sort_models_match(s1, s2),
    ensures
        forall|k: int|
            0 <= k && k + 1 < view.len() ==> sort_key_cmp(
                headers,
                rows,
                s1,
                (#[trigger] view[k]) as int,
                view[k + 1] as int,
            ) == sort_key_cmp(headers, rows, s2, view[k] as int, view[k + 1] as int),
{
    assert forall|k: int|
        0 <= k && k + 1 < view.len() implies sort_key_cmp(
        headers,
        rows,
        s1,
        (#[trigger] view[k]) as int,
        view[k + 1] as int,
    ) == sort_key_cmp(headers, rows, s2, view[k] as int, view[k + 1] as int) by {
        lemma_sort_key_congr(headers, rows, s1, s2, view[k] as int, view[k + 1] as int);
    }
}

// ------------------------------------------------------------------ cache

/// One cache entry: the parsed table, the derived view indices, and the
/// memoized sort/filter signature they were computed under.
pub struct CachedFile {
    pub parsed: ParsedFile,
    pub view_indices: Vec<usize>,
    pub last_sort_key: Option<Vec<SortItem>>,
    pub last_filter_key: Option<(Vec<(String, FilterItem)>, String)>,
}

/// The memoized signature matches the given sort and filter specifications.
pub open spec fn sig_matches(
    c: CachedFile,
    sort: Seq<SortItem>,
    filters: Seq<(String, FilterItem)>,
    qf: Seq<char>,
) -> bool {
    &&& c.last_sort_key matches Some(sk) && sort_models_match(sk@, sort)
    &&& c.last_filter_key matches Some(fk) && filter_models_match(fk.0@, filters) && fk.1@ == qf
}

/// The view indices are exactly the filtered row indices, in sort order: the
/// filtered set as a multiset, every index in range and passing every
/// filter, in row order when no sort key is given, and with every adjacent
/// pair in sort order otherwise.
pub open spec fn good_view(
    c: CachedFile,
    sort: Seq<SortItem>,
    filters: Seq<(String, FilterItem)>,
    qf: Seq<char>,
) -> bool {
    let headers = strs(c.parsed.meta.headers@);
    let rows = rows_view(c.parsed.rows@);
    let view = c.view_indices@;
    &&& view.to_multiset() == spec_filtered(headers, rows, filters, qf).to_multiset()
    &&& forall|k: int|
        0 <= k < view.len() ==> (#[trigger] view[k]) < rows.len() && row_passes(
            headers,
            rows[view[k] as int],
            filters,
            qf,
        )
    &&& sort.len() == 0 ==> view == spec_filtered(headers, rows, filters, qf)
    &&& sort.len() > 0 ==> sorted_adjacent(headers, rows, sort, view) && tie_stable(
        headers,
        rows,
        sort,
        view,
    )
}

/// A cache entry is coherent: its view indices stay inside the table, and
/// where a signature is memoized they are exactly the view that signature
/// describes.
pub open spec fn cached_wf(c: CachedFile) -> bool {
    &&& forall|k: int|
        0 <= k < c.view_indices@.len() ==> (#[trigger] c.view_indices@[k]) < c.parsed.rows@.len()
    &&& match (c.last_sort_key, c.last_filter_key) {
        (Some(sk), Some(fk)) => good_view(c, sk@, fk.0@, fk.1@),
        _ => true,
    }
}

/// Every filtered index is in range and its row passes the filters.
proof fn lemma_filtered_props(
    headers: Seq<Seq<char>>,
    rows: Seq<Seq<Seq<char>>>,
    filters: Seq<(String, FilterItem)>,
    qf: Seq<char>,
    n: int,
)
    requires
        n <= rows.len(),
        n <= usize::MAX as int,
    ensures
        forall|k: int|
            0 <= k < filtered_prefix(headers, rows, filters, qf, n).len() ==> (#[trigger]
            filtered_prefix(headers, rows, filters, qf, n)[k]) < n && row_passes(
                headers,
                rows[filtered_prefix(headers, rows, filters, qf, n)[k] as int],
                filters,
                qf,
            ),
        forall|j: int, k: int|
            0 <= j < k < filtered_prefix(headers, rows, filters, qf, n).len() ==> (#[trigger]
            filtered_prefix(headers, rows, filters, qf, n)[j]) < (#[trigger] filtered_prefix(
                headers,
                rows,
                filters,
                qf,
                n,
            )[k]),
    decreases n,
{
    if n > 0 {
        reveal_with_fuel(filtered_prefix, 2);
        lemma_filtered_props(headers, rows, filters, qf, n - 1);
        let pre = filtered_prefix(headers, rows, filters, qf, n - 1);
        let cur = filtered_prefix(headers, rows, filters, qf, n);
        assert(cell_at_row(rows, n - 1) == rows[n - 1]);
        assert forall|k: int|
            0 <= k < cur.len() implies (#[trigger] cur[k]) < n && row_passes(
            headers,
            rows[cur[k] as int],
            filters,
            qf,
        ) by {
            if row_passes(headers, cell_at_row(rows, n - 1), filters, qf) {
                assert(cur == pre.push((n - 1) as usize));
                if k < pre.len() {
                    assert(cur[k] == pre[k]);
                } else {
                    assert(cur[k] == (n - 1) as usize);
                }
            } else {
                assert(cur == pre);
                assert(cur[k] == pre[k]);
            }
        }
        assert forall|j: int, k: int|
            0 <= j < k < cur.len() implies (#[trigger] cur[j]) < (#[trigger] cur[k]) by {
            if row_passes(headers, cell_at_row(rows, n - 1), filters, qf) {
                assert(cur == pre.push((n - 1) as usize));
                if k < pre.len() {
                    assert(cur[j] == pre[j] && cur[k] == pre[k]);
                } else {
                    assert(cur[j] == pre[j] && cur[k] == (n - 1) as usize);
                    assert(pre[j] < n - 1);
                }
            } else {
                assert(cur == pre);
                assert(cur[j] == pre[j] && cur[k] == pre[k]);
            }
        }
    }
}

/// Rebuilds the view indices, filter phase then sort phase, unless the
/// memoized signature already matches, in which case nothing changes. Either
/// way the entry leaves with view indices that are exactly the filtered row
/// indices in sort order for the given specifications, and with those
/// specifications memoized.
#[verifier::spinoff_prover]
#[verifier::rlimit(100)]
pub fn rebuild_view_indices(
    cached: &mut CachedFile,
    sort_model: &Vec<SortItem>,
    filter_model: &Vec<(String, FilterItem)>,
    quick_filter: &str,
)
    requires
        cached_wf(*old(cached)),
    ensures
        cached_wf(*final(cached)),
        final(cached).parsed == old(cached).parsed,
        sig_matches(*old(cached), sort_model@, filter_model@, quick_filter@) ==> *final(cached)
            == *old(cached),
        good_view(*final(cached), sort_model@, filter_model@, quick_filter@),
        sig_matches(*final(cached), sort_model@, filter_model@, quick_filter@),
{
    let ghost h = strs(cached.parsed.meta.headers@);
    let ghost rv = rows_view(cached.parsed.rows@);
    let matched = match (&cached.last_sort_key, &cached.last_filter_key) {
        (Some(sk), Some(fk)) => sort_models_eq(sk, sort_model) && filter_models_eq(
            &fk.0,
            filter_model,
        ) && str_eq(fk.1.as_str(), quick_filter),
        _ => false,
    };
    if matched {
        proof {
            let sk = cached.last_sort_key.unwrap();
            let fk = cached.last_filter_key.unwrap();
            lemma_filtered_congr(h, rv, fk.0@, filter_model@, quick_filter@, rv.len() as int);
            assert forall|k: int|
                0 <= k < cached.view_indices@.len() implies ((#[trigger] cached.view_indices@[k])
                < rv.len() && row_passes(
                h,
                rv[cached.view_indices@[k] as int],
                filter_model@,
                quick_filter@,
            )) by {
                lemma_row_passes_congr(
                    h,
                    rv[cached.view_indices@[k] as int],
                    fk.0@,
                    filter_model@,
                    quick_filter@,
                );
            }
            if sort_model@.len() > 0 {
                lemma_view_cmp_congr(h, rv, sk@, sort_model@, cached.view_indices@);
            }
        }
        return;
    }

    // filter phase
    let rows_len = cached.parsed.rows.len();
    let mut idx: Vec<usize> = Vec::new();
    let mut i: usize = 0;
    while i < rows_len
        invariant
            0 <= i <= rows_len,
            rows_len == cached.parsed.rows@.len(),
            h == strs(cached.parsed.meta.headers@),
            rv == rows_view(cached.parsed.rows@),
            idx@ == filtered_prefix(h, rv, filter_model@, quick_filter@, i as int),
        decreases rows_len - i,
    {
        let passes = row_passes_exec(
            &cached.parsed.meta.headers,
            &cached.parsed.rows[i],
            filter_model,
            quick_filter,
        );
        proof {
            assert(strs(cached.parsed.rows@[i as int]@) == rv[i as int]);
            assert(cell_at_row(rv, i as int) == rv[i as int]);
        }
        if passes {
            idx.push(i);
        }
        i += 1;
    }
    assert(idx@ == spec_filtered(h, rv, filter_model@, quick_filter@));
    proof {
        lemma_filtered_props(h, rv, filter_model@, quick_filter@, rv.len() as int);
    }

    // sort phase
    if sort_model.len() > 0 {
        let sorted = sort_indices(
            &cached.parsed.meta.headers,
            &cached.parsed.rows,
            sort_model,
            idx,
        );
        proof {
            let ghost fview = spec_filtered(h, rv, filter_model@, quick_filter@);
            sorted@.to_multiset_ensures();
            fview.to_multiset_ensures();
            assert forall|k: int|
                0 <= k < sorted@.len() implies row_passes(
                h,
                rv[(#[trigger] sorted@[k]) as int],
                filter_model@,
                quick_filter@,
            ) by {
                assert(sorted@.contains(sorted@[k]));
                assert(sorted@.to_multiset().count(sorted@[k]) > 0);
                assert(fview.to_multiset().count(sorted@[k]) > 0);
                assert(fview.contains(sorted@[k]));
                let j = choose|j: int| 0 <= j < fview.len() && fview[j] == sorted@[k];
                assert(row_passes(h, rv[fview[j] as int], filter_model@, quick_filter@));
            }
        }
        cached.view_indices = sorted;
    } else {
        cached.view_indices = idx;
    }
    cached.last_sort_key = Some(clone_sort_model(sort_model));
    cached.last_filter_key = Some(
        (clone_filter_model(filter_model), String::from_str(quick_filter)),
    );
    proof {
        let sk = cached.last_sort_key.unwrap();
        let fk = cached.last_filter_key.unwrap();
        lemma_filtered_congr(h, rv, fk.0@, filter_model@, quick_filter@, rv.len() as int);
        assert forall|k: int|
            0 <= k < cached.view_indices@.len() implies row_passes(
            h,
            rv[(#[trigger] cached.view_indices@[k]) as int],
            fk.0@,
            fk.1@,
        ) by {
            lemma_row_passes_congr(
                h,
                rv[cached.view_indices@[k] as int],
                fk.0@,
                filter_model@,
                quick_filter@,
            );
        }
        if sk@.len() > 0 {
            lemma_view_cmp_congr(h, rv, sk@, sort_model@, cached.view_indices@);
        }
    }
}


// ------------------------------------------------------------------ store

/// The smaller of two lengths.
pub open spec fn min_len(a: int, b: int) -> int {
    if a <= b {
        a
    } else {
        b
    }
}

/// The process-wide keyed store: one entry per open file path. Constructed
/// once at startup and passed by reference to every operation; the host
/// serializes access to it.
pub struct FileStore {
    files: Vec<(String, CachedFile)>,
}

impl FileStore {
    /// Whether the store holds an entry for the path.
    pub closed spec fn contains_path(self, p: Seq<char>) -> bool {
        exists|k: int| 0 <= k < self.files@.len() && (#[trigger] self.files@[k]).0@ == p
    }

    /// The entry for a path (meaningful only when the store contains it).
    pub closed spec fn entry_at(self, p: Seq<char>) -> CachedFile {
        self.files@[choose|k: int|
            0 <= k < self.files@.len() && (#[trigger] self.files@[k]).0@ == p].1
    }

    /// The store is coherent: paths are distinct and every entry is.
    pub closed spec fn wf(self) -> bool {
        &&& forall|i: int, j: int|
            0 <= i < j < self.files@.len() ==> (#[trigger] self.files@[i]).0@ != (
            #[trigger] self.files@[j]).0@
        &&& forall|k: int|
            0 <= k < self.files@.len() ==> cached_wf((#[trigger] self.files@[k]).1)
    }

    /// An empty store.
    pub fn new() -> (r: Self)
        ensures
            r.wf(),
            forall|p: Seq<char>| !r.contains_path(p),
    {
        FileStore { files: Vec::new() }
    }

    /// Finds the entry index for a path.
    fn find(&self, path: &str) -> (r: Option<usize>)
        ensures
            match r {
                Some(i) => i < self.files@.len() && self.files@[i as int].0@ == path@
                    && self.contains_path(path@),
                None => !self.contains_path(path@),
            },
    {
        let mut k: usize = 0;
        while k < self.files.len()
            invariant
                0 <= k <= self.files@.len(),
                forall|j: int| 0 <= j < k ==> (#[trigger] self.files@[j]).0@ != path@,
            decreases self.files@.len() - k,
        {
            if str_eq(self.files[k].0.as_str(), path) {
                return Some(k);
            }
            k += 1;
        }
        assert(!self.contains_path(path@));
        None
    }

    /// With distinct keys, removing the entry at the path's index leaves a
    /// store without that path and with every other path's entry unchanged.
    proof fn lemma_remove_entry(pre: Seq<(String, CachedFile)>, post: Seq<(String, CachedFile)>, i: int)
        requires
            0 <= i < pre.len(),
            post == pre.remove(i),
            forall|a: int, b: int|
                0 <= a < b < pre.len() ==> (#[trigger] pre[a]).0@ != (#[trigger] pre[b]).0@,
        ensures
            forall|a: int, b: int|
                0 <= a < b < post.len() ==> (#[trigger] post[a]).0@ != (#[trigger] post[b]).0@,
            forall|k: int|
                0 <= k < post.len() ==> (#[trigger] post[k]) == (if k < i {
                    pre[k]
                } else {
                    pre[k + 1]
                }),
            !(exists|k: int| 0 <= k < post.len() && (#[trigger] post[k]).0@ == pre[i].0@),
    {
        assert forall|a: int, b: int|
            0 <= a < b < post.len() implies (#[trigger] post[a]).0@ != (#[trigger] post[b]).0@ by {
            let a2 = if a < i { a } else { a + 1 };
            let b2 = if b < i { b } else { b + 1 };
            assert(post[a] == pre[a2] && post[b] == pre[b2]);
        }
        assert forall|k: int| 0 <= k < post.len() implies (#[trigger] post[k]).0@ != pre[i].0@ by {
            let k2 = if k < i { k } else { k + 1 };
            assert(post[k] == pre[k2]);
            if k2 < i {
                assert(pre[k2].0@ != pre[i].0@);
            } else {
                assert(pre[i].0@ != pre[k2].0@);
            }
        }
    }

    /// Inserts or replaces the entry for a path: its table becomes the given
    /// one, its view indices the identity permutation, and its memoization
    /// signature cleared. Entries for other paths are untouched.
    pub fn put(&mut self, path: String, parsed: ParsedFile)
        requires
            old(self).wf(),
        ensures
            final(self).wf(),
            final(self).contains_path(path@),
            final(self).entry_at(path@).parsed == parsed,
            final(self).entry_at(path@).view_indices@.len() == parsed.rows@.len(),
            forall|k: int|
                0 <= k < parsed.rows@.len() ==> (#[trigger] final(self).entry_at(
                    path@,
                ).view_indices@[k]) == k,
            final(self).entry_at(path@).last_sort_key is None,
            final(self).entry_at(path@).last_filter_key is None,
            forall|q: Seq<char>|
                q != path@ ==> (#[trigger] final(self).contains_path(q)) == old(
                    self,
                ).contains_path(q),
            forall|q: Seq<char>|
                q != path@ && old(self).contains_path(q) ==> (#[trigger] final(self).entry_at(q))
                    == old(self).entry_at(q),
    {
        match self.find(path.as_str()) {
            Some(i) => {
                let ghost pre = self.files@;
                self.files.remove(i);
                proof {
                    Self::lemma_remove_entry(pre, self.files@, i as int);
                    assert forall|q: Seq<char>|
                        q != path@ implies ((#[trigger] self.contains_path(q)) <==> old(
                        self,
                    ).contains_path(q)) by {
                        if self.contains_path(q) {
                            let w = choose|w: int|
                                0 <= w < self.files@.len() && (#[trigger] self.files@[w]).0@ == q;
                            let w2 = if w < i { w } else { w + 1 };
                            assert(pre[w2].0@ == q);
                        }
                        if old(self).contains_path(q) {
                            let w = choose|w: int|
                                0 <= w < pre.len() && (#[trigger] pre[w]).0@ == q;
                            assert(w != i);
                            let w2 = if w < i { w } else { w - 1 };
                            assert(self.files@[w2].0@ == q);
                        }
                    }
                    assert forall|q: Seq<char>|
                        q != path@ && old(self).contains_path(q) implies (#[trigger] self.entry_at(
                        q,
                    )) == old(self).entry_at(q) by {
                        assert(self.contains_path(q));
                        assert(pre == old(self).files@);
                        let wn = choose|k: int|
                            0 <= k < self.files@.len() && (#[trigger] self.files@[k]).0@ == q;
                        let wo = choose|k: int|
                            0 <= k < old(self).files@.len() && (#[trigger] old(
                                self,
                            ).files@[k]).0@ == q;
                        let wn2 = if wn < i { wn } else { wn + 1 };
                        assert(self.files@[wn] == pre[wn2]);
                        if wo < wn2 {
                            assert(pre[wo].0@ != pre[wn2].0@);
                        } else if wn2 < wo {
                            assert(pre[wn2].0@ != pre[wo].0@);
                        }
                    }
                }
            },
            None => {},
        }
        let ghost mid = *self;
        let row_count = parsed.rows.len();
        let mut ident: Vec<usize> = Vec::new();
        let mut k: usize = 0;
        while k < row_count
            invariant
                0 <= k <= row_count,
                ident@.len() == k,
                forall|j: int| 0 <= j < k ==> (#[trigger] ident@[j]) == j,
            decreases row_count - k,
        {
            ident.push(k);
            k += 1;
        }
        let entry = CachedFile {
            parsed,
            view_indices: ident,
            last_sort_key: None,
            last_filter_key: None,
        };
        self.files.push((path, entry));
        proof {
            let n = mid.files@.len() as int;
            assert(!mid.contains_path(path@));
            assert(self.files@[n].0@ == path@);
            assert(self.contains_path(path@));
            assert forall|w: int|
                0 <= w < self.files@.len() && (#[trigger] self.files@[w]).0@ == path@ implies w
                == n by {
                if w < n {
                    assert(self.files@[w] == mid.files@[w]);
                    assert(mid.contains_path(path@));
                }
            }
            assert(self.entry_at(path@) == entry);
            assert forall|q: Seq<char>|
                q != path@ implies ((#[trigger] self.contains_path(q)) <==> mid.contains_path(
                q,
            )) by {
                if self.contains_path(q) {
                    let w = choose|w: int|
                        0 <= w < self.files@.len() && (#[trigger] self.files@[w]).0@ == q;
                    assert(w != n);
                    assert(mid.files@[w].0@ == q);
                }
                if mid.contains_path(q) {
                    let w = choose|w: int|
                        0 <= w < mid.files@.len() && (#[trigger] mid.files@[w]).0@ == q;
                    assert(self.files@[w].0@ == q);
                }
            }
            assert forall|q: Seq<char>|
                q != path@ && mid.contains_path(q) implies (#[trigger] self.entry_at(q))
                == mid.entry_at(q) by {
                assert(self.contains_path(q));
                let wn = choose|k2: int|
                    0 <= k2 < self.files@.len() && (#[trigger] self.files@[k2]).0@ == q;
                let wo = choose|k2: int|
                    0 <= k2 < mid.files@.len() && (#[trigger] mid.files@[k2]).0@ == q;
                assert(wn != n);
                assert(self.files@[wn] == mid.files@[wn]);
                if wo < wn {
                    assert(mid.files@[wo].0@ != mid.files@[wn].0@);
                } else if wn < wo {
                    assert(mid.files@[wn].0@ != mid.files@[wo].0@);
                }
            }
            assert forall|i2: int, j2: int|
                0 <= i2 < j2 < self.files@.len() implies (#[trigger] self.files@[i2]).0@ != (
            #[trigger] self.files@[j2]).0@ by {
                if j2 < n {
                } else {
                    assert(j2 == n);
                    if self.files@[i2].0@ == path@ {
                        assert(mid.contains_path(path@));
                    }
                }
            }
        }
    }

    /// Removes the entry for a path, if any; entries for other paths are
    /// untouched.
    pub fn remove(&mut self, path: &str)
        requires
            old(self).wf(),
        ensures
            final(self).wf(),
            !final(self).contains_path(path@),
            forall|q: Seq<char>|
                q != path@ ==> (#[trigger] final(self).contains_path(q)) == old(
                    self,
                ).contains_path(q),
            forall|q: Seq<char>|
                q != path@ && old(self).contains_path(q) ==> (#[trigger] final(self).entry_at(q))
                    == old(self).entry_at(q),
    {
        match self.find(path) {
            Some(i) => {
                let ghost pre = self.files@;
                self.files.remove(i);
                proof {
                    Self::lemma_remove_entry(pre, self.files@, i as int);
                    assert forall|q: Seq<char>|
                        q != path@ implies ((#[trigger] self.contains_path(q)) <==> old(
                        self,
                    ).contains_path(q)) by {
                        if self.contains_path(q) {
                            let w = choose|w: int|
                                0 <= w < self.files@.len() && (#[trigger] self.files@[w]).0@ == q;
                            let w2 = if w < i { w } else { w + 1 };
                            assert(pre[w2].0@ == q);
                        }
                        if old(self).contains_path(q) {
                            let w = choose|w: int|
                                0 <= w < pre.len() && (#[trigger] pre[w]).0@ == q;
                            assert(w != i);
                            let w2 = if w < i { w } else { w - 1 };
                            assert(self.files@[w2].0@ == q);
                        }
                    }
                    assert forall|q: Seq<char>|
                        q != path@ && old(self).contains_path(q) implies (#[trigger] self.entry_at(
                        q,
                    )) == old(self).entry_at(q) by {
                        assert(self.contains_path(q));
                        assert(pre == old(self).files@);
                        let wn = choose|k: int|
                            0 <= k < self.files@.len() && (#[trigger] self.files@[k]).0@ == q;
                        let wo = choose|k: int|
                            0 <= k < old(self).files@.len() && (#[trigger] old(
                                self,
                            ).files@[k]).0@ == q;
                        let wn2 = if wn < i { wn } else { wn + 1 };
                        assert(self.files@[wn] == pre[wn2]);
                        if wo < wn2 {
                            assert(pre[wo].0@ != pre[wn2].0@);
                        } else if wn2 < wo {
                            assert(pre[wn2].0@ != pre[wo].0@);
                        }
                    }
                    assert(!self.contains_path(path@)) by {
                        if self.contains_path(path@) {
                            let w = choose|w: int|
                                0 <= w < self.files@.len() && (#[trigger] self.files@[w]).0@
                                    == path@;
                        }
                    }
                }
            },
            None => {},
        }
    }

    /// Returns an owned copy of the full table cached for a path, or a
    /// not-found error when the path has no entry.
    pub fn get_all(&self, path: &str) -> (r: Result<ParsedFile, TsvError>)
        requires
            self.wf(),
        ensures
            self.contains_path(path@) <==> r is Ok,
            !self.contains_path(path@) <==> r == Err::<ParsedFile, TsvError>(TsvError::NotFound),
            r matches Ok(p) ==> {
                let c = self.entry_at(path@);
                &&& strs(p.meta.headers@) == strs(c.parsed.meta.headers@)
                &&& p.meta.encoding@ == c.parsed.meta.encoding@
                &&& p.meta.path@ == c.parsed.meta.path@
                &&& p.meta.row_count == c.parsed.meta.row_count
                &&& p.meta.column_count == c.parsed.meta.column_count
                &&& p.meta.line_ending@ == c.parsed.meta.line_ending@
                &&& rows_view(p.rows@) == rows_view(c.parsed.rows@)
            },
    {
        match self.find(path) {
            Some(i) => {
                proof {
                    let w = choose|k: int|
                        0 <= k < self.files@.len() && (#[trigger] self.files@[k]).0@ == path@;
                }
                let copy = crate::parser::clone_parsed(&self.files[i].1.parsed);
                proof {
                    let w = choose|k: int|
                        0 <= k < self.files@.len() && (#[trigger] self.files@[k]).0@ == path@;
                    if w < i {
                        assert(self.files@[w].0@ != self.files@[i as int].0@);
                    } else if i < w {
                        assert(self.files@[i as int].0@ != self.files@[w].0@);
                    }
                }
                Ok(copy)
            },
            None => Err(TsvError::NotFound),
        }
    }

    /// Serves one page of the view for a path: recomputes the view indices
    /// if the sort/filter signature changed, clamps the requested range to
    /// the post-filter total, and returns owned copies of the rows in view
    /// order together with that total. Fails with a not-found error when the
    /// path has no entry.
    pub fn view(
        &mut self,
        path: &str,
        start_row: usize,
        end_row: usize,
        sort_model: &Vec<SortItem>,
        filter_model: &Vec<(String, FilterItem)>,
        quick_filter: &str,
    ) -> (r: Result<RowsResult, TsvError>)
        requires
            old(self).wf(),
            start_row <= end_row,
        ensures
            final(self).wf(),
            r is Ok <==> old(self).contains_path(path@),
            !old(self).contains_path(path@) ==> r == Err::<RowsResult, TsvError>(
                TsvError::NotFound,
            ) && *final(self) == *old(self),
            old(self).contains_path(path@) ==> {
                let c = final(self).entry_at(path@);
                &&& final(self).contains_path(path@)
                &&& c.parsed == old(self).entry_at(path@).parsed
                &&& good_view(c, sort_model@, filter_model@, quick_filter@)
                &&& sig_matches(c, sort_model@, filter_model@, quick_filter@)
                &&& (sig_matches(
                    old(self).entry_at(path@),
                    sort_model@,
                    filter_model@,
                    quick_filter@,
                ) ==> c == old(self).entry_at(path@))
                &&& r matches Ok(rr) && {
                    let total = c.view_indices@.len() as int;
                    let lo = min_len(start_row as int, total);
                    let hi = min_len(end_row as int, total);
                    &&& rr.last_row == total
                    &&& rr.rows@.len() == hi - lo
                    &&& forall|k: int|
                        0 <= k < hi - lo ==> rows_view(rr.rows@)[k] == rows_view(
                            c.parsed.rows@,
                        )[c.view_indices@[lo + k] as int]
                }
            },
            forall|q: Seq<char>|
                q != path@ ==> (#[trigger] final(self).contains_path(q)) == old(
                    self,
                ).contains_path(q),
            forall|q: Seq<char>|
                q != path@ && old(self).contains_path(q) ==> (#[trigger] final(self).entry_at(q))
                    == old(self).entry_at(q),
    {
        let i = match self.find(path) {
            Some(i) => i,
            None => {
                return Err(TsvError::NotFound);
            },
        };
        let ghost pre = self.files@;
        let pair = self.files.remove(i);
        proof {
            Self::lemma_remove_entry(pre, self.files@, i as int);
            assert(cached_wf(pair.1));
            assert forall|w: int|
                0 <= w < pre.len() && (#[trigger] pre[w]).0@ == path@ implies w == i as int by {
                if w < i {
                    assert(pre[w].0@ != pre[i as int].0@);
                } else if i < w {
                    assert(pre[i as int].0@ != pre[w].0@);
                }
            }
            assert(old(self).entry_at(path@) == pair.1);
        }
        let key = pair.0;
        let mut cached = pair.1;
        rebuild_view_indices(&mut cached, sort_model, filter_model, quick_filter);
        let total = cached.view_indices.len();
        let lo = if start_row < total {
            start_row
        } else {
            total
        };
        let hi = if end_row < total {
            end_row
        } else {
            total
        };
        let mut out_rows: Vec<Vec<String>> = Vec::new();
        let mut k: usize = lo;
        while k < hi
            invariant
                lo <= k <= hi <= total,
                total == cached.view_indices@.len(),
                good_view(cached, sort_model@, filter_model@, quick_filter@),
                out_rows@.len() == k - lo,
                forall|j: int|
                    0 <= j < k - lo ==> rows_view(out_rows@)[j] == rows_view(
                        cached.parsed.rows@,
                    )[cached.view_indices@[lo + j] as int],
            decreases hi - k,
        {
            let idx = cached.view_indices[k];
            let ghost prev = rows_view(out_rows@);
            let row_copy = crate::parser::clone_row(&cached.parsed.rows[idx]);
            out_rows.push(row_copy);
            proof {
                assert(rows_view(out_rows@) =~= prev.push(strs(out_rows@[out_rows@.len() - 1]@)));
            }
            k += 1;
        }
        let ghost mid = *self;
        let ghost entry_snap = cached;
        self.files.push((key, cached));
        proof {
            let n = mid.files@.len() as int;
            assert(!mid.contains_path(path@)) by {
                if mid.contains_path(path@) {
                    let w = choose|w: int|
                        0 <= w < mid.files@.len() && (#[trigger] mid.files@[w]).0@ == path@;
                    let w2 = if w < i { w } else { w + 1 };
                    assert(pre[w2].0@ == path@);
                    assert(w2 != i);
                }
            }
            assert(self.files@[n].0@ == path@);
            assert(self.contains_path(path@));
            assert forall|w: int|
                0 <= w < self.files@.len() && (#[trigger] self.files@[w]).0@ == path@ implies w
                == n by {
                if w < n {
                    assert(self.files@[w] == mid.files@[w]);
                    assert(mid.contains_path(path@));
                }
            }
            assert(self.entry_at(path@) == entry_snap);
            assert forall|q: Seq<char>|
                q != path@ implies ((#[trigger] self.contains_path(q)) <==> old(
                self,
            ).contains_path(q)) by {
                if self.contains_path(q) {
                    let w = choose|w: int|
                        0 <= w < self.files@.len() && (#[trigger] self.files@[w]).0@ == q;
                    assert(w != n);
                    assert(mid.files@[w].0@ == q);
                    let w2 = if w < i { w } else { w + 1 };
                    assert(pre[w2].0@ == q);
                }
                if old(self).contains_path(q) {
                    let w = choose|w: int| 0 <= w < pre.len() && (#[trigger] pre[w]).0@ == q;
                    assert(w != i);
                    let w2 = if w < i { w } else { w - 1 };
                    assert(mid.files@[w2].0@ == q);
                    assert(self.files@[w2].0@ == q);
                }
            }
            assert forall|q: Seq<char>|
                q != path@ && old(self).contains_path(q) implies (#[trigger] self.entry_at(q))
                == old(self).entry_at(q) by {
                assert(self.contains_path(q));
                let wn = choose|k2: int|
                    0 <= k2 < self.files@.len() && (#[trigger] self.files@[k2]).0@ == q;
                let wo = choose|k2: int|
                    0 <= k2 < old(self).files@.len() && (#[trigger] old(self).files@[k2]).0@ == q;
                assert(wn != n);
                assert(self.files@[wn] == mid.files@[wn]);
                let wn2 = if wn < i { wn } else { wn + 1 };
                assert(mid.files@[wn] == pre[wn2]);
                assert(wn2 != i);
                if wo < wn2 {
                    assert(pre[wo].0@ != pre[wn2].0@);
                } else if wn2 < wo {
                    assert(pre[wn2].0@ != pre[wo].0@);
                }
            }
            assert forall|i2: int, j2: int|
                0 <= i2 < j2 < self.files@.len() implies (#[trigger] self.files@[i2]).0@ != (
            #[trigger] self.files@[j2]).0@ by {
                if j2 < n {
                } else {
                    assert(j2 == n);
                    if self.files@[i2].0@ == path@ {
                        assert(mid.contains_path(path@));
                    }
                }
            }
        }
        Ok(RowsResult { rows: out_rows, last_row: total })
    }
}

} // verus!
