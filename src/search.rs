use vstd::prelude::*;
use crate::grid::{Grid, is_blank_list, valid_cells};
use crate::groups::{
    GroupKind, group_of, cell_of, slot_of, same_group, group_cell, group_index,
    lemma_cell_in_group, lemma_cell_of_slot,
};

verus! {

/// No other cell of a row, column or box through `p` holds the value at `p`.
pub open spec fn clash_free_at(c: Seq<u8>, p: int) -> bool {
    forall|q: int| 0 <= q < 81 && q != p && #[trigger] same_group(p, q) ==> c[q] != c[p]
}

/// `c` fills every blank of `input` with a digit 1..=9 that clashes with no cell of
/// its row, column or box, and keeps every filled cell of `input`.
pub open spec fn completes(input: Seq<u8>, c: Seq<u8>) -> bool {
    &&& c.len() == 81
    &&& forall|p: int| 0 <= p < 81 && input[p] != 0 ==> #[trigger] c[p] == input[p]
    &&& forall|p: int|
        0 <= p < 81 && input[p] == 0 ==> 1 <= #[trigger] c[p] <= 9 && clash_free_at(c, p)
}

/// `a` and `b` agree on every position below `n`.
pub open spec fn agree_below(a: Seq<u8>, b: Seq<u8>, n: int) -> bool {
    forall|q: int| 0 <= q < n ==> #[trigger] a[q] == b[q]
}

/// At the first position below `n` where `a` and `b` differ, `a` is smaller.
pub open spec fn precedes(a: Seq<u8>, b: Seq<u8>, n: int) -> bool {
    exists|p: int| 0 <= p < n && #[trigger] agree_below(a, b, p) && a[p] < b[p]
}

/// `a` agrees with `b` below `p` and is at most `b` at `p`.
spec fn reached(a: Seq<u8>, b: Seq<u8>, p: int) -> bool {
    agree_below(a, b, p) && a[p] <= b[p]
}

/// Lexicographic order on boards, position 0 first.
pub open spec fn lex_less(a: Seq<u8>, b: Seq<u8>) -> bool {
    precedes(a, b, 81)
}

/// `g` completes `input`, and no completion of `input` comes before it: the board that
/// a search over the blanks in ascending position, with digits in ascending order, finds.
pub open spec fn least_completion(input: Seq<u8>, g: Seq<u8>) -> bool {
    &&& completes(input, g)
    &&& forall|c: Seq<u8>| #[trigger] completes(input, c) ==> !lex_less(c, g)
}

/// One trial step at blank position `p`: the next digit there, or a reset to blank.
/// The second component moves the cursor: -1 back, 0 stay, 1 forward.
pub open spec fn trial(cells: Seq<u8>, p: int) -> (Seq<u8>, int) {
    if cells[p] + 1 == 10 {
        (cells.update(p, 0), -1)
    } else {
        let next = cells.update(p, (cells[p] + 1) as u8);
        if clash_free_at(next, p) {
            (next, 1)
        } else {
            (next, 0)
        }
    }
}

spec fn pow11(n: nat) -> int
    decreases n,
{
    if n == 0 {
        1
    } else {
        11 * pow11((n - 1) as nat)
    }
}

/// The digits of `d` read as a number in base 11, first digit most significant.
spec fn code(d: Seq<int>) -> int
    decreases d.len(),
{
    if d.len() == 0 {
        0
    } else {
        code(d.drop_last()) * 11 + d.last()
    }
}

spec fn base11_digits(d: Seq<int>) -> bool {
    forall|j: int| 0 <= j < d.len() ==> 0 <= #[trigger] d[j] <= 10
}

proof fn lemma_code_bound(d: Seq<int>)
    requires
        base11_digits(d),
    ensures
        0 <= code(d) < pow11(d.len()),
    decreases d.len(),
{
    if d.len() > 0 {
        let e = d.drop_last();
        assert(base11_digits(e));
        lemma_code_bound(e);
        assert(0 <= d.last() <= 10);
        assert(code(d) == code(e) * 11 + d.last());
        assert(pow11(d.len()) == 11 * pow11(e.len()));
        assert(code(e) * 11 + d.last() < 11 * pow11(e.len())) by (nonlinear_arith)
            requires
                code(e) < pow11(e.len()),
                d.last() <= 10,
        ;
        assert(code(e) * 11 + d.last() >= 0) by (nonlinear_arith)
            requires
                code(e) >= 0,
                d.last() >= 0,
        ;
    }
}

proof fn lemma_code_lex(d1: Seq<int>, d2: Seq<int>, k: int)
    requires
        base11_digits(d1),
        base11_digits(d2),
        d1.len() == d2.len(),
        0 <= k < d1.len(),
        forall|j: int| 0 <= j < k ==> d1[j] == d2[j],
        d1[k] < d2[k],
    ensures
        code(d1) < code(d2),
    decreases d1.len(),
{
    let e1 = d1.drop_last();
    let e2 = d2.drop_last();
    assert(base11_digits(e1));
    assert(base11_digits(e2));
    if k == d1.len() - 1 {
        assert(e1 =~= e2);
    } else {
        lemma_code_lex(e1, e2, k);
        lemma_code_bound(e1);
        lemma_code_bound(e2);
        let a = code(e1);
        let b = code(e2);
        let x = d1.last();
        let y = d2.last();
        assert(a * 11 + x < b * 11 + y) by (nonlinear_arith)
            requires
                a < b,
                0 <= x <= 10,
                0 <= y,
        ;
    }
}

/// Any position strictly between two consecutive blanks (or before the first, or after
/// the last) holds a given digit.
proof fn lemma_gap(input: Seq<u8>, b: Seq<usize>, i: int, p: int)
    requires
        valid_cells(input),
        is_blank_list(input, b),
        0 <= i <= b.len(),
        0 <= p < 81,
        i > 0 ==> b[i - 1] < p,
        i < b.len() ==> p < b[i],
    ensures
        input[p] != 0,
{
    if input[p] == 0 {
        assert(b.contains(p as usize));
        let j = choose|j: int| 0 <= j < b.len() && b[j] == p as usize;
        if j < i {
            if j < i - 1 {
                assert(b[j] < b[i - 1]);
            }
        } else {
            if j > i {
                assert(b[i] < b[j]);
            }
        }
    }
}

/// Each blank position stands once in the list.
proof fn lemma_blank_index(input: Seq<u8>, b: Seq<usize>, q: int) -> (j: int)
    requires
        valid_cells(input),
        is_blank_list(input, b),
        0 <= q < 81,
        input[q] == 0,
    ensures
        0 <= j < b.len(),
        b[j] == q,
{
    assert(b.contains(q as usize));
    choose|j: int| 0 <= j < b.len() && b[j] == q as usize
}

/// Cells before the cursor hold digits, the cells after it are blank, given cells keep
/// their value, and no blank before the cursor clashes with a cell other than the one
/// under the cursor.
spec fn layout_inv(input: Seq<u8>, v: Seq<u8>, b: Seq<usize>, i: int) -> bool {
    &&& valid_cells(input)
    &&& valid_cells(v)
    &&& is_blank_list(input, b)
    &&& 0 <= i <= b.len()
    &&& forall|p: int| 0 <= p < 81 && input[p] != 0 ==> #[trigger] v[p] == input[p]
    &&& forall|j: int| 0 <= j < i ==> 1 <= #[trigger] v[b[j] as int]
    &&& forall|j: int| i < j < b.len() ==> #[trigger] v[b[j] as int] == 0
    &&& forall|j: int, q: int|
        0 <= j < i && 0 <= q < 81 && q != b[j] && #[trigger] same_group(b[j] as int, q) && (i
            < b.len() ==> q != b[i]) ==> v[q] != v[b[j] as int]
}

/// No completion of `input` lies in the part of the search already left behind.
spec fn frontier_inv(input: Seq<u8>, v: Seq<u8>, b: Seq<usize>, i: int) -> bool {
    forall|c: Seq<u8>|
        #[trigger] completes(input, c) ==> if i < b.len() {
            !precedes(c, v, b[i] as int) && !reached(c, v, b[i] as int)
        } else {
            !precedes(c, v, 81)
        }
}

spec fn digits(v: Seq<u8>, b: Seq<usize>, i: int) -> Seq<int> {
    Seq::new(b.len(), |j: int| if j <= i { v[b[j] as int] as int } else { 10 })
}

proof fn lemma_init(input: Seq<u8>, b: Seq<usize>)
    requires
        valid_cells(input),
        is_blank_list(input, b),
    ensures
        layout_inv(input, input, b, 0),
        frontier_inv(input, input, b, 0),
{
    assert forall|c: Seq<u8>| #[trigger] completes(input, c) implies if 0 < b.len() {
        !precedes(c, input, b[0] as int) && !reached(c, input, b[0] as int)
    } else {
        !precedes(c, input, 81)
    } by {
        let n: int = if 0 < b.len() { b[0] as int } else { 81 };
        if precedes(c, input, n) {
            let p = choose|p: int| 0 <= p < n && #[trigger] agree_below(c, input, p) && c[p] < input[p];
            lemma_gap(input, b, 0, p);
        }
        if 0 < b.len() {
            assert(input[b[0] as int] == 0);
        }
    }
}

/// A digit that clashes: the search stays on the same blank.
proof fn lemma_stay(input: Seq<u8>, v: Seq<u8>, b: Seq<usize>, i: int)
    requires
        layout_inv(input, v, b, i),
        frontier_inv(input, v, b, i),
        i < b.len(),
        v[b[i] as int] + 1 < 10,
        trial(v, b[i] as int).1 == 0,
    ensures
        layout_inv(input, trial(v, b[i] as int).0, b, i),
        frontier_inv(input, trial(v, b[i] as int).0, b, i),
        code(digits(v, b, i)) < code(digits(trial(v, b[i] as int).0, b, i)),
        base11_digits(digits(trial(v, b[i] as int).0, b, i)),
{
    let p = b[i] as int;
    let nv = (v[p] + 1) as u8;
    let v2 = v.update(p, nv);
    assert(v2 == trial(v, p).0);
    assert(input[p] == 0);
    assert(!clash_free_at(v2, p));
    let q = choose|q: int| 0 <= q < 81 && q != p && #[trigger] same_group(p, q) && v2[q] == v2[p];
    assert(v2[q] == nv);
    assert forall|j: int| 0 <= j < i implies 1 <= #[trigger] v2[b[j] as int] by {
        assert(b[j] < b[i]);
    }
    assert forall|j: int| i < j < b.len() implies #[trigger] v2[b[j] as int] == 0 by {
        assert(b[i] < b[j]);
    }
    assert forall|j: int, r: int|
        0 <= j < i && 0 <= r < 81 && r != b[j] && #[trigger] same_group(b[j] as int, r) && (i
            < b.len() ==> r != b[i]) implies v2[r] != v2[b[j] as int] by {
        assert(b[j] < b[i]);
    }
    assert forall|c: Seq<u8>| #[trigger] completes(input, c) implies !precedes(c, v2, p)
        && !reached(c, v2, p) by {
        assert(!precedes(c, v, p) && !reached(c, v, p));
        if precedes(c, v2, p) {
            let w = choose|w: int| 0 <= w < p && #[trigger] agree_below(c, v2, w) && c[w] < v2[w];
            assert(agree_below(c, v, w));
        }
        if reached(c, v2, p) {
            assert(agree_below(c, v, p));
            assert(c[p] == nv);
            // the clashing cell holds the same digit in c
            if input[q] != 0 {
                assert(c[q] == input[q]);
            } else {
                let j = lemma_blank_index(input, b, q);
                if j < i {
                    assert(b[j] < b[i]);
                    assert(c[q] == v[q]);
                } else if j > i {
                    assert(b[i] < b[j]);
                }
            }
            assert(c[q] == c[p]);
            assert(!clash_free_at(c, p));
        }
    }
    let d1 = digits(v, b, i);
    let d2 = digits(v2, b, i);
    assert forall|j: int| 0 <= j < b.len() implies 0 <= #[trigger] d1[j] <= 10 && 0 <= d2[j] <= 10 by {
        if j < i { assert(b[j] < b[i]); }
        if j > i { assert(b[i] < b[j]); }
    }
    assert forall|j: int| 0 <= j < i implies d1[j] == d2[j] by {
        assert(b[j] < b[i]);
    }
    lemma_code_lex(d1, d2, i);
}

/// A digit that fits: the search moves on to the next blank.
proof fn lemma_advance(input: Seq<u8>, v: Seq<u8>, b: Seq<usize>, i: int)
    requires
        layout_inv(input, v, b, i),
        frontier_inv(input, v, b, i),
        i < b.len(),
        v[b[i] as int] + 1 < 10,
        trial(v, b[i] as int).1 == 1,
    ensures
        layout_inv(input, trial(v, b[i] as int).0, b, i + 1),
        frontier_inv(input, trial(v, b[i] as int).0, b, i + 1),
        code(digits(v, b, i)) < code(digits(trial(v, b[i] as int).0, b, i + 1)),
        base11_digits(digits(trial(v, b[i] as int).0, b, i + 1)),
{
    let p = b[i] as int;
    let nv = (v[p] + 1) as u8;
    let v2 = v.update(p, nv);
    assert(v2 == trial(v, p).0);
    assert(input[p] == 0);
    assert(clash_free_at(v2, p));
    assert forall|j: int| 0 <= j < i + 1 implies 1 <= #[trigger] v2[b[j] as int] by {
        if j < i { assert(b[j] < b[i]); }
    }
    assert forall|j: int| i + 1 < j < b.len() implies #[trigger] v2[b[j] as int] == 0 by {
        assert(b[i] < b[j]);
    }
    assert forall|j: int, r: int|
        0 <= j < i + 1 && 0 <= r < 81 && r != b[j] && #[trigger] same_group(b[j] as int, r) && (i
            + 1 < b.len() ==> r != b[i + 1]) implies v2[r] != v2[b[j] as int] by {
        if j < i {
            assert(b[j] < b[i]);
            if r == p {
                assert(same_group(p, b[j] as int));
            }
        }
    }
    let n: int = if i + 1 < b.len() { b[i + 1] as int } else { 81 };
    if i + 1 < b.len() {
        assert(b[i] < b[i + 1]);
    }
    assert forall|c: Seq<u8>| #[trigger] completes(input, c) implies !precedes(c, v2, n) && (i + 1
        < b.len() ==> !reached(c, v2, n)) by {
        assert(!precedes(c, v, p) && !reached(c, v, p));
        if precedes(c, v2, n) {
            let w = choose|w: int| 0 <= w < n && #[trigger] agree_below(c, v2, w) && c[w] < v2[w];
            if w < p {
                assert(agree_below(c, v, w));
            } else if w == p {
                assert(agree_below(c, v, p));
            } else {
                lemma_gap(input, b, i + 1, w);
            }
        }
        if i + 1 < b.len() {
            assert(input[n] == 0);
            assert(v2[n] == 0);
        }
    }
    let d1 = digits(v, b, i);
    let d2 = digits(v2, b, i + 1);
    assert forall|j: int| 0 <= j < b.len() implies 0 <= #[trigger] d1[j] <= 10 && 0 <= d2[j] <= 10 by {
        if j < i { assert(b[j] < b[i]); }
        if j > i { assert(b[i] < b[j]); }
    }
    assert forall|j: int| 0 <= j < i implies d1[j] == d2[j] by {
        assert(b[j] < b[i]);
    }
    lemma_code_lex(d1, d2, i);
}

/// Every digit tried at a blank past the first: the search resets it and steps back.
proof fn lemma_back(input: Seq<u8>, v: Seq<u8>, b: Seq<usize>, i: int)
    requires
        layout_inv(input, v, b, i),
        frontier_inv(input, v, b, i),
        0 < i < b.len(),
        v[b[i] as int] == 9,
    ensures
        layout_inv(input, trial(v, b[i] as int).0, b, i - 1),
        frontier_inv(input, trial(v, b[i] as int).0, b, i - 1),
        code(digits(v, b, i)) < code(digits(trial(v, b[i] as int).0, b, i - 1)),
        base11_digits(digits(trial(v, b[i] as int).0, b, i - 1)),
{
    let p = b[i] as int;
    let v2 = v.update(p, 0);
    assert(v2 == trial(v, p).0);
    assert(input[p] == 0);
    let n = b[i - 1] as int;
    assert(n < p);
    assert forall|j: int| 0 <= j < i - 1 implies 1 <= #[trigger] v2[b[j] as int] by {
        assert(b[j] < b[i]);
    }
    assert forall|j: int| i - 1 < j < b.len() implies #[trigger] v2[b[j] as int] == 0 by {
        if j > i { assert(b[i] < b[j]); }
    }
    assert forall|j: int, r: int|
        0 <= j < i - 1 && 0 <= r < 81 && r != b[j] && #[trigger] same_group(b[j] as int, r) && (i
            - 1 < b.len() ==> r != b[i - 1]) implies v2[r] != v2[b[j] as int] by {
        assert(b[j] < b[i]);
    }
    assert forall|c: Seq<u8>| #[trigger] completes(input, c) implies !precedes(c, v2, n)
        && !reached(c, v2, n) by {
        assert(!precedes(c, v, p) && !reached(c, v, p));
        if precedes(c, v2, n) {
            let w = choose|w: int| 0 <= w < n && #[trigger] agree_below(c, v2, w) && c[w] < v2[w];
            assert(agree_below(c, v, w));
        }
        if reached(c, v2, n) {
            assert(agree_below(c, v, n));
            if c[n] < v[n] {
                assert(agree_below(c, v, n) && c[n] < v[n]);
            } else {
                assert forall|w: int| 0 <= w < p implies #[trigger] c[w] == v[w] by {
                    if n < w {
                        lemma_gap(input, b, i, w);
                    }
                }
                assert(agree_below(c, v, p));
            }
        }
    }
    let d1 = digits(v, b, i);
    let d2 = digits(v2, b, i - 1);
    assert forall|j: int| 0 <= j < b.len() implies 0 <= #[trigger] d1[j] <= 10 && 0 <= d2[j] <= 10 by {
        if j < i { assert(b[j] < b[i]); }
        if j > i { assert(b[i] < b[j]); }
    }
    assert forall|j: int| 0 <= j < i implies d1[j] == d2[j] by {
        assert(b[j] < b[i]);
    }
    lemma_code_lex(d1, d2, i);
}

/// Every digit tried at the first blank: no completion exists.
proof fn lemma_exhausted(input: Seq<u8>, v: Seq<u8>, b: Seq<usize>)
    requires
        layout_inv(input, v, b, 0),
        frontier_inv(input, v, b, 0),
        0 < b.len(),
        v[b[0] as int] == 9,
    ensures
        layout_inv(input, trial(v, b[0] as int).0, b, 0),
        forall|c: Seq<u8>| !completes(input, c),
{
    let p = b[0] as int;
    let v2 = v.update(p, 0);
    assert(v2 == trial(v, p).0);
    assert forall|j: int| 0 < j < b.len() implies #[trigger] v2[b[j] as int] == 0 by {
        assert(b[0] < b[j]);
    }
    assert forall|c: Seq<u8>| !completes(input, c) by {
        if completes(input, c) {
            assert(!reached(c, v, p));
            assert forall|w: int| 0 <= w < p implies #[trigger] c[w] == v[w] by {
                lemma_gap(input, b, 0, w);
            }
            assert(agree_below(c, v, p));
            assert(input[p] == 0);
        }
    }
}

/// Every blank filled: the board is the least completion.
proof fn lemma_done(input: Seq<u8>, v: Seq<u8>, b: Seq<usize>)
    requires
        layout_inv(input, v, b, b.len() as int),
        frontier_inv(input, v, b, b.len() as int),
    ensures
        least_completion(input, v),
{
    assert forall|p: int| 0 <= p < 81 && input[p] == 0 implies 1 <= #[trigger] v[p] <= 9
        && clash_free_at(v, p) by {
        let j = lemma_blank_index(input, b, p);
        assert(v[b[j] as int] >= 1);
        assert forall|q: int| 0 <= q < 81 && q != p && #[trigger] same_group(p, q) implies v[q] != v[p] by {
            assert(same_group(b[j] as int, q));
        }
    }
}

/// No other cell of the group of kind `kind` through `p` holds the value at `p`: the
/// value at `p` occurs exactly once among the nine members of that group.
fn fits_group(grid: &Grid, kind: GroupKind, p: usize) -> (r: bool)
    requires
        grid.wf(),
        p < 81,
    ensures
        r == (forall|q: int|
            0 <= q < 81 && q != p && group_of(kind, q) == group_of(kind, p as int) ==> grid@[q]
                != grid@[p as int]),
{
    let g = group_index(kind, p);
    let v = grid.get(p);
    let ghost k0 = slot_of(kind, p as int);
    proof {
        lemma_cell_of_slot(kind, p as int);
    }
    let mut count: usize = 0;
    let mut k: usize = 0;
    while k < 9
        invariant
            grid.wf(),
            g < 9,
            0 <= k0 < 9,
            cell_of(kind, g as int, k0) == p,
            v == grid@[p as int],
            k <= 9,
            count <= k,
            count >= (if k0 < k { 1int } else { 0 }),
            (count == (if k0 < k { 1int } else { 0 })) <==> (forall|j: int|
                0 <= j < k && j != k0 ==> grid@[#[trigger] cell_of(kind, g as int, j)] != v),
        decreases 9 - k,
    {
        let q = group_cell(kind, g, k);
        if grid.get(q) == v {
            count += 1;
        }
        k += 1;
    }
    let r = count == 1;
    proof {
        if r {
            assert forall|q: int|
                0 <= q < 81 && q != p && group_of(kind, q) == group_of(kind, p as int) implies grid@[q]
                != grid@[p as int] by {
                lemma_cell_of_slot(kind, q);
                let j = slot_of(kind, q);
                assert(cell_of(kind, g as int, j) == q);
            }
        } else {
            let j = choose|j: int| 0 <= j < 9 && j != k0 && grid@[#[trigger] cell_of(kind, g as int, j)] == v;
            lemma_cell_in_group(kind, g as int, j);
            lemma_cell_in_group(kind, g as int, k0);
        }
    }
    r
}

/// The digit at `p` clashes with no cell of its row, column or box.
fn fits(grid: &Grid, p: usize) -> (r: bool)
    requires
        grid.wf(),
        p < 81,
    ensures
        r == clash_free_at(grid@, p as int),
{
    let row_ok = fits_group(grid, GroupKind::Row, p);
    let col_ok = fits_group(grid, GroupKind::Col, p);
    let box_ok = fits_group(grid, GroupKind::Box, p);
    proof {
        if row_ok && col_ok && box_ok {
            assert forall|q: int| 0 <= q < 81 && q != p && #[trigger] same_group(p as int, q) implies grid@[q]
                != grid@[p as int] by {
                if group_of(GroupKind::Row, q) == group_of(GroupKind::Row, p as int) {
                } else if group_of(GroupKind::Col, q) == group_of(GroupKind::Col, p as int) {
                } else {
                }
            }
        } else if !row_ok {
            let q = choose|q: int| 0 <= q < 81 && q != p && group_of(GroupKind::Row, q) == group_of(GroupKind::Row, p as int) && grid@[q] == grid@[p as int];
            assert(same_group(p as int, q));
        } else if !col_ok {
            let q = choose|q: int| 0 <= q < 81 && q != p && group_of(GroupKind::Col, q) == group_of(GroupKind::Col, p as int) && grid@[q] == grid@[p as int];
            assert(same_group(p as int, q));
        } else {
            let q = choose|q: int| 0 <= q < 81 && q != p && group_of(GroupKind::Box, q) == group_of(GroupKind::Box, p as int) && grid@[q] == grid@[p as int];
            assert(same_group(p as int, q));
        }
    }
    row_ok && col_ok && box_ok
}

/// What a trial step left behind.
#[derive(Clone, Copy, Debug, PartialEq, Eq, Structural)]
pub enum Step {
    /// Blanks remain to be filled.
    Running,
    /// Every blank holds a digit that clashes with nothing.
    Solved,
    /// Every digit was tried at the first blank: the puzzle has no solution.
    Exhausted,
}

/// The puzzle admits no assignment of digits to its blanks.
#[derive(Clone, Copy, Debug, PartialEq, Eq, Structural)]
pub struct NoSolution;

/// A backtracking search in progress: the board, the blank positions of the starting
/// board in ascending order, and a cursor into that list.
pub struct Search {
    grid: Grid,
    blanks: Vec<usize>,
    cursor: usize,
    exhausted: bool,
    start: Ghost<Seq<u8>>,
}

impl Search {
    /// The board as it stands.
    pub closed spec fn board(&self) -> Seq<u8> {
        self.grid@
    }

    /// The board the search started from.
    pub closed spec fn start(&self) -> Seq<u8> {
        self.start@
    }

    /// The blank positions of the starting board, ascending.
    pub closed spec fn blanks(&self) -> Seq<usize> {
        self.blanks@
    }

    /// Index into `blanks()` of the cell being tried.
    pub closed spec fn position(&self) -> int {
        self.cursor as int
    }

    pub closed spec fn is_exhausted(&self) -> bool {
        self.exhausted
    }

    pub open spec fn is_solved(&self) -> bool {
        !self.is_exhausted() && self.position() == self.blanks().len()
    }

    pub open spec fn finished(&self) -> bool {
        self.is_solved() || self.is_exhausted()
    }

    pub closed spec fn inv(&self) -> bool {
        &&& self.grid.wf()
        &&& if self.exhausted {
            &&& layout_inv(self.start@, self.grid@, self.blanks@, 0)
            &&& self.cursor == 0
            &&& forall|c: Seq<u8>| !completes(self.start@, c)
        } else {
            &&& layout_inv(self.start@, self.grid@, self.blanks@, self.cursor as int)
            &&& frontier_inv(self.start@, self.grid@, self.blanks@, self.cursor as int)
        }
    }

    /// Grows with every trial step; bounded by `progress_bound()`.
    pub closed spec fn progress(&self) -> int {
        if self.exhausted {
            pow11(self.blanks@.len())
        } else {
            code(digits(self.grid@, self.blanks@, self.cursor as int))
        }
    }

    pub closed spec fn progress_bound(&self) -> int {
        pow11(self.blanks@.len())
    }

    /// Starts a search on `grid`: the cursor on its first blank.
    pub fn new(grid: Grid) -> (s: Search)
        requires
            grid.wf(),
        ensures
            s.inv(),
            s.start() == grid@,
            s.board() == grid@,
            is_blank_list(grid@, s.blanks()),
            s.position() == 0,
            !s.is_exhausted(),
            s.progress() <= s.progress_bound(),
    {
        let blanks = grid.guess_idxs();
        proof {
            lemma_init(grid@, blanks@);
            let d = digits(grid@, blanks@, 0);
            assert forall|j: int| 0 <= j < d.len() implies 0 <= #[trigger] d[j] <= 10 by {}
            lemma_code_bound(d);
        }
        Search { start: Ghost(grid@), grid, blanks, cursor: 0, exhausted: false }
    }

    /// The board as it stands.
    pub fn grid(&self) -> (g: &Grid)
        requires
            self.inv(),
        ensures
            g.wf(),
            g@ == self.board(),
    {
        &self.grid
    }

    /// Gives up the board.
    pub fn into_grid(self) -> (g: Grid)
        requires
            self.inv(),
        ensures
            g.wf(),
            g@ == self.board(),
    {
        self.grid
    }

    /// Whether the search has ended, and how.
    pub fn state(&self) -> (s: Step)
        requires
            self.inv(),
        ensures
            s == Step::Solved <==> self.is_solved(),
            s == Step::Exhausted <==> self.is_exhausted(),
    {
        if self.exhausted {
            Step::Exhausted
        } else if self.cursor == self.blanks.len() {
            Step::Solved
        } else {
            Step::Running
        }
    }

    /// One trial step: the blank under the cursor takes its next digit. Past 9 it is
    /// reset to blank and the cursor steps back (before the first blank the search is
    /// exhausted); a digit that clashes with nothing moves the cursor forward; one that
    /// clashes keeps it in place.
    pub fn step(&mut self) -> (s: Step)
        requires
            old(self).inv(),
        ensures
            final(self).inv(),
            final(self).start() == old(self).start(),
            final(self).blanks() == old(self).blanks(),
            old(self).finished() ==> *final(self) == *old(self),
            !old(self).finished() ==> ({
                let (next, dir) = trial(old(self).board(), old(self).blanks()[old(self).position()] as int);
                &&& final(self).board() == next
                &&& if dir == -1 && old(self).position() == 0 {
                    final(self).is_exhausted() && final(self).position() == 0
                } else {
                    !final(self).is_exhausted() && final(self).position() == old(self).position() + dir
                }
            }),
            s == Step::Solved <==> final(self).is_solved(),
            s == Step::Exhausted <==> final(self).is_exhausted(),
            final(self).is_exhausted() ==> forall|c: Seq<u8>| !completes(final(self).start(), c),
            final(self).is_solved() ==> least_completion(final(self).start(), final(self).board()),
            !old(self).finished() ==> old(self).progress() < final(self).progress(),
            final(self).progress() <= final(self).progress_bound(),
    {
        proof {
            if !self.exhausted {
                lemma_code_bound(digits(self.grid@, self.blanks@, self.cursor as int));
                if self.cursor == self.blanks.len() {
                    lemma_done(self.start@, self.grid@, self.blanks@);
                }
            }
        }
        if self.exhausted {
            return Step::Exhausted;
        }
        if self.cursor == self.blanks.len() {
            return Step::Solved;
        }
        let i = self.cursor;
        let p = self.blanks[i];
        let ghost v = self.grid@;
        let ghost b = self.blanks@;
        let ghost input = self.start@;
        let next = self.grid.get(p) + 1;
        if next == 10 {
            self.grid.set(p, 0);
            if i == 0 {
                self.exhausted = true;
                proof {
                    lemma_exhausted(input, v, b);
                    lemma_code_bound(digits(v, b, 0));
                }
                return Step::Exhausted;
            }
            self.cursor = i - 1;
            proof {
                lemma_back(input, v, b, i as int);
                lemma_code_bound(digits(self.grid@, b, i - 1));
            }
            return Step::Running;
        }
        self.grid.set(p, next);
        if fits(&self.grid, p) {
            self.cursor = i + 1;
            proof {
                lemma_advance(input, v, b, i as int);
                lemma_code_bound(digits(self.grid@, b, i + 1));
                if i + 1 == b.len() {
                    lemma_done(input, self.grid@, b);
                }
            }
        } else {
            proof {
                lemma_stay(input, v, b, i as int);
                lemma_code_bound(digits(self.grid@, b, i as int));
            }
        }
        if self.cursor == self.blanks.len() {
            Step::Solved
        } else {
            Step::Running
        }
    }
}

impl Grid {
    /// Fills the blanks by backtracking: blanks in ascending position, digits 1..=9 in
    /// ascending order. The result is the least completion of the board, in
    /// lexicographic order; `NoSolution` when it has none.
    pub fn solve(self) -> (r: Result<Grid, NoSolution>)
        requires
            self.wf(),
        ensures
            r is Ok ==> r->Ok_0.wf() && least_completion(self@, r->Ok_0@),
            r is Err ==> forall|c: Seq<u8>| !completes(self@, c),
    {
        let ghost input = self@;
        let mut search = Search::new(self);
        loop
            invariant
                search.inv(),
                search.start() == input,
                input == self@,
                search.progress() <= search.progress_bound(),
            decreases search.progress_bound() - search.progress(),
        {
            let s = search.step();
            if s == Step::Solved {
                return Ok(search.into_grid());
            } else if s == Step::Exhausted {
                return Err(NoSolution);
            }
        }
    }
}

/// Every cell holds a digit 1..=9 and no row, column or box holds a digit twice: each
/// group's nine values are a permutation of 1..=9.
pub open spec fn solved(g: Seq<u8>) -> bool {
    &&& g.len() == 81
    &&& forall|p: int| 0 <= p < 81 ==> 1 <= #[trigger] g[p] <= 9 && clash_free_at(g, p)
}

/// No two filled cells of a row, column or box hold the same digit.
pub open spec fn givens_consistent(input: Seq<u8>) -> bool {
    forall|p: int, q: int|
        0 <= p < 81 && 0 <= q < 81 && p != q && #[trigger] same_group(p, q) && input[p] != 0
            ==> input[q] != input[p]
}

/// A board that a solve returns, from a start whose filled cells do not clash, is a
/// valid solved board.
pub proof fn lemma_solution_valid(input: Seq<u8>, g: Seq<u8>)
    requires
        valid_cells(input),
        givens_consistent(input),
        least_completion(input, g),
    ensures
        solved(g),
{
    assert forall|p: int| 0 <= p < 81 implies 1 <= #[trigger] g[p] <= 9 && clash_free_at(g, p) by {
        if input[p] != 0 {
            assert forall|q: int| 0 <= q < 81 && q != p && #[trigger] same_group(p, q) implies g[q] != g[p] by {
                if input[q] != 0 {
                    assert(same_group(p, q));
                } else {
                    assert(clash_free_at(g, q));
                    assert(same_group(q, p));
                }
            }
        }
    }
}

proof fn lemma_first_difference(a: Seq<u8>, b: Seq<u8>, k: int)
    requires
        a.len() == 81,
        b.len() == 81,
        a != b,
        0 <= k <= 81,
        agree_below(a, b, k),
    ensures
        lex_less(a, b) || lex_less(b, a),
    decreases 81 - k,
{
    if k == 81 {
        assert(a =~= b);
    } else if a[k] != b[k] {
        assert(agree_below(b, a, k));
        if a[k] < b[k] {
            assert(agree_below(a, b, k) && a[k] < b[k]);
        } else {
            assert(agree_below(b, a, k) && b[k] < a[k]);
        }
    } else {
        lemma_first_difference(a, b, k + 1);
    }
}

/// Solving the same board twice gives the same board: the least completion is unique.
pub proof fn lemma_solve_deterministic(input: Seq<u8>, g1: Seq<u8>, g2: Seq<u8>)
    requires
        least_completion(input, g1),
        least_completion(input, g2),
    ensures
        g1 == g2,
{
    if g1 != g2 {
        lemma_first_difference(g1, g2, 0);
    }
}

} // verus!
