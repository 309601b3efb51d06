//! The board: 81 cells addressed by `index = 9*row + col`, the geometry of
//! rows, columns and 3x3 regions, and the pure predicates the solver's
//! contracts are stated over.

use vstd::prelude::*;
use vstd::arithmetic::div_mod::{
    lemma_div_denominator, lemma_fundamental_div_mod, lemma_fundamental_div_mod_converse,
    lemma_mod_bound,
};
use vstd::set_lib::{lemma_int_range, lemma_len_subset, set_int_range};

verus! {

/// A group of cells examined together: the row, column or region of a cell,
/// or the union of all three.
#[derive(Clone, Copy, PartialEq, Eq, Structural, Debug)]
pub enum Area {
    Row,
    Col,
    Region,
    All,
}

/// First cell of the row containing cell `i`.
pub open spec fn spec_row_start(i: int) -> int {
    (i / 9) * 9
}

/// First (topmost) cell of the column containing cell `i`.
pub open spec fn spec_col_start(i: int) -> int {
    i % 9
}

/// Top-left cell of the 3x3 region containing cell `i`.
pub open spec fn spec_region_start(i: int) -> int {
    (i / 27) * 27 + ((i % 9) / 3) * 3
}

pub open spec fn same_row(i: int, j: int) -> bool {
    i / 9 == j / 9
}

pub open spec fn same_col(i: int, j: int) -> bool {
    i % 9 == j % 9
}

pub open spec fn same_region(i: int, j: int) -> bool {
    spec_region_start(i) == spec_region_start(j)
}

/// Cells `i` and `j` constrain each other: they share a row, column or region.
pub open spec fn sees(i: int, j: int) -> bool {
    same_row(i, j) || same_col(i, j) || same_region(i, j)
}

pub open spec fn in_area(area: Area, i: int, j: int) -> bool {
    match area {
        Area::Row => same_row(i, j),
        Area::Col => same_col(i, j),
        Area::Region => same_region(i, j),
        Area::All => sees(i, j),
    }
}

/// A well-formed grid: exactly 81 cells, each holding 0..=9.
pub open spec fn grid_wf(g: Seq<u8>) -> bool {
    &&& g.len() == 81
    &&& forall|i: int| 0 <= i < 81 ==> g[i] <= 9
}

/// Every cell is assigned.
pub open spec fn complete(g: Seq<u8>) -> bool {
    forall|i: int| 0 <= i < 81 ==> g[i] != 0
}

/// Value `v` already appears in the given area(s) of cell `i`.
pub open spec fn used_in(g: Seq<u8>, i: int, area: Area, v: u8) -> bool {
    exists|j: int| 0 <= j < 81 && in_area(area, i, j) && g[j] == v
}

/// Value `v` could legally be placed at cell `i` right now.
pub open spec fn is_free(g: Seq<u8>, i: int, v: u8) -> bool {
    1 <= v <= 9 && !used_in(g, i, Area::All, v)
}

/// `g2` keeps every assignment of `g1` (it may add more).
pub open spec fn extends(g2: Seq<u8>, g1: Seq<u8>) -> bool {
    &&& g2.len() == 81
    &&& g1.len() == 81
    &&& forall|i: int| 0 <= i < 81 && g1[i] != 0 ==> g2[i] == g1[i]
}

/// No two assigned cells that see each other hold the same value.
pub open spec fn consistent(g: Seq<u8>) -> bool {
    forall|i: int, j: int|
        0 <= i < 81 && 0 <= j < 81 && i != j && sees(i, j) && g[i] != 0 ==> g[i] != g[j]
}

/// The value at cell `i` clashes with no other cell it sees.
pub open spec fn no_conflict_at(g: Seq<u8>, i: int) -> bool {
    forall|j: int| 0 <= j < 81 && j != i && sees(i, j) ==> g[j] != g[i]
}

/// Every cell assigned in `g` but not in `g0` clashes with nothing in `g`:
/// the new assignments never violate a used value.
pub open spec fn sound_extension(g0: Seq<u8>, g: Seq<u8>) -> bool {
    forall|i: int| 0 <= i < 81 && g0[i] == 0 && #[trigger] g[i] != 0 ==> no_conflict_at(g, i)
}

/// Number of unassigned cells.
pub open spec fn num_empty(g: Seq<u8>) -> nat
    decreases g.len(),
{
    if g.len() == 0 {
        0
    } else {
        (if g[0] == 0 { 1nat } else { 0nat }) + num_empty(g.drop_first())
    }
}

/// The 81-cell board. Exposed cell values are always 0..=9.
pub struct Board {
    cells: Vec<u8>,
}

impl View for Board {
    type V = Seq<u8>;

    closed spec fn view(&self) -> Seq<u8> {
        self.cells@
    }
}

impl Board {
    pub open spec fn wf(&self) -> bool {
        grid_wf(self@)
    }

    /// Wraps 81 cells as a board; rejects malformed input (wrong length or a
    /// value above 9).
    pub fn from_cells(cells: Vec<u8>) -> (r: Option<Board>)
        ensures
            r is Some <==> grid_wf(cells@),
            r matches Some(b) ==> b@ == cells@ && b.wf(),
    {
        if cells.len() != 81 {
            return None;
        }
        let mut k: usize = 0;
        while k < 81
            invariant
                cells@.len() == 81,
                k <= 81,
                forall|t: int| 0 <= t < k ==> cells@[t] <= 9,
            decreases 81 - k,
        {
            if cells[k] > 9 {
                return None;
            }
            k += 1;
        }
        Some(Board { cells })
    }

    pub fn get(&self, i: usize) -> (v: u8)
        requires
            self.wf(),
            i < 81,
        ensures
            v == self@[i as int],
            v <= 9,
    {
        self.cells[i]
    }

    /// Assigns value `v` at cell `i`.
    pub fn assign(&mut self, i: usize, v: u8)
        requires
            old(self).wf(),
            i < 81,
            1 <= v <= 9,
        ensures
            final(self)@ == old(self)@.update(i as int, v),
            final(self).wf(),
    {
        self.cells[i] = v;
        assert(final(self).wf());
    }

    /// An independent copy of the board (each search branch owns one).
    pub fn duplicate(&self) -> (r: Board)
        requires
            self.wf(),
        ensures
            r@ == self@,
            r.wf(),
    {
        let mut c: Vec<u8> = Vec::new();
        let mut k: usize = 0;
        while k < 81
            invariant
                self.wf(),
                k <= 81,
                c@.len() == k,
                forall|t: int| 0 <= t < k ==> c@[t] == self@[t],
            decreases 81 - k,
        {
            c.push(self.cells[k]);
            k += 1;
        }
        assert(c@ =~= self@);
        Board { cells: c }
    }

    /// The raw cell values, row-major.
    pub fn cells(&self) -> (r: &Vec<u8>)
        ensures
            r@ == self@,
    {
        &self.cells
    }
}

/// The start cell of the area of kind `area` that contains cell `i`.
pub open spec fn area_start(area: Area, i: int) -> int {
    match area {
        Area::Row => spec_row_start(i),
        Area::Col => spec_col_start(i),
        Area::Region => spec_region_start(i),
        Area::All => i,
    }
}

/// The `k`-th cell (k in 0..9) of the area instance starting at `start`.
/// Meaningful for Row, Col and Region; All is never enumerated as one area.
pub open spec fn spec_area_cell(area: Area, start: int, k: int) -> int {
    match area {
        Area::Col => start + 9 * k,
        Area::Region => start + 9 * (k / 3) + k % 3,
        _ => start + k,
    }
}

/// Enumerating an area: with `s = area_start(area, i)`, the nine cells
/// `spec_area_cell(area, s, 0..9)` are exactly the cells sharing `i`'s row,
/// column or region, each listed once.
pub proof fn lemma_area_cover(area: Area, i: int)
    requires
        0 <= i < 81,
        !(area is All),
    ensures
        forall|k: int|
            0 <= k < 9 ==> 0 <= #[trigger] spec_area_cell(area, area_start(area, i), k) < 81
                && in_area(area, i, spec_area_cell(area, area_start(area, i), k)),
        forall|j: int|
            0 <= j < 81 && in_area(area, i, j) ==> exists|k: int|
                0 <= k < 9 && j == spec_area_cell(area, area_start(area, i), k),
        forall|k1: int, k2: int|
            0 <= k1 < 9 && 0 <= k2 < 9 && k1 != k2
                ==> #[trigger] spec_area_cell(area, area_start(area, i), k1)
                != #[trigger] spec_area_cell(area, area_start(area, i), k2),
{
    let s = area_start(area, i);
    match area {
        Area::Row => {
            lemma_fundamental_div_mod(i, 9);
            lemma_mod_bound(i, 9);
            assert forall|k: int|
                0 <= k < 9 implies 0 <= #[trigger] spec_area_cell(area, s, k) < 81
                && in_area(area, i, spec_area_cell(area, s, k)) by {
                lemma_fundamental_div_mod_converse(s + k, 9, i / 9, k);
            };
            assert forall|j: int| 0 <= j < 81 && in_area(area, i, j) implies exists|k: int|
                0 <= k < 9 && j == spec_area_cell(area, s, k) by {
                lemma_fundamental_div_mod(j, 9);
                lemma_mod_bound(j, 9);
                assert(0 <= j % 9 < 9 && j == spec_area_cell(area, s, j % 9));
            };
        },
        Area::Col => {
            lemma_fundamental_div_mod(i, 9);
            lemma_mod_bound(i, 9);
            assert forall|k: int|
                0 <= k < 9 implies 0 <= #[trigger] spec_area_cell(area, s, k) < 81
                && in_area(area, i, spec_area_cell(area, s, k)) by {
                lemma_fundamental_div_mod_converse(s + 9 * k, 9, k, s);
            };
            assert forall|j: int| 0 <= j < 81 && in_area(area, i, j) implies exists|k: int|
                0 <= k < 9 && j == spec_area_cell(area, s, k) by {
                lemma_fundamental_div_mod(j, 9);
                lemma_mod_bound(j, 9);
                assert(0 <= j / 9 < 9 && j == spec_area_cell(area, s, j / 9));
            };
        },
        Area::Region => {
            let a = i / 27;
            let b = (i % 9) / 3;
            lemma_fundamental_div_mod(i, 27);
            lemma_mod_bound(i, 27);
            lemma_fundamental_div_mod(i, 9);
            lemma_mod_bound(i, 9);
            lemma_fundamental_div_mod(i % 9, 3);
            lemma_mod_bound(i % 9, 3);
            assert(0 <= a < 3 && 0 <= b < 3);
            assert(s == 27 * a + 3 * b);
            assert forall|k: int|
                0 <= k < 9 implies 0 <= #[trigger] spec_area_cell(area, s, k) < 81
                && in_area(area, i, spec_area_cell(area, s, k)) by {
                let r = k / 3;
                let c = k % 3;
                lemma_fundamental_div_mod(k, 3);
                lemma_mod_bound(k, 3);
                assert(0 <= r < 3 && 0 <= c < 3);
                let cell = spec_area_cell(area, s, k);
                assert(cell == 27 * a + 9 * r + 3 * b + c);
                lemma_fundamental_div_mod_converse(cell, 27, a, 9 * r + 3 * b + c);
                lemma_fundamental_div_mod_converse(cell, 9, 3 * a + r, 3 * b + c);
                lemma_fundamental_div_mod_converse(3 * b + c, 3, b, c);
                assert(spec_region_start(cell) == 27 * a + 3 * b);
            };
            assert forall|j: int| 0 <= j < 81 && in_area(area, i, j) implies exists|k: int|
                0 <= k < 9 && j == spec_area_cell(area, s, k) by {
                let q = j / 9;
                let w = j % 9;
                lemma_fundamental_div_mod(j, 9);
                lemma_mod_bound(j, 9);
                lemma_div_denominator(j, 9, 3);
                lemma_fundamental_div_mod(q, 3);
                lemma_mod_bound(q, 3);
                lemma_fundamental_div_mod(w, 3);
                lemma_mod_bound(w, 3);
                assert(0 <= q < 9);
                assert(spec_region_start(j) == 27 * (q / 3) + 3 * (w / 3));
                assert(q / 3 == a && w / 3 == b);
                let k = 3 * (q % 3) + w % 3;
                lemma_fundamental_div_mod_converse(k, 3, q % 3, w % 3);
                assert(0 <= k < 9 && j == spec_area_cell(area, s, k));
            };
            assert forall|k1: int, k2: int|
                0 <= k1 < 9 && 0 <= k2 < 9 && k1 != k2
                implies #[trigger] spec_area_cell(area, s, k1)
                != #[trigger] spec_area_cell(area, s, k2) by {
                lemma_fundamental_div_mod(k1, 3);
                lemma_mod_bound(k1, 3);
                lemma_fundamental_div_mod(k2, 3);
                lemma_mod_bound(k2, 3);
            };
        },
        Area::All => {},
    }
}

/// Membership in the union area decomposes into the three single areas.
pub proof fn lemma_used_all(g: Seq<u8>, i: int, v: u8)
    ensures
        used_in(g, i, Area::All, v) <==> (used_in(g, i, Area::Row, v) || used_in(
            g,
            i,
            Area::Col,
            v,
        ) || used_in(g, i, Area::Region, v)),
{
    if used_in(g, i, Area::All, v) {
        let j = choose|j: int| 0 <= j < 81 && in_area(Area::All, i, j) && g[j] == v;
        if same_row(i, j) {
            assert(0 <= j < 81 && in_area(Area::Row, i, j) && g[j] == v);
        } else if same_col(i, j) {
            assert(0 <= j < 81 && in_area(Area::Col, i, j) && g[j] == v);
        } else {
            assert(0 <= j < 81 && in_area(Area::Region, i, j) && g[j] == v);
        }
    }
    if used_in(g, i, Area::Row, v) {
        let j = choose|j: int| 0 <= j < 81 && in_area(Area::Row, i, j) && g[j] == v;
        assert(0 <= j < 81 && in_area(Area::All, i, j) && g[j] == v);
    }
    if used_in(g, i, Area::Col, v) {
        let j = choose|j: int| 0 <= j < 81 && in_area(Area::Col, i, j) && g[j] == v;
        assert(0 <= j < 81 && in_area(Area::All, i, j) && g[j] == v);
    }
    if used_in(g, i, Area::Region, v) {
        let j = choose|j: int| 0 <= j < 81 && in_area(Area::Region, i, j) && g[j] == v;
        assert(0 <= j < 81 && in_area(Area::All, i, j) && g[j] == v);
    }
}

/// Assigning one currently-unassigned cell removes exactly one empty cell.
pub proof fn lemma_num_empty_update(g: Seq<u8>, i: int, v: u8)
    requires
        0 <= i < g.len(),
        g[i] == 0,
        v != 0,
    ensures
        num_empty(g.update(i, v)) + 1 == num_empty(g),
    decreases g.len(),
{
    if i == 0 {
        assert(g.update(0, v).drop_first() =~= g.drop_first());
    } else {
        assert(g.update(i, v).drop_first() =~= g.drop_first().update(i - 1, v));
        lemma_num_empty_update(g.drop_first(), i - 1, v);
    }
}

pub proof fn lemma_num_empty_le_len(g: Seq<u8>)
    ensures
        num_empty(g) <= g.len(),
    decreases g.len(),
{
    if g.len() != 0 {
        lemma_num_empty_le_len(g.drop_first());
    }
}

/// An unassigned cell witnesses at least one empty cell.
pub proof fn lemma_num_empty_at_zero(g: Seq<u8>, i: int)
    requires
        0 <= i < g.len(),
        g[i] == 0,
    ensures
        num_empty(g) >= 1,
    decreases g.len(),
{
    if i > 0 {
        lemma_num_empty_at_zero(g.drop_first(), i - 1);
    }
}

/// A complete grid has no empty cell.
pub proof fn lemma_num_empty_complete(g: Seq<u8>)
    requires
        forall|i: int| 0 <= i < g.len() ==> g[i] != 0,
    ensures
        num_empty(g) == 0,
    decreases g.len(),
{
    if g.len() != 0 {
        lemma_num_empty_complete(g.drop_first());
    }
}

/// Keeping assignments is transitive.
pub proof fn lemma_trans_extends(g2: Seq<u8>, g1: Seq<u8>, g0: Seq<u8>)
    requires
        extends(g2, g1),
        extends(g1, g0),
    ensures
        extends(g2, g0),
{
}

/// Soundness of new assignments composes across two extension steps.
pub proof fn lemma_trans_sound(g0: Seq<u8>, g1: Seq<u8>, g2: Seq<u8>)
    requires
        g0.len() == 81,
        g1.len() == 81,
        g2.len() == 81,
        extends(g1, g0),
        extends(g2, g1),
        sound_extension(g0, g1),
        sound_extension(g1, g2),
    ensures
        sound_extension(g0, g2),
{
    assert forall|i: int|
        0 <= i < 81 && g0[i] == 0 && #[trigger] g2[i] != 0 implies no_conflict_at(g2, i) by {
        if g1[i] == 0 {
            assert(no_conflict_at(g2, i));
        } else {
            assert(no_conflict_at(g1, i));
            assert forall|j: int| 0 <= j < 81 && j != i && sees(i, j) implies g2[j] != g2[i] by {
                if g1[j] != 0 {
                    assert(g2[j] == g1[j] && g2[i] == g1[i]);
                } else if g2[j] != 0 {
                    assert(no_conflict_at(g2, j));
                    assert(sees(j, i));
                }
            };
        }
    };
}

/// Assigning a currently-free value at an unassigned cell keeps the extension
/// sound: the new cell clashes with nothing, and earlier new assignments keep
/// clashing with nothing.
pub proof fn lemma_assign_free(g0: Seq<u8>, g: Seq<u8>, i: int, v: u8)
    requires
        g0.len() == 81,
        g.len() == 81,
        extends(g, g0),
        sound_extension(g0, g),
        0 <= i < 81,
        g[i] == 0,
        is_free(g, i, v),
    ensures
        extends(g.update(i, v), g0),
        sound_extension(g0, g.update(i, v)),
{
    let g2 = g.update(i, v);
    assert forall|t: int| 0 <= t < 81 && g0[t] == 0 && #[trigger] g2[t] != 0 implies no_conflict_at(
        g2,
        t,
    ) by {
        if t == i {
            assert forall|j: int| 0 <= j < 81 && j != i && sees(i, j) implies g2[j] != g2[i] by {
                if g[j] == v {
                    assert(0 <= j < 81 && in_area(Area::All, i, j) && g[j] == v);
                    assert(used_in(g, i, Area::All, v));
                }
            };
        } else {
            assert(g[t] != 0);
            assert(no_conflict_at(g, t));
            assert forall|j: int| 0 <= j < 81 && j != t && sees(t, j) implies g2[j] != g2[t] by {
                if j == i {
                    if v == g[t] {
                        assert(sees(i, t));
                        assert(0 <= t < 81 && in_area(Area::All, i, t) && g[t] == v);
                        assert(used_in(g, i, Area::All, v));
                    }
                }
            };
        }
    };
}

/// A sound extension of a consistent grid is consistent.
pub proof fn lemma_sound_extension_consistent(g0: Seq<u8>, g: Seq<u8>)
    requires
        g0.len() == 81,
        g.len() == 81,
        extends(g, g0),
        sound_extension(g0, g),
        consistent(g0),
    ensures
        consistent(g),
{
    assert forall|i: int, j: int|
        0 <= i < 81 && 0 <= j < 81 && i != j && sees(i, j) && g[i] != 0 implies g[i] != g[j] by {
        if g0[i] == 0 {
            assert(no_conflict_at(g, i));
        } else if g[j] != 0 && g0[j] == 0 {
            assert(no_conflict_at(g, j));
            assert(sees(j, i));
        }
    };
}

/// Value `v` occurs exactly once among the nine cells of the area instance
/// starting at `s`.
pub open spec fn area_exactly_once(g: Seq<u8>, area: Area, s: int, v: u8) -> bool {
    &&& exists|k: int| 0 <= k < 9 && g[spec_area_cell(area, s, k)] == v
    &&& forall|k1: int, k2: int|
        0 <= k1 < 9 && 0 <= k2 < 9 && g[spec_area_cell(area, s, k1)] == v && g[spec_area_cell(
            area,
            s,
            k2,
        )] == v ==> k1 == k2
}

/// A valid solution: complete, and every row, column and region contains
/// each of 1..=9 exactly once.
pub open spec fn grid_valid(g: Seq<u8>) -> bool {
    &&& grid_wf(g)
    &&& complete(g)
    &&& forall|area: Area, i: int, v: u8|
        !(area is All) && 0 <= i < 81 && 1 <= v <= 9 ==> area_exactly_once(
            g,
            area,
            area_start(area, i),
            v,
        )
}

/// `g2` could still become every valid solution `g1` could become: whatever
/// `g2` assigned beyond `g1` was forced.
pub open spec fn preserves_completions(g1: Seq<u8>, g2: Seq<u8>) -> bool {
    forall|s: Seq<u8>| grid_valid(s) && extends(s, g1) ==> extends(s, g2)
}

pub proof fn lemma_preserves_trans(g1: Seq<u8>, g2: Seq<u8>, g3: Seq<u8>)
    requires
        preserves_completions(g1, g2),
        preserves_completions(g2, g3),
    ensures
        preserves_completions(g1, g3),
{
    assert forall|s: Seq<u8>| grid_valid(s) && extends(s, g1) implies extends(s, g3) by {
        assert(extends(s, g2));
    };
}

/// The set of values taken by the first `n` cells of an area instance whose
/// nine cells hold pairwise distinct values has exactly `n` elements.
proof fn lemma_distinct_vals_card(g: Seq<u8>, area: Area, s: int, n: int)
    requires
        0 <= n <= 9,
        g.len() == 81,
        forall|k: int| 0 <= k < 9 ==> 0 <= #[trigger] spec_area_cell(area, s, k) < 81,
        forall|k1: int, k2: int|
            0 <= k1 < 9 && 0 <= k2 < 9 && k1 != k2 ==> g[#[trigger] spec_area_cell(area, s, k1)]
                != g[#[trigger] spec_area_cell(area, s, k2)],
    ensures
        Set::new(
            |x: int| exists|k: int| 0 <= k < n && g[spec_area_cell(area, s, k)] as int == x,
        ).finite(),
        Set::new(
            |x: int| exists|k: int| 0 <= k < n && g[spec_area_cell(area, s, k)] as int == x,
        ).len() == n,
    decreases n,
{
    let vs = Set::new(
        |x: int| exists|k: int| 0 <= k < n && g[spec_area_cell(area, s, k)] as int == x,
    );
    if n == 0 {
        assert(vs =~= Set::<int>::empty());
    } else {
        lemma_distinct_vals_card(g, area, s, n - 1);
        let prev = Set::new(
            |x: int| exists|k: int| 0 <= k < n - 1 && g[spec_area_cell(area, s, k)] as int == x,
        );
        let newv = g[spec_area_cell(area, s, n - 1)] as int;
        assert forall|x: int| vs.contains(x) implies prev.insert(newv).contains(x) by {
            let k = choose|k: int| 0 <= k < n && g[spec_area_cell(area, s, k)] as int == x;
            if k < n - 1 {
                assert(prev.contains(x));
            }
        };
        assert forall|x: int| prev.insert(newv).contains(x) implies vs.contains(x) by {
            if x == newv {
                assert(0 <= n - 1 < n && g[spec_area_cell(area, s, n - 1)] as int == x);
            } else {
                let k = choose|k: int|
                    0 <= k < n - 1 && g[spec_area_cell(area, s, k)] as int == x;
                assert(0 <= k < n && g[spec_area_cell(area, s, k)] as int == x);
            }
        };
        assert(vs =~= prev.insert(newv));
        assert(!prev.contains(newv)) by {
            if prev.contains(newv) {
                let k = choose|k: int|
                    0 <= k < n - 1 && g[spec_area_cell(area, s, k)] as int == newv;
                assert(g[spec_area_cell(area, s, k)] != g[spec_area_cell(area, s, n - 1)]);
            }
        };
        vstd::set::axiom_set_insert_len(prev, newv);
    }
}

/// Pigeonhole for one area instance: nine cells, pairwise distinct values,
/// all in 1..=9, therefore every value of 1..=9 occurs.
proof fn lemma_area_surjective(g: Seq<u8>, area: Area, s: int, v: u8)
    requires
        g.len() == 81,
        1 <= v <= 9,
        forall|k: int| 0 <= k < 9 ==> 0 <= #[trigger] spec_area_cell(area, s, k) < 81,
        forall|k: int| 0 <= k < 9 ==> 1 <= g[#[trigger] spec_area_cell(area, s, k)] <= 9,
        forall|k1: int, k2: int|
            0 <= k1 < 9 && 0 <= k2 < 9 && k1 != k2 ==> g[#[trigger] spec_area_cell(area, s, k1)]
                != g[#[trigger] spec_area_cell(area, s, k2)],
    ensures
        exists|k: int| 0 <= k < 9 && g[spec_area_cell(area, s, k)] == v,
{
    if !(exists|k: int| 0 <= k < 9 && g[spec_area_cell(area, s, k)] == v) {
        let vs = Set::new(
            |x: int| exists|k: int| 0 <= k < 9 && g[spec_area_cell(area, s, k)] as int == x,
        );
        lemma_distinct_vals_card(g, area, s, 9);
        let range = set_int_range(1, 10);
        lemma_int_range(1, 10);
        let holes = range.remove(v as int);
        vstd::set::axiom_set_remove_len(range, v as int);
        assert forall|x: int| vs.contains(x) implies holes.contains(x) by {
            let k = choose|k: int| 0 <= k < 9 && g[spec_area_cell(area, s, k)] as int == x;
            assert(1 <= g[spec_area_cell(area, s, k)] <= 9);
            assert(g[spec_area_cell(area, s, k)] != v);
        };
        lemma_len_subset(vs, holes);
    }
}

/// A complete, consistent grid is a valid solution.
pub proof fn lemma_complete_consistent_valid(g: Seq<u8>)
    requires
        grid_wf(g),
        complete(g),
        consistent(g),
    ensures
        grid_valid(g),
{
    assert forall|area: Area, i: int, v: u8|
        !(area is All) && 0 <= i < 81 && 1 <= v <= 9 implies area_exactly_once(
        g,
        area,
        area_start(area, i),
        v,
    ) by {
        lemma_area_cover(area, i);
        let s = area_start(area, i);
        assert forall|k1: int, k2: int|
            0 <= k1 < 9 && 0 <= k2 < 9 && k1 != k2 implies g[#[trigger] spec_area_cell(
            area,
            s,
            k1,
        )] != g[#[trigger] spec_area_cell(area, s, k2)] by {
            let c1 = spec_area_cell(area, s, k1);
            let c2 = spec_area_cell(area, s, k2);
            assert(in_area(area, i, c1) && in_area(area, i, c2));
            assert(sees(c1, c2));
            assert(g[c1] != 0);
        };
        lemma_area_surjective(g, area, s, v);
    };
}

/// In any grid that a valid solution `s` still extends, the value `s` holds
/// at an unassigned cell is free there: no forced assignment can disagree
/// with `s`.
pub proof fn lemma_completion_free(s: Seq<u8>, g: Seq<u8>, i: int)
    requires
        grid_valid(s),
        g.len() == 81,
        extends(s, g),
        0 <= i < 81,
        g[i] == 0,
    ensures
        is_free(g, i, s[i]),
{
    let v = s[i];
    assert(1 <= v <= 9);
    if used_in(g, i, Area::All, v) {
        let j = choose|j: int| 0 <= j < 81 && in_area(Area::All, i, j) && g[j] == v;
        assert(s[j] == v);
        assert(j != i);
        let kind = if same_row(i, j) {
            Area::Row
        } else if same_col(i, j) {
            Area::Col
        } else {
            Area::Region
        };
        lemma_area_cover(kind, i);
        assert(in_area(kind, i, i) && in_area(kind, i, j));
        let ki = choose|k: int| 0 <= k < 9 && i == spec_area_cell(kind, area_start(kind, i), k);
        let kj = choose|k: int| 0 <= k < 9 && j == spec_area_cell(kind, area_start(kind, i), k);
        assert(area_exactly_once(s, kind, area_start(kind, i), v));
        assert(ki == kj);
    }
}

/// A set of candidate values, a subset of 1..=9.
pub struct ValueSet {
    present: Vec<bool>,
}

impl ValueSet {
    pub closed spec fn wf(&self) -> bool {
        self.present@.len() == 10
    }

    /// Whether value `v` (0..=9) is in the set.
    pub closed spec fn has(&self, v: u8) -> bool {
        self.present@[v as int]
    }

    pub fn empty() -> (r: ValueSet)
        ensures
            r.wf(),
            forall|v: u8| v <= 9 ==> !r.has(v),
    {
        let mut p: Vec<bool> = Vec::new();
        let mut k: usize = 0;
        while k < 10
            invariant
                p@.len() == k,
                k <= 10,
                forall|t: int| 0 <= t < k ==> !p@[t],
            decreases 10 - k,
        {
            p.push(false);
            k += 1;
        }
        ValueSet { present: p }
    }

    pub fn insert(&mut self, v: u8)
        requires
            old(self).wf(),
            1 <= v <= 9,
        ensures
            final(self).wf(),
            forall|w: u8| w <= 9 ==> (final(self).has(w) <==> (old(self).has(w) || w == v)),
    {
        self.present[v as usize] = true;
    }

    pub fn contains(&self, v: u8) -> (r: bool)
        requires
            self.wf(),
            v <= 9,
        ensures
            r == self.has(v),
    {
        self.present[v as usize]
    }
}

/// The `k`-th cell (k in 0..9) of the area instance starting at `start`.
pub fn area_cell(area: Area, start: usize, k: usize) -> (r: usize)
    requires
        !(area is All),
        start < 81,
        k < 9,
        spec_area_cell(area, start as int, k as int) < 81,
    ensures
        r == spec_area_cell(area, start as int, k as int),
        r < 81,
{
    match area {
        Area::Col => start + 9 * k,
        Area::Region => start + 9 * (k / 3) + k % 3,
        _ => start + k,
    }
}

/// Converts a (row, col) address to the flat index.
pub fn id(row: usize, col: usize) -> (r: usize)
    requires
        row < 9,
        col < 9,
    ensures
        r == 9 * row + col,
        r < 81,
{
    9 * row + col
}

/// Given a flat index, the index of the first element in its row.
pub fn get_row_start(i: usize) -> (r: usize)
    requires
        i < 81,
    ensures
        r == spec_row_start(i as int),
        r <= i,
        r < 81,
{
    (i / 9) * 9
}

/// Given a flat index, the index of the first element in its column.
pub fn get_col_start(i: usize) -> (r: usize)
    requires
        i < 81,
    ensures
        r == spec_col_start(i as int),
        r < 9,
{
    i % 9
}

/// Given a flat index, the index of the top-left element of its region.
pub fn get_region_start(i: usize) -> (r: usize)
    requires
        i < 81,
    ensures
        r == spec_region_start(i as int),
        r < 81,
{
    ((i / 27) * 27) + (((i % 9) / 3) * 3)
}

} // verus!
