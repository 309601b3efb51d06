//! Deterministic constraint propagation: naked singles (a cell with exactly
//! one legal value) over the whole board in row-major order, then hidden
//! singles (a missing value that only one cell of an area can hold) per row,
//! per column and per region, repeated by the caller until a round assigns
//! nothing.

use vstd::prelude::*;
use vstd::arithmetic::div_mod::{
    lemma_fundamental_div_mod, lemma_fundamental_div_mod_converse, lemma_mod_bound,
};
use crate::grid::{
    area_cell, area_exactly_once, area_start, complete, extends, grid_valid, in_area, is_free,
    lemma_area_cover, lemma_assign_free, lemma_completion_free, lemma_num_empty_le_len,
    lemma_num_empty_update, lemma_preserves_trans, lemma_used_all, no_conflict_at, num_empty,
    preserves_completions, sees, sound_extension, spec_area_cell, used_in, Area, Board, ValueSet,
};

verus! {

/// Cell `i` has exactly one free value (a "naked single").
pub open spec fn exactly_one_free(g: Seq<u8>, i: int) -> bool {
    exists|v: u8|
        is_free(g, i, v) && (forall|w: u8| is_free(g, i, w) ==> w == v)
}

/// The start cell of the `t`-th instance (t in 0..9) of an area kind, in the
/// order the round processes them: rows top to bottom, columns left to
/// right, regions row-major.
pub open spec fn instance_start(kind: Area, t: int) -> int {
    match kind {
        Area::Row => 9 * t,
        Area::Region => 27 * (t / 3) + 3 * (t % 3),
        _ => t,
    }
}

/// Value `v` is missing from the area of kind `kind` starting at `s`, and
/// cell `p` is the only unassigned cell of that area that could hold it
/// (a "hidden single").
pub open spec fn hidden_single_at(g: Seq<u8>, kind: Area, s: int, v: u8, p: int) -> bool {
    &&& 1 <= v <= 9
    &&& !used_in(g, s, kind, v)
    &&& 0 <= p < 81 && in_area(kind, s, p) && g[p] == 0 && is_free(g, p, v)
    &&& forall|q: int|
        0 <= q < 81 && in_area(kind, s, q) && q != p ==> !(g[q] == 0 && is_free(g, q, v))
}

/// The unique free value of a naked-single cell.
pub open spec fn the_single_free(g: Seq<u8>, i: int) -> u8 {
    choose|v: u8| is_free(g, i, v) && (forall|w: u8| is_free(g, i, w) ==> w == v)
}

/// The grid after the naked-single rule has visited cells i..81 in row-major
/// order, committing each assignment at once.
pub open spec fn naked_from(g: Seq<u8>, i: int) -> Seq<u8>
    decreases 81 - i,
    when 0 <= i <= 81
{
    if i >= 81 {
        g
    } else if 0 <= i < g.len() && g[i] == 0 && exactly_one_free(g, i) {
        naked_from(g.update(i, the_single_free(g, i)), i + 1)
    } else {
        naked_from(g, i + 1)
    }
}

/// The cell of the hidden single for value `v` in the area of kind `kind`
/// starting at `s`, where one exists.
pub open spec fn the_hidden_cell(g: Seq<u8>, kind: Area, s: int, v: u8) -> int {
    choose|p: int| hidden_single_at(g, kind, s, v, p)
}

/// The grid after the hidden-single rule has considered value `v` in the
/// area of kind `kind` starting at `s`.
pub open spec fn hidden_step_spec(g: Seq<u8>, kind: Area, s: int, v: u8) -> Seq<u8> {
    if exists|p: int| hidden_single_at(g, kind, s, v, p) {
        g.update(the_hidden_cell(g, kind, s, v), v)
    } else {
        g
    }
}

/// The grid after the hidden-single rule has processed, in order, the area
/// instances t..9 of one kind, starting with values v..9 in instance t.
pub open spec fn hidden_from(g: Seq<u8>, kind: Area, t: int, v: int) -> Seq<u8>
    decreases 9 - t, 10 - v,
    when 0 <= t <= 9 && 1 <= v <= 10
{
    if t >= 9 {
        g
    } else if v >= 10 {
        hidden_from(g, kind, t + 1, 1)
    } else {
        hidden_from(hidden_step_spec(g, kind, instance_start(kind, t), v as u8), kind, t, v + 1)
    }
}

/// What one propagation round leaves on the board: the naked-single sweep
/// over all cells, then the hidden-single passes per row, per column and per
/// region. The round is a function of the board alone.
pub open spec fn round_spec(g: Seq<u8>) -> Seq<u8> {
    hidden_from(
        hidden_from(hidden_from(naked_from(g, 0), Area::Row, 0, 1), Area::Col, 0, 1),
        Area::Region,
        0,
        1,
    )
}

/// Accumulates into `used` the values assigned in the single area `kind` of
/// cell `i`.
#[verifier::loop_isolation(false)]
fn accumulate_area(board: &Board, i: usize, kind: Area, used: &mut ValueSet)
    requires
        board.wf(),
        i < 81,
        !(kind is All),
        old(used).wf(),
    ensures
        final(used).wf(),
        forall|v: u8|
            v <= 9 ==> (final(used).has(v) <==> (old(used).has(v) || (v != 0 && used_in(
                board@,
                i as int,
                kind,
                v,
            )))),
{
    let start: usize = match kind {
        Area::Row => crate::grid::get_row_start(i),
        Area::Col => crate::grid::get_col_start(i),
        Area::Region => crate::grid::get_region_start(i),
        Area::All => 0,
    };
    proof {
        lemma_area_cover(kind, i as int);
    }
    let mut k: usize = 0;
    while k < 9
        invariant
            used.wf(),
            k <= 9,
            start == area_start(kind, i as int),
            forall|v: u8|
                v <= 9 ==> (used.has(v) <==> (old(used).has(v) || (v != 0 && exists|t: int|
                    0 <= t < k && board@[spec_area_cell(kind, start as int, t)] == v))),
        decreases 9 - k,
    {
        let c = area_cell(kind, start, k);
        let val = board.get(c);
        if val != 0 {
            used.insert(val);
        }
        proof {
            assert forall|v: u8|
                v <= 9 implies (used.has(v) <==> (old(used).has(v) || (v != 0 && exists|t: int|
                0 <= t < k + 1 && board@[spec_area_cell(kind, start as int, t)] == v))) by {
                if v != 0 && board@[spec_area_cell(kind, start as int, k as int)] == v {
                    assert(0 <= k < k + 1 && board@[spec_area_cell(kind, start as int, k as int)]
                        == v);
                }
            };
        }
        k += 1;
    }
    proof {
        assert forall|v: u8|
            v <= 9 implies (used.has(v) <==> (old(used).has(v) || (v != 0 && used_in(
            board@,
            i as int,
            kind,
            v,
        )))) by {
            if v != 0 {
                if used.has(v) && !old(used).has(v) {
                    let t = choose|t: int|
                        0 <= t < 9 && board@[spec_area_cell(kind, start as int, t)] == v;
                    let c = spec_area_cell(kind, start as int, t);
                    assert(0 <= c < 81 && in_area(kind, i as int, c) && board@[c] == v);
                }
                if used_in(board@, i as int, kind, v) {
                    let j = choose|j: int|
                        0 <= j < 81 && in_area(kind, i as int, j) && board@[j] == v;
                    let t = choose|t: int|
                        0 <= t < 9 && j == spec_area_cell(kind, start as int, t);
                    assert(0 <= t < 9 && board@[spec_area_cell(kind, start as int, t)] == v);
                }
            }
        };
    }
}

/// Returns the set of values already used in the given area(s) of cell `i`.
pub fn get_used(board: &Board, i: usize, area: Area) -> (r: ValueSet)
    requires
        board.wf(),
        i < 81,
    ensures
        r.wf(),
        forall|v: u8| 1 <= v <= 9 ==> (r.has(v) <==> used_in(board@, i as int, area, v)),
        !r.has(0),
{
    let mut used = ValueSet::empty();
    if area == Area::Row || area == Area::All {
        accumulate_area(board, i, Area::Row, &mut used);
    }
    if area == Area::Col || area == Area::All {
        accumulate_area(board, i, Area::Col, &mut used);
    }
    if area == Area::Region || area == Area::All {
        accumulate_area(board, i, Area::Region, &mut used);
    }
    proof {
        if area is All {
            assert forall|v: u8|
                1 <= v <= 9 implies (used.has(v) <==> used_in(board@, i as int, area, v)) by {
                lemma_used_all(board@, i as int, v);
            };
        }
    }
    used
}

/// Returns the values of 1..=9 not yet used in the given area(s) of `start`.
/// With `Area::All` this is the free set of the cell `start`.
pub fn get_missing(board: &Board, area: Area, start: usize) -> (r: ValueSet)
    requires
        board.wf(),
        start < 81,
    ensures
        r.wf(),
        forall|v: u8| 1 <= v <= 9 ==> (r.has(v) <==> !used_in(board@, start as int, area, v)),
        !r.has(0),
{
    let used = get_used(board, start, area);
    let mut missing = ValueSet::empty();
    let mut v: u8 = 1;
    while v <= 9
        invariant
            board.wf(),
            start < 81,
            missing.wf(),
            used.wf(),
            1 <= v <= 10,
            forall|w: u8| 1 <= w <= 9 ==> (used.has(w) <==> used_in(board@, start as int, area, w)),
            forall|w: u8|
                1 <= w < v ==> (missing.has(w) <==> !used_in(board@, start as int, area, w)),
            forall|w: u8| v <= w <= 9 ==> !missing.has(w),
            !missing.has(0),
        decreases 10 - v,
    {
        if !used.contains(v) {
            missing.insert(v);
        }
        v += 1;
    }
    missing
}

/// True iff the puzzle is solved in the sense that every cell is assigned.
pub fn is_solved(board: &Board) -> (r: bool)
    requires
        board.wf(),
    ensures
        r == complete(board@),
{
    let mut i: usize = 0;
    while i < 81
        invariant
            board.wf(),
            i <= 81,
            forall|t: int| 0 <= t < i ==> board@[t] != 0,
        decreases 81 - i,
    {
        if board.get(i) == 0 {
            return false;
        }
        i += 1;
    }
    true
}

/// If cell `i` has exactly one free value, returns it.
#[verifier::loop_isolation(false)]
fn single_free_value(board: &Board, i: usize) -> (r: Option<u8>)
    requires
        board.wf(),
        i < 81,
    ensures
        r matches Some(v) ==> is_free(board@, i as int, v) && (forall|w: u8|
            is_free(board@, i as int, w) ==> w == v),
        r is None ==> !exactly_one_free(board@, i as int),
{
    let free = get_missing(board, Area::All, i);
    let mut count: usize = 0;
    let mut found: u8 = 0;
    let mut v: u8 = 1;
    while v <= 9
        invariant
            1 <= v <= 10,
            count < v,
            count >= 1 ==> 1 <= found < v && is_free(board@, i as int, found),
            count == 0 ==> forall|w: u8| 1 <= w < v ==> !is_free(board@, i as int, w),
            count == 1 ==> forall|w: u8| 1 <= w < v && is_free(board@, i as int, w) ==> w == found,
            count >= 2 ==> exists|w1: u8, w2: u8|
                w1 != w2 && is_free(board@, i as int, w1) && is_free(board@, i as int, w2),
        decreases 10 - v,
    {
        if free.contains(v) {
            proof {
                if count == 1 {
                    assert(found != v && is_free(board@, i as int, found) && is_free(
                        board@,
                        i as int,
                        v,
                    ));
                }
            }
            count += 1;
            if count == 1 {
                found = v;
            }
        }
        v += 1;
    }
    if count == 1 {
        Some(found)
    } else {
        proof {
            if count == 0 {
                assert forall|w: u8| !is_free(board@, i as int, w) by {
                    if 1 <= w <= 9 {
                        assert(!is_free(board@, i as int, w));
                    }
                };
            }
        }
        None
    }
}

/// Applies the hidden-single rule for one value in one area instance: if `v`
/// is missing from the area and exactly one unassigned cell of the area can
/// legally hold it, assigns it there. Such an assignment is forced: any
/// valid solution that extends the board places `v` at that very cell.
#[verifier::loop_isolation(false)]
#[verifier::rlimit(100)]
fn hidden_step(
    board: &mut Board,
    kind: Area,
    start: usize,
    v: u8,
    Ghost(g0): Ghost<Seq<u8>>,
) -> (stepped: bool)
    requires
        old(board).wf(),
        !(kind is All),
        g0.len() == 81,
        extends(old(board)@, g0),
        sound_extension(g0, old(board)@),
        start < 81,
        start == area_start(kind, start as int),
        1 <= v <= 9,
    ensures
        final(board).wf(),
        extends(final(board)@, g0),
        sound_extension(g0, final(board)@),
        preserves_completions(old(board)@, final(board)@),
        stepped ==> num_empty(old(board)@) == num_empty(final(board)@) + 1,
        !stepped ==> final(board)@ == old(board)@ && (forall|p: int|
            !hidden_single_at(old(board)@, kind, start as int, v, p)),
        final(board)@ == hidden_step_spec(old(board)@, kind, start as int, v),
{
    proof {
        lemma_area_cover(kind, start as int);
    }
    let used_area = get_used(board, start, kind);
    if used_area.contains(v) {
        return false;
    }
    // v is missing from this area; look for a unique fulfilling cell
    let mut cand: usize = 81;
    let mut multiple = false;
    let mut k: usize = 0;
    while k < 9
        invariant
            board.wf(),
            start < 81,
            start == area_start(kind, start as int),
            k <= 9,
            1 <= v <= 9,
            forall|kk: int|
                0 <= kk < 9 ==> 0 <= #[trigger] spec_area_cell(kind, start as int, kk) < 81,
            cand <= 81,
            !multiple && cand < 81 ==> board@[cand as int] == 0 && is_free(board@, cand as int, v),
            cand == 81 ==> !multiple,
            cand == 81 ==> forall|kk: int|
                0 <= kk < k ==> !(board@[#[trigger] spec_area_cell(kind, start as int, kk)] == 0
                    && is_free(board@, spec_area_cell(kind, start as int, kk), v)),
            cand < 81 && !multiple ==> (exists|kk: int|
                0 <= kk < k && cand as int == spec_area_cell(kind, start as int, kk)) && (forall|
                kk: int,
            |
                0 <= kk < k && board@[#[trigger] spec_area_cell(kind, start as int, kk)] == 0
                    && is_free(board@, spec_area_cell(kind, start as int, kk), v)
                    ==> spec_area_cell(kind, start as int, kk) == cand as int),
            multiple ==> exists|c1: int, c2: int|
                c1 != c2 && 0 <= c1 < 81 && 0 <= c2 < 81 && in_area(kind, start as int, c1)
                    && in_area(kind, start as int, c2) && board@[c1] == 0 && is_free(board@, c1, v)
                    && board@[c2] == 0 && is_free(board@, c2, v),
        decreases 9 - k,
    {
        let c = area_cell(kind, start, k);
        if board.get(c) == 0 {
            let fs = get_missing(board, Area::All, c);
            if fs.contains(v) {
                if cand == 81 {
                    cand = c;
                    proof {
                        assert(0 <= k < k + 1 && cand as int == spec_area_cell(
                            kind,
                            start as int,
                            k as int,
                        ));
                    }
                } else {
                    proof {
                        if !multiple {
                            let kk = choose|kk: int|
                                0 <= kk < k && cand as int == spec_area_cell(
                                    kind,
                                    start as int,
                                    kk,
                                );
                            assert(cand as int != c as int);
                            assert(in_area(kind, start as int, cand as int));
                            assert(in_area(kind, start as int, c as int));
                        }
                    }
                    multiple = true;
                }
            }
        }
        k += 1;
    }
    if cand < 81 && !multiple {
        proof {
            lemma_assign_free(g0, board@, cand as int, v);
            lemma_num_empty_update(board@, cand as int, v);
            assert forall|s: Seq<u8>|
                grid_valid(s) && extends(s, board@) implies extends(
                s,
                board@.update(cand as int, v),
            ) by {
                // the instance must hold v somewhere in s
                assert(area_exactly_once(s, kind, area_start(kind, start as int), v));
                let kq = choose|kk: int|
                    0 <= kk < 9 && s[spec_area_cell(kind, start as int, kk)] == v;
                let q = spec_area_cell(kind, start as int, kq);
                // that cell is still unassigned here, else v would be used
                if board@[q] != 0 {
                    assert(s[q] == board@[q]);
                    assert(0 <= q < 81 && in_area(kind, start as int, q) && board@[q] == v);
                    assert(used_in(board@, start as int, kind, v));
                }
                lemma_completion_free(s, board@, q);
                // so it is a fulfilling cell, hence the unique one found
                assert(q == cand as int);
            };
            // what was found is the hidden single of this value and area
            assert(hidden_single_at(board@, kind, start as int, v, cand as int)) by {
                assert(in_area(kind, start as int, cand as int));
                assert forall|q: int|
                    0 <= q < 81 && in_area(kind, start as int, q) && q != cand as int implies !(
                board@[q] == 0 && is_free(board@, q, v)) by {
                    if board@[q] == 0 && is_free(board@, q, v) {
                        let kq = choose|kk: int|
                            0 <= kk < 9 && q == spec_area_cell(kind, start as int, kk);
                        assert(q == cand as int);
                    }
                };
            };
            assert(the_hidden_cell(board@, kind, start as int, v) == cand as int) by {
                let p = the_hidden_cell(board@, kind, start as int, v);
                assert(hidden_single_at(board@, kind, start as int, v, p));
                if p != cand as int {
                    assert(!(board@[p] == 0 && is_free(board@, p, v)));
                }
            };
        }
        board.assign(cand, v);
        true
    } else {
        proof {
            assert forall|p: int| !hidden_single_at(board@, kind, start as int, v, p) by {
                if hidden_single_at(board@, kind, start as int, v, p) {
                    let kp = choose|kk: int|
                        0 <= kk < 9 && p == spec_area_cell(kind, start as int, kk);
                    if cand == 81 {
                        assert(!(board@[p] == 0 && is_free(board@, p, v)));
                    } else {
                        let (c1, c2) = choose|c1: int, c2: int|
                            c1 != c2 && 0 <= c1 < 81 && 0 <= c2 < 81 && in_area(
                                kind,
                                start as int,
                                c1,
                            ) && in_area(kind, start as int, c2) && board@[c1] == 0 && is_free(
                                board@,
                                c1,
                                v,
                            ) && board@[c2] == 0 && is_free(board@, c2, v);
                        assert(c1 == p && c2 == p);
                    }
                }
            };
        }
        false
    }
}

/// One pass of the hidden-single rule over the nine instances of one area
/// kind: for each missing value of the instance, if exactly one unassigned
/// cell can hold it, assign it there at once.
#[verifier::loop_isolation(false)]
fn hidden_pass(board: &mut Board, kind: Area, Ghost(g0): Ghost<Seq<u8>>) -> (n: usize)
    requires
        old(board).wf(),
        !(kind is All),
        g0.len() == 81,
        extends(old(board)@, g0),
        sound_extension(g0, old(board)@),
    ensures
        final(board).wf(),
        extends(final(board)@, g0),
        sound_extension(g0, final(board)@),
        preserves_completions(old(board)@, final(board)@),
        num_empty(old(board)@) == num_empty(final(board)@) + n,
        n == 0 ==> final(board)@ == old(board)@,
        n == 0 ==> forall|t: int, v: u8, p: int|
            0 <= t < 9 ==> !hidden_single_at(old(board)@, kind, instance_start(kind, t), v, p),
        final(board)@ == hidden_from(old(board)@, kind, 0, 1),
{
    let mut n: usize = 0;
    proof {
        lemma_num_empty_le_len(old(board)@);
    }
    let mut t: usize = 0;
    while t < 9
        invariant
            board.wf(),
            t <= 9,
            extends(board@, g0),
            sound_extension(g0, board@),
            preserves_completions(old(board)@, board@),
            hidden_from(old(board)@, kind, 0, 1) == hidden_from(board@, kind, t as int, 1),
            num_empty(old(board)@) == num_empty(board@) + n,
            n == 0 ==> board@ == old(board)@,
            n == 0 ==> forall|tt: int, v: u8, p: int|
                0 <= tt < t ==> !hidden_single_at(
                    old(board)@,
                    kind,
                    instance_start(kind, tt),
                    v,
                    p,
                ),
            n <= 81,
        decreases 9 - t,
    {
        let start: usize = match kind {
            Area::Row => 9 * t,
            Area::Col => t,
            Area::Region => 27 * (t / 3) + 3 * (t % 3),
            Area::All => 0,
        };
        proof {
            lemma_fundamental_div_mod(t as int, 3);
            lemma_mod_bound(t as int, 3);
            match kind {
                Area::Row => {
                    lemma_fundamental_div_mod_converse(start as int, 9, t as int, 0);
                },
                Area::Col => {
                    lemma_fundamental_div_mod_converse(start as int, 9, 0, t as int);
                },
                Area::Region => {
                    let a = t as int / 3;
                    let b = t as int % 3;
                    lemma_fundamental_div_mod_converse(start as int, 27, a, 3 * b);
                    lemma_fundamental_div_mod_converse(start as int, 9, 3 * a, 3 * b);
                    lemma_fundamental_div_mod_converse(3 * b, 3, b, 0);
                },
                Area::All => {},
            }
            assert(start == area_start(kind, start as int));
            assert(start == instance_start(kind, t as int));
            lemma_area_cover(kind, start as int);
        }
        let mut v: u8 = 1;
        while v <= 9
            invariant
                board.wf(),
                start < 81,
                start == area_start(kind, start as int),
                start == instance_start(kind, t as int),
                t < 9,
                1 <= v <= 10,
                extends(board@, g0),
                sound_extension(g0, board@),
                preserves_completions(old(board)@, board@),
                hidden_from(old(board)@, kind, 0, 1) == hidden_from(
                    board@,
                    kind,
                    t as int,
                    v as int,
                ),
                num_empty(old(board)@) == num_empty(board@) + n,
                n == 0 ==> board@ == old(board)@,
                n == 0 ==> forall|tt: int, w: u8, p: int|
                    0 <= tt < t ==> !hidden_single_at(
                        old(board)@,
                        kind,
                        instance_start(kind, tt),
                        w,
                        p,
                    ),
                n == 0 ==> forall|w: u8, p: int|
                    1 <= w < v ==> !hidden_single_at(old(board)@, kind, start as int, w, p),
                n <= 81,
            decreases 10 - v,
        {
            let ghost pre = board@;
            let stepped = hidden_step(board, kind, start, v, Ghost(g0));
            if stepped {
                n += 1;
            }
            proof {
                lemma_preserves_trans(old(board)@, pre, board@);
                assert(hidden_from(pre, kind, t as int, v as int) == hidden_from(
                    board@,
                    kind,
                    t as int,
                    v + 1,
                ));
            }
            v += 1;
        }
        proof {
            assert(hidden_from(board@, kind, t as int, 10) == hidden_from(
                board@,
                kind,
                t + 1,
                1,
            ));
        }
        t += 1;
    }
    n
}

/// One propagation round, mutating the board in place and returning the
/// number of cells newly assigned. Applies the naked-single rule over all
/// cells in row-major order, then the hidden-single rule per row, per column
/// and per region; every assignment is committed immediately and visible to
/// the rest of the round. The result is exactly `round_spec` of the input:
/// the round is a function of the board alone, and every assignment it makes
/// is forced (`preserves_completions`).
#[verifier::loop_isolation(false)]
pub fn propagate_round(board: &mut Board) -> (assigned: usize)
    requires
        old(board).wf(),
    ensures
        final(board).wf(),
        extends(final(board)@, old(board)@),
        sound_extension(old(board)@, final(board)@),
        num_empty(old(board)@) == num_empty(final(board)@) + assigned,
        preserves_completions(old(board)@, final(board)@),
        assigned == 0 <==> final(board)@ == old(board)@,
        assigned > 0 ==> num_empty(final(board)@) < num_empty(old(board)@),
        complete(old(board)@) ==> assigned == 0 && final(board)@ == old(board)@,
        (exists|i: int| 0 <= i < 81 && old(board)@[i] == 0 && exactly_one_free(old(board)@, i))
            ==> assigned >= 1,
        (exists|kind: Area, t: int, v: u8, p: int|
            !(kind is All) && 0 <= t < 9 && hidden_single_at(
                old(board)@,
                kind,
                instance_start(kind, t),
                v,
                p,
            )) ==> assigned >= 1,
        final(board)@ == round_spec(old(board)@),
        forall|c: int, v: u8|
            0 <= c < 81 && old(board)@[c] == 0 && (forall|j: int|
                0 <= j < 81 && j != c ==> old(board)@[j] != 0) && is_free(old(board)@, c, v) && (
            forall|w: u8| is_free(old(board)@, c, w) ==> w == v) ==> assigned == 1
                && final(board)@ == old(board)@.update(c, v),
{
    let mut assigned: usize = 0;
    proof {
        lemma_num_empty_le_len(old(board)@);
    }
    // Rule 1: naked singles, all cells in row-major order.
    let mut i: usize = 0;
    while i < 81
        invariant
            board.wf(),
            i <= 81,
            extends(board@, old(board)@),
            sound_extension(old(board)@, board@),
            preserves_completions(old(board)@, board@),
            naked_from(old(board)@, 0) == naked_from(board@, i as int),
            num_empty(old(board)@) == num_empty(board@) + assigned,
            assigned == 0 ==> board@ == old(board)@,
            assigned <= 81,
            assigned == 0 ==> forall|t: int|
                0 <= t < i && old(board)@[t] == 0 ==> !exactly_one_free(old(board)@, t),
        decreases 81 - i,
    {
        if board.get(i) == 0 {
            match single_free_value(board, i) {
                Some(v) => {
                    proof {
                        lemma_assign_free(old(board)@, board@, i as int, v);
                        lemma_num_empty_update(board@, i as int, v);
                        // a naked single is forced: any valid completion of
                        // the board holds a free value here, and v is the
                        // only one
                        assert forall|s: Seq<u8>|
                            grid_valid(s) && extends(s, old(board)@) implies extends(
                            s,
                            board@.update(i as int, v),
                        ) by {
                            assert(extends(s, board@));
                            lemma_completion_free(s, board@, i as int);
                            assert(s[i as int] == v);
                        };
                        // and it is the value the round's model assigns here
                        assert(exactly_one_free(board@, i as int));
                        assert(the_single_free(board@, i as int) == v) by {
                            let u = the_single_free(board@, i as int);
                            assert(is_free(board@, i as int, u) && (forall|w: u8|
                                is_free(board@, i as int, w) ==> w == u));
                        };
                        assert(naked_from(board@, i as int) == naked_from(
                            board@.update(i as int, v),
                            i + 1,
                        ));
                    }
                    board.assign(i, v);
                    assigned += 1;
                },
                None => {
                    proof {
                        assert(naked_from(board@, i as int) == naked_from(board@, i + 1));
                    }
                },
            }
        } else {
            proof {
                assert(naked_from(board@, i as int) == naked_from(board@, i + 1));
            }
        }
        i += 1;
    }
    // Rules 2-4: hidden singles per row, then per column, then per region.
    let ghost after_naked = board@;
    let n_row = hidden_pass(board, Area::Row, Ghost(old(board)@));
    let ghost after_row = board@;
    let n_col = hidden_pass(board, Area::Col, Ghost(old(board)@));
    let ghost after_col = board@;
    let n_reg = hidden_pass(board, Area::Region, Ghost(old(board)@));
    proof {
        lemma_num_empty_le_len(old(board)@);
        lemma_preserves_trans(old(board)@, after_naked, after_row);
        lemma_preserves_trans(old(board)@, after_row, after_col);
        lemma_preserves_trans(old(board)@, after_col, board@);
        assert(after_naked == naked_from(old(board)@, 0));
        assert(board@ == round_spec(old(board)@));

    }
    let total = assigned + n_row + n_col + n_reg;
    proof {
        // a single missing cell whose free set is exactly {v} gets v, and
        // nothing else changes
        assert forall|c: int, v: u8|
            0 <= c < 81 && old(board)@[c] == 0 && (forall|j: int|
                0 <= j < 81 && j != c ==> old(board)@[j] != 0) && is_free(old(board)@, c, v) && (
        forall|w: u8| is_free(old(board)@, c, w) ==> w == v) implies total == 1 && board@ == old(
            board,
        )@.update(c, v) by {
            lemma_num_empty_update(old(board)@, c, v);
            crate::grid::lemma_num_empty_complete(old(board)@.update(c, v));
            assert(num_empty(old(board)@) == 1);
            assert(exactly_one_free(old(board)@, c));
            assert(total >= 1);
            if board@[c] == 0 {
                crate::grid::lemma_num_empty_at_zero(board@, c);
            }
            assert(no_conflict_at(board@, c));
            assert(is_free(old(board)@, c, board@[c])) by {
                if used_in(old(board)@, c, Area::All, board@[c]) {
                    let j = choose|j: int|
                        0 <= j < 81 && in_area(Area::All, c, j) && old(board)@[j] == board@[c];
                    assert(j != c);
                    assert(board@[j] == old(board)@[j]);
                    assert(sees(c, j));
                }
            };
            assert(board@[c] == v);
            assert(board@ =~= old(board)@.update(c, v));
        };
        if complete(old(board)@) {
            crate::grid::lemma_num_empty_complete(old(board)@);
        }
        if total == 0 {
            assert forall|kind: Area, t: int, v: u8, p: int|
                !(kind is All) && 0 <= t < 9 implies !hidden_single_at(
                old(board)@,
                kind,
                instance_start(kind, t),
                v,
                p,
            ) by {
                match kind {
                    Area::Row => {
                        assert(!hidden_single_at(
                            old(board)@,
                            Area::Row,
                            instance_start(Area::Row, t),
                            v,
                            p,
                        ));
                    },
                    Area::Col => {
                        assert(!hidden_single_at(
                            old(board)@,
                            Area::Col,
                            instance_start(Area::Col, t),
                            v,
                            p,
                        ));
                    },
                    Area::Region => {
                        assert(!hidden_single_at(
                            old(board)@,
                            Area::Region,
                            instance_start(Area::Region, t),
                            v,
                            p,
                        ));
                    },
                    Area::All => {},
                }
            };
        }
    }
    total
}

/// Runs `propagate_round` until a round assigns nothing or the board is
/// complete, returning the number of rounds run (at most 81).
#[verifier::loop_isolation(false)]
pub fn propagate_to_fixpoint(board: &mut Board) -> (rounds: usize)
    requires
        old(board).wf(),
    ensures
        final(board).wf(),
        extends(final(board)@, old(board)@),
        sound_extension(old(board)@, final(board)@),
        preserves_completions(old(board)@, final(board)@),
        num_empty(final(board)@) <= num_empty(old(board)@),
        rounds <= 81,
        complete(final(board)@) || ((forall|i: int|
            0 <= i < 81 && final(board)@[i] == 0 ==> !exactly_one_free(final(board)@, i))
            && (forall|kind: Area, t: int, v: u8, p: int|
            !(kind is All) && 0 <= t < 9 ==> !hidden_single_at(
                final(board)@,
                kind,
                instance_start(kind, t),
                v,
                p,
            ))),
{
    let mut rounds: usize = 0;
    let mut assigned: usize = 1;
    let mut done = is_solved(board);
    proof {
        lemma_num_empty_le_len(old(board)@);
    }
    while assigned > 0 && !done
        invariant
            board.wf(),
            extends(board@, old(board)@),
            sound_extension(old(board)@, board@),
            preserves_completions(old(board)@, board@),
            num_empty(board@) <= num_empty(old(board)@),
            done == complete(board@),
            assigned == 0 ==> !complete(board@) && num_empty(board@) >= 1 && (forall|i: int|
                0 <= i < 81 && board@[i] == 0 ==> !exactly_one_free(board@, i)) && (forall|
                kind: Area,
                t: int,
                v: u8,
                p: int,
            |
                !(kind is All) && 0 <= t < 9 ==> !hidden_single_at(
                    board@,
                    kind,
                    instance_start(kind, t),
                    v,
                    p,
                )),
            rounds + num_empty(board@) <= num_empty(old(board)@) + (if assigned == 0 {
                1int
            } else {
                0int
            }),
            rounds <= 81,
        decreases num_empty(board@), assigned,
    {
        let ghost before = board@;
        let r = propagate_round(board);
        proof {
            if r == 0 {
                assert(board@ == before);
                if !complete(board@) {
                    let i = choose|i: int| 0 <= i < 81 && board@[i] == 0;
                    crate::grid::lemma_num_empty_at_zero(board@, i);
                }
            }
            crate::grid::lemma_trans_extends(board@, before, old(board)@);
            crate::grid::lemma_trans_sound(old(board)@, before, board@);
            lemma_preserves_trans(old(board)@, before, board@);
        }
        rounds += 1;
        assigned = r;
        done = is_solved(board);
    }
    rounds
}

} // verus!
