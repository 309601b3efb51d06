//! Best-first branch-and-bound search over board snapshots, used when
//! propagation stalls short of a full solution. The frontier holds one
//! branch per candidate (cell, value) move; each branch owns an independent
//! copy of the board it would be applied to.

use vstd::prelude::*;
use vstd::arithmetic::mul::{
    lemma_mul_inequality, lemma_mul_is_commutative, lemma_mul_is_distributive_add,
};
use crate::grid::{
    complete, extends, grid_valid, grid_wf, is_free, lemma_assign_free, lemma_completion_free,
    lemma_num_empty_at_zero, lemma_num_empty_le_len, lemma_num_empty_update, lemma_trans_extends,
    lemma_trans_sound, num_empty, sound_extension, Area, Board,
};
use crate::propagate::{get_missing, is_solved, propagate_to_fixpoint};

verus! {

/// A candidate move for the search: apply `val` at cell `pos` to the owned
/// snapshot `board`. `cut` is the size of the cell's free set when the branch
/// was created and `depth` the number of search moves leading up to it.
pub struct Branch {
    pub pos: usize,
    pub val: u8,
    pub cut: usize,
    pub depth: usize,
    pub board: Board,
}

/// Number of values in [1, ub) that are free at cell `i`.
pub open spec fn free_count(g: Seq<u8>, i: int, ub: int) -> nat
    decreases ub,
{
    if ub <= 1 {
        0
    } else {
        free_count(g, i, ub - 1) + (if is_free(g, i, (ub - 1) as u8) {
            1nat
        } else {
            0nat
        })
    }
}

/// Strictly higher priority: smaller cut first, then greater depth, then
/// smaller position, then smaller value.
pub open spec fn branch_before(a: Branch, b: Branch) -> bool {
    ||| a.cut < b.cut
    ||| (a.cut == b.cut && a.depth > b.depth)
    ||| (a.cut == b.cut && a.depth == b.depth && a.pos < b.pos)
    ||| (a.cut == b.cut && a.depth == b.depth && a.pos == b.pos && a.val < b.val)
}

fn is_before(a: &Branch, b: &Branch) -> (r: bool)
    ensures
        r == branch_before(*a, *b),
{
    if a.cut != b.cut {
        a.cut < b.cut
    } else if a.depth != b.depth {
        a.depth > b.depth
    } else if a.pos != b.pos {
        a.pos < b.pos
    } else {
        a.val < b.val
    }
}

proof fn lemma_before_trans(a: Branch, b: Branch, c: Branch)
    requires
        branch_before(a, b),
        branch_before(b, c),
    ensures
        branch_before(a, c),
{
}

/// Two branches neither of which beats the other carry the same key.
proof fn lemma_before_total(a: Branch, b: Branch)
    requires
        !branch_before(a, b),
        !branch_before(b, a),
    ensures
        a.cut == b.cut && a.depth == b.depth && a.pos == b.pos && a.val == b.val,
{
}

/// One seeding step pushes at most 81 * 9 = 729 branches, so with base 730 a
/// branch of a board with `e` empty cells outweighs everything that one
/// seeding of a board with fewer empty cells can add.
pub open spec fn pow730(e: nat) -> nat
    decreases e,
{
    if e == 0 {
        1
    } else {
        730 * pow730((e - 1) as nat)
    }
}

/// Termination measure of the frontier: the sum, over its branches, of
/// 730 to the power of the branch's number of empty cells.
pub open spec fn frontier_measure(s: Seq<Branch>) -> nat
    decreases s.len(),
{
    if s.len() == 0 {
        0
    } else {
        pow730(num_empty(s[0].board@)) + frontier_measure(s.drop_first())
    }
}

proof fn lemma_pow730_pos(e: nat)
    ensures
        pow730(e) >= 1,
    decreases e,
{
    if e > 0 {
        lemma_pow730_pos((e - 1) as nat);
    }
}

proof fn lemma_pow730_mono(e1: nat, e2: nat)
    requires
        e1 <= e2,
    ensures
        pow730(e1) <= pow730(e2),
    decreases e2,
{
    if e1 < e2 {
        lemma_pow730_mono(e1, (e2 - 1) as nat);
    }
}

proof fn lemma_measure_push(s: Seq<Branch>, b: Branch)
    ensures
        frontier_measure(s.push(b)) == frontier_measure(s) + pow730(num_empty(b.board@)),
    decreases s.len(),
{
    if s.len() == 0 {
        assert(s.push(b)[0] == b);
        assert(s.push(b).drop_first() =~= Seq::<Branch>::empty());
        assert(frontier_measure(s.push(b)) == pow730(num_empty(b.board@))
            + frontier_measure(Seq::<Branch>::empty()));
    } else {
        assert(s.push(b)[0] == s[0]);
        assert(s.push(b).drop_first() =~= s.drop_first().push(b));
        lemma_measure_push(s.drop_first(), b);
        assert(frontier_measure(s.push(b)) == pow730(num_empty(s[0].board@))
            + frontier_measure(s.drop_first().push(b)));
        assert(frontier_measure(s) == pow730(num_empty(s[0].board@)) + frontier_measure(
            s.drop_first(),
        ));
    }
}

proof fn lemma_measure_remove(s: Seq<Branch>, i: int)
    requires
        0 <= i < s.len(),
    ensures
        frontier_measure(s.remove(i)) + pow730(num_empty(s[i].board@)) == frontier_measure(s),
    decreases s.len(),
{
    if i == 0 {
        assert(s.remove(0) =~= s.drop_first());
    } else {
        assert(s.remove(i).drop_first() =~= s.drop_first().remove(i - 1));
        lemma_measure_remove(s.drop_first(), i - 1);
    }
}

/// What the search relies on of every frontier branch, relative to the grid
/// `g0` the search started from.
pub open spec fn branch_inv(b: Branch, g0: Seq<u8>) -> bool {
    &&& b.board.wf()
    &&& b.pos < 81
    &&& b.board@[b.pos as int] == 0
    &&& is_free(b.board@, b.pos as int, b.val)
    &&& extends(b.board@, g0)
    &&& sound_extension(g0, b.board@)
    &&& b.depth + num_empty(b.board@) <= 81
}

/// Seeds the frontier from `board`: pushes one branch per (unassigned cell,
/// free value) pair, in ascending cell order and ascending value within a
/// cell, each owning its own copy of `board`, all at the given depth.
#[verifier::loop_isolation(false)]
pub fn add_heap(heap: &mut Vec<Branch>, board: &Board, depth: usize)
    requires
        board.wf(),
    ensures
        final(heap)@.len() >= old(heap)@.len(),
        forall|t: int| 0 <= t < old(heap)@.len() ==> final(heap)@[t] == old(heap)@[t],
        forall|t: int|
            old(heap)@.len() <= t < final(heap)@.len() ==> (#[trigger] final(heap)@[t]).board@
                == board@ && final(heap)@[t].depth == depth && final(heap)@[t].pos < 81
                && board@[final(heap)@[t].pos as int] == 0 && is_free(
                board@,
                final(heap)@[t].pos as int,
                final(heap)@[t].val,
            ) && final(heap)@[t].cut == free_count(board@, final(heap)@[t].pos as int, 10),
        forall|i: int, v: u8|
            0 <= i < 81 && board@[i] == 0 && is_free(board@, i, v) ==> exists|t: int|
                old(heap)@.len() <= t < final(heap)@.len() && (#[trigger] final(heap)@[t]).pos == i
                    && final(heap)@[t].val == v,
        forall|t1: int, t2: int|
            old(heap)@.len() <= t1 && t1 < t2 < final(heap)@.len() ==> ((
            #[trigger] final(heap)@[t1]).pos < (#[trigger] final(heap)@[t2]).pos || (
            final(heap)@[t1].pos == final(heap)@[t2].pos && final(heap)@[t1].val
                < final(heap)@[t2].val)),
        frontier_measure(final(heap)@) <= frontier_measure(old(heap)@) + 729 * pow730(
            num_empty(board@),
        ),
{
    let ghost e = num_empty(board@);
    let ghost n0 = old(heap)@.len() as int;
    let mut i: usize = 0;
    while i < 81
        invariant
            heap@.len() >= n0,
            forall|t: int| 0 <= t < n0 ==> heap@[t] == old(heap)@[t],
            forall|t: int|
                n0 <= t < heap@.len() ==> (#[trigger] heap@[t]).board@ == board@ && heap@[t].depth
                    == depth && heap@[t].pos < 81 && board@[heap@[t].pos as int] == 0 && is_free(
                    board@,
                    heap@[t].pos as int,
                    heap@[t].val,
                ) && heap@[t].cut == free_count(board@, heap@[t].pos as int, 10),
            forall|c: int, v: u8|
                0 <= c < i && board@[c] == 0 && is_free(board@, c, v) ==> exists|t: int|
                    n0 <= t < heap@.len() && (#[trigger] heap@[t]).pos == c && heap@[t].val == v,
            forall|t: int| n0 <= t < heap@.len() ==> (#[trigger] heap@[t]).pos < i,
            forall|t1: int, t2: int|
                n0 <= t1 && t1 < t2 < heap@.len() ==> ((#[trigger] heap@[t1]).pos < (
                #[trigger] heap@[t2]).pos || (heap@[t1].pos == heap@[t2].pos && heap@[t1].val
                    < heap@[t2].val)),
            i <= 81,
            heap@.len() - n0 <= 9 * i,
            frontier_measure(heap@) == frontier_measure(old(heap)@) + pow730(e) * (heap@.len()
                - n0),
        decreases 81 - i,
    {
        if board.get(i) == 0 {
            let fs = get_missing(board, Area::All, i);
            let mut cut: usize = 0;
            let mut v: u8 = 1;
            while v <= 9
                invariant
                    1 <= v <= 10,
                    cut < v,
                    cut == free_count(board@, i as int, v as int),
                decreases 10 - v,
            {
                if fs.contains(v) {
                    cut += 1;
                }
                v += 1;
            }
            let mut w: u8 = 1;
            while w <= 9
                invariant
                    1 <= w <= 10,
                    i < 81,
                    board@[i as int] == 0,
                    cut == free_count(board@, i as int, 10),
                    heap@.len() >= n0,
                    forall|t: int| 0 <= t < n0 ==> heap@[t] == old(heap)@[t],
                    forall|t: int|
                        n0 <= t < heap@.len() ==> (#[trigger] heap@[t]).board@ == board@
                            && heap@[t].depth == depth && heap@[t].pos < 81
                            && board@[heap@[t].pos as int] == 0 && is_free(
                            board@,
                            heap@[t].pos as int,
                            heap@[t].val,
                        ) && heap@[t].cut == free_count(board@, heap@[t].pos as int, 10),
                    forall|c: int, v: u8|
                        0 <= c < i && board@[c] == 0 && is_free(board@, c, v) ==> exists|t: int|
                            n0 <= t < heap@.len() && (#[trigger] heap@[t]).pos == c && heap@[t].val
                                == v,
                    forall|v: u8|
                        1 <= v < w && is_free(board@, i as int, v) ==> exists|t: int|
                            n0 <= t < heap@.len() && (#[trigger] heap@[t]).pos == i as int
                                && heap@[t].val == v,
                    forall|t: int|
                        n0 <= t < heap@.len() ==> ((#[trigger] heap@[t]).pos < i || (heap@[t].pos
                            == i && heap@[t].val < w)),
                    forall|t1: int, t2: int|
                        n0 <= t1 && t1 < t2 < heap@.len() ==> ((#[trigger] heap@[t1]).pos < (
                        #[trigger] heap@[t2]).pos || (heap@[t1].pos == heap@[t2].pos
                            && heap@[t1].val < heap@[t2].val)),
                    heap@.len() - n0 <= 9 * i + (w - 1),
                    frontier_measure(heap@) == frontier_measure(old(heap)@) + pow730(e) * (
                    heap@.len() - n0),
                decreases 10 - w,
            {
                if fs.contains(w) {
                    let snapshot = board.duplicate();
                    let ghost hp = heap@;
                    heap.push(Branch { pos: i, val: w, cut, depth, board: snapshot });
                    proof {
                        lemma_measure_push(hp, heap@[heap@.len() - 1]);
                        lemma_mul_is_distributive_add(pow730(e) as int, hp.len() - n0, 1);
                        assert(heap@[heap@.len() - 1].pos == i as int && heap@[heap@.len()
                            - 1].val == w);
                        assert forall|c: int, v: u8|
                            0 <= c < i && board@[c] == 0 && is_free(board@, c, v) implies exists|
                            t: int,
                        |
                            n0 <= t < heap@.len() && (#[trigger] heap@[t]).pos == c
                                && heap@[t].val == v by {
                            let t0 = choose|t: int|
                                n0 <= t < hp.len() && (#[trigger] hp[t]).pos == c && hp[t].val
                                    == v;
                            assert(heap@[t0] == hp[t0]);
                        };
                        assert forall|v: u8|
                            1 <= v < w && is_free(board@, i as int, v) implies exists|t: int|
                            n0 <= t < heap@.len() && (#[trigger] heap@[t]).pos == i as int
                                && heap@[t].val == v by {
                            let t0 = choose|t: int|
                                n0 <= t < hp.len() && (#[trigger] hp[t]).pos == i as int
                                    && hp[t].val == v;
                            assert(heap@[t0] == hp[t0]);
                        };
                    }
                }
                w += 1;
            }
            proof {
                assert forall|c: int, v: u8|
                    0 <= c < i + 1 && board@[c] == 0 && is_free(board@, c, v) implies exists|
                    t: int,
                |
                    n0 <= t < heap@.len() && (#[trigger] heap@[t]).pos == c && heap@[t].val
                        == v by {
                    if c == i as int {
                        assert(1 <= v <= 9);
                    }
                };
            }
        }
        i += 1;
    }
    proof {
        assert(heap@.len() - n0 <= 729);
        lemma_mul_inequality(heap@.len() - n0, 729, pow730(e) as int);
        lemma_mul_is_commutative(heap@.len() - n0, pow730(e) as int);
        lemma_mul_is_commutative(729, pow730(e) as int);
    }
}

/// Removes and returns the highest-priority branch of the frontier; among
/// branches none of which beats the other, the earliest-inserted one (it
/// strictly beats everything that stood before it).
pub fn pop_best(heap: &mut Vec<Branch>) -> (r: Option<Branch>)
    ensures
        old(heap)@.len() == 0 ==> r is None && final(heap)@ == old(heap)@,
        old(heap)@.len() > 0 ==> (r matches Some(b) && exists|i: int|
            0 <= i < old(heap)@.len() && b == old(heap)@[i] && final(heap)@ == old(heap)@.remove(i)
                && (forall|t: int|
                0 <= t < old(heap)@.len() ==> !branch_before(#[trigger] old(heap)@[t], b)) && (
            forall|t: int| 0 <= t < i ==> branch_before(b, #[trigger] old(heap)@[t]))),
{
    if heap.len() == 0 {
        return None;
    }
    let mut best: usize = 0;
    let mut j: usize = 1;
    while j < heap.len()
        invariant
            heap@ == old(heap)@,
            heap@.len() > 0,
            best < j <= heap@.len(),
            forall|t: int| 0 <= t < j ==> !branch_before(#[trigger] heap@[t], heap@[best as int]),
            forall|t: int| 0 <= t < best ==> branch_before(heap@[best as int], #[trigger] heap@[t]),
        decreases heap@.len() - j,
    {
        if is_before(&heap[j], &heap[best]) {
            proof {
                assert forall|t: int|
                    0 <= t < j + 1 implies !branch_before(
                    #[trigger] heap@[t],
                    heap@[j as int],
                ) by {
                    if t < j && branch_before(heap@[t], heap@[j as int]) {
                        lemma_before_trans(heap@[t], heap@[j as int], heap@[best as int]);
                    }
                };
                assert forall|t: int|
                    0 <= t < j implies branch_before(heap@[j as int], #[trigger] heap@[t]) by {
                    if !branch_before(heap@[j as int], heap@[t]) {
                        if branch_before(heap@[t], heap@[j as int]) {
                            lemma_before_trans(heap@[t], heap@[j as int], heap@[best as int]);
                        } else {
                            lemma_before_total(heap@[t], heap@[j as int]);
                            assert(branch_before(heap@[t], heap@[best as int]));
                        }
                    }
                };
            }
            best = j;
        }
        j += 1;
    }
    let b = heap.remove(best);
    proof {
        assert(0 <= best < old(heap)@.len() && b == old(heap)@[best as int] && heap@ == old(
            heap,
        )@.remove(best as int));
    }
    Some(b)
}

/// Best-first search from `board` (normally a propagation fixpoint): seeds a
/// branch per candidate move, then repeatedly pops the best branch, applies
/// its move to its own snapshot, propagates to a fixpoint, and either returns
/// the snapshot when it is complete or re-seeds from it one level deeper.
/// Returns None only when the frontier is exhausted, which on an incomplete
/// board means no valid solution extends it: the frontier always keeps a
/// branch on the way to any such solution.
#[verifier::loop_isolation(false)]
pub fn search(board: &Board) -> (r: Option<Board>)
    requires
        board.wf(),
    ensures
        r matches Some(g) ==> g.wf() && complete(g@) && extends(g@, board@) && sound_extension(
            board@,
            g@,
        ),
        r is None ==> complete(board@) || !(exists|s: Seq<u8>| grid_valid(s) && extends(s, board@)),
{
    let ghost g0 = board@;
    proof {
        lemma_num_empty_le_len(g0);
    }
    let mut frontier: Vec<Branch> = Vec::new();
    add_heap(&mut frontier, board, 0);
    proof {
        if !complete(g0) {
            let c = choose|c: int| 0 <= c < 81 && g0[c] == 0;
            assert forall|s: Seq<u8>| grid_valid(s) && extends(s, g0) implies exists|t: int|
                0 <= t < frontier@.len() && extends(s, (#[trigger] frontier@[t]).board@)
                    && s[frontier@[t].pos as int] == frontier@[t].val by {
                lemma_completion_free(s, g0, c);
                let t = choose|t: int|
                    0 <= t < frontier@.len() && (#[trigger] frontier@[t]).pos == c
                        && frontier@[t].val == s[c];
                assert(extends(s, frontier@[t].board@) && s[frontier@[t].pos as int]
                    == frontier@[t].val);
            };
        }
    }
    loop
        invariant
            grid_wf(g0),
            forall|t: int| 0 <= t < frontier@.len() ==> branch_inv(#[trigger] frontier@[t], g0),
            !complete(g0) ==> forall|s: Seq<u8>|
                grid_valid(s) && extends(s, g0) ==> exists|t: int|
                    0 <= t < frontier@.len() && extends(s, (#[trigger] frontier@[t]).board@)
                        && s[frontier@[t].pos as int] == frontier@[t].val,
        decreases frontier_measure(frontier@),
    {
        let ghost pre_pop = frontier@;
        let popped = pop_best(&mut frontier);
        match popped {
            None => {
                proof {
                    if !complete(g0) && (exists|s: Seq<u8>| grid_valid(s) && extends(s, g0)) {
                        let s = choose|s: Seq<u8>| grid_valid(s) && extends(s, g0);
                        assert(pre_pop.len() == 0);
                        assert(false);
                    }
                }
                return None;
            },
            Some(b) => {
                let ghost popped_b = b;
                let ghost after_pop = frontier@;
                proof {
                    let i = choose|i: int|
                        0 <= i < pre_pop.len() && b == pre_pop[i] && frontier@ == pre_pop.remove(i);
                    lemma_measure_remove(pre_pop, i);
                    assert(branch_inv(b, g0));
                    lemma_num_empty_at_zero(b.board@, b.pos as int);
                }
                let ghost e = num_empty(b.board@);
                let Branch { pos, val, cut: _, depth, board: mut g } = b;
                proof {
                    lemma_assign_free(g0, g@, pos as int, val);
                    lemma_num_empty_update(g@, pos as int, val);
                }
                g.assign(pos, val);
                let ghost applied = g@;
                propagate_to_fixpoint(&mut g);
                proof {
                    lemma_trans_extends(g@, applied, g0);
                    lemma_trans_sound(g0, applied, g@);
                }
                if is_solved(&g) {
                    return Some(g);
                }
                let ghost pre_seed = frontier@;
                add_heap(&mut frontier, &g, depth + 1);
                proof {
                    // A valid solution that some pre-pop branch led to is
                    // still led to: either its branch survived the pop, or
                    // the popped branch was it and the re-seeding from the
                    // propagated snapshot (which any such solution still
                    // extends, propagation being forced) replaces it.
                    if !complete(g0) {
                        assert forall|s: Seq<u8>|
                            grid_valid(s) && extends(s, g0) implies exists|t: int|
                            0 <= t < frontier@.len() && extends(
                                s,
                                (#[trigger] frontier@[t]).board@,
                            ) && s[frontier@[t].pos as int] == frontier@[t].val by {
                            let t0 = choose|t: int|
                                0 <= t < pre_pop.len() && extends(
                                    s,
                                    (#[trigger] pre_pop[t]).board@,
                                ) && s[pre_pop[t].pos as int] == pre_pop[t].val;
                            let ip = choose|i: int|
                                0 <= i < pre_pop.len() && popped_b == pre_pop[i] && after_pop
                                    == pre_pop.remove(i);
                            if t0 == ip {
                                // the popped branch was on the way to s
                                assert(extends(s, applied));
                                assert(extends(s, g@));
                                let c = choose|c: int| 0 <= c < 81 && g@[c] == 0;
                                lemma_completion_free(s, g@, c);
                                let t = choose|t: int|
                                    pre_seed.len() <= t < frontier@.len() && (
                                    #[trigger] frontier@[t]).pos == c && frontier@[t].val == s[c];
                                assert(frontier@[t].board@ == g@);
                                assert(0 <= t < frontier@.len() && extends(s, frontier@[t].board@)
                                    && s[frontier@[t].pos as int] == frontier@[t].val);
                            } else {
                                // the witness branch survived the pop
                                let t1: int = if t0 < ip {
                                    t0
                                } else {
                                    t0 - 1
                                };
                                assert(after_pop[t1] == pre_pop[t0]);
                                assert(frontier@[t1] == after_pop[t1]);
                                assert(0 <= t1 < frontier@.len() && extends(
                                    s,
                                    frontier@[t1].board@,
                                ) && s[frontier@[t1].pos as int] == frontier@[t1].val);
                            }
                        };
                    }
                    // The re-seeded branches carry the propagated snapshot,
                    // which has at least one cell fewer empty than the popped
                    // branch's board had.
                    assert(num_empty(g@) <= e - 1);
                    assert forall|t: int|
                        0 <= t < frontier@.len() implies branch_inv(
                        #[trigger] frontier@[t],
                        g0,
                    ) by {
                        if t >= pre_seed.len() {
                            assert(frontier@[t].board@ == g@);
                        } else {
                            assert(frontier@[t] == pre_seed[t]);
                        }
                    };
                    // The measure shrinks: what was added is worth less than
                    // the branch that was removed.
                    lemma_pow730_mono(num_empty(g@), (e - 1) as nat);
                    lemma_mul_inequality(
                        pow730(num_empty(g@)) as int,
                        pow730((e - 1) as nat) as int,
                        729,
                    );
                    lemma_mul_is_commutative(pow730(num_empty(g@)) as int, 729);
                    lemma_mul_is_commutative(pow730((e - 1) as nat) as int, 729);
                    lemma_pow730_pos((e - 1) as nat);
                    assert(pow730(e) == 730 * pow730((e - 1) as nat));
                    assert(frontier_measure(frontier@) < frontier_measure(pre_pop));
                }
            },
        }
    }
}

} // verus!
