//! The bounded best-line search: every own pit starts a branch, each branch
//! is explored depth-first through free turns and forced avalanche
//! continuations, and the leaf with the most stones in the own store wins.

use vstd::prelude::*;
use crate::board::{
    BoardModel, MancalaBoard, MoveResult, SLOTS, step, cleared, stones_total, stones_out, weight,
    lemma_step_properties, lemma_step_decreases, lemma_sow_basic, lemma_sum_bounds,
    lemma_weight_bounds, outcome_spec, sow_from,
};

verus! {

/// Play the moves of `mv` in order, starting from `b`.
pub open spec fn run(b: BoardModel, mv: Seq<int>) -> BoardModel
    decreases mv.len(),
{
    if mv.len() == 0 {
        b
    } else {
        run(step(b, mv[0]), mv.subrange(1, mv.len() as int))
    }
}

/// Every entry names a pit (never the own store).
pub open spec fn valid_moves(mv: Seq<int>) -> bool {
    forall|k: int| 0 <= k < mv.len() ==> 1 <= #[trigger] mv[k] < SLOTS
}

/// `b` arises from `b0` by at least one move, the first from an own pit.
pub open spec fn reaches_own(b0: BoardModel, b: BoardModel) -> bool {
    exists|mv: Seq<int>|
        #![trigger run(b0, mv)]
        valid_moves(mv) && mv.len() >= 1 && 7 <= mv[0] < SLOTS && b == run(b0, mv)
}

/// `b` arises from `b0` by at least one move, the first from pit `start`.
pub open spec fn chain_from(b0: BoardModel, b: BoardModel, start: int) -> bool {
    exists|mv: Seq<int>|
        #![trigger run(b0, mv)]
        valid_moves(mv) && mv.len() >= 1 && mv[0] == start && b == run(b0, mv)
}

/// Running two move sequences in turn is running their concatenation.
pub proof fn lemma_run_concat(b: BoardModel, mv1: Seq<int>, mv2: Seq<int>)
    ensures
        run(b, mv1 + mv2) == run(run(b, mv1), mv2),
    decreases mv1.len(),
{
    if mv1.len() == 0 {
        assert(mv1 + mv2 =~= mv2);
    } else {
        assert((mv1 + mv2)[0] == mv1[0]);
        assert((mv1 + mv2).subrange(1, (mv1 + mv2).len() as int) =~= mv1.subrange(
            1,
            mv1.len() as int,
        ) + mv2);
        lemma_run_concat(step(b, mv1[0]), mv1.subrange(1, mv1.len() as int), mv2);
    }
}

/// One more move at the end of a run is one more step.
pub proof fn lemma_run_snoc(b: BoardModel, mv: Seq<int>, x: int)
    ensures
        run(b, mv.push(x)) == step(run(b, mv), x),
{
    let one = seq![x];
    assert(mv.push(x) =~= mv + one);
    lemma_run_concat(b, mv, one);
    let c = run(b, mv);
    assert(one.subrange(1, 1) =~= Seq::<int>::empty());
    assert(one[0] == x);
    assert(run(c, one) == run(step(c, x), Seq::<int>::empty()));
    assert(run(step(c, x), Seq::<int>::empty()) == step(c, x));
}

/// A run of pit moves keeps the board well formed, conserves the stone
/// total, never drains the own store, leaves the opponent store alone,
/// extends the history and advances the move count.
pub proof fn lemma_run_properties(b: BoardModel, mv: Seq<int>)
    requires
        b.wf(),
        valid_moves(mv),
    ensures
        run(b, mv).wf(),
        stones_total(run(b, mv).spaces) == stones_total(b.spaces),
        run(b, mv).spaces[0] >= b.spaces[0],
        run(b, mv).opponent_store == b.opponent_store,
        b.move_history.is_prefix_of(run(b, mv).move_history),
        run(b, mv).move_count >= b.move_count,
    decreases mv.len(),
{
    if mv.len() == 0 {
        assert(b.move_history =~= b.move_history.subrange(0, b.move_history.len() as int));
    } else {
        let b1 = step(b, mv[0]);
        let tail = mv.subrange(1, mv.len() as int);
        lemma_step_properties(b, mv[0]);
        assert forall|k: int| 0 <= k < tail.len() implies 1 <= #[trigger] tail[k] < SLOTS by {
            assert(tail[k] == mv[k + 1]);
        }
        lemma_run_properties(b1, tail);
        let h0 = b.move_history;
        let h1 = b1.move_history;
        let h2 = run(b, mv).move_history;
        assert forall|i: int| 0 <= i < h0.len() implies h2.subrange(0, h0.len() as int)[i]
            == h0[i] by {
            assert(h1.subrange(0, h0.len() as int)[i] == h0[i]);
            assert(h2.subrange(0, h1.len() as int)[i] == h1[i]);
        }
        assert(h0 =~= h2.subrange(0, h0.len() as int));
    }
}

/// Stone conservation: over any sequence of moves, the total of the 13
/// slots plus the opponent store is unchanged.
pub proof fn lemma_stone_conservation(b: BoardModel, mv: Seq<int>)
    requires
        b.wf(),
        valid_moves(mv),
    ensures
        stones_total(run(b, mv).spaces) + run(b, mv).opponent_store == stones_total(b.spaces)
            + b.opponent_store,
{
    lemma_run_properties(b, mv);
}

/// Store monotonicity: over any sequence of moves, the own store never
/// loses a stone.
pub proof fn lemma_store_monotonicity(b: BoardModel, mv: Seq<int>)
    requires
        b.wf(),
        valid_moves(mv),
    ensures
        run(b, mv).spaces[0] >= b.spaces[0],
{
    lemma_run_properties(b, mv);
}

/// A chain from an own pit reaches an own-pit successor.
proof fn lemma_chain_reach(b0: BoardModel, b: BoardModel, start: int)
    requires
        7 <= start < SLOTS,
        chain_from(b0, b, start),
    ensures
        reaches_own(b0, b),
{
    let mv = choose|mv: Seq<int>|
        #![trigger run(b0, mv)]
        valid_moves(mv) && mv.len() >= 1 && mv[0] == start && b == run(b0, mv);
    assert(valid_moves(mv) && mv.len() >= 1 && 7 <= mv[0] < SLOTS && b == run(b0, mv));
}

/// Reachability composes with a further chain.
proof fn lemma_reach_compose(b0: BoardModel, b1: BoardModel, b2: BoardModel, start: int)
    requires
        1 <= start < SLOTS,
        reaches_own(b0, b1),
        chain_from(b1, b2, start),
    ensures
        reaches_own(b0, b2),
{
    let mv1 = choose|mv: Seq<int>|
        #![trigger run(b0, mv)]
        valid_moves(mv) && mv.len() >= 1 && 7 <= mv[0] < SLOTS && b1 == run(b0, mv);
    let mv2 = choose|mv: Seq<int>|
        #![trigger run(b1, mv)]
        valid_moves(mv) && mv.len() >= 1 && mv[0] == start && b2 == run(b1, mv);
    lemma_run_concat(b0, mv1, mv2);
    let both = mv1 + mv2;
    assert forall|k: int| 0 <= k < both.len() implies 1 <= #[trigger] both[k] < SLOTS by {
        if k < mv1.len() {
            assert(both[k] == mv1[k]);
        } else {
            assert(both[k] == mv2[k - mv1.len()]);
        }
    }
    assert(both[0] == mv1[0]);
    assert(b2 == run(b0, both));
}

/// One human move: the sow from `space` together with every forced
/// avalanche continuation, down to the board it leaves and the outcome that
/// resolved it.
pub open spec fn chain(b: BoardModel, space: int) -> (BoardModel, MoveResult)
    decreases stones_out(b.spaces), 12 * stones_out(b.spaces) - weight(b.spaces)
        when b.wf() && 1 <= space < SLOTS
        via chain_decreases
{
    match outcome_spec(b, space) {
        MoveResult::Avalanche(ns) => chain(step(b, space), ns as int),
        r => (step(b, space), r),
    }
}

#[via_fn]
proof fn chain_decreases(b: BoardModel, space: int) {
    lemma_outcome_shape(b, space);
    lemma_step_properties(b, space);
    if outcome_spec(b, space) is Avalanche {
        if b.spaces[space] == 0 {
            assert(sow_from(b.spaces, space).0 == b.spaces.update(space, 0));
            assert(sow_from(b.spaces, space).1 == space);
            assert(!(outcome_spec(b, space) is Avalanche));
        }
        lemma_step_decreases(b, space);
        lemma_sum_bounds(step(b, space).spaces, 1);
        lemma_weight_bounds(step(b, space).spaces, 1);
        lemma_sum_bounds(b.spaces, 1);
        lemma_weight_bounds(b.spaces, 1);
    }
}

/// What one chained move leaves behind: a well-formed board, a resolving
/// outcome, no pending avalanche, and exactly one more counted move (when
/// the counter has room; it saturates at 255).
proof fn lemma_chain_props(b: BoardModel, space: int)
    requires
        b.wf(),
        1 <= space < SLOTS,
    ensures
        chain(b, space).0.wf(),
        !(chain(b, space).1 is Avalanche),
        !chain(b, space).0.did_avalanche,
        chain(b, space).0.move_count == if b.did_avalanche {
            b.move_count
        } else if b.move_count < 255 {
            b.move_count + 1
        } else {
            255
        },
        chain(b, space).0.move_history == if b.did_avalanche {
            b.move_history
        } else {
            b.move_history.push(space)
        },
    decreases stones_out(b.spaces), 12 * stones_out(b.spaces) - weight(b.spaces),
{
    lemma_outcome_shape(b, space);
    lemma_step_properties(b, space);
    match outcome_spec(b, space) {
        MoveResult::Avalanche(ns) => {
            if b.spaces[space] == 0 {
                assert(sow_from(b.spaces, space).0 == b.spaces.update(space, 0));
                assert(sow_from(b.spaces, space).1 == space);
                assert(false);
            }
            lemma_step_decreases(b, space);
            lemma_sum_bounds(step(b, space).spaces, 1);
            lemma_weight_bounds(step(b, space).spaces, 1);
            lemma_sum_bounds(b.spaces, 1);
            lemma_weight_bounds(b.spaces, 1);
            lemma_chain_props(step(b, space), ns as int);
        },
        _ => {},
    }
}

/// What a reported outcome says of the board it left behind.
proof fn lemma_outcome_shape(b: BoardModel, space: int)
    requires
        b.wf(),
        1 <= space < SLOTS,
    ensures
        outcome_spec(b, space) matches MoveResult::Avalanche(ns) ==> 1 <= ns < SLOTS && step(
            b,
            space,
        ).spaces[ns as int] > 1 && step(b, space).did_avalanche,
        !(outcome_spec(b, space) is Avalanche) ==> !step(b, space).did_avalanche,
{
    let sp = b.spaces.update(space, 0);
    let h = b.spaces[space] as nat;
    lemma_sow_basic(sp, space, h);
}

/// Play one human move: sow from `start` and keep sowing through forced
/// avalanche continuations until the move resolves. Returns the resolving
/// outcome, never `Avalanche`.
fn play_chain(board: &mut MancalaBoard, start: usize) -> (r: MoveResult)
    requires
        old(board)@.wf(),
        !old(board)@.did_avalanche,
        1 <= start < SLOTS,
    ensures
        final(board)@.wf(),
        !(r is Avalanche),
        !final(board)@.did_avalanche,
        chain_from(old(board)@, final(board)@, start as int),
        final(board)@.move_count == if old(board)@.move_count < 255 {
            old(board)@.move_count + 1
        } else {
            255
        },
        final(board)@ == chain(old(board)@, start as int).0,
        r == chain(old(board)@, start as int).1,
        final(board)@.move_history == old(board)@.move_history.push(start as int),
{
    let ghost b0 = old(board)@;
    let ghost mut mv: Seq<int> = seq![start as int];
    proof {
        lemma_outcome_shape(b0, start as int);
        lemma_step_properties(b0, start as int);
        lemma_run_snoc(b0, Seq::<int>::empty(), start as int);
        assert(Seq::<int>::empty().push(start as int) =~= mv);
    }
    let mut outcome = board.move_piece(start);
    proof {
        match outcome {
            MoveResult::Avalanche(ns) => {
                assert(chain(b0, start as int) == chain(board@, ns as int));
            },
            _ => {
                assert(chain(b0, start as int) == (board@, outcome));
            },
        }
    }
    loop
        invariant
            board@.wf(),
            valid_moves(mv),
            mv.len() >= 1,
            mv[0] == start as int,
            board@ == run(b0, mv),
            board@.move_count == if b0.move_count < 255 {
                b0.move_count + 1
            } else {
                255
            },
            outcome matches MoveResult::Avalanche(ns) ==> 1 <= ns < SLOTS
                && board@.spaces[ns as int] > 1 && board@.did_avalanche,
            !(outcome is Avalanche) ==> !board@.did_avalanche,
            outcome matches MoveResult::Avalanche(ns) ==> chain(b0, start as int) == chain(
                board@,
                ns as int,
            ),
            !(outcome is Avalanche) ==> chain(b0, start as int) == (board@, outcome),
        ensures
            !(outcome is Avalanche),
            board@.wf(),
            !board@.did_avalanche,
            valid_moves(mv),
            mv.len() >= 1,
            mv[0] == start as int,
            board@ == run(b0, mv),
            board@.move_count == if b0.move_count < 255 {
                b0.move_count + 1
            } else {
                255
            },
            !(outcome is Avalanche) ==> chain(b0, start as int) == (board@, outcome),
        decreases stones_out(board@.spaces), 12 * stones_out(board@.spaces) - weight(
            board@.spaces,
        ),
    {
        match outcome {
            MoveResult::Avalanche(ns) => {
                let ghost bprev = board@;
                proof {
                    lemma_step_decreases(bprev, ns as int);
                    lemma_step_properties(bprev, ns as int);
                    lemma_outcome_shape(bprev, ns as int);
                    lemma_run_snoc(b0, mv, ns as int);
                }
                outcome = board.move_piece(ns);
                proof {
                    mv = mv.push(ns as int);
                    lemma_sum_bounds(board@.spaces, 1);
                    lemma_weight_bounds(board@.spaces, 1);
                    match outcome {
                        MoveResult::Avalanche(ns2) => {
                            assert(chain(bprev, ns as int) == chain(board@, ns2 as int));
                        },
                        _ => {
                            assert(chain(bprev, ns as int) == (board@, outcome));
                        },
                    }
                }
            },
            _ => {
                break ;
            },
        }
    }
    proof {
        assert(chain_from(b0, board@, start as int));
        lemma_chain_props(b0, start as int);
    }
    outcome
}

/// Powers of seven: one pending board outweighs the at most six children
/// that expanding it can put back on the stack.
pub open spec fn pow7(n: nat) -> nat
    decreases n,
{
    if n == 0 {
        1
    } else {
        7 * pow7((n - 1) as nat)
    }
}

/// How many more times a pending board may be expanded before the depth
/// bound forces its free turns into leaves.
pub open spec fn branch_room(mc: int, depth: int) -> nat {
    if mc < depth {
        (depth - mc) as nat
    } else {
        0
    }
}

/// The models of the boards of a stack.
pub open spec fn views_of(s: Seq<MancalaBoard>) -> Seq<BoardModel> {
    s.map_values(|b: MancalaBoard| b@)
}

/// Termination measure of the pending stack: each board weighs in with
/// seven to the power of its remaining room.
pub open spec fn stack_measure(s: Seq<BoardModel>, depth: int) -> nat
    decreases s.len(),
{
    if s.len() == 0 {
        0
    } else {
        stack_measure(s.drop_last(), depth) + pow7(branch_room(s.last().move_count, depth))
    }
}

proof fn lemma_pow7_pos(n: nat)
    ensures
        pow7(n) >= 1,
    decreases n,
{
    if n > 0 {
        lemma_pow7_pos((n - 1) as nat);
    }
}

proof fn lemma_pow7_mono(a: nat, b: nat)
    requires
        a <= b,
    ensures
        pow7(a) <= pow7(b),
    decreases b,
{
    if a < b {
        lemma_pow7_mono(a, (b - 1) as nat);
        lemma_pow7_pos((b - 1) as nat);
    }
}

proof fn lemma_measure_push(s: Seq<MancalaBoard>, b: MancalaBoard, depth: int)
    ensures
        stack_measure(views_of(s.push(b)), depth) == stack_measure(views_of(s), depth) + pow7(
            branch_room(b@.move_count, depth),
        ),
{
    assert(views_of(s.push(b)).len() == s.len() + 1);
    assert(views_of(s.push(b)).drop_last() =~= views_of(s));
    assert(views_of(s.push(b)).last() == b@);
}

proof fn lemma_measure_pop(s: Seq<MancalaBoard>, depth: int)
    requires
        s.len() > 0,
    ensures
        stack_measure(views_of(s), depth) == stack_measure(
            views_of(s.subrange(0, s.len() - 1)),
            depth,
        ) + pow7(branch_room(s[s.len() - 1]@.move_count, depth)),
{
    assert(views_of(s).len() == s.len());
    assert(views_of(s).drop_last() =~= views_of(s.subrange(0, s.len() - 1)));
    assert(views_of(s).last() == s[s.len() - 1]@);
}

proof fn lemma_measure_push_model(s: Seq<BoardModel>, b: BoardModel, depth: int)
    ensures
        stack_measure(s.push(b), depth) == stack_measure(s, depth) + pow7(
            branch_room(b.move_count, depth),
        ),
{
    assert(s.push(b).drop_last() =~= s);
}

/// Expand one pending board: each own pit in turn plays its chained move on
/// a fresh copy of the board; a free turn with room below the depth bound
/// goes back on the pending stack, anything else joins the leaves.
pub open spec fn expand(
    parent: BoardModel,
    k: int,
    stack: Seq<BoardModel>,
    finals: Seq<BoardModel>,
    depth: int,
) -> (Seq<BoardModel>, Seq<BoardModel>)
    decreases SLOTS - k when 7 <= k <= SLOTS
{
    if k >= SLOTS {
        (stack, finals)
    } else {
        let c = chain(cleared(parent), k);
        if c.1 is FreeTurn {
            if c.0.move_count >= depth {
                expand(parent, k + 1, stack, finals.push(c.0), depth)
            } else {
                expand(parent, k + 1, stack.push(c.0), finals, depth)
            }
        } else {
            expand(parent, k + 1, stack, finals.push(c.0), depth)
        }
    }
}

/// Expanding keeps the pending boards well formed and resolved, hands at
/// least one board on, and shrinks the stack potential under the parent's
/// own weight.
proof fn lemma_expand(
    parent: BoardModel,
    k: int,
    stack: Seq<BoardModel>,
    finals: Seq<BoardModel>,
    depth: int,
)
    requires
        7 <= k <= SLOTS,
        parent.wf(),
        depth <= 255,
        forall|j: int|
            0 <= j < stack.len() ==> (#[trigger] stack[j]).wf() && !stack[j].did_avalanche,
    ensures
        forall|j: int|
            0 <= j < expand(parent, k, stack, finals, depth).0.len() ==> (#[trigger] expand(
                parent,
                k,
                stack,
                finals,
                depth,
            ).0[j]).wf() && !expand(parent, k, stack, finals, depth).0[j].did_avalanche,
        expand(parent, k, stack, finals, depth).0.len() + expand(
            parent,
            k,
            stack,
            finals,
            depth,
        ).1.len() == stack.len() + finals.len() + (SLOTS - k),
        branch_room(parent.move_count, depth) == 0 ==> stack_measure(
            expand(parent, k, stack, finals, depth).0,
            depth,
        ) == stack_measure(stack, depth),
        branch_room(parent.move_count, depth) >= 1 ==> stack_measure(
            expand(parent, k, stack, finals, depth).0,
            depth,
        ) <= stack_measure(stack, depth) + (SLOTS - k) * (pow7(
            (branch_room(parent.move_count, depth) - 1) as nat,
        ) as int),
    decreases SLOTS - k,
{
    let room_p = branch_room(parent.move_count, depth);
    if k < SLOTS {
        let c = chain(cleared(parent), k);
        lemma_chain_props(cleared(parent), k);
        if c.1 is FreeTurn && c.0.move_count < depth {
            let s2 = stack.push(c.0);
            assert(forall|j: int|
                0 <= j < s2.len() ==> (#[trigger] s2[j]).wf() && !s2[j].did_avalanche);
            lemma_expand(parent, k + 1, s2, finals, depth);
            if parent.move_count >= 255 {
                assert(c.0.move_count >= 255);
                assert(false);
            }
            assert(c.0.move_count == parent.move_count + 1);
            assert(room_p >= 1);
            let room_c = branch_room(c.0.move_count, depth);
            assert(room_c == room_p - 1);
            lemma_measure_push_model(stack, c.0, depth);
            let p1 = pow7((room_p - 1) as nat) as int;
            assert((SLOTS - k - 1) * p1 + p1 == (SLOTS - k) * p1) by (nonlinear_arith);
        } else {
            lemma_expand(parent, k + 1, stack, finals.push(c.0), depth);
            if room_p >= 1 {
                let p1 = pow7((room_p - 1) as nat) as int;
                assert((SLOTS - k - 1) * p1 <= (SLOTS - k) * p1) by (nonlinear_arith)
                    requires
                        p1 >= 0,
                        7 <= k < SLOTS,
                ;
            }
        }
    }
}

/// Work off the pending stack depth first: pop a board, expand it over the
/// six own pits, repeat until only leaves remain.
pub open spec fn drain(stack: Seq<BoardModel>, finals: Seq<BoardModel>, depth: int) -> Seq<
    BoardModel,
>
    decreases stack_measure(stack, depth)
        when depth <= 255 && (forall|j: int|
            0 <= j < stack.len() ==> (#[trigger] stack[j]).wf() && !stack[j].did_avalanche)
        via drain_decreases
{
    if stack.len() == 0 {
        finals
    } else {
        let e = expand(stack.last(), 7, stack.drop_last(), finals, depth);
        drain(e.0, e.1, depth)
    }
}

#[via_fn]
proof fn drain_decreases(stack: Seq<BoardModel>, finals: Seq<BoardModel>, depth: int) {
    if stack.len() > 0 {
        let parent = stack.last();
        assert(parent.wf() && !parent.did_avalanche);
        assert(forall|j: int|
            0 <= j < stack.drop_last().len() ==> (#[trigger] stack.drop_last()[j]) == stack[j]);
        lemma_expand(parent, 7, stack.drop_last(), finals, depth);
        let room_p = branch_room(parent.move_count, depth);
        assert(stack_measure(stack, depth) == stack_measure(stack.drop_last(), depth) + pow7(
            room_p,
        ));
        if room_p >= 1 {
            assert(pow7(room_p) == 7 * pow7((room_p - 1) as nat));
            lemma_pow7_pos((room_p - 1) as nat);
        }
    }
}

/// Scan leaves front to back, replacing the running best only on a strictly
/// larger own store (a tie keeps the earlier board).
pub open spec fn best_from(top: BoardModel, rest: Seq<BoardModel>) -> BoardModel
    decreases rest.len(),
{
    if rest.len() == 0 {
        top
    } else {
        best_from(
            if rest[0].spaces[0] > top.spaces[0] {
                rest[0]
            } else {
                top
            },
            rest.drop_first(),
        )
    }
}

/// The leaves of the branch that opens at pit `start`: play the chained
/// move on a fresh copy, then work the pending stack off.
pub open spec fn branch_leaves(b: BoardModel, start: int, depth: int) -> Seq<BoardModel> {
    let c = chain(cleared(b), start);
    if c.1 is FreeTurn {
        drain(seq![c.0], Seq::<BoardModel>::empty(), depth)
    } else {
        drain(Seq::<BoardModel>::empty(), seq![c.0], depth)
    }
}

/// The best leaf of the branch that opens at pit `start`: the scan is
/// seeded with the leaf found last, and earlier leaves replace it only on a
/// strictly larger own store.
pub open spec fn branch_result(b: BoardModel, start: int, depth: int) -> BoardModel {
    let finals = branch_leaves(b, start, depth);
    best_from(finals.last(), finals.drop_last())
}

/// The branch results for starting pits `7..k`, in pit order.
pub open spec fn branch_results_upto(b: BoardModel, k: int, depth: int) -> Seq<BoardModel>
    decreases k - 7 when 7 <= k <= SLOTS
{
    if k <= 7 {
        Seq::empty()
    } else {
        branch_results_upto(b, k - 1, depth).push(branch_result(b, k - 1, depth))
    }
}

/// The whole bounded search as a function of the starting board and the
/// depth bound: the six branch results, scanned as the leaves of a branch
/// are (seeded with the last branch, earlier branches win only strictly).
pub open spec fn search_spec(b: BoardModel, depth: int) -> BoardModel {
    let rs = branch_results_upto(b, SLOTS as int, depth);
    best_from(rs.last(), rs.drop_last())
}

/// The scan never returns a board with fewer banked stones than its seed or
/// any scanned board.
proof fn lemma_best_from_props(top: BoardModel, rest: Seq<BoardModel>)
    ensures
        best_from(top, rest).spaces[0] >= top.spaces[0],
        forall|j: int|
            0 <= j < rest.len() ==> best_from(top, rest).spaces[0] >= (#[trigger] rest[j]).spaces[0],
    decreases rest.len(),
{
    if rest.len() > 0 {
        let next = if rest[0].spaces[0] > top.spaces[0] {
            rest[0]
        } else {
            top
        };
        lemma_best_from_props(next, rest.drop_first());
        assert forall|j: int|
            0 <= j < rest.len() implies best_from(top, rest).spaces[0] >= (#[trigger] rest[j])
            .spaces[0] by {
            if j > 0 {
                assert(rest.drop_first()[j - 1] == rest[j]);
            }
        }
    }
}

proof fn lemma_upto_index(b: BoardModel, k: int, depth: int)
    requires
        7 <= k <= SLOTS,
    ensures
        branch_results_upto(b, k, depth).len() == k - 7,
        forall|i: int|
            0 <= i < k - 7 ==> branch_results_upto(b, k, depth)[i] == branch_result(
                b,
                7 + i,
                depth,
            ),
    decreases k - 7,
{
    if k > 7 {
        lemma_upto_index(b, k - 1, depth);
    }
}

/// Best-leaf selection: the board the search returns banks at least as many
/// stones in the own store as every leaf that any of the six branches
/// collected.
pub proof fn lemma_search_maximal(b: BoardModel, depth: int)
    ensures
        forall|s: int, j: int|
            7 <= s < SLOTS && 0 <= j < branch_leaves(b, s, depth).len() ==> search_spec(
                b,
                depth,
            ).spaces[0] >= (#[trigger] branch_leaves(b, s, depth)[j]).spaces[0],
{
    let rs = branch_results_upto(b, SLOTS as int, depth);
    lemma_upto_index(b, SLOTS as int, depth);
    lemma_best_from_props(rs.last(), rs.drop_last());
    assert forall|s: int, j: int|
        7 <= s < SLOTS && 0 <= j < branch_leaves(b, s, depth).len() implies search_spec(
        b,
        depth,
    ).spaces[0] >= (#[trigger] branch_leaves(b, s, depth)[j]).spaces[0] by {
        let finals = branch_leaves(b, s, depth);
        lemma_best_from_props(finals.last(), finals.drop_last());
        if j < finals.len() - 1 {
            assert(finals.drop_last()[j] == finals[j]);
        }
        assert(branch_result(b, s, depth).spaces[0] >= finals[j].spaces[0]);
        assert(rs[s - 7] == branch_result(b, s, depth));
        if s == 12 {
            assert(rs.last() == branch_result(b, s, depth));
        } else {
            assert(rs.drop_last()[s - 7] == rs[s - 7]);
        }
    }
}

/// `h` extends `h0` and every added entry names an own pit.
pub open spec fn own_extension(h0: Seq<int>, h: Seq<int>) -> bool {
    h0.is_prefix_of(h) && forall|j: int| h0.len() <= j < h.len() ==> 7 <= #[trigger] h[j] < SLOTS
}

proof fn lemma_own_extension_push(h0: Seq<int>, h: Seq<int>, x: int)
    requires
        own_extension(h0, h),
        7 <= x < SLOTS,
    ensures
        own_extension(h0, h.push(x)),
{
    assert(h0 =~= h.push(x).subrange(0, h0.len() as int));
    assert forall|j: int| h0.len() <= j < h.push(x).len() implies 7 <= #[trigger] h.push(x)[j]
        < SLOTS by {
        if j < h.len() {
            assert(h.push(x)[j] == h[j]);
        }
    }
}

/// A board a branch may hand on or keep as a leaf: well formed, no pending
/// avalanche, reached from the start by own-pit moves recorded as such, and
/// at least one move further along.
spec fn branch_board(b0: BoardModel, b: BoardModel) -> bool {
    &&& b.wf()
    &&& !b.did_avalanche
    &&& reaches_own(b0, b)
    &&& b.move_count >= b0.move_count
    &&& b0.move_count < 255 ==> b.move_count > b0.move_count
    &&& own_extension(b0.move_history, b.move_history)
}

/// Explore every line of play for the player to move, depth first: each of
/// the six own pits starts a branch; free turns continue a branch until
/// `move_count` reaches `depth`, avalanches are followed through within a
/// move, and empty landings or game over end a line. Returns the explored
/// board that banked the most stones in the own store (ties keep the board
/// found first), carrying its move history — exactly `search_spec` of the
/// input board and bound.
pub fn simulate(board: MancalaBoard, depth: u8) -> (r: MancalaBoard)
    requires
        board@.wf(),
    ensures
        r@.wf(),
        reaches_own(cleared(board@), r@),
        stones_total(r@.spaces) + r@.opponent_store == stones_total(board@.spaces)
            + board@.opponent_store,
        r@.spaces[0] >= board@.spaces[0],
        r@.opponent_store == board@.opponent_store,
        board@.move_history.is_prefix_of(r@.move_history),
        r@.move_history.len() > board@.move_history.len(),
        forall|j: int|
            board@.move_history.len() <= j < r@.move_history.len() ==> 7 <= #[trigger] r@
                .move_history[j] < SLOTS,
        !r@.did_avalanche,
        r@.move_count >= board@.move_count,
        board@.move_count < 255 ==> r@.move_count > board@.move_count,
        board@.move_count + 1 < depth ==> r@.move_count <= depth,
        r@.move_history.len() < 255 ==> r@.move_count - board@.move_count
            == r@.move_history.len() - board@.move_history.len(),
        r@ == search_spec(board@, depth as int),
{
    let ghost b0 = cleared(board@);
    let mut initial_space_stack: Vec<MancalaBoard> = Vec::new();
    proof {
        assert(views_of(initial_space_stack@) =~= branch_results_upto(board@, 7, depth as int));
    }
    let mut start: usize = 7;
    while start < 13
        invariant
            7 <= start <= 13,
            board@.wf(),
            b0 == cleared(board@),
            initial_space_stack@.len() == start - 7,
            forall|j: int|
                0 <= j < initial_space_stack@.len() ==> branch_board(
                    b0,
                    #[trigger] initial_space_stack@[j]@,
                ),
            b0.move_count + 1 < depth ==> forall|j: int|
                0 <= j < initial_space_stack@.len() ==> (#[trigger] initial_space_stack@[j]@)
                    .move_count <= depth,
            views_of(initial_space_stack@) == branch_results_upto(
                board@,
                start as int,
                depth as int,
            ),
        decreases 13 - start,
    {
        let mut stack: Vec<MancalaBoard> = Vec::new();
        let mut final_stack: Vec<MancalaBoard> = Vec::new();
        let mut b = board.clone();
        proof {
            assert(b@ == b0);
        }
        let outcome = play_chain(&mut b, start);
        let ghost finals_spec = branch_leaves(board@, start as int, depth as int);
        proof {
            lemma_chain_reach(b0, b@, start as int);
            assert(views_of(Seq::<MancalaBoard>::empty()) =~= Seq::<BoardModel>::empty());
            assert(b0.move_history =~= b0.move_history.subrange(
                0,
                b0.move_history.len() as int,
            ));
            lemma_own_extension_push(b0.move_history, b0.move_history, start as int);
        }
        if matches!(outcome, MoveResult::FreeTurn) {
            stack.push(b);
            proof {
                assert(views_of(stack@) =~= seq![chain(b0, start as int).0]);
                assert(drain(views_of(stack@), views_of(final_stack@), depth as int)
                    == finals_spec);
            }
        } else {
            final_stack.push(b);
            proof {
                assert(views_of(final_stack@) =~= seq![chain(b0, start as int).0]);
                assert(drain(views_of(stack@), views_of(final_stack@), depth as int)
                    == finals_spec);
            }
        }
        while stack.len() > 0
            invariant
                forall|j: int| 0 <= j < stack@.len() ==> branch_board(b0, #[trigger] stack@[j]@),
                forall|j: int|
                    0 <= j < final_stack@.len() ==> branch_board(b0, #[trigger] final_stack@[j]@),
                stack@.len() + final_stack@.len() >= 1,
                b0.move_count + 1 < depth ==> forall|j: int|
                    0 <= j < stack@.len() ==> (#[trigger] stack@[j]@).move_count < depth,
                b0.move_count + 1 < depth ==> forall|j: int|
                    0 <= j < final_stack@.len() ==> (#[trigger] final_stack@[j]@).move_count
                        <= depth,
                finals_spec == branch_leaves(board@, start as int, depth as int),
                drain(views_of(stack@), views_of(final_stack@), depth as int) == finals_spec,
            decreases stack_measure(views_of(stack@), depth as int),
        {
            let ghost m_full = stack_measure(views_of(stack@), depth as int);
            let ghost s_pre = views_of(stack@);
            let ghost f_pre = views_of(final_stack@);
            proof {
                lemma_measure_pop(stack@, depth as int);
                assert forall|j: int|
                    0 <= j < s_pre.len() implies (#[trigger] s_pre[j]).wf()
                    && !s_pre[j].did_avalanche by {
                    assert(branch_board(b0, stack@[j]@));
                }
            }
            let parent = stack.pop().unwrap();
            let ghost m_base = stack_measure(views_of(stack@), depth as int);
            let ghost room_p = branch_room(parent@.move_count, depth as int);
            proof {
                assert(m_full == m_base + pow7(room_p));
                assert(views_of(stack@) =~= s_pre.drop_last());
                assert(s_pre.last() == parent@);
                assert(s_pre.len() > 0);
                assert(depth as int <= 255);
                assert forall|j: int|
                    0 <= j < s_pre.len() implies (#[trigger] s_pre[j]).wf()
                    && !s_pre[j].did_avalanche by {}
                lemma_expand(parent@, 7, s_pre.drop_last(), f_pre, depth as int);
                let e0 = expand(s_pre.last(), 7, s_pre.drop_last(), f_pre, depth as int);
                assert(drain(s_pre, f_pre, depth as int) == drain(e0.0, e0.1, depth as int));
                assert(e0 == expand(parent@, 7, s_pre.drop_last(), f_pre, depth as int));
            }
            let ghost e_s0 = views_of(stack@);
            let ghost e_f0 = views_of(final_stack@);
            let mut k: usize = 7;
            while k < 13
                invariant
                    7 <= k <= 13,
                    parent@.wf(),
                    !parent@.did_avalanche,
                    reaches_own(b0, parent@),
                    parent@.move_count >= b0.move_count,
                    b0.move_count < 255 ==> parent@.move_count > b0.move_count,
                    own_extension(b0.move_history, parent@.move_history),
                    room_p == branch_room(parent@.move_count, depth as int),
                    b0.move_count + 1 < depth ==> parent@.move_count < depth,
                    forall|j: int|
                        0 <= j < stack@.len() ==> branch_board(b0, #[trigger] stack@[j]@),
                    forall|j: int|
                        0 <= j < final_stack@.len() ==> branch_board(
                            b0,
                            #[trigger] final_stack@[j]@,
                        ),
                    b0.move_count + 1 < depth ==> forall|j: int|
                        0 <= j < stack@.len() ==> (#[trigger] stack@[j]@).move_count < depth,
                    b0.move_count + 1 < depth ==> forall|j: int|
                        0 <= j < final_stack@.len() ==> (#[trigger] final_stack@[j]@).move_count
                            <= depth,
                    stack@.len() + final_stack@.len() >= k - 7,
                    room_p == 0 ==> stack_measure(views_of(stack@), depth as int) == m_base,
                    room_p >= 1 ==> stack_measure(views_of(stack@), depth as int) <= m_base + (
                    k - 7) * (pow7((room_p - 1) as nat) as int),
                    expand(parent@, k as int, views_of(stack@), views_of(final_stack@),
                        depth as int,
                    ) == expand(parent@, 7, e_s0, e_f0, depth as int),
                decreases 13 - k,
            {
                let ghost s_in = views_of(stack@);
                let ghost f_in = views_of(final_stack@);
                let mut temp = parent.clone();
                proof {
                    assert(temp@ == cleared(parent@));
                    assert(temp@ == parent@);
                }
                let oc = play_chain(&mut temp, k);
                proof {
                    lemma_reach_compose(b0, parent@, temp@, k as int);
                    assert(temp@ == chain(cleared(parent@), k as int).0);
                    assert(oc == chain(cleared(parent@), k as int).1);
                    lemma_own_extension_push(b0.move_history, parent@.move_history, k as int);
                }
                if matches!(oc, MoveResult::FreeTurn) {
                    if temp.move_count >= depth {
                        final_stack.push(temp);
                        proof {
                            assert(views_of(final_stack@) =~= f_in.push(temp@));
                            assert(expand(parent@, k as int, s_in, f_in, depth as int) == expand(
                                parent@,
                                k as int + 1,
                                s_in,
                                f_in.push(temp@),
                                depth as int,
                            ));
                        }
                    } else {
                        proof {
                            assert(temp@.move_count < depth);
                            assert(temp@.move_count >= parent@.move_count);
                            if parent@.move_count >= 255 {
                                assert(temp@.move_count >= 255);
                                assert(false);
                            }
                            assert(temp@.move_count > parent@.move_count);
                            assert(room_p >= 1);
                            let room_t = branch_room(temp@.move_count, depth as int);
                            assert(room_t <= (room_p - 1) as nat);
                            lemma_pow7_mono(room_t, (room_p - 1) as nat);
                            lemma_measure_push(stack@, temp, depth as int);
                            assert((k - 7) * (pow7((room_p - 1) as nat) as int) + pow7(
                                (room_p - 1) as nat,
                            ) == (k + 1 - 7) * (pow7((room_p - 1) as nat) as int))
                                by (nonlinear_arith);
                        }
                        stack.push(temp);
                        proof {
                            assert(views_of(stack@) =~= s_in.push(temp@));
                            assert(expand(parent@, k as int, s_in, f_in, depth as int) == expand(
                                parent@,
                                k as int + 1,
                                s_in.push(temp@),
                                f_in,
                                depth as int,
                            ));
                        }
                    }
                } else {
                    final_stack.push(temp);
                    proof {
                        assert(views_of(final_stack@) =~= f_in.push(temp@));
                        assert(expand(parent@, k as int, s_in, f_in, depth as int) == expand(
                            parent@,
                            k as int + 1,
                            s_in,
                            f_in.push(temp@),
                            depth as int,
                        ));
                    }
                }
                proof {
                    if room_p >= 1 {
                        let p1 = pow7((room_p - 1) as nat) as int;
                        assert((k - 7) * p1 <= (k + 1 - 7) * p1) by (nonlinear_arith)
                            requires
                                k >= 7,
                                p1 >= 0,
                        ;
                    }
                }
                k = k + 1;
            }
            proof {
                if room_p == 0 {
                    assert(pow7(room_p) == 1);
                } else {
                    assert(pow7(room_p) == 7 * pow7((room_p - 1) as nat));
                    lemma_pow7_pos((room_p - 1) as nat);
                    assert(6 * (pow7((room_p - 1) as nat) as int) < pow7(room_p) as int);
                }
                assert(stack_measure(views_of(stack@), depth as int) < m_full);
                assert(expand(parent@, 13, views_of(stack@), views_of(final_stack@), depth as int)
                    == (views_of(stack@), views_of(final_stack@)));
                assert(drain(views_of(stack@), views_of(final_stack@), depth as int)
                    == finals_spec);
            }
        }
        proof {
            assert(views_of(stack@).len() == 0);
            assert(views_of(final_stack@) == finals_spec);
        }
        let ghost f_sel = views_of(final_stack@);
        let mut top = final_stack.pop().unwrap();
        proof {
            assert(top@ == f_sel.last());
            assert(views_of(final_stack@) =~= f_sel.drop_last());
            assert(best_from(top@, views_of(final_stack@)) == branch_result(
                board@,
                start as int,
                depth as int,
            ));
        }
        while final_stack.len() > 0
            invariant
                branch_board(b0, top@),
                b0.move_count + 1 < depth ==> top@.move_count <= depth,
                forall|j: int|
                    0 <= j < final_stack@.len() ==> branch_board(b0, #[trigger] final_stack@[j]@),
                b0.move_count + 1 < depth ==> forall|j: int|
                    0 <= j < final_stack@.len() ==> (#[trigger] final_stack@[j]@).move_count
                        <= depth,
                best_from(top@, views_of(final_stack@)) == branch_result(
                    board@,
                    start as int,
                    depth as int,
                ),
            decreases final_stack@.len(),
        {
            let ghost f_now = views_of(final_stack@);
            proof {
                assert(branch_board(b0, final_stack@[0]@));
            }
            let cand = final_stack.remove(0);
            proof {
                assert(cand.spaces@.len() == 13);
                assert(top.spaces@.len() == 13);
                assert(cand@ == f_now[0]);
                assert(views_of(final_stack@) =~= f_now.drop_first());
            }
            if cand.spaces[0] > top.spaces[0] {
                top = cand;
            }
        }
        let ghost iss_pre = initial_space_stack@;
        initial_space_stack.push(top);
        proof {
            assert(views_of(initial_space_stack@) =~= views_of(iss_pre).push(top@));
            assert(views_of(initial_space_stack@) == branch_results_upto(
                board@,
                start as int + 1,
                depth as int,
            ));
        }
        start = start + 1;
    }
    let ghost rs = views_of(initial_space_stack@);
    proof {
        assert(rs == branch_results_upto(board@, 13, depth as int));
        assert(rs.len() == 6);
    }
    let mut best = initial_space_stack.pop().unwrap();
    proof {
        assert(best@ == rs.last());
        assert(views_of(initial_space_stack@) =~= rs.drop_last());
        assert(best_from(best@, views_of(initial_space_stack@)) == search_spec(
            board@,
            depth as int,
        ));
    }
    while initial_space_stack.len() > 0
        invariant
            branch_board(b0, best@),
            b0.move_count + 1 < depth ==> best@.move_count <= depth,
            forall|j: int|
                0 <= j < initial_space_stack@.len() ==> branch_board(
                    b0,
                    #[trigger] initial_space_stack@[j]@,
                ),
            b0.move_count + 1 < depth ==> forall|j: int|
                0 <= j < initial_space_stack@.len() ==> (#[trigger] initial_space_stack@[j]@)
                    .move_count <= depth,
            best_from(best@, views_of(initial_space_stack@)) == search_spec(board@, depth as int),
        decreases initial_space_stack@.len(),
    {
        let ghost r_now = views_of(initial_space_stack@);
        proof {
            assert(branch_board(b0, initial_space_stack@[0]@));
        }
        let cand = initial_space_stack.remove(0);
        proof {
            assert(cand.spaces@.len() == 13);
            assert(best.spaces@.len() == 13);
            assert(cand@ == r_now[0]);
            assert(views_of(initial_space_stack@) =~= r_now.drop_first());
        }
        if cand.spaces[0] > best.spaces[0] {
            best = cand;
        }
    }
    proof {
        let mvw = choose|mv: Seq<int>|
            #![trigger run(b0, mv)]
            valid_moves(mv) && mv.len() >= 1 && 7 <= mv[0] < SLOTS && best@ == run(b0, mv);
        lemma_run_properties(b0, mvw);
        let b1 = step(b0, mvw[0]);
        lemma_step_properties(b0, mvw[0]);
        let tail = mvw.subrange(1, mvw.len() as int);
        assert forall|j: int| 0 <= j < tail.len() implies 1 <= #[trigger] tail[j] < SLOTS by {
            assert(tail[j] == mvw[j + 1]);
        }
        lemma_run_properties(b1, tail);
        assert(best@ == run(b1, tail));
        assert(b1.move_history == b0.move_history.push(mvw[0]));
        assert(best@.move_history.len() >= b1.move_history.len());
    }
    best
}

} // verus!
