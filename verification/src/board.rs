//! The Mancala board: 13 slots (index 0 is the own store, 1..=6 the
//! opponent's pits, 7..=12 the own pits), a fixed opponent store, and the
//! single-move transition `move_piece` with its outcome classification.

use vstd::prelude::*;

verus! {

/// Number of slots sown over: the own store plus twelve pits.
pub const SLOTS: usize = 13;

/// Mathematical model of a board: the slot counts as unbounded integers,
/// together with the bookkeeping that a move updates.
pub ghost struct BoardModel {
    /// Slot counts; index 0 is the own store.
    pub spaces: Seq<int>,
    /// The opponent's store; never touched by sowing.
    pub opponent_store: int,
    /// The initiating pit of every move played, in order.
    pub move_history: Seq<int>,
    /// Number of initiating moves played (free turns included, forced
    /// avalanche continuations not), saturating at 255.
    pub move_count: int,
    /// One-shot flag: the previous call ended in an avalanche, so the next
    /// call is a forced continuation and must not be recorded.
    pub did_avalanche: bool,
}

/// The slot counts of a concrete board, as integers.
pub open spec fn to_ints(s: Seq<u8>) -> Seq<int> {
    s.map_values(|x: u8| x as int)
}

/// Sum of the entries of `s` from index `k` on.
pub open spec fn sum_from(s: Seq<int>, k: int) -> int
    decreases s.len() - k when 0 <= k <= s.len()
{
    if k >= s.len() {
        0
    } else {
        s[k] + sum_from(s, k + 1)
    }
}

/// Total stones on the board (all 13 slots, own store included).
pub open spec fn stones_total(s: Seq<int>) -> int {
    sum_from(s, 0)
}

/// Stones outside the own store (indices 1..13).
pub open spec fn stones_out(s: Seq<int>) -> int {
    sum_from(s, 1)
}

/// Position-weighted stone count of the pits, from index `k` on: each stone
/// in pit `i` counts `i`. Sowing within the pits moves stones to strictly
/// larger indices, so this grows whenever no stone reaches the store.
pub open spec fn weight_from(s: Seq<int>, k: int) -> int
    decreases s.len() - k when 0 <= k <= s.len()
{
    if k >= s.len() {
        0
    } else {
        k * s[k] + weight_from(s, k + 1)
    }
}

/// Position-weighted stone count of the pits (indices 1..13).
pub open spec fn weight(s: Seq<int>) -> int {
    weight_from(s, 1)
}

/// All slots from index `k` on hold no stone.
pub open spec fn all_zero_from(s: Seq<int>, k: int) -> bool {
    forall|i: int| k <= i < s.len() ==> s[i] == 0
}

/// The own side is exhausted: every slot from index 6 on is empty.
pub open spec fn side_empty(s: Seq<int>) -> bool {
    all_zero_from(s, 6)
}

/// Drop `hand` stones one by one into the slots after `pos`, wrapping past
/// index 12 to index 0. Returns the board and the index of the last stone.
pub open spec fn sow(s: Seq<int>, pos: int, hand: nat) -> (Seq<int>, int)
    decreases hand
{
    if hand == 0 {
        (s, pos)
    } else {
        let p = if pos + 1 >= SLOTS { pos + 1 - SLOTS } else { pos + 1 };
        sow(s.update(p, s[p] + 1), p, (hand - 1) as nat)
    }
}

/// Lift every stone out of `space` and sow them; the pair of the resulting
/// board and the landing index.
pub open spec fn sow_from(s: Seq<int>, space: int) -> (Seq<int>, int) {
    sow(s.update(space, 0), space, s[space] as nat)
}

/// The full effect of one `move_piece` call on the model.
pub open spec fn step(b: BoardModel, space: int) -> BoardModel {
    let s2 = sow_from(b.spaces, space).0;
    let land = sow_from(b.spaces, space).1;
    BoardModel {
        spaces: s2,
        opponent_store: b.opponent_store,
        move_history: if b.did_avalanche {
            b.move_history
        } else {
            b.move_history.push(space)
        },
        move_count: if b.did_avalanche || b.move_count >= 255 {
            b.move_count
        } else {
            b.move_count + 1
        },
        did_avalanche: land != 0 && s2[land] > 1,
    }
}

/// The outcome `move_piece` reports for this call.
pub open spec fn outcome_spec(b: BoardModel, space: int) -> MoveResult {
    let s2 = sow_from(b.spaces, space).0;
    let land = sow_from(b.spaces, space).1;
    if land == 0 && side_empty(s2) {
        MoveResult::GameOver
    } else if land == 0 {
        MoveResult::FreeTurn
    } else if s2[land] > 1 {
        MoveResult::Avalanche(land as usize)
    } else if side_empty(s2) {
        MoveResult::GameOver
    } else {
        MoveResult::EmptySpace
    }
}

/// The model after the transient avalanche flag is reset, as cloning a board
/// for a new search branch does.
pub open spec fn cleared(b: BoardModel) -> BoardModel {
    BoardModel { did_avalanche: false, ..b }
}

impl BoardModel {
    /// A structurally valid board: 13 non-negative slot counts whose total
    /// fits the 8-bit range of a concrete board, bookkeeping in range, and
    /// the move count agreeing with the recorded history (up to the 255
    /// saturation of the concrete counter).
    pub open spec fn wf(self) -> bool {
        &&& self.spaces.len() == SLOTS
        &&& forall|i: int| 0 <= i < SLOTS ==> self.spaces[i] >= 0
        &&& stones_total(self.spaces) <= 255
        &&& 0 <= self.move_count <= 255
        &&& 0 <= self.opponent_store <= 255
        &&& self.move_count == if self.move_history.len() < 255 {
            self.move_history.len() as int
        } else {
            255
        }
    }
}

/// Updating one entry changes a tail sum by the difference at that entry.
pub proof fn lemma_sum_update(s: Seq<int>, i: int, v: int, k: int)
    requires
        0 <= k <= s.len(),
        0 <= i < s.len(),
    ensures
        sum_from(s.update(i, v), k) == if i >= k {
            sum_from(s, k) + v - s[i]
        } else {
            sum_from(s, k)
        },
    decreases s.len() - k,
{
    if k < s.len() {
        lemma_sum_update(s, i, v, k + 1);
    }
}

/// A tail sum of non-negative entries is non-negative and bounds each entry.
pub proof fn lemma_sum_bounds(s: Seq<int>, k: int)
    requires
        0 <= k <= s.len(),
        forall|i: int| 0 <= i < s.len() ==> s[i] >= 0,
    ensures
        sum_from(s, k) >= 0,
        forall|i: int| k <= i < s.len() ==> s[i] <= sum_from(s, k),
    decreases s.len() - k,
{
    if k < s.len() {
        lemma_sum_bounds(s, k + 1);
    }
}

/// Updating one entry changes the weighted sum by the weighted difference.
pub proof fn lemma_weight_update(s: Seq<int>, i: int, v: int, k: int)
    requires
        0 <= k <= s.len(),
        0 <= i < s.len(),
    ensures
        weight_from(s.update(i, v), k) == if i >= k {
            weight_from(s, k) + i * v - i * s[i]
        } else {
            weight_from(s, k)
        },
    decreases s.len() - k,
{
    if k < s.len() {
        lemma_weight_update(s, i, v, k + 1);
    }
}

/// On a 13-slot board the weighted pit sum lies between 0 and 12 times the
/// plain pit sum.
pub proof fn lemma_weight_bounds(s: Seq<int>, k: int)
    requires
        s.len() == SLOTS,
        1 <= k <= s.len(),
        forall|i: int| 0 <= i < s.len() ==> s[i] >= 0,
    ensures
        0 <= weight_from(s, k),
        weight_from(s, k) <= 12 * sum_from(s, k),
    decreases s.len() - k,
{
    if k < s.len() {
        lemma_weight_bounds(s, k + 1);
        assert(0 <= k * s[k] && k * s[k] <= 12 * s[k]) by (nonlinear_arith)
            requires 1 <= k <= 12, s[k] >= 0;
    }
}

/// Sowing keeps the board length, lands inside the board, never removes a
/// stone from any slot, and adds exactly the hand to the total.
pub proof fn lemma_sow_basic(s: Seq<int>, pos: int, hand: nat)
    requires
        s.len() == SLOTS,
        0 <= pos < SLOTS,
    ensures
        sow(s, pos, hand).0.len() == SLOTS,
        0 <= sow(s, pos, hand).1 < SLOTS,
        forall|i: int| 0 <= i < SLOTS ==> sow(s, pos, hand).0[i] >= #[trigger] s[i],
        sum_from(sow(s, pos, hand).0, 0) == sum_from(s, 0) + hand,
    decreases hand,
{
    if hand > 0 {
        let p = if pos + 1 >= SLOTS { pos + 1 - SLOTS as int } else { pos + 1 };
        let s1 = s.update(p, s[p] + 1);
        lemma_sum_update(s, p, s[p] + 1, 0);
        lemma_sow_basic(s1, p, (hand - 1) as nat);
        assert forall|i: int| 0 <= i < SLOTS implies sow(s, pos, hand).0[i] >= #[trigger] s[i] by {
            assert(sow(s1, p, (hand - 1) as nat).0[i] >= s1[i]);
        }
    }
}

/// A sow that stays short of the store lands at `pos + hand`, leaves the
/// store untouched, and raises the weighted pit sum by more than
/// `hand * pos`.
pub proof fn lemma_sow_no_wrap(s: Seq<int>, pos: int, hand: nat)
    requires
        s.len() == SLOTS,
        0 <= pos,
        pos + hand < SLOTS,
    ensures
        sow(s, pos, hand).1 == pos + hand,
        sow(s, pos, hand).0[0] == s[0],
        weight_from(sow(s, pos, hand).0, 1) >= weight_from(s, 1) + hand * pos + hand,
    decreases hand,
{
    if hand > 0 {
        let p = pos + 1;
        let s1 = s.update(p, s[p] + 1);
        lemma_weight_update(s, p, s[p] + 1, 1);
        assert(p * (s[p] + 1) - p * s[p] == p) by (nonlinear_arith);
        assert(weight_from(s1, 1) == weight_from(s, 1) + p);
        lemma_sow_no_wrap(s1, p, (hand - 1) as nat);
        assert(weight_from(sow(s, pos, hand).0, 1) >= weight_from(s, 1) + p + (hand - 1) * p + (
        hand - 1));
        assert(p + (hand - 1) * p + (hand - 1) >= hand * pos + hand) by (nonlinear_arith)
            requires p == pos + 1, hand >= 1, pos >= 0;
    }
}

/// A sow that reaches or passes the store deposits a stone there.
pub proof fn lemma_sow_wrap(s: Seq<int>, pos: int, hand: nat)
    requires
        s.len() == SLOTS,
        0 <= pos < SLOTS,
        pos + hand >= SLOTS,
    ensures
        sow(s, pos, hand).0[0] >= s[0] + 1,
    decreases hand,
{
    let p = if pos + 1 >= SLOTS { pos + 1 - SLOTS as int } else { pos + 1 };
    let s1 = s.update(p, s[p] + 1);
    if p == 0 {
        lemma_sow_basic(s1, 0, (hand - 1) as nat);
    } else {
        lemma_sow_wrap(s1, p, (hand - 1) as nat);
    }
}

/// One move keeps the board well formed, conserves the stone total, never
/// drains the own store, leaves the opponent store alone, extends the
/// history, and advances the move count.
pub proof fn lemma_step_properties(b: BoardModel, space: int)
    requires
        b.wf(),
        1 <= space < SLOTS,
    ensures
        step(b, space).wf(),
        stones_total(step(b, space).spaces) == stones_total(b.spaces),
        step(b, space).spaces[0] >= b.spaces[0],
        step(b, space).opponent_store == b.opponent_store,
        b.move_history.is_prefix_of(step(b, space).move_history),
        step(b, space).move_count >= b.move_count,
        !b.did_avalanche && b.move_count < 255 ==> step(b, space).move_count == b.move_count + 1,
        b.did_avalanche ==> step(b, space).move_count == b.move_count,
{
    let sp = b.spaces.update(space, 0);
    let h = b.spaces[space] as nat;
    lemma_sum_update(b.spaces, space, 0, 0);
    lemma_sow_basic(sp, space, h);
    assert forall|i: int| 0 <= i < SLOTS implies #[trigger] step(b, space).spaces[i] >= 0 by {
        assert(sp[i] >= 0);
        assert(sow(sp, space, h).0[i] >= sp[i]);
    }
    if !b.did_avalanche {
        assert(b.move_history =~= b.move_history.push(space).subrange(
            0,
            b.move_history.len() as int,
        ));
    } else {
        assert(b.move_history =~= b.move_history.subrange(0, b.move_history.len() as int));
    }
}

/// Termination measure for avalanche chains: a move from a non-empty pit
/// either banks a stone (fewer stones stay outside the store) or pushes the
/// weighted pit sum strictly up.
pub proof fn lemma_step_decreases(b: BoardModel, space: int)
    requires
        b.wf(),
        1 <= space < SLOTS,
        b.spaces[space] >= 1,
    ensures
        stones_out(step(b, space).spaces) <= stones_out(b.spaces),
        stones_out(step(b, space).spaces) == stones_out(b.spaces) ==> weight(
            step(b, space).spaces,
        ) > weight(b.spaces),
{
    let sp = b.spaces.update(space, 0);
    let h = b.spaces[space] as nat;
    let s2 = sow(sp, space, h).0;
    lemma_sum_update(b.spaces, space, 0, 0);
    lemma_sow_basic(sp, space, h);
    assert(sum_from(s2, 0) == s2[0] + sum_from(s2, 1));
    assert(sum_from(b.spaces, 0) == b.spaces[0] + sum_from(b.spaces, 1));
    if space + h < SLOTS {
        lemma_sow_no_wrap(sp, space, h);
        lemma_weight_update(b.spaces, space, 0, 1);
        assert(h * space == space * (b.spaces[space])) by (nonlinear_arith)
            requires h == b.spaces[space];
    } else {
        lemma_sow_wrap(sp, space, h);
    }
}

/// Avalanche correctness: when the last stone lands outside the store in a
/// pit that then holds more than one stone, the outcome is exactly
/// `Avalanche` of that pit, and the forced continuation that follows
/// appends nothing to the move history and advances no move count.
pub proof fn lemma_avalanche_correctness(b: BoardModel, space: int, next_space: int)
    requires
        b.wf(),
        1 <= space < SLOTS,
        1 <= next_space < SLOTS,
        sow_from(b.spaces, space).1 != 0,
        sow_from(b.spaces, space).0[sow_from(b.spaces, space).1] > 1,
    ensures
        outcome_spec(b, space) == MoveResult::Avalanche(sow_from(b.spaces, space).1 as usize),
        step(b, space).did_avalanche,
        step(step(b, space), next_space).move_history == step(b, space).move_history,
        step(step(b, space), next_space).move_count == step(b, space).move_count,
{
}

/// Terminal detection: when every slot from index 6 on is empty after a
/// move, and the last stone landed in the store or in a pit now holding at
/// most one stone, the outcome is `GameOver`.
pub proof fn lemma_terminal_detection(b: BoardModel, space: int)
    requires
        b.wf(),
        1 <= space < SLOTS,
        side_empty(sow_from(b.spaces, space).0),
        sow_from(b.spaces, space).1 == 0 || sow_from(b.spaces, space).0[sow_from(
            b.spaces,
            space,
        ).1] <= 1,
    ensures
        outcome_spec(b, space) == MoveResult::GameOver,
{
}

/// Lifting a concrete update to the integer view.
pub proof fn lemma_to_ints_update(s: Seq<u8>, i: int, v: u8)
    requires
        0 <= i < s.len(),
    ensures
        to_ints(s.update(i, v)) == to_ints(s).update(i, v as int),
{
    assert(to_ints(s.update(i, v)) =~= to_ints(s).update(i, v as int));
}

/// Lifting a concrete push to the integer view.
pub proof fn lemma_to_ints_push(s: Seq<u8>, v: u8)
    ensures
        to_ints(s.push(v)) == to_ints(s).push(v as int),
{
    assert(to_ints(s.push(v)) =~= to_ints(s).push(v as int));
}

/// How a single move resolved.
#[derive(Clone, Copy, Debug, PartialEq, Eq)]
pub enum MoveResult {
    /// The last stone landed in the own store: the same player moves again.
    FreeTurn,
    /// The last stone landed in a previously empty pit: the turn is over.
    EmptySpace,
    /// The own side is exhausted: no further moves.
    GameOver,
    /// The last stone landed in an occupied pit: sowing must continue at
    /// once from that pit.
    Avalanche(usize),
}

/// A Mancala board as the search works on it.
pub struct MancalaBoard {
    /// The 13 slot counts; index 0 is the own store.
    pub spaces: Vec<u8>,
    /// The opponent's store, fixed for a whole search branch.
    pub opponent_store: u8,
    /// The initiating pit of every move played, in order.
    pub move_history: Vec<u8>,
    /// Number of initiating moves played (forced avalanche continuations do
    /// not count), saturating at 255.
    pub move_count: u8,
    /// Whether the previous call ended in an avalanche.
    pub did_avalanche: bool,
}

impl View for MancalaBoard {
    type V = BoardModel;

    open spec fn view(&self) -> BoardModel {
        BoardModel {
            spaces: to_ints(self.spaces@),
            opponent_store: self.opponent_store as int,
            move_history: to_ints(self.move_history@),
            move_count: self.move_count as int,
            did_avalanche: self.did_avalanche,
        }
    }
}

/// The slot counts at the start of a standard game: empty store, four
/// stones in each pit.
pub open spec fn default_spaces() -> Seq<int> {
    seq![0, 4, 4, 4, 4, 4, 4, 4, 4, 4, 4, 4, 4]
}

/// Every slot from `from` on is empty.
fn is_zero(buf: &Vec<u8>, from: usize) -> (r: bool)
    requires
        from <= buf@.len(),
    ensures
        r == all_zero_from(to_ints(buf@), from as int),
{
    let mut i: usize = from;
    while i < buf.len()
        invariant
            from <= i <= buf@.len(),
            forall|j: int| from <= j < i ==> to_ints(buf@)[j] == 0,
        decreases buf@.len() - i,
    {
        if buf[i] != 0 {
            assert(to_ints(buf@)[i as int] != 0);
            return false;
        }
        i = i + 1;
    }
    true
}

impl Default for MancalaBoard {
    /// The standard starting board: both stores empty, four stones in each
    /// of the twelve pits, no moves played yet.
    fn default() -> (b: MancalaBoard)
        ensures
            b@.wf(),
            b@.spaces == default_spaces(),
            b@.opponent_store == 0,
            b@.move_history == Seq::<int>::empty(),
            b@.move_count == 0,
            !b@.did_avalanche,
    {
        let mut spaces: Vec<u8> = Vec::new();
        spaces.push(0);
        let mut i: usize = 0;
        while i < 12
            invariant
                i <= 12,
                spaces@.len() == i + 1,
                spaces@[0] == 0,
                forall|j: int| 1 <= j < i + 1 ==> spaces@[j] == 4,
            decreases 12 - i,
        {
            spaces.push(4);
            i = i + 1;
        }
        proof {
            assert(to_ints(spaces@) =~= default_spaces());
            reveal_with_fuel(sum_from, 14);
            assert(stones_total(default_spaces()) == 48);
            assert(to_ints(Seq::<u8>::empty()) =~= Seq::<int>::empty());
        }
        MancalaBoard {
            spaces,
            opponent_store: 0,
            move_history: Vec::new(),
            move_count: 0,
            did_avalanche: false,
        }
    }
}

impl Clone for MancalaBoard {
    /// A copy for an independent search branch: same slots, stores, history
    /// and move count, but the transient avalanche flag is reset.
    fn clone(&self) -> (r: MancalaBoard)
        ensures
            r@ == cleared(self@),
    {
        let mut spaces: Vec<u8> = Vec::new();
        let mut i: usize = 0;
        while i < self.spaces.len()
            invariant
                i <= self.spaces@.len(),
                spaces@.len() == i,
                forall|j: int| 0 <= j < i ==> spaces@[j] == self.spaces@[j],
            decreases self.spaces@.len() - i,
        {
            spaces.push(self.spaces[i]);
            i = i + 1;
        }
        let mut move_history: Vec<u8> = Vec::new();
        let mut k: usize = 0;
        while k < self.move_history.len()
            invariant
                k <= self.move_history@.len(),
                move_history@.len() == k,
                forall|j: int| 0 <= j < k ==> move_history@[j] == self.move_history@[j],
            decreases self.move_history@.len() - k,
        {
            move_history.push(self.move_history[k]);
            k = k + 1;
        }
        proof {
            assert(spaces@ =~= self.spaces@);
            assert(move_history@ =~= self.move_history@);
        }
        MancalaBoard {
            spaces,
            opponent_store: self.opponent_store,
            move_history,
            move_count: self.move_count,
            did_avalanche: false,
        }
    }
}

impl MancalaBoard {
    /// A board from validated slot counts and an opponent store, with no
    /// moves played yet.
    pub fn new(spaces: [u8; 13], opponent_store: u8) -> (b: MancalaBoard)
        requires
            stones_total(to_ints(spaces@)) <= 255,
        ensures
            b@.wf(),
            b@.spaces == to_ints(spaces@),
            b@.opponent_store == opponent_store as int,
            b@.move_history == Seq::<int>::empty(),
            b@.move_count == 0,
            !b@.did_avalanche,
    {
        let mut v: Vec<u8> = Vec::new();
        let mut i: usize = 0;
        while i < 13
            invariant
                i <= 13,
                v@.len() == i,
                forall|j: int| 0 <= j < i ==> v@[j] == spaces@[j],
            decreases 13 - i,
        {
            v.push(spaces[i]);
            i = i + 1;
        }
        proof {
            assert(v@ =~= spaces@);
            assert(to_ints(Seq::<u8>::empty()) =~= Seq::<int>::empty());
        }
        MancalaBoard {
            spaces: v,
            opponent_store,
            move_history: Vec::new(),
            move_count: 0,
            did_avalanche: false,
        }
    }

    /// Sow the stones of `space`: record the initiating pit and advance the
    /// move count (neither on a forced avalanche continuation), distribute
    /// the lifted stones one per slot wrapping past index 12 into the store,
    /// and classify where the last stone landed.
    pub fn move_piece(&mut self, space: usize) -> (r: MoveResult)
        requires
            old(self)@.wf(),
            1 <= space < SLOTS,
        ensures
            final(self)@ == step(old(self)@, space as int),
            r == outcome_spec(old(self)@, space as int),
            final(self)@.wf(),
            stones_total(final(self)@.spaces) == stones_total(old(self)@.spaces),
            final(self)@.spaces[0] >= old(self)@.spaces[0],
            final(self)@.opponent_store == old(self)@.opponent_store,
            old(self)@.did_avalanche ==> final(self)@.move_history == old(self)@.move_history,
            old(self)@.did_avalanche ==> final(self)@.move_count == old(self)@.move_count,
    {
        proof {
            lemma_step_properties(old(self)@, space as int);
        }
        if !self.did_avalanche {
            proof {
                lemma_to_ints_push(self.move_history@, space as u8);
            }
            self.move_history.push(space as u8);
            if self.move_count < 255 {
                self.move_count = self.move_count + 1;
            }
        } else {
            self.did_avalanche = false;
        }
        let ghost pre = self@;
        let hand0: u8 = self.spaces[space];
        proof {
            lemma_to_ints_update(self.spaces@, space as int, 0);
            lemma_sum_update(pre.spaces, space as int, 0, 0);
        }
        self.spaces[space] = 0;
        let ghost s0 = self@.spaces;
        let ghost total0 = stones_total(s0) + hand0;
        let mut hand: u8 = hand0;
        let mut pos: usize = space;
        while hand > 0
            invariant
                self.spaces@.len() == SLOTS,
                pos < SLOTS,
                self@.move_history == pre.move_history,
                self@.move_count == pre.move_count,
                self@.did_avalanche == pre.did_avalanche,
                self@.opponent_store == pre.opponent_store,
                hand <= hand0,
                stones_total(self@.spaces) + hand == total0,
                total0 <= 255,
                sow(self@.spaces, pos as int, hand as nat) == sow(s0, space as int, hand0 as nat),
                self@.spaces[0] >= s0[0],
            decreases hand,
        {
            let ghost opos = pos as int;
            let ghost scur = self@.spaces;
            let ghost scur8 = self.spaces@;
            pos = pos + 1;
            if pos >= SLOTS {
                pos = pos - SLOTS;
            }
            proof {
                assert(pos as int == if opos + 1 >= SLOTS {
                    opos + 1 - SLOTS
                } else {
                    opos + 1
                });
                lemma_sum_bounds(scur, 0);
            }
            let v: u8 = self.spaces[pos];
            proof {
                assert(v as int <= stones_total(scur));
                lemma_to_ints_update(scur8, pos as int, (v + 1) as u8);
                lemma_sum_update(scur, pos as int, v as int + 1, 0);
            }
            self.spaces[pos] = v + 1;
            hand = hand - 1;
            proof {
                assert(self@.spaces == scur.update(pos as int, v as int + 1));
                assert(sow(scur, opos, (hand + 1) as nat) == sow(
                    self@.spaces,
                    pos as int,
                    hand as nat,
                ));
            }
        }
        let ghost b2 = step(old(self)@, space as int);
        proof {
            assert(sow(self@.spaces, pos as int, 0) == (self@.spaces, pos as int));
            assert(s0 == old(self)@.spaces.update(space as int, 0));
            assert(hand0 as nat == old(self)@.spaces[space as int] as nat);
            assert(self@.spaces == sow_from(old(self)@.spaces, space as int).0);
            assert(pos as int == sow_from(old(self)@.spaces, space as int).1);
        }
        if pos == 0 && is_zero(&self.spaces, 6) {
            proof {
                assert(self@ == b2);
            }
            MoveResult::GameOver
        } else if pos == 0 {
            proof {
                assert(self@ == b2);
            }
            MoveResult::FreeTurn
        } else if self.spaces[pos] > 1 {
            self.did_avalanche = true;
            proof {
                assert(self@ == b2);
            }
            MoveResult::Avalanche(pos)
        } else if is_zero(&self.spaces, 6) {
            proof {
                assert(self@ == b2);
            }
            MoveResult::GameOver
        } else {
            proof {
                assert(self@ == b2);
            }
            MoveResult::EmptySpace
        }
    }
}

} // verus!
