use vstd::prelude::*;
use rand::rngs::StdRng;
use crate::grid::{component_has_cycle, tree_size_of};
use crate::moves::{Move, is_legal, is_legal_walk, last_move, walk_end, move_target, in_board, get_legal_actions, legal_moves};
use crate::queue::StateQueue;
use crate::rng::shuffle_moves;
use crate::state::{GameState, Evaluation, MAX_TURNS, slid, center_of, max_tree_size, score_of};

verus! {

/// The tree size that `eval` assigns to board `g` after the hole left block
/// `from`, where the tile that slid now sits.
pub open spec fn measured(g: Seq<Seq<bool>>, n: int, from: (int, int), eval: Evaluation) -> int {
    match eval {
        Evaluation::FromMovedTile => tree_size_of(g, center_of(from)),
        Evaluation::AllCenters => max_tree_size(g, n),
    }
}

/// The board after playing `ops` from board `g` with the hole at `start`.
pub open spec fn replay(g: Seq<Seq<bool>>, start: (int, int), ops: Seq<Move>) -> Seq<Seq<bool>>
    decreases ops.len(),
{
    if ops.len() == 0 {
        g
    } else {
        slid(
            replay(g, start, ops.drop_last()),
            walk_end(start, ops.drop_last()),
            walk_end(start, ops),
        )
    }
}

/// `child` is `parent` after the blank moved by `action`, measured by `eval`.
pub open spec fn child_of(parent: &GameState, action: Move, eval: Evaluation, child: &GameState) -> bool {
    &&& child.wf()
    &&& child.n == parent.n
    &&& child.board() == slid(parent.board(), parent.hole(), move_target(parent.hole(), action))
    &&& child.hole() == move_target(parent.hole(), action)
    &&& child.operation_list@ == parent.operation_list@.push(action)
    &&& child.turn == parent.turn + 1
    &&& child.tree_size == measured(child.board(), parent.n as int, parent.hole(), eval)
    &&& child.has_loop == component_has_cycle(child.board(), center_of(parent.hole()))
    &&& child.evaluated_score == score_of(child.tree_size as int, child.turn as int, child.has_loop)
}

/// `s` is the root, or a state reached from it by legal moves, each
/// measured by `eval`.
pub open spec fn reached_from(root: &GameState, eval: Evaluation, s: &GameState) -> bool {
    let n = root.n as int;
    let ops = s.operation_list@;
    &&& s.wf()
    &&& s.n == root.n
    &&& is_legal_walk(n, root.hole(), ops)
    &&& walk_end(root.hole(), ops) == s.hole()
    &&& s.board() == replay(root.board(), root.hole(), ops)
    &&& ops.len() == 0 ==> s.tree_size == root.tree_size && s.has_loop == root.has_loop
    &&& ops.len() > 0 ==> {
        let from = walk_end(root.hole(), ops.drop_last());
        &&& s.tree_size == measured(s.board(), n, from, eval)
        &&& s.has_loop == component_has_cycle(s.board(), center_of(from))
    }
}

/// Playing `ops` from the root yields a cycle-free board of tree size `tree`.
pub open spec fn outcome(root: &GameState, eval: Evaluation, ops: Seq<Move>, tree: int) -> bool {
    let n = root.n as int;
    if ops.len() == 0 {
        tree == root.tree_size && !root.has_loop
    } else {
        let g = replay(root.board(), root.hole(), ops);
        let from = walk_end(root.hole(), ops.drop_last());
        &&& tree == measured(g, n, from, eval)
        &&& !component_has_cycle(g, center_of(from))
    }
}

/// The best-so-far record: the largest cycle-free tree size seen and the
/// moves that reached it.
pub struct BestRecord {
    pub tree_size: usize,
    pub operations: Vec<Move>,
    /// The move sequences of every state offered so far, in order.
    pub offered: Ghost<Seq<Seq<Move>>>,
}

/// The value a search gives the state reached by `ops` from the root: its
/// tree size under `eval` when cycle-free, else zero.
pub open spec fn value_of(root: &GameState, eval: Evaluation, ops: Seq<Move>) -> int {
    if ops.len() == 0 {
        climb_value(root)
    } else {
        let g = replay(root.board(), root.hole(), ops);
        let from = walk_end(root.hole(), ops.drop_last());
        if component_has_cycle(g, center_of(from)) {
            0
        } else {
            measured(g, root.n as int, from, eval)
        }
    }
}

/// The record holds the largest value of all offered states, and the moves
/// of the first offered state that reached it (or nothing, if none beat zero).
pub open spec fn history_sound(root: &GameState, eval: Evaluation, rec: &BestRecord) -> bool {
    let h = rec.offered@;
    &&& forall|k: int| 0 <= k < h.len() ==> #[trigger] value_of(root, eval, h[k]) <= rec.tree_size
    &&& (rec.tree_size == 0 && rec.operations@.len() == 0) || exists|k: int|
        0 <= k < h.len() && h[k] == rec.operations@ && value_of(root, eval, h[k]) == rec.tree_size
            && (forall|j: int| 0 <= j < k ==> #[trigger] value_of(root, eval, h[j]) < rec.tree_size)
}

/// The state reached by `ops` connects all non-blank tiles without a cycle.
pub open spec fn completes(root: &GameState, eval: Evaluation, ops: Seq<Move>) -> bool {
    root.n >= 2 && value_of(root, eval, ops) == root.n * root.n - 1
}

/// The record is empty, or holds a legal move sequence of at most `budget`
/// moves that reaches a cycle-free board of the recorded tree size.
pub open spec fn record_ok(root: &GameState, eval: Evaluation, rec: &BestRecord, budget: int) -> bool {
    &&& rec.operations@.len() <= budget
    &&& (rec.tree_size == 0 && rec.operations@.len() == 0) || (is_legal_walk(
        root.n as int,
        root.hole(),
        rec.operations@,
    ) && outcome(root, eval, rec.operations@, rec.tree_size as int))
}

/// Every non-blank tile is connected, without a cycle.
pub open spec fn is_complete(s: &GameState) -> bool {
    s.tree_size == s.n * s.n - 1 && !s.has_loop
}

/// What a search promises of its record: it is sound, no worse than the
/// root, and empty of moves when the root is already complete.
pub open spec fn search_result(root: &GameState, eval: Evaluation, budget: int, rec: &BestRecord) -> bool {
    &&& record_ok(root, eval, rec, budget)
    &&& history_sound(root, eval, rec)
    &&& rec.offered@.len() >= 1 && rec.offered@[0].len() == 0
    &&& !root.has_loop ==> rec.tree_size >= root.tree_size
    &&& is_complete(root) ==> rec.operations@.len() == 0 && rec.tree_size == root.tree_size
}

/// What the record can gain from state `s` making move `a`: the tree size
/// that `eval` gives the resulting board when it is cycle-free, else zero.
pub open spec fn move_gain(s: &GameState, eval: Evaluation, a: Move) -> int {
    let g = slid(s.board(), s.hole(), move_target(s.hole(), a));
    if component_has_cycle(g, center_of(s.hole())) {
        0
    } else {
        measured(g, s.n as int, s.hole(), eval)
    }
}

/// The record is at least as good as every legal first move from the root.
pub open spec fn covers_first_moves(root: &GameState, eval: Evaluation, rec: &BestRecord) -> bool {
    forall|a: Move|
        is_legal(root.n as int, root.hole(), None, a) ==> rec.tree_size >= #[trigger] move_gain(
            root,
            eval,
            a,
        )
}

/// The value the hill climbing gives a state: its tree size, zero with a cycle.
pub open spec fn climb_value(s: &GameState) -> int {
    if s.has_loop {
        0
    } else {
        s.tree_size as int
    }
}

/// Some legal first move from the root beats the root's value.
pub open spec fn improvable(root: &GameState, eval: Evaluation) -> bool {
    exists|a: Move|
        is_legal(root.n as int, root.hole(), None, a) && #[trigger] move_gain(root, eval, a)
            > climb_value(root)
}

/// Where hill climbing goes from `s` when it tries the moves of `order` from
/// index `i` on: the first move that beats the current value, or else the
/// last move.
pub open spec fn climb_choice(s: &GameState, eval: Evaluation, order: Seq<Move>, i: int) -> int
    decreases order.len() - i,
{
    if i >= order.len() - 1 {
        order.len() - 1
    } else if move_gain(s, eval, order[i]) > climb_value(s) {
        i
    } else {
        climb_choice(s, eval, order, i + 1)
    }
}

/// Skipping moves that do not improve leaves the choice unchanged.
proof fn lemma_climb_choice_skip(s: &GameState, eval: Evaluation, order: Seq<Move>, i: int)
    requires
        0 <= i < order.len(),
        forall|j: int| 0 <= j < i ==> #[trigger] move_gain(s, eval, order[j]) <= climb_value(s),
    ensures
        climb_choice(s, eval, order, 0) == climb_choice(s, eval, order, i),
    decreases i,
{
    if i > 0 {
        lemma_climb_choice_skip(s, eval, order, i - 1);
        assert(move_gain(s, eval, order[i - 1]) <= climb_value(s));
    }
}

/// One turn of hill climbing from `cur`: the moves of `order` are tried in
/// turn, each on a copy, and the first that beats the current value is
/// taken; failing that, the last one is.
pub fn climb_step(cur: &GameState, order: &Vec<Move>, eval: Evaluation) -> (next: GameState)
    requires
        cur.wf(),
        cur.turn < MAX_TURNS,
        order@.len() > 0,
        forall|k: int| 0 <= k < order@.len() ==> in_board(cur.n as int, move_target(cur.hole(), #[trigger] order@[k])),
    ensures
        ({
            let i = climb_choice(cur, eval, order@, 0);
            &&& 0 <= i < order@.len()
            &&& child_of(cur, order@[i], eval, &next)
        }),
        climb_value(&next) > climb_value(cur) || forall|k: int|
            0 <= k < order@.len() ==> #[trigger] move_gain(cur, eval, order@[k]) <= climb_value(cur),
{
    let cur_value: usize = if cur.has_loop {
        0
    } else {
        cur.tree_size
    };
    let mut idx: usize = 0;
    loop
        invariant
            cur.wf(),
            cur.turn < MAX_TURNS,
            cur_value == climb_value(cur),
            idx < order@.len(),
            forall|k: int| 0 <= k < order@.len() ==> in_board(cur.n as int, move_target(cur.hole(), #[trigger] order@[k])),
            forall|j: int| 0 <= j < idx ==> #[trigger] move_gain(cur, eval, order@[j]) <= climb_value(cur),
        decreases order@.len() - idx,
    {
        let action = order[idx];
        let cand = expand(cur, action, eval);
        proof {
            lemma_child_gain(cur, action, eval, &cand);
            lemma_climb_choice_skip(cur, eval, order@, idx as int);
        }
        let value: usize = if cand.has_loop {
            0
        } else {
            cand.tree_size
        };
        if value > cur_value || idx == order.len() - 1 {
            return cand;
        }
        idx += 1;
    }
}

/// No legal move from the state reached by `prev` raises its value.
pub open spec fn no_gain(root: &GameState, eval: Evaluation, prev: Seq<Move>) -> bool {
    forall|m: Move|
        is_legal(root.n as int, walk_end(root.hole(), prev), last_move(prev), m) ==> #[trigger] value_of(
            root,
            eval,
            prev.push(m),
        ) <= value_of(root, eval, prev)
}

/// Entry `i` of a hill-climbing history with `turns` turns per epoch: one
/// legal move past the entry before it (or past the root, when a new epoch
/// begins), taken because it raised the value or because no move could.
pub open spec fn climb_entry(root: &GameState, eval: Evaluation, h: Seq<Seq<Move>>, i: int, turns: int) -> bool {
    &&& h[i].len() == (if h[i - 1].len() == turns {
        1
    } else {
        h[i - 1].len() + 1
    })
    &&& h[i].len() > 1 ==> h[i].drop_last() == h[i - 1]
    &&& is_legal_walk(root.n as int, root.hole(), h[i])
    &&& value_of(root, eval, h[i]) > value_of(root, eval, h[i].drop_last()) || no_gain(
        root,
        eval,
        h[i].drop_last(),
    )
}

/// From a state reached from the root, the gain of a move is the value of
/// the longer sequence.
pub proof fn lemma_gain_is_value(root: &GameState, eval: Evaluation, s: &GameState, m: Move)
    requires
        reached_from(root, eval, s),
    ensures
        move_gain(s, eval, m) == value_of(root, eval, s.operation_list@.push(m)),
        climb_value(s) == value_of(root, eval, s.operation_list@),
{
    let ops = s.operation_list@;
    assert(ops.push(m).drop_last() =~= ops);
}

/// On a board of at least two tiles a side the blank always has a legal move.
pub proof fn lemma_some_legal(n: int, p: (int, int), last: Option<Move>) -> (m: Move)
    requires
        n >= 2,
        in_board(n, p),
    ensures
        is_legal(n, p, last, m),
{
    let v = if p.0 + 1 < n {
        Move::Down
    } else {
        Move::Up
    };
    let h = if p.1 + 1 < n {
        Move::Right
    } else {
        Move::Left
    };
    if last matches Some(l) && v == l.spec_reverse() {
        h
    } else {
        v
    }
}

/// Some offered state has exactly `d` moves.
pub open spec fn reaches_depth(rec: &BestRecord, d: int) -> bool {
    exists|k: int| 0 <= k < rec.offered@.len() && #[trigger] rec.offered@[k].len() == d
}

/// Offered states reach every depth from 1 to `hi`.
pub open spec fn reaches_upto(rec: &BestRecord, hi: int) -> bool {
    forall|d: int| 1 <= d <= hi ==> #[trigger] reaches_depth(rec, d)
}

/// Offering keeps every depth reached and reaches the new state's.
pub proof fn lemma_reach_grows(before: &BestRecord, after: &BestRecord, x: Seq<Move>)
    requires
        after.offered@ == before.offered@.push(x),
    ensures
        forall|d: int| #[trigger] reaches_depth(before, d) ==> reaches_depth(after, d),
        reaches_depth(after, x.len() as int),
{
    assert(after.offered@[before.offered@.len() as int] == x);
    assert forall|d: int| #[trigger] reaches_depth(before, d) implies reaches_depth(after, d) by {
        let k = choose|k: int| 0 <= k < before.offered@.len() && #[trigger] before.offered@[k].len() == d;
        assert(after.offered@[k] == before.offered@[k]);
    }
}

/// A child's value is the gain of the move that made it.
pub proof fn lemma_child_gain(parent: &GameState, action: Move, eval: Evaluation, child: &GameState)
    requires
        child_of(parent, action, eval, child),
    ensures
        climb_value(child) == move_gain(parent, eval, action),
{
}

/// A state reached from the root without moves stands where the root does.
pub proof fn lemma_fresh_is_root(root: &GameState, eval: Evaluation, s: &GameState, a: Move)
    requires
        reached_from(root, eval, s),
        s.operation_list@.len() == 0,
    ensures
        move_gain(s, eval, a) == move_gain(root, eval, a),
        climb_value(s) == climb_value(root),
        last_move(s.operation_list@) == None::<Move>,
        s.hole() == root.hole(),
        s.n == root.n,
{
}

impl BestRecord {
    pub fn new() -> (r: BestRecord)
        ensures
            r.tree_size == 0,
            r.operations@.len() == 0,
            r.offered@.len() == 0,
    {
        BestRecord { tree_size: 0, operations: Vec::new(), offered: Ghost(Seq::empty()) }
    }

    /// Takes the state's tree size and moves when it is cycle-free and
    /// strictly larger than the record.
    pub fn offer(&mut self, s: &GameState)
        ensures
            (!s.has_loop && s.tree_size > old(self).tree_size) ==> final(self).tree_size == s.tree_size
                && final(self).operations@ == s.operation_list@,
            !(!s.has_loop && s.tree_size > old(self).tree_size) ==> final(self).tree_size == old(
                self,
            ).tree_size && final(self).operations@ == old(self).operations@,
            final(self).offered@ == old(self).offered@.push(s.operation_list@),
    {
        self.offered = Ghost(self.offered@.push(s.operation_list@));
        if !s.has_loop && s.tree_size > self.tree_size {
            let mut ops: Vec<Move> = Vec::new();
            let mut k: usize = 0;
            while k < s.operation_list.len()
                invariant
                    k <= s.operation_list@.len(),
                    ops@ == s.operation_list@.subrange(0, k as int),
                decreases s.operation_list@.len() - k,
            {
                ops.push(s.operation_list[k]);
                k += 1;
                proof {
                    assert(ops@ =~= s.operation_list@.subrange(0, k as int));
                }
            }
            proof {
                assert(ops@ =~= s.operation_list@);
            }
            self.tree_size = s.tree_size;
            self.operations = ops;
        }
    }
}

/// A state reached from the root completes exactly when it is complete.
pub proof fn lemma_not_complete(root: &GameState, eval: Evaluation, s: &GameState)
    requires
        reached_from(root, eval, s),
    ensures
        completes(root, eval, s.operation_list@) == (s.n >= 2 && is_complete(s)),
{
    if s.n >= 2 {
        assert(s.n * s.n >= 4) by (nonlinear_arith)
            requires
                s.n >= 2,
        ;
    }
}

/// A state is its own root.
pub proof fn lemma_root_reached(root: &GameState, eval: Evaluation)
    requires
        root.wf(),
        root.operation_list@.len() == 0,
    ensures
        reached_from(root, eval, root),
{
}

/// A legal move from a state reached from the root reaches another.
pub proof fn lemma_child_reached(
    root: &GameState,
    eval: Evaluation,
    parent: &GameState,
    action: Move,
    child: &GameState,
)
    requires
        reached_from(root, eval, parent),
        is_legal(parent.n as int, parent.hole(), last_move(parent.operation_list@), action),
        child_of(parent, action, eval, child),
    ensures
        reached_from(root, eval, child),
        child.operation_list@.len() == parent.operation_list@.len() + 1,
{
    let ops = parent.operation_list@;
    let ops2 = child.operation_list@;
    assert(ops2.drop_last() =~= ops);
    assert(ops2.last() == action);
}

/// Offering a state reached from the root keeps the record sound.
pub proof fn lemma_offer_ok(
    root: &GameState,
    eval: Evaluation,
    s: &GameState,
    before: &BestRecord,
    after: &BestRecord,
    budget: int,
)
    requires
        reached_from(root, eval, s),
        s.operation_list@.len() <= budget,
        record_ok(root, eval, before, budget),
        (!s.has_loop && s.tree_size > before.tree_size) ==> after.tree_size == s.tree_size
            && after.operations@ == s.operation_list@,
        !(!s.has_loop && s.tree_size > before.tree_size) ==> after.tree_size == before.tree_size
            && after.operations@ == before.operations@,
        history_sound(root, eval, before),
        after.offered@ == before.offered@.push(s.operation_list@),
    ensures
        record_ok(root, eval, after, budget),
        after.tree_size >= before.tree_size,
        history_sound(root, eval, after),
        before.offered@.len() >= 1 ==> after.offered@[0] == before.offered@[0],
        value_of(root, eval, s.operation_list@) == climb_value(s),
{
    let h = before.offered@;
    let h2 = after.offered@;
    assert(value_of(root, eval, s.operation_list@) == climb_value(s));
    assert forall|k: int| 0 <= k < h2.len() implies #[trigger] value_of(root, eval, h2[k]) <= after.tree_size by {
        if k < h.len() {
            assert(h2[k] == h[k]);
        }
    }
    if !s.has_loop && s.tree_size > before.tree_size {
        let k = h.len() as int;
        assert(h2[k] == s.operation_list@);
        assert forall|j: int| 0 <= j < k implies #[trigger] value_of(root, eval, h2[j]) < after.tree_size by {
            assert(h2[j] == h[j]);
        }
    } else if !(before.tree_size == 0 && before.operations@.len() == 0) {
        let k = choose|k: int|
            0 <= k < h.len() && h[k] == before.operations@ && value_of(root, eval, h[k]) == before.tree_size
                && (forall|j: int| 0 <= j < k ==> #[trigger] value_of(root, eval, h[j]) < before.tree_size);
        assert(h2[k] == h[k]);
        assert forall|j: int| 0 <= j < k implies #[trigger] value_of(root, eval, h2[j]) < after.tree_size by {
            assert(h2[j] == h[j]);
        }
    }
}

/// A transition followed by the transition that undoes its move restores the
/// big board cell for cell and the hole, with both moves recorded.
pub proof fn lemma_advance_round_trip(
    s0: &GameState,
    action: Move,
    eval1: Evaluation,
    s1: &GameState,
    eval2: Evaluation,
    s2: &GameState,
)
    requires
        s0.wf(),
        child_of(s0, action, eval1, s1),
        child_of(s1, action.spec_reverse(), eval2, s2),
    ensures
        s2.board() == s0.board(),
        s2.hole() == s0.hole(),
        s2.operation_list@ == s0.operation_list@.push(action).push(action.spec_reverse()),
        s2.turn == s0.turn + 2,
{
    crate::state::lemma_slide_back(s0.board(), s0.n as int, s0.hole(), action);
}

/// The state after the blank moves by `action`, measured by `eval`; `st`
/// itself is untouched.
pub fn expand(st: &GameState, action: Move, eval: Evaluation) -> (child: GameState)
    requires
        st.wf(),
        in_board(st.n as int, move_target(st.hole(), action)),
        st.turn < MAX_TURNS,
    ensures
        child_of(st, action, eval, &child),
{
    let mut child = st.duplicate();
    child.advance(action, eval);
    child
}

/// Whether the state connects all its non-blank tiles without a cycle.
pub fn complete(s: &GameState) -> (r: bool)
    requires
        s.wf(),
    ensures
        r == is_complete(s),
{
    proof {
        let m = s.big_board@.len() as int;
        assert(s.n * s.n <= 4 * m * m) by (nonlinear_arith)
            requires
                m == 3 * s.n,
        ;
        assert(s.n * s.n >= 1) by (nonlinear_arith)
            requires
                s.n >= 1,
        ;
        assert(s.board().len() == m);
    }
    s.tree_size == s.n * s.n - 1 && !s.has_loop
}

/// Hill climbing. Each turn the legal moves are shuffled and handed to
/// `climb_step`: the first whose cycle-free tree size (zero with a cycle)
/// beats the current one is taken; failing that, the last one tried is.
/// Every accepted state is offered to the record, one per turn.
/// Every epoch restarts from the root; the record spans them all. New states
/// are measured from the tile that slid, while the root (which has no such
/// tile) is measured over all tile centres, so a first move must beat the
/// largest component anywhere on the board to count as an improvement.
pub fn hill_climbing(root: &GameState, turns: usize, epochs: usize, rng: &mut StdRng) -> (best: BestRecord)
    requires
        root.wf(),
        root.operation_list@.len() == 0,
        turns <= MAX_TURNS,
    ensures
        search_result(root, Evaluation::FromMovedTile, turns as int, &best),
        turns >= 1 && epochs >= 1 && !is_complete(root) && improvable(root, Evaluation::FromMovedTile)
            ==> best.tree_size > climb_value(root),
        root.n >= 2 && !is_complete(root) ==> best.offered@.len() == 1 + epochs * turns,
        forall|i: int|
            1 <= i < best.offered@.len() ==> climb_entry(
                root,
                Evaluation::FromMovedTile,
                best.offered@,
                i,
                turns as int,
            ),
{
    let eval = Evaluation::FromMovedTile;
    let mut best = BestRecord::new();
    let ghost empty = best;
    best.offer(root);
    proof {
        lemma_root_reached(root, eval);
        lemma_offer_ok(root, eval, root, &empty, &best, turns as int);
    }
    if complete(root) {
        return best;
    }
    let mut epoch: usize = 0;
    while epoch < epochs
        invariant
            root.wf(),
            root.operation_list@.len() == 0,
            turns <= MAX_TURNS,
            eval == Evaluation::FromMovedTile,
            record_ok(root, eval, &best, turns as int),
            history_sound(root, eval, &best),
            best.offered@.len() >= 1 && best.offered@[0].len() == 0,
            !root.has_loop ==> best.tree_size >= root.tree_size,
            !is_complete(root),
            epoch > 0 && turns >= 1 && improvable(root, eval) ==> best.tree_size > climb_value(root),
            epoch <= epochs,
            root.n >= 2 ==> best.offered@.len() == 1 + epoch * turns,
            best.offered@.last().len() == 0 || best.offered@.last().len() == turns,
            forall|i: int| 1 <= i < best.offered@.len() ==> climb_entry(root, eval, best.offered@, i, turns as int),
        decreases epochs - epoch,
    {
        let mut cur = root.duplicate();
        let mut cur_value: usize = if cur.has_loop {
            0
        } else {
            cur.tree_size
        };
        let mut stop = false;
        let mut turn: usize = 0;
        while turn < turns && !stop
            invariant
                root.wf(),
                root.operation_list@.len() == 0,
                turns <= MAX_TURNS,
                eval == Evaluation::FromMovedTile,
                record_ok(root, eval, &best, turns as int),
                history_sound(root, eval, &best),
                best.offered@.len() >= 1 && best.offered@[0].len() == 0,
                !root.has_loop ==> best.tree_size >= root.tree_size,
                reached_from(root, eval, &cur),
                cur.operation_list@.len() == turn,
                cur_value == climb_value(&cur),
                turn <= turns,
                epoch > 0 && turns >= 1 && improvable(root, eval) ==> best.tree_size > climb_value(root),
                (turn > 0 || stop) && improvable(root, eval) ==> best.tree_size > climb_value(root),
                epoch < epochs,
                root.n >= 2 ==> !stop && best.offered@.len() == 1 + epoch * turns + turn,
                turn > 0 ==> best.offered@.last() == cur.operation_list@,
                turn == 0 ==> best.offered@.last().len() == 0 || best.offered@.last().len() == turns,
                turn == turns ==> best.offered@.last().len() == turns,
                root.n < 2 ==> turn == 0,
                forall|i: int| 1 <= i < best.offered@.len() ==> climb_entry(root, eval, best.offered@, i, turns as int),
            decreases turns - turn + (if stop {
                0int
            } else {
                1int
            }),
        {
            let mut actions = get_legal_actions(&cur.operation_list, cur.empty, cur.n);
            let ghost legal = actions@;
            shuffle_moves(&mut actions, rng);
            proof {
                broadcast use vstd::seq_lib::group_to_multiset_ensures;

                assert forall|k: int| 0 <= k < actions@.len() implies is_legal(
                    cur.n as int,
                    cur.hole(),
                    last_move(cur.operation_list@),
                    #[trigger] actions@[k],
                ) by {
                    assert(actions@.contains(actions@[k]));
                    assert(actions@.to_multiset().count(actions@[k]) > 0);
                    assert(legal.contains(actions@[k]));
                }
                // at the first turn, an improving first move is among the actions
                if turn == 0 && improvable(root, eval) {
                    let m = choose|m: Move|
                        is_legal(root.n as int, root.hole(), None, m) && #[trigger] move_gain(root, eval, m)
                            > climb_value(root);
                    lemma_fresh_is_root(root, eval, &cur, m);
                    assert(legal.contains(m));
                    assert(legal.to_multiset().count(m) > 0);
                    assert(actions@.contains(m));
                }
            }
            if actions.len() == 0 {
                proof {
                    broadcast use vstd::seq_lib::group_to_multiset_ensures;

                    if root.n >= 2 {
                        let m = lemma_some_legal(cur.n as int, cur.hole(), last_move(cur.operation_list@));
                        assert(legal.contains(m));
                        assert(legal.to_multiset().len() == legal.len());
                        assert(actions@.to_multiset().len() == actions@.len());
                    }
                }
                stop = true;
            } else {
                let ghost prev = best.offered@;
                proof {
                    if root.n < 2 {
                        assert(is_legal(
                            cur.n as int,
                            cur.hole(),
                            last_move(cur.operation_list@),
                            actions@[0],
                        ));
                    }
                }
                let c = climb_step(&cur, &actions, eval);
                proof {
                    let i = climb_choice(&cur, eval, actions@, 0);
                    lemma_child_reached(root, eval, &cur, actions@[i], &c);
                    lemma_gain_is_value(root, eval, &cur, actions@[i]);
                    assert(c.operation_list@.drop_last() =~= cur.operation_list@);
                    if turn == 0 && improvable(root, eval) {
                        let m = choose|m: Move|
                            is_legal(root.n as int, root.hole(), None, m) && #[trigger] move_gain(root, eval, m)
                                > climb_value(root);
                        lemma_fresh_is_root(root, eval, &cur, m);
                        let k = choose|k: int| 0 <= k < actions@.len() && actions@[k] == m;
                        assert(move_gain(&cur, eval, actions@[k]) > cur_value);
                        assert(climb_value(&c) > cur_value);
                    }
                    if !(climb_value(&c) > climb_value(&cur)) {
                        assert forall|m: Move|
                            is_legal(
                                root.n as int,
                                walk_end(root.hole(), cur.operation_list@),
                                last_move(cur.operation_list@),
                                m,
                            ) implies #[trigger] value_of(root, eval, cur.operation_list@.push(m)) <= value_of(
                            root,
                            eval,
                            cur.operation_list@,
                        ) by {
                            lemma_gain_is_value(root, eval, &cur, m);
                            assert(legal.contains(m));
                            assert(legal.to_multiset().count(m) > 0);
                            assert(actions@.contains(m));
                            let k = choose|k: int| 0 <= k < actions@.len() && actions@[k] == m;
                            assert(move_gain(&cur, eval, actions@[k]) <= climb_value(&cur));
                        }
                    }
                }
                cur_value = if c.has_loop {
                    0
                } else {
                    c.tree_size
                };
                cur = c;
                let ghost before = best;
                best.offer(&cur);
                proof {
                    lemma_offer_ok(root, eval, &cur, &before, &best, turns as int);
                    let h = best.offered@;
                    let i = h.len() - 1;
                    assert(h[i] == cur.operation_list@);
                    assert(h[i - 1] == prev.last());
                    assert forall|j: int| 1 <= j < h.len() implies climb_entry(root, eval, h, j, turns as int) by {
                        if j < i {
                            assert(h[j] == prev[j] && h[j - 1] == prev[j - 1]);
                            assert(climb_entry(root, eval, prev, j, turns as int));
                        }
                    }
                    assert(epoch * turns + turn + 1 == epoch * turns + (turn + 1));
                }
                turn += 1;
            }
        }
        proof {
            if root.n >= 2 {
                assert(epoch * turns + turns == (epoch + 1) * turns) by (nonlinear_arith);
            }
        }
        epoch += 1;
    }
    best
}

/// Every entry of the queue was reached from the root in exactly `depth` moves.
pub open spec fn queue_at_depth(root: &GameState, eval: Evaluation, q: &StateQueue, depth: int) -> bool {
    forall|k: int|
        0 <= k < q.entries@.len() ==> reached_from(root, eval, &(#[trigger] q.entries@[k]).1)
            && q.entries@[k].1.operation_list@.len() == depth
}

/// A queue's entries as keys and move sequences.
pub open spec fn entries_of(q: &StateQueue) -> Seq<(int, Seq<Move>)> {
    Seq::new(q.entries@.len(), |k: int| (q.entries@[k].0 as int, q.entries@[k].1.operation_list@))
}

/// The index of the first entry with the largest key.
pub open spec fn first_max(q: Seq<(int, Seq<Move>)>) -> int
    decreases q.len(),
{
    if q.len() <= 1 {
        0
    } else {
        let i = first_max(q.drop_last());
        if q.last().0 > q[i].0 {
            q.len() - 1
        } else {
            i
        }
    }
}

/// The move sequences of the first `w` entries taken from `q`, largest key
/// first and earliest first among equal keys.
pub open spec fn pick(q: Seq<(int, Seq<Move>)>, w: int) -> Seq<Seq<Move>>
    decreases w,
{
    if w <= 0 || q.len() == 0 {
        Seq::empty()
    } else {
        seq![q[first_max(q)].1] + pick(q.remove(first_max(q)), w - 1)
    }
}

/// The raw tree size that `eval` gives the state reached by a non-empty `ops`.
pub open spec fn raw_key(root: &GameState, eval: Evaluation, ops: Seq<Move>) -> int {
    measured(
        replay(root.board(), root.hole(), ops),
        root.n as int,
        walk_end(root.hole(), ops.drop_last()),
        eval,
    )
}

/// The children of the state reached by `e`, one per legal move in the
/// order Down, Right, Up, Left, each under its raw tree size.
pub open spec fn children(root: &GameState, eval: Evaluation, e: Seq<Move>) -> Seq<(int, Seq<Move>)> {
    legal_moves(root.n as int, walk_end(root.hole(), e), last_move(e)).map_values(
        |m: Move| (raw_key(root, eval, e.push(m)), e.push(m)),
    )
}

/// The children of each of `ps`, in turn.
pub open spec fn expand_all(root: &GameState, eval: Evaluation, ps: Seq<Seq<Move>>) -> Seq<(int, Seq<Move>)>
    decreases ps.len(),
{
    if ps.len() == 0 {
        Seq::empty()
    } else {
        expand_all(root, eval, ps.drop_last()) + children(root, eval, ps.last())
    }
}

/// Round `r` of a beam search of width `w` by raw tree size: the root, then
/// the children of the `w` best states of each round before.
pub open spec fn beam_round(root: &GameState, eval: Evaluation, w: int, r: nat) -> Seq<(int, Seq<Move>)>
    decreases r,
{
    if r == 0 {
        seq![(root.tree_size as int, Seq::<Move>::empty())]
    } else {
        expand_all(root, eval, pick(beam_round(root, eval, w, (r - 1) as nat), w))
    }
}

/// Every state of round `r` is worth at most `bound`.
pub open spec fn round_covered(root: &GameState, eval: Evaluation, w: int, r: nat, bound: int) -> bool {
    forall|k: int|
        0 <= k < beam_round(root, eval, w, r).len() ==> value_of(
            root,
            eval,
            #[trigger] beam_round(root, eval, w, r)[k].1,
        ) <= bound
}

/// Every state of rounds 1 to `hi` is worth at most `bound`.
pub open spec fn rounds_covered(root: &GameState, eval: Evaluation, w: int, hi: int, bound: int) -> bool {
    forall|r: nat| 1 <= r <= hi ==> #[trigger] round_covered(root, eval, w, r, bound)
}

/// The index that `pop_best` removes is the first largest key.
pub proof fn lemma_first_max(q: Seq<(int, Seq<Move>)>, i: int)
    requires
        0 <= i < q.len(),
        forall|j: int| 0 <= j < q.len() ==> (#[trigger] q[j]).0 <= q[i].0,
        forall|j: int| 0 <= j < i ==> (#[trigger] q[j]).0 < q[i].0,
    ensures
        first_max(q) == i,
    decreases q.len(),
{
    if q.len() > 1 {
        let p = q.drop_last();
        if i == q.len() - 1 {
            let k = first_max(p);
            lemma_first_max_range(p);
            assert(q[k] == p[k]);
        } else {
            assert forall|j: int| 0 <= j < p.len() implies (#[trigger] p[j]).0 <= p[i].0 by {
                assert(p[j] == q[j]);
            }
            assert forall|j: int| 0 <= j < i implies (#[trigger] p[j]).0 < p[i].0 by {
                assert(p[j] == q[j]);
            }
            lemma_first_max(p, i);
            assert(q.last() == q[q.len() - 1]);
        }
    }
}

/// The first largest key lies in the queue.
pub proof fn lemma_first_max_range(q: Seq<(int, Seq<Move>)>)
    ensures
        q.len() >= 1 ==> 0 <= first_max(q) < q.len(),
    decreases q.len(),
{
    if q.len() > 1 {
        lemma_first_max_range(q.drop_last());
    }
}

/// A round with no states is followed only by rounds with no states.
pub proof fn lemma_empty_round_stays(root: &GameState, eval: Evaluation, w: int, r: nat, r2: nat)
    requires
        beam_round(root, eval, w, r).len() == 0,
        r <= r2,
    ensures
        beam_round(root, eval, w, r2).len() == 0,
    decreases r2 - r,
{
    if r2 > r {
        lemma_empty_round_stays(root, eval, w, r, (r2 - 1) as nat);
        assert(pick(beam_round(root, eval, w, (r2 - 1) as nat), w) == Seq::<Seq<Move>>::empty());
    }
}

/// Raising the bound keeps the rounds covered.
pub proof fn lemma_rounds_raise(root: &GameState, eval: Evaluation, w: int, hi: int, b1: int, b2: int)
    requires
        rounds_covered(root, eval, w, hi, b1),
        b1 <= b2,
    ensures
        rounds_covered(root, eval, w, hi, b2),
{
    assert forall|r: nat| 1 <= r <= hi implies #[trigger] round_covered(root, eval, w, r, b2) by {
        assert(round_covered(root, eval, w, r, b1));
        assert forall|k: int| 0 <= k < beam_round(root, eval, w, r).len() implies value_of(
            root,
            eval,
            #[trigger] beam_round(root, eval, w, r)[k].1,
        ) <= b2 by {}
    }
}

/// Beam search by raw tree size. Each round expands the best `beam_width`
/// states of the round by every legal move into the next round, offering
/// each new state to the record; the search ends after `turns` rounds, or at
/// once when a new state is complete. Every epoch restarts from the root; the
/// record spans them all. New states are measured from the tile that slid,
/// while the root (which has no such tile) is measured over all tile centres.
pub fn beam_search(root: &GameState, turns: usize, beam_width: usize, epochs: usize) -> (best: BestRecord)
    requires
        root.wf(),
        root.operation_list@.len() == 0,
        turns <= MAX_TURNS,
    ensures
        search_result(root, Evaluation::FromMovedTile, turns as int, &best),
        forall|k: int|
            0 <= k < best.offered@.len() - 1 ==> !#[trigger] completes(
                root,
                Evaluation::FromMovedTile,
                best.offered@[k],
            ),
        turns >= 1 && beam_width >= 1 && epochs >= 1 && !is_complete(root) && (forall|k: int|
            0 <= k < best.offered@.len() ==> !#[trigger] completes(
                root,
                Evaluation::FromMovedTile,
                best.offered@[k],
            )) ==> covers_first_moves(root, Evaluation::FromMovedTile, &best),
        turns >= 1 && beam_width >= 1 && epochs >= 1 && root.n >= 2 && !is_complete(root) && (forall|k: int|
            0 <= k < best.offered@.len() ==> !#[trigger] completes(
                root,
                Evaluation::FromMovedTile,
                best.offered@[k],
            )) ==> reaches_upto(&best, turns as int),
        turns >= 1 && beam_width >= 1 && epochs >= 1 && !is_complete(root) && (forall|k: int|
            0 <= k < best.offered@.len() ==> !#[trigger] completes(
                root,
                Evaluation::FromMovedTile,
                best.offered@[k],
            )) ==> rounds_covered(
            root,
            Evaluation::FromMovedTile,
            beam_width as int,
            turns as int,
            best.tree_size as int,
        ),
{
    let eval = Evaluation::FromMovedTile;
    let mut best = BestRecord::new();
    let ghost empty = best;
    best.offer(root);
    proof {
        lemma_root_reached(root, eval);
        lemma_offer_ok(root, eval, root, &empty, &best, turns as int);
    }
    if complete(root) {
        return best;
    }
    proof {
        lemma_not_complete(root, eval, root);
    }
    let ghost mut expanded_root = false;
    let ghost deep = beam_width >= 1 && root.n >= 2;
    let mut done = false;
    let mut epoch: usize = 0;
    while epoch < epochs && !done
        invariant
            root.wf(),
            root.operation_list@.len() == 0,
            turns <= MAX_TURNS,
            eval == Evaluation::FromMovedTile,
            record_ok(root, eval, &best, turns as int),
            history_sound(root, eval, &best),
            best.offered@.len() >= 1 && best.offered@[0].len() == 0,
            !root.has_loop ==> best.tree_size >= root.tree_size,
            forall|k: int| 0 <= k < best.offered@.len() - 1 ==> !#[trigger] completes(root, eval, best.offered@[k]),
            !done ==> forall|k: int| 0 <= k < best.offered@.len() ==> !#[trigger] completes(root, eval, best.offered@[k]),
            done ==> completes(root, eval, best.offered@.last()),
            expanded_root ==> covers_first_moves(root, eval, &best),
            !is_complete(root),
            epoch > 0 && turns >= 1 && beam_width >= 1 && !done ==> expanded_root,
            deep == (beam_width >= 1 && root.n >= 2),
            epoch > 0 && deep && !done ==> reaches_upto(&best, turns as int),
            epoch > 0 && !done ==> rounds_covered(root, eval, beam_width as int, turns as int, best.tree_size as int),
        decreases epochs - epoch,
    {
        let mut current = StateQueue::new();
        current.push(root.tree_size as i128, root.duplicate());
        let mut stop = false;
        let mut round: usize = 0;
        proof {
            assert(current.entries@[0].1.operation_list@ =~= Seq::<Move>::empty());
            assert(entries_of(&current) =~= beam_round(root, eval, beam_width as int, 0));
        }
        while round < turns && !stop
            invariant
                root.wf(),
                root.operation_list@.len() == 0,
                turns <= MAX_TURNS,
                eval == Evaluation::FromMovedTile,
                record_ok(root, eval, &best, turns as int),
                history_sound(root, eval, &best),
                best.offered@.len() >= 1 && best.offered@[0].len() == 0,
                !root.has_loop ==> best.tree_size >= root.tree_size,
                forall|k: int| 0 <= k < best.offered@.len() - 1 ==> !#[trigger] completes(root, eval, best.offered@[k]),
                !done ==> forall|k: int| 0 <= k < best.offered@.len() ==> !#[trigger] completes(root, eval, best.offered@[k]),
                done ==> completes(root, eval, best.offered@.last()),
                expanded_root ==> covers_first_moves(root, eval, &best),
                round <= turns,
                queue_at_depth(root, eval, &current, round as int),
                round == 0 && !stop ==> current.entries@.len() == 1,
                (round > 0 || stop) && beam_width >= 1 && !done ==> expanded_root,
                done ==> stop,
                deep == (beam_width >= 1 && root.n >= 2),
                deep && !done ==> !stop && reaches_upto(&best, round as int) && current.entries@.len() > 0,
                epoch > 0 && !done ==> rounds_covered(root, eval, beam_width as int, turns as int, best.tree_size as int),
                !done ==> entries_of(&current) == beam_round(root, eval, beam_width as int, round as nat),
                !done ==> rounds_covered(root, eval, beam_width as int, round as int, best.tree_size as int),
                !done && stop ==> current.entries@.len() == 0,
            decreases turns - round + (if stop {
                0int
            } else {
                1int
            }),
        {
            let mut next = StateQueue::new();
            let ghost rr = beam_round(root, eval, beam_width as int, round as nat);
            let ghost mut picked: Seq<Seq<Move>> = Seq::empty();
            proof {
                assert(picked + pick(entries_of(&current), beam_width as int) =~= pick(rr, beam_width as int));
                assert(entries_of(&next) =~= expand_all(root, eval, picked));
            }
            let mut w: usize = 0;
            while w < beam_width && !current.is_empty() && !done
                invariant
                    root.wf(),
                    turns <= MAX_TURNS,
                    round < turns,
                    eval == Evaluation::FromMovedTile,
                    record_ok(root, eval, &best, turns as int),
                    history_sound(root, eval, &best),
                    best.offered@.len() >= 1 && best.offered@[0].len() == 0,
                    !root.has_loop ==> best.tree_size >= root.tree_size,
                    forall|k: int| 0 <= k < best.offered@.len() - 1 ==> !#[trigger] completes(root, eval, best.offered@[k]),
                    !done ==> forall|k: int| 0 <= k < best.offered@.len() ==> !#[trigger] completes(root, eval, best.offered@[k]),
                    done ==> completes(root, eval, best.offered@.last()),
                    expanded_root ==> covers_first_moves(root, eval, &best),
                    queue_at_depth(root, eval, &current, round as int),
                    queue_at_depth(root, eval, &next, round + 1),
                    round == 0 && !expanded_root && !done ==> w == 0 && current.entries@.len() == 1,
                    round > 0 && beam_width >= 1 && !done ==> expanded_root,
                    deep == (beam_width >= 1 && root.n >= 2),
                    deep && !done ==> reaches_upto(&best, round as int),
                    deep && !done && w == 0 ==> current.entries@.len() > 0,
                    deep && !done && w > 0 ==> reaches_depth(&best, round + 1) && next.entries@.len() > 0,
                    w <= beam_width,
                    rr == beam_round(root, eval, beam_width as int, round as nat),
                    epoch > 0 && !done ==> rounds_covered(root, eval, beam_width as int, turns as int, best.tree_size as int),
                    !done ==> rounds_covered(root, eval, beam_width as int, round as int, best.tree_size as int),
                    !done ==> picked + pick(entries_of(&current), beam_width - w) == pick(rr, beam_width as int),
                    !done ==> entries_of(&next) == expand_all(root, eval, picked),
                    !done ==> forall|k: int|
                        0 <= k < entries_of(&next).len() ==> value_of(root, eval, #[trigger] entries_of(&next)[k].1)
                            <= best.tree_size,
                decreases beam_width - w,
            {
                let ghost q = entries_of(&current);
                let ghost oldq = current.entries@;
                let (key, st) = current.pop_best();
                let ghost picked_before = picked;
                proof {
                    let i = choose|i: int|
                        0 <= i < oldq.len() && (key, st) == oldq[i] && current.entries@ == oldq.remove(i) && (
                        forall|j: int| 0 <= j < oldq.len() ==> (#[trigger] oldq[j]).0 <= key) && (forall|j: int|
                            0 <= j < i ==> (#[trigger] oldq[j]).0 < key);
                    assert forall|j: int| 0 <= j < q.len() implies (#[trigger] q[j]).0 <= q[i].0 by {
                        assert(oldq[j].0 <= key);
                    }
                    assert forall|j: int| 0 <= j < i implies (#[trigger] q[j]).0 < q[i].0 by {
                        assert(oldq[j].0 < key);
                    }
                    lemma_first_max(q, i);
                    assert(entries_of(&current) =~= q.remove(i));
                    assert(q[i].1 == st.operation_list@);
                    if !done {
                        assert(pick(q, beam_width - w) == seq![q[i].1] + pick(q.remove(i), beam_width - w - 1));
                        assert(picked_before.push(st.operation_list@) + pick(entries_of(&current), beam_width - (w + 1))
                            =~= picked_before + pick(q, beam_width - w));
                    }
                }
                let actions = get_legal_actions(&st.operation_list, st.empty, st.n);
                let mut a: usize = 0;
                while a < actions.len() && !done
                    invariant
                        root.wf(),
                        turns <= MAX_TURNS,
                        round < turns,
                        eval == Evaluation::FromMovedTile,
                        record_ok(root, eval, &best, turns as int),
                        history_sound(root, eval, &best),
                        best.offered@.len() >= 1 && best.offered@[0].len() == 0,
                        !root.has_loop ==> best.tree_size >= root.tree_size,
                        forall|k: int| 0 <= k < best.offered@.len() - 1 ==> !#[trigger] completes(root, eval, best.offered@[k]),
                        !done ==> forall|k: int| 0 <= k < best.offered@.len() ==> !#[trigger] completes(root, eval, best.offered@[k]),
                        done ==> completes(root, eval, best.offered@.last()),
                        expanded_root ==> covers_first_moves(root, eval, &best),
                        reached_from(root, eval, &st),
                        st.operation_list@.len() == round,
                        forall|m: Move|
                            actions@.contains(m) <==> is_legal(
                                st.n as int,
                                st.hole(),
                                last_move(st.operation_list@),
                                m,
                            ),
                        queue_at_depth(root, eval, &next, round + 1),
                        a <= actions@.len(),
                        forall|k: int| 0 <= k < a ==> best.tree_size >= #[trigger] move_gain(&st, eval, actions@[k]),
                        deep == (beam_width >= 1 && root.n >= 2),
                        deep && !done ==> reaches_upto(&best, round as int),
                        deep && !done && (w > 0 || a > 0) ==> reaches_depth(&best, round + 1)
                            && next.entries@.len() > 0,
                        actions@ == legal_moves(st.n as int, st.hole(), last_move(st.operation_list@)),
                        w < beam_width,
                        epoch > 0 && !done ==> rounds_covered(root, eval, beam_width as int, turns as int, best.tree_size as int),
                        !done ==> rounds_covered(root, eval, beam_width as int, round as int, best.tree_size as int),
                        !done ==> picked_before.push(st.operation_list@) + pick(entries_of(&current), beam_width - (w + 1))
                            == pick(rr, beam_width as int),
                        !done ==> entries_of(&next) == expand_all(root, eval, picked_before) + children(
                            root,
                            eval,
                            st.operation_list@,
                        ).subrange(0, a as int),
                        !done ==> forall|k: int|
                            0 <= k < entries_of(&next).len() ==> value_of(root, eval, #[trigger] entries_of(&next)[k].1)
                                <= best.tree_size,
                    decreases actions@.len() - a,
                {
                    let action = actions[a];
                    proof {
                        assert(actions@.contains(action));
                    }
                    let ghost old_next = entries_of(&next);
                    let child = expand(&st, action, eval);
                    proof {
                        lemma_child_reached(root, eval, &st, action, &child);
                        lemma_child_gain(&st, action, eval, &child);
                    }
                    let ghost before = best;
                    best.offer(&child);
                    proof {
                        lemma_offer_ok(root, eval, &child, &before, &best, turns as int);
                        lemma_reach_grows(&before, &best, child.operation_list@);
                        if deep && !done {
                            assert(reaches_upto(&before, round as int));
                            assert forall|d: int| 1 <= d <= round implies #[trigger] reaches_depth(&best, d) by {
                                assert(reaches_depth(&before, d));
                            }
                        }
                        lemma_not_complete(root, eval, &child);
                        assert(best.offered@.last() == child.operation_list@);
                    }
                    let ghost was_done = done;
                    let ghost cops = child.operation_list@;
                    let ghost ctree = child.tree_size;
                    if complete(&child) {
                        done = true;
                    }
                    next.push(child.tree_size as i128, child);
                    proof {
                        if !done {
                            lemma_rounds_raise(root, eval, beam_width as int, round as int, before.tree_size as int, best.tree_size as int);
                            if epoch > 0 {
                                lemma_rounds_raise(root, eval, beam_width as int, turns as int, before.tree_size as int, best.tree_size as int);
                            }
                            let ch = children(root, eval, st.operation_list@);
                            assert(cops == st.operation_list@.push(action));
                            assert(ch[a as int] == (raw_key(root, eval, cops), cops));
                            assert(cops.drop_last() =~= st.operation_list@);
                            assert(ctree as int == raw_key(root, eval, cops));
                            assert(ch.subrange(0, a + 1) =~= ch.subrange(0, a as int).push(ch[a as int]));
                            assert(entries_of(&next) =~= old_next.push((ctree as int, cops)));
                            assert(best.offered@[best.offered@.len() - 1] == cops);
                            assert(value_of(root, eval, cops) <= best.tree_size);
                            assert forall|k: int| 0 <= k < entries_of(&next).len() implies value_of(
                                root,
                                eval,
                                #[trigger] entries_of(&next)[k].1,
                            ) <= best.tree_size by {
                                if k < old_next.len() {
                                    assert(entries_of(&next)[k] == old_next[k]);
                                }
                            }
                        }
                    }
                    a += 1;
                }
                proof {
                    if root.n >= 2 && !done {
                        let m = lemma_some_legal(st.n as int, st.hole(), last_move(st.operation_list@));
                        assert(actions@.contains(m));
                    }
                    if st.operation_list@.len() == 0 && !done {
                        assert forall|m: Move| is_legal(root.n as int, root.hole(), None, m) implies best.tree_size
                            >= #[trigger] move_gain(root, eval, m) by {
                            lemma_fresh_is_root(root, eval, &st, m);
                            assert(actions@.contains(m));
                            let k = choose|k: int| 0 <= k < actions@.len() && actions@[k] == m;
                            assert(best.tree_size >= move_gain(&st, eval, actions@[k]));
                        }
                        expanded_root = true;
                    }
                    if !done {
                        let ch = children(root, eval, st.operation_list@);
                        assert(ch.subrange(0, a as int) =~= ch);
                        let pk = picked_before.push(st.operation_list@);
                        assert(pk.drop_last() =~= picked_before);
                    }
                }
                proof {
                    picked = picked_before.push(st.operation_list@);
                }
                w += 1;
            }
            proof {
                if !done {
                    assert(pick(entries_of(&current), beam_width - w) =~= Seq::<Seq<Move>>::empty());
                    assert(picked =~= picked + pick(entries_of(&current), beam_width - w));
                    assert(entries_of(&next) == beam_round(root, eval, beam_width as int, (round + 1) as nat));
                    assert forall|r: nat| 1 <= r <= round + 1 implies #[trigger] round_covered(
                        root,
                        eval,
                        beam_width as int,
                        r,
                        best.tree_size as int,
                    ) by {
                        if r == round + 1 {
                            assert forall|k: int|
                                0 <= k < beam_round(root, eval, beam_width as int, r).len() implies value_of(
                                root,
                                eval,
                                #[trigger] beam_round(root, eval, beam_width as int, r)[k].1,
                            ) <= best.tree_size by {
                                assert(entries_of(&next)[k] == beam_round(root, eval, beam_width as int, r)[k]);
                            }
                        }
                    }
                }
            }
            current = next;
            round += 1;
            if current.is_empty() || done {
                stop = true;
            }
        }
        proof {
            if !done && round < turns {
                assert forall|r: nat| 1 <= r <= turns implies #[trigger] round_covered(
                    root,
                    eval,
                    beam_width as int,
                    r,
                    best.tree_size as int,
                ) by {
                    if r > round {
                        lemma_empty_round_stays(root, eval, beam_width as int, round as nat, r);
                    }
                }
            }
        }
        epoch += 1;
    }
    best
}

/// Chokudai search by normalised score. One priority queue per depth; each
/// of `beam_number` sweeps walks the depths in increasing order and expands
/// up to `beam_width` best states of each depth, in random move order, into
/// the next depth. Every new state is offered to the record.
pub fn chokudai_search(
    root: &GameState,
    beam_number: usize,
    beam_depth: usize,
    beam_width: usize,
    rng: &mut StdRng,
) -> (best: BestRecord)
    requires
        root.wf(),
        root.operation_list@.len() == 0,
        beam_depth <= MAX_TURNS,
    ensures
        search_result(root, Evaluation::AllCenters, beam_depth as int, &best),
        beam_number >= 1 && beam_depth >= 1 && beam_width >= 1 && !is_complete(root)
            ==> covers_first_moves(root, Evaluation::AllCenters, &best),
        beam_number >= 1 && beam_width >= 1 && root.n >= 2 && !is_complete(root) ==> reaches_upto(
            &best,
            beam_depth as int,
        ),
{
    let eval = Evaluation::AllCenters;
    let mut best = BestRecord::new();
    let ghost empty = best;
    best.offer(root);
    proof {
        lemma_root_reached(root, eval);
        lemma_offer_ok(root, eval, root, &empty, &best, beam_depth as int);
    }
    if complete(root) {
        return best;
    }
    let mut beams: Vec<StateQueue> = Vec::new();
    let mut d: usize = 0;
    while d <= beam_depth
        invariant
            d <= beam_depth + 1,
            beam_depth <= MAX_TURNS,
            beams@.len() == d,
            forall|i: int| 0 <= i < d ==> (#[trigger] beams@[i]).entries@.len() == 0,
        decreases beam_depth + 1 - d,
    {
        beams.push(StateQueue::new());
        d += 1;
    }
    let first = root.duplicate();
    beams[0].push(root.evaluated_score, first);
    proof {
        assert forall|i: int| 0 <= i < beams@.len() implies queue_at_depth(
            root,
            eval,
            &#[trigger] beams@[i],
            i,
        ) by {}
    }
    let ghost mut expanded_root = false;
    let ghost deep = beam_width >= 1 && root.n >= 2;
    let mut sweep: usize = 0;
    while sweep < beam_number
        invariant
            expanded_root ==> covers_first_moves(root, eval, &best),
            !expanded_root ==> beams@[0].entries@.len() == 1,
            sweep > 0 && beam_depth >= 1 && beam_width >= 1 ==> expanded_root,
            deep == (beam_width >= 1 && root.n >= 2),
            sweep == 0 ==> beams@[0].entries@.len() == 1,
            sweep > 0 && deep ==> reaches_upto(&best, beam_depth as int),
            root.wf(),
            root.operation_list@.len() == 0,
            beam_depth <= MAX_TURNS,
            eval == Evaluation::AllCenters,
            record_ok(root, eval, &best, beam_depth as int),
            history_sound(root, eval, &best),
            best.offered@.len() >= 1 && best.offered@[0].len() == 0,
            !root.has_loop ==> best.tree_size >= root.tree_size,
            beams@.len() == beam_depth + 1,
            forall|i: int| 0 <= i < beams@.len() ==> queue_at_depth(root, eval, &#[trigger] beams@[i], i),
        decreases beam_number - sweep,
    {
        let mut depth: usize = 0;
        while depth < beam_depth
            invariant
                expanded_root ==> covers_first_moves(root, eval, &best),
                !expanded_root ==> beams@[0].entries@.len() == 1,
                (sweep > 0 || depth > 0) && beam_depth >= 1 && beam_width >= 1 ==> expanded_root,
                root.wf(),
                root.operation_list@.len() == 0,
                beam_depth <= MAX_TURNS,
                eval == Evaluation::AllCenters,
                record_ok(root, eval, &best, beam_depth as int),
                history_sound(root, eval, &best),
                best.offered@.len() >= 1 && best.offered@[0].len() == 0,
                !root.has_loop ==> best.tree_size >= root.tree_size,
                beams@.len() == beam_depth + 1,
                forall|i: int| 0 <= i < beams@.len() ==> queue_at_depth(root, eval, &#[trigger] beams@[i], i),
                depth <= beam_depth,
                deep == (beam_width >= 1 && root.n >= 2),
                sweep > 0 && deep ==> reaches_upto(&best, beam_depth as int),
                sweep == 0 && deep ==> reaches_upto(&best, depth as int) && beams@[depth as int].entries@.len() > 0,
            decreases beam_depth - depth,
        {
            let mut w: usize = 0;
            while w < beam_width && !beams[depth].is_empty()
                invariant
                    expanded_root ==> covers_first_moves(root, eval, &best),
                    !expanded_root ==> beams@[0].entries@.len() == 1,
                    (sweep > 0 || depth > 0) && beam_depth >= 1 && beam_width >= 1 ==> expanded_root,
                    depth == 0 && w > 0 ==> expanded_root,
                    root.wf(),
                    root.operation_list@.len() == 0,
                    beam_depth <= MAX_TURNS,
                    eval == Evaluation::AllCenters,
                    record_ok(root, eval, &best, beam_depth as int),
                    history_sound(root, eval, &best),
                    best.offered@.len() >= 1 && best.offered@[0].len() == 0,
                    !root.has_loop ==> best.tree_size >= root.tree_size,
                    beams@.len() == beam_depth + 1,
                    forall|i: int| 0 <= i < beams@.len() ==> queue_at_depth(root, eval, &#[trigger] beams@[i], i),
                    depth < beam_depth,
                    deep == (beam_width >= 1 && root.n >= 2),
                    sweep > 0 && deep ==> reaches_upto(&best, beam_depth as int),
                    sweep == 0 && deep ==> reaches_upto(&best, depth as int),
                    sweep == 0 && deep && w == 0 ==> beams@[depth as int].entries@.len() > 0,
                    sweep == 0 && deep && w > 0 ==> reaches_depth(&best, depth + 1)
                        && beams@[depth + 1].entries@.len() > 0,
                decreases beam_width - w,
            {
                proof {
                    assert(queue_at_depth(root, eval, &beams@[depth as int], depth as int));
                }
                let (_, st) = beams[depth].pop_best();
                proof {
                    assert(reached_from(root, eval, &st));
                }
                let mut actions = get_legal_actions(&st.operation_list, st.empty, st.n);
                let ghost legal = actions@;
                shuffle_moves(&mut actions, rng);
                proof {
                    broadcast use vstd::seq_lib::group_to_multiset_ensures;

                    assert forall|k: int| 0 <= k < actions@.len() implies is_legal(
                        st.n as int,
                        st.hole(),
                        last_move(st.operation_list@),
                        #[trigger] actions@[k],
                    ) by {
                        assert(actions@.contains(actions@[k]));
                        assert(actions@.to_multiset().count(actions@[k]) > 0);
                        assert(legal.contains(actions@[k]));
                    }
                }
                let mut a: usize = 0;
                while a < actions.len()
                    invariant
                        root.wf(),
                        root.operation_list@.len() == 0,
                        beam_depth <= MAX_TURNS,
                        eval == Evaluation::AllCenters,
                        record_ok(root, eval, &best, beam_depth as int),
                        history_sound(root, eval, &best),
                        best.offered@.len() >= 1 && best.offered@[0].len() == 0,
                        !root.has_loop ==> best.tree_size >= root.tree_size,
                        beams@.len() == beam_depth + 1,
                        forall|i: int| 0 <= i < beams@.len() ==> queue_at_depth(root, eval, &#[trigger] beams@[i], i),
                        depth < beam_depth,
                        reached_from(root, eval, &st),
                        st.operation_list@.len() == depth,
                        forall|k: int| 0 <= k < actions@.len() ==> is_legal(
                            st.n as int,
                            st.hole(),
                            last_move(st.operation_list@),
                            #[trigger] actions@[k],
                        ),
                        expanded_root ==> covers_first_moves(root, eval, &best),
                        !expanded_root ==> depth == 0,
                        (sweep > 0 || depth > 0) && beam_depth >= 1 && beam_width >= 1 ==> expanded_root,
                        a <= actions@.len(),
                        forall|k: int| 0 <= k < a ==> best.tree_size >= #[trigger] move_gain(&st, eval, actions@[k]),
                        deep == (beam_width >= 1 && root.n >= 2),
                        sweep > 0 && deep ==> reaches_upto(&best, beam_depth as int),
                        sweep == 0 && deep ==> reaches_upto(&best, depth as int),
                        sweep == 0 && deep && (w > 0 || a > 0) ==> reaches_depth(&best, depth + 1)
                            && beams@[depth + 1].entries@.len() > 0,
                    decreases actions@.len() - a,
                {
                    let action = actions[a];
                    let child = expand(&st, action, eval);
                    proof {
                        lemma_child_reached(root, eval, &st, action, &child);
                        lemma_child_gain(&st, action, eval, &child);
                    }
                    let ghost before = best;
                    best.offer(&child);
                    proof {
                        lemma_offer_ok(root, eval, &child, &before, &best, beam_depth as int);
                        lemma_reach_grows(&before, &best, child.operation_list@);
                        if deep {
                            let hi: int = if sweep > 0 {
                                beam_depth as int
                            } else {
                                depth as int
                            };
                            assert(reaches_upto(&before, hi));
                            assert forall|d: int| 1 <= d <= hi implies #[trigger] reaches_depth(&best, d) by {
                                assert(reaches_depth(&before, d));
                            }
                        }
                    }
                    let key = child.evaluated_score;
                    beams[depth + 1].push(key, child);
                    a += 1;
                }
                proof {
                    if root.n >= 2 {
                        broadcast use vstd::seq_lib::group_to_multiset_ensures;

                        let m = lemma_some_legal(st.n as int, st.hole(), last_move(st.operation_list@));
                        assert(legal.contains(m));
                        assert(legal.to_multiset().len() == legal.len());
                        assert(actions@.to_multiset().len() == actions@.len());
                    }
                    if depth == 0 {
                        broadcast use vstd::seq_lib::group_to_multiset_ensures;

                        assert forall|m: Move| is_legal(root.n as int, root.hole(), None, m) implies best.tree_size
                            >= #[trigger] move_gain(root, eval, m) by {
                            lemma_fresh_is_root(root, eval, &st, m);
                            assert(legal.contains(m));
                            assert(legal.to_multiset().count(m) > 0);
                            assert(actions@.contains(m));
                            let k = choose|k: int| 0 <= k < actions@.len() && actions@[k] == m;
                            assert(best.tree_size >= move_gain(&st, eval, actions@[k]));
                        }
                        expanded_root = true;
                    }
                }
                w += 1;
            }
            depth += 1;
        }
        sweep += 1;
    }
    best
}

} // verus!
