use vstd::prelude::*;
use crate::grid::{
    cells_of, is_square, fits, compute_tree_size_by_bfs, detect_loop, tree_size_of,
    component_has_cycle,
};
use crate::moves::{Move, move_target, in_board, target, is_legal, last_move, legal_moves};

verus! {

/// The tile block that cell `p` of a big board belongs to.
pub open spec fn block_of(p: (int, int)) -> (int, int) {
    (p.0 / 3, p.1 / 3)
}

/// The centre cell of tile block `t`.
pub open spec fn center_of(t: (int, int)) -> (int, int) {
    (3 * t.0 + 1, 3 * t.1 + 1)
}

/// Every cell of tile block `t` is a wall.
pub open spec fn block_is_wall(g: Seq<Seq<bool>>, t: (int, int)) -> bool {
    forall|k: int, l: int| 0 <= k < 3 && 0 <= l < 3 ==> !#[trigger] g[3 * t.0 + k][3 * t.1 + l]
}

/// The board after the tile at block `dest` slides into the hole at block
/// `blank`: the hole receives the tile's cells and `dest` becomes all wall.
pub open spec fn slid(g: Seq<Seq<bool>>, blank: (int, int), dest: (int, int)) -> Seq<Seq<bool>> {
    Seq::new(
        g.len(),
        |r: int|
            Seq::new(
                g[r].len(),
                |c: int|
                    if block_of((r, c)) == dest {
                        false
                    } else if block_of((r, c)) == blank {
                        g[3 * dest.0 + r % 3][3 * dest.1 + c % 3]
                    } else {
                        g[r][c]
                    },
            ),
    )
}

/// `slid` with only the first `done` cells of each block moved, in row-major
/// order within the block.
pub open spec fn partly_slid(g: Seq<Seq<bool>>, blank: (int, int), dest: (int, int), done: int) -> Seq<
    Seq<bool>,
> {
    Seq::new(
        g.len(),
        |r: int|
            Seq::new(
                g[r].len(),
                |c: int|
                    if block_of((r, c)) == dest && (r % 3) * 3 + c % 3 < done {
                        false
                    } else if block_of((r, c)) == blank && (r % 3) * 3 + c % 3 < done {
                        g[3 * dest.0 + r % 3][3 * dest.1 + c % 3]
                    } else {
                        g[r][c]
                    },
            ),
    )
}

/// Turns beyond this bound are not scored.
pub const MAX_TURNS: usize = 2147483647;

/// How a transition measures the tree size of the board it produces.
#[derive(Clone, Copy, Debug, PartialEq, Eq, Structural)]
pub enum Evaluation {
    /// Search only from the centre of the tile that just slid: one search.
    FromMovedTile,
    /// Search from every tile centre and keep the largest: n * n searches.
    AllCenters,
}

/// `num / den` rounded to the nearest integer, halves away from zero.
pub open spec fn round_div(num: int, den: int) -> int {
    if num >= 0 {
        (2 * num + den) / (2 * den)
    } else {
        -((2 * (-num) + den) / (2 * den))
    }
}

/// The normalised score `round(100 * tree / turn - penalty * turn)`, with a
/// penalty of 1/100 when the board holds a cycle and none otherwise.
pub open spec fn score_of(tree: int, turn: int, has_loop: bool) -> int {
    round_div(10000 * tree - (if has_loop { turn * turn } else { 0 }), 100 * turn)
}

/// The normalised score of a state with the given tree size, turn and cycle flag.
pub fn normalized_score(tree_size: usize, turn: usize, has_loop: bool) -> (score: i128)
    requires
        1 <= turn <= MAX_TURNS,
    ensures
        score == score_of(tree_size as int, turn as int, has_loop),
{
    let t = turn as i128;
    proof {
        assert(t * t <= 4294967295 * 4294967295) by (nonlinear_arith)
            requires
                0 <= t <= 4294967295,
        ;
    }
    let penalty: i128 = if has_loop { t * t } else { 0 };
    let num: i128 = 10000 * (tree_size as i128) - penalty;
    let den: i128 = 100 * t;
    if num >= 0 {
        (2 * num + den) / (2 * den)
    } else {
        -((2 * (-num) + den) / (2 * den))
    }
}

/// The largest tree size from a centre in row `i`, over columns below `j`.
pub open spec fn row_best(g: Seq<Seq<bool>>, i: int, j: int) -> int
    decreases j,
{
    if j <= 0 {
        0
    } else {
        let a = row_best(g, i, j - 1);
        let b = tree_size_of(g, center_of((i, j - 1)));
        if a >= b {
            a
        } else {
            b
        }
    }
}

/// The largest tree size from a centre in the rows below `i` of an `n`-wide board.
pub open spec fn board_best(g: Seq<Seq<bool>>, n: int, i: int) -> int
    decreases i,
{
    if i <= 0 {
        0
    } else {
        let a = board_best(g, n, i - 1);
        let b = row_best(g, i - 1, n);
        if a >= b {
            a
        } else {
            b
        }
    }
}

/// The largest tree size from any tile centre of an `n` x `n` board.
pub open spec fn max_tree_size(g: Seq<Seq<bool>>, n: int) -> int {
    board_best(g, n, n)
}

/// The largest tree size over all tile centres, and the first centre (in
/// row-major order) that reaches it.
pub fn best_center(n: usize, big_board: &Vec<Vec<bool>>) -> (res: (usize, usize, usize))
    requires
        n >= 1,
        big_board@.len() == 3 * n,
        is_square(cells_of(big_board)),
        fits(cells_of(big_board)),
    ensures
        res.0 < n,
        res.1 < n,
        res.2 == max_tree_size(cells_of(big_board), n as int),
        res.2 == tree_size_of(cells_of(big_board), center_of((res.0 as int, res.1 as int))),
        forall|a: int, b: int|
            0 <= a < n && 0 <= b < n && (a < res.0 || (a == res.0 && b < res.1)) ==> #[trigger] tree_size_of(
                cells_of(big_board),
                center_of((a, b)),
            ) < res.2,
{
    let ghost g = cells_of(big_board);
    let m = big_board.len();
    let mut best: usize = 0;
    let mut bi: usize = 0;
    let mut bj: usize = 0;
    let mut i: usize = 0;
    while i < n
        invariant
            g == cells_of(big_board),
            n >= 1,
            big_board@.len() == 3 * n,
            m == 3 * n,
            is_square(g),
            fits(g),
            i <= n,
            bi < n,
            bj < n,
            best == board_best(g, n as int, i as int),
            i > 0 ==> tree_size_of(g, center_of((bi as int, bj as int))) == best,
            i > 0 ==> bi < i,
            forall|a: int, b: int|
                0 <= a < i && 0 <= b < n ==> #[trigger] tree_size_of(g, center_of((a, b))) <= best,
            forall|a: int, b: int|
                0 <= a < n && 0 <= b < n && (a < bi || (a == bi && b < bj)) ==> #[trigger] tree_size_of(
                    g,
                    center_of((a, b)),
                ) < best,
        decreases n - i,
    {
        let mut j: usize = 0;
        let ghost before: int = best as int;
        while j < n
            invariant
                g == cells_of(big_board),
                n >= 1,
                big_board@.len() == 3 * n,
                m == 3 * n,
                is_square(g),
                fits(g),
                i < n,
                j <= n,
                bi < n,
                bj < n,
                before == board_best(g, n as int, i as int),
                best == (if before >= row_best(g, i as int, j as int) {
                    before
                } else {
                    row_best(g, i as int, j as int)
                }),
                (i > 0 || j > 0) ==> tree_size_of(g, center_of((bi as int, bj as int))) == best,
                (i > 0 || j > 0) ==> (bi < i || (bi == i && bj < j)),
                forall|a: int, b: int|
                    0 <= a < n && 0 <= b < n && (a < i || (a == i && b < j)) ==> #[trigger] tree_size_of(
                        g,
                        center_of((a, b)),
                    ) <= best,
                forall|a: int, b: int|
                    0 <= a < n && 0 <= b < n && (a < bi || (a == bi && b < bj)) ==> #[trigger] tree_size_of(
                        g,
                        center_of((a, b)),
                    ) < best,
            decreases n - j,
        {
            let size = compute_tree_size_by_bfs(3 * i + 1, 3 * j + 1, n, big_board);
            proof {
                crate::sums::lemma_grid_sum_bounds(
                    crate::grid::tree_weight(g, center_of((i as int, j as int))),
                    g.len() as int,
                    g.len() as int,
                    1,
                );
                crate::sums::lemma_grid_sum_bounds(
                    crate::grid::tree_weight(g, center_of((bi as int, bj as int))),
                    g.len() as int,
                    g.len() as int,
                    1,
                );
            }
            if size > best || (i == 0 && j == 0) {
                best = size;
                bi = i;
                bj = j;
            }
            j += 1;
        }
        i += 1;
    }
    (bi, bj, best)
}

/// A search state: the big board, where the hole is, how the board was
/// measured, and the moves that led here.
pub struct GameState {
    /// Tiles per side of the board.
    pub n: usize,
    /// The (3n) x (3n) walkability grid, `true` for open cells.
    pub big_board: Vec<Vec<bool>>,
    /// Board coordinates (row, column) of the hole.
    pub empty: (usize, usize),
    /// Tree size of the board, measured as the last transition chose.
    pub tree_size: usize,
    /// Whether the component of the tile that last slid holds a cycle.
    pub has_loop: bool,
    /// The moves from the root to this state, in order.
    pub operation_list: Vec<Move>,
    /// Moves made so far.
    pub turn: usize,
    /// Normalised score of the last transition; zero at the root.
    pub evaluated_score: i128,
}

impl GameState {
    pub open spec fn board(&self) -> Seq<Seq<bool>> {
        cells_of(&self.big_board)
    }

    pub open spec fn hole(&self) -> (int, int) {
        (self.empty.0 as int, self.empty.1 as int)
    }

    /// The board is (3n) x (3n), the hole lies on it and is all wall, and
    /// the turn counts the moves.
    pub open spec fn wf(&self) -> bool {
        &&& self.n >= 1
        &&& self.big_board@.len() == 3 * self.n
        &&& is_square(self.board())
        &&& fits(self.board())
        &&& in_board(self.n as int, self.hole())
        &&& block_is_wall(self.board(), self.hole())
        &&& self.turn == self.operation_list@.len()
    }

    /// The same state, field for field, on a board of its own.
    pub open spec fn same_as(&self, other: &GameState) -> bool {
        &&& self.n == other.n
        &&& self.big_board@.len() == other.big_board@.len()
        &&& self.board() == other.board()
        &&& self.empty == other.empty
        &&& self.tree_size == other.tree_size
        &&& self.has_loop == other.has_loop
        &&& self.operation_list@ == other.operation_list@
        &&& self.turn == other.turn
        &&& self.evaluated_score == other.evaluated_score
    }

    /// A deep copy.
    pub fn duplicate(&self) -> (r: GameState)
        ensures
            r.same_as(self),
    {
        let mut rows: Vec<Vec<bool>> = Vec::new();
        let mut i: usize = 0;
        while i < self.big_board.len()
            invariant
                i <= self.big_board@.len(),
                rows@.len() == i,
                forall|r: int| 0 <= r < i ==> (#[trigger] rows@[r])@ == self.big_board@[r]@,
            decreases self.big_board@.len() - i,
        {
            let src = &self.big_board[i];
            let mut row: Vec<bool> = Vec::new();
            let mut j: usize = 0;
            while j < src.len()
                invariant
                    j <= src@.len(),
                    row@ == src@.subrange(0, j as int),
                decreases src@.len() - j,
            {
                row.push(src[j]);
                j += 1;
                proof {
                    assert(row@ =~= src@.subrange(0, j as int));
                }
            }
            proof {
                assert(row@ =~= src@);
            }
            rows.push(row);
            i += 1;
        }
        let mut ops: Vec<Move> = Vec::new();
        let mut k: usize = 0;
        while k < self.operation_list.len()
            invariant
                k <= self.operation_list@.len(),
                ops@ == self.operation_list@.subrange(0, k as int),
            decreases self.operation_list@.len() - k,
        {
            ops.push(self.operation_list[k]);
            k += 1;
            proof {
                assert(ops@ =~= self.operation_list@.subrange(0, k as int));
            }
        }
        proof {
            assert(ops@ =~= self.operation_list@);
            assert(cells_of(&rows) =~= cells_of(&self.big_board));
        }
        GameState {
            n: self.n,
            big_board: rows,
            empty: self.empty,
            tree_size: self.tree_size,
            has_loop: self.has_loop,
            operation_list: ops,
            turn: self.turn,
            evaluated_score: self.evaluated_score,
        }
    }
}

/// Moves the cells of tile block `dest` into block `blank` and walls up `dest`.
pub fn slide_block(big_board: &mut Vec<Vec<bool>>, blank: (usize, usize), dest: (usize, usize))
    requires
        is_square(cells_of(old(big_board))),
        3 * blank.0 + 2 < old(big_board)@.len(),
        3 * blank.1 + 2 < old(big_board)@.len(),
        3 * dest.0 + 2 < old(big_board)@.len(),
        3 * dest.1 + 2 < old(big_board)@.len(),
        blank != dest,
    ensures
        final(big_board)@.len() == old(big_board)@.len(),
        cells_of(final(big_board)) == slid(
            cells_of(old(big_board)),
            (blank.0 as int, blank.1 as int),
            (dest.0 as int, dest.1 as int),
        ),
{
    let ghost g = cells_of(big_board);
    let ghost b = (blank.0 as int, blank.1 as int);
    let ghost d = (dest.0 as int, dest.1 as int);
    proof {
        assert(partly_slid(g, b, d, 0) =~= g) by {
            assert forall|r: int| 0 <= r < g.len() implies #[trigger] partly_slid(g, b, d, 0)[r] =~= g[r] by {}
        }
    }
    let len = big_board.len();
    let mut o: usize = 0;
    while o < 9
        invariant
            g.len() == big_board@.len(),
            len == g.len(),
            is_square(g),
            b == (blank.0 as int, blank.1 as int),
            d == (dest.0 as int, dest.1 as int),
            3 * blank.0 + 2 < g.len(),
            3 * blank.1 + 2 < g.len(),
            3 * dest.0 + 2 < g.len(),
            3 * dest.1 + 2 < g.len(),
            blank != dest,
            o <= 9,
            cells_of(big_board) == partly_slid(g, b, d, o as int),
        decreases 9 - o,
    {
        let k = o / 3;
        let l = o % 3;
        let ghost before = cells_of(big_board);
        proof {
            assert(before[3 * dest.0 + k] == big_board@[3 * dest.0 + k]@);
            assert(before[3 * blank.0 + k] == big_board@[3 * blank.0 + k]@);
            assert(g[3 * dest.0 + k].len() == g.len());
            assert(g[3 * blank.0 + k].len() == g.len());
        }
        let v = big_board[3 * dest.0 + k][3 * dest.1 + l];
        big_board[3 * blank.0 + k][3 * blank.1 + l] = v;
        big_board[3 * dest.0 + k][3 * dest.1 + l] = false;
        proof {
            let after = cells_of(big_board);
            let target = partly_slid(g, b, d, o as int + 1);
            assert forall|r: int| 0 <= r < g.len() implies #[trigger] after[r] =~= target[r] by {
                assert(g[r].len() == g.len());
                assert(before[r].len() == g.len());
                assert(after[r].len() == g.len());
                assert(target[r].len() == g.len());
                assert forall|c: int| 0 <= c < g.len() implies after[r][c] == target[r][c] by {
                    let rk = r % 3;
                    let cl = c % 3;
                    assert(o == 3 * k + l);
                    if rk * 3 + cl == o {
                        assert(rk == k && cl == l);
                    }
                    if r == 3 * dest.0 + k && c == 3 * dest.1 + l {
                    } else if r == 3 * blank.0 + k && c == 3 * blank.1 + l {
                        assert(v == before[3 * dest.0 + k][3 * dest.1 + l]);
                    } else {
                        assert(after[r][c] == before[r][c]);
                    }
                }
            }
            assert(after =~= target);
        }
        o += 1;
    }
    proof {
        let fin = cells_of(big_board);
        let target = slid(g, b, d);
        assert forall|r: int| 0 <= r < g.len() implies #[trigger] fin[r] =~= target[r] by {}
        assert(fin =~= target);
    }
}

impl GameState {
    /// Slides the tile at the blank's destination into the hole, records the
    /// move, and measures the new board: its tree size by `eval`, its cycle
    /// flag from the tile that slid, and the normalised score of both.
    pub fn advance(&mut self, action: Move, eval: Evaluation)
        requires
            old(self).wf(),
            in_board(old(self).n as int, move_target(old(self).hole(), action)),
            old(self).turn < MAX_TURNS,
        ensures
            final(self).wf(),
            final(self).n == old(self).n,
            final(self).board() == slid(
                old(self).board(),
                old(self).hole(),
                move_target(old(self).hole(), action),
            ),
            final(self).hole() == move_target(old(self).hole(), action),
            final(self).operation_list@ == old(self).operation_list@.push(action),
            final(self).turn == old(self).turn + 1,
            final(self).tree_size == (match eval {
                Evaluation::FromMovedTile => tree_size_of(final(self).board(), center_of(old(self).hole())),
                Evaluation::AllCenters => max_tree_size(final(self).board(), old(self).n as int),
            }),
            final(self).has_loop == component_has_cycle(final(self).board(), center_of(old(self).hole())),
            final(self).evaluated_score == score_of(
                final(self).tree_size as int,
                final(self).turn as int,
                final(self).has_loop,
            ),
    {
        let n = self.n;
        let len = self.big_board.len();
        let blank = self.empty;
        let dest = match target(blank, action, n) {
            Some(t) => t,
            None => blank,
        };
        slide_block(&mut self.big_board, blank, dest);
        let ghost g = self.board();
        proof {
            assert(is_square(g)) by {
                assert forall|r: int| 0 <= r < g.len() implies (#[trigger] g[r]).len() == g.len() by {}
            }
            assert(block_is_wall(g, (dest.0 as int, dest.1 as int))) by {
                assert forall|k: int, l: int| 0 <= k < 3 && 0 <= l < 3 implies !#[trigger] g[3 * dest.0 + k][3 * dest.1 + l] by {
                    assert(block_of((3 * dest.0 + k, 3 * dest.1 + l)) == (dest.0 as int, dest.1 as int));
                }
            }
        }
        let tree_size = match eval {
            Evaluation::FromMovedTile => compute_tree_size_by_bfs(3 * blank.0 + 1, 3 * blank.1 + 1, n, &self.big_board),
            Evaluation::AllCenters => best_center(n, &self.big_board).2,
        };
        let has_loop = detect_loop(3 * blank.0 + 1, 3 * blank.1 + 1, n, &self.big_board);
        self.empty = dest;
        self.operation_list.push(action);
        self.turn = self.turn + 1;
        self.tree_size = tree_size;
        self.has_loop = has_loop;
        self.evaluated_score = normalized_score(tree_size, self.turn, has_loop);
    }
}

impl GameState {
    /// The moves that keep the hole on the board and do not undo the last
    /// move, each once.
    pub fn get_legal_actions(&self) -> (actions: Vec<Move>)
        requires
            self.wf(),
        ensures
            forall|m: Move|
                actions@.contains(m) <==> is_legal(
                    self.n as int,
                    self.hole(),
                    last_move(self.operation_list@),
                    m,
                ),
            actions@.no_duplicates(),
            actions@ == legal_moves(self.n as int, self.hole(), last_move(self.operation_list@)),
    {
        crate::moves::get_legal_actions(&self.operation_list, self.empty, self.n)
    }
}

/// One cell of a slide followed by the slide back.
proof fn lemma_slide_back_cell(g: Seq<Seq<bool>>, blank: (int, int), dest: (int, int), r: int, c: int)
    requires
        is_square(g),
        0 <= r < g.len(),
        0 <= c < g.len(),
        0 <= 3 * blank.0 + 2 < g.len(),
        0 <= 3 * blank.1 + 2 < g.len(),
        0 <= 3 * dest.0 + 2 < g.len(),
        0 <= 3 * dest.1 + 2 < g.len(),
        blank != dest,
        block_is_wall(g, blank),
    ensures
        slid(slid(g, blank, dest), dest, blank)[r][c] == g[r][c],
{
    let g1 = slid(g, blank, dest);
    assert(g[r].len() == g.len());
    if block_of((r, c)) == blank {
        assert(!g[3 * blank.0 + r % 3][3 * blank.1 + c % 3]);
    } else if block_of((r, c)) == dest {
        let rr = 3 * blank.0 + r % 3;
        let cc = 3 * blank.1 + c % 3;
        assert(block_of((rr, cc)) == blank);
        assert(g[rr].len() == g.len());
        assert(g1[rr][cc] == g[3 * dest.0 + rr % 3][3 * dest.1 + cc % 3]);
    }
}

/// Sliding a tile into the hole and straight back restores the board, cell
/// for cell, provided the hole was all wall to begin with.
pub proof fn lemma_slide_back(g: Seq<Seq<bool>>, n: int, blank: (int, int), m: Move)
    requires
        g.len() == 3 * n,
        is_square(g),
        in_board(n, blank),
        in_board(n, move_target(blank, m)),
        block_is_wall(g, blank),
    ensures
        move_target(move_target(blank, m), m.spec_reverse()) == blank,
        slid(slid(g, blank, move_target(blank, m)), move_target(blank, m), blank) == g,
{
    let dest = move_target(blank, m);
    let g1 = slid(g, blank, dest);
    let g2 = slid(g1, dest, blank);
    assert(g2.len() == g.len());
    assert forall|r: int| 0 <= r < g.len() implies #[trigger] g2[r] == g[r] by {
        assert(g[r].len() == g.len());
        assert forall|c: int| 0 <= c < g[r].len() implies g2[r][c] == g[r][c] by {
            lemma_slide_back_cell(g, blank, dest, r, c);
        }
        assert(g2[r] =~= g[r]);
    }
    assert(g2 =~= g);
}

} // verus!
