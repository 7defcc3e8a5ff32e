use vstd::prelude::*;
use crate::grid::{cells_of, detect_loop, tree_size_of, component_has_cycle};
use crate::moves::in_board;
use crate::state::{GameState, best_center, max_tree_size, center_of};
use crate::sums::{grid_sum, row_sum};
use crate::tile::{is_tile_char, spec_tile_code, tile_cell_open, convert_single_tile_to_3x3};

verus! {

/// Why a grid of tile characters is not a puzzle.
#[derive(Clone, Copy, Debug, PartialEq, Eq, Structural)]
pub enum BoardError {
    /// Counts over the big board would not fit in a `usize`.
    TooLarge,
    /// Some row is not as long as there are rows.
    NotSquare,
    /// Some character is not one of `0`-`9`, `a`-`f`.
    BadTile,
    /// There is not exactly one blank tile `0`.
    BlankCount,
}

/// The rows of a grid of characters.
pub open spec fn chars_of(b: &Vec<Vec<char>>) -> Seq<Seq<char>> {
    Seq::new(b@.len(), |r: int| b@[r]@)
}

/// Four counts per cell of the (3n) x (3n) big board fit in a `usize`.
pub open spec fn board_fits(n: int) -> bool {
    36 * n * n <= usize::MAX
}

pub open spec fn rows_square(b: Seq<Seq<char>>) -> bool {
    forall|r: int| 0 <= r < b.len() ==> (#[trigger] b[r]).len() == b.len()
}

pub open spec fn all_tiles(b: Seq<Seq<char>>) -> bool {
    forall|r: int, c: int| 0 <= r < b.len() && 0 <= c < b.len() ==> is_tile_char(#[trigger] b[r][c])
}

pub open spec fn blank_weight(b: Seq<Seq<char>>) -> spec_fn(int, int) -> int {
    |r: int, c: int|
        if b[r][c] == '0' {
            1int
        } else {
            0int
        }
}

/// How many blank tiles the grid holds.
pub open spec fn blank_count(b: Seq<Seq<char>>) -> int {
    grid_sum(blank_weight(b), b.len() as int, b.len() as int)
}

/// The big board: each tile stamped as its 3x3 pattern.
pub open spec fn expanded(b: Seq<Seq<char>>) -> Seq<Seq<bool>> {
    Seq::new(
        3 * b.len(),
        |r: int|
            Seq::new(
                3 * b.len(),
                |c: int| tile_cell_open(spec_tile_code(b[(r / 3) as int][(c / 3) as int]) as u8, r % 3, c % 3),
            ),
    )
}

impl GameState {
    /// The root state of a puzzle given as rows of tile characters: the
    /// expanded board, the hole at the blank tile, no moves, and the largest
    /// tree size over all tile centres with the cycle flag of the first
    /// centre, in row-major order, that reaches it.
    pub fn from_tiles(board: &Vec<Vec<char>>) -> (res: Result<GameState, BoardError>)
        ensures
            ({
                let b = chars_of(board);
                let n = b.len() as int;
                &&& (res is Err && res->Err_0 == BoardError::TooLarge) <==> !board_fits(n)
                &&& (res is Err && res->Err_0 == BoardError::NotSquare) <==> (board_fits(n)
                    && !rows_square(b))
                &&& (res is Err && res->Err_0 == BoardError::BadTile) <==> (board_fits(n)
                    && rows_square(b) && !all_tiles(b))
                &&& (res is Err && res->Err_0 == BoardError::BlankCount) <==> (board_fits(n)
                    && rows_square(b) && all_tiles(b) && blank_count(b) != 1)
                &&& res matches Ok(s) ==> {
                    &&& s.wf()
                    &&& s.n == n
                    &&& s.board() == expanded(b)
                    &&& b[s.hole().0][s.hole().1] == '0'
                    &&& s.operation_list@.len() == 0
                    &&& s.turn == 0
                    &&& s.evaluated_score == 0
                    &&& s.tree_size == max_tree_size(s.board(), n)
                    &&& exists|t: (int, int)|
                        in_board(n, t) && tree_size_of(s.board(), center_of(t)) == s.tree_size
                            && s.has_loop == component_has_cycle(s.board(), center_of(t)) && (forall|
                            a: int,
                            b: int,
                        |
                            0 <= a < n && 0 <= b < n && (a < t.0 || (a == t.0 && b < t.1))
                                ==> #[trigger] tree_size_of(s.board(), center_of((a, b))) < s.tree_size)
                }
            }),
    {
        let ghost b = chars_of(board);
        let n = board.len();
        if n > 4294967295 {
            proof {
                assert(36 * n * n > usize::MAX) by (nonlinear_arith)
                    requires
                        n > 4294967295,
                ;
            }
            return Err(BoardError::TooLarge);
        }
        let wide = n as u128;
        proof {
            assert(36 * wide * wide <= 36 * 4294967295 * 4294967295) by (nonlinear_arith)
                requires
                    wide <= 4294967295,
            ;
        }
        if 36 * wide * wide > usize::MAX as u128 {
            return Err(BoardError::TooLarge);
        }
        proof {
            assert(36 * n * n <= usize::MAX);
            assert(n * n <= 36 * n * n) by (nonlinear_arith);
        }
        let mut i: usize = 0;
        while i < n
            invariant
                b == chars_of(board),
                n == b.len(),
                board_fits(n as int),
                i <= n,
                forall|r: int| 0 <= r < i ==> (#[trigger] b[r]).len() == n,
            decreases n - i,
        {
            if board[i].len() != n {
                proof {
                    assert(b[i as int].len() != n);
                }
                return Err(BoardError::NotSquare);
            }
            i += 1;
        }
        let mut blanks: usize = 0;
        let mut hole: (usize, usize) = (0, 0);
        let mut r: usize = 0;
        while r < n
            invariant
                b == chars_of(board),
                n == b.len(),
                board_fits(n as int),
                rows_square(b),
                r <= n,
                forall|rr: int, cc: int| 0 <= rr < r && 0 <= cc < n ==> is_tile_char(#[trigger] b[rr][cc]),
                blanks == grid_sum(blank_weight(b), r as int, n as int),
                blanks <= r * n,
                blanks > 0 ==> hole.0 < n && hole.1 < n && b[hole.0 as int][hole.1 as int] == '0',
            decreases n - r,
        {
            let mut c: usize = 0;
            proof {
                assert(b[r as int].len() == n);
            }
            while c < n
                invariant
                    b == chars_of(board),
                    n == b.len(),
                    board_fits(n as int),
                    rows_square(b),
                    r < n,
                    c <= n,
                    b[r as int].len() == n,
                    forall|rr: int, cc: int| 0 <= rr < r && 0 <= cc < n ==> is_tile_char(#[trigger] b[rr][cc]),
                    forall|cc: int| 0 <= cc < c ==> is_tile_char(#[trigger] b[r as int][cc]),
                    blanks == grid_sum(blank_weight(b), r as int, n as int) + row_sum(
                        blank_weight(b),
                        r as int,
                        c as int,
                    ),
                    blanks <= r * n + c,
                    blanks > 0 ==> hole.0 < n && hole.1 < n && b[hole.0 as int][hole.1 as int] == '0',
                decreases n - c,
            {
                proof {
                    assert(r * n + c + 1 <= n * n) by (nonlinear_arith)
                        requires
                            r < n,
                            c < n,
                    ;
                    assert(n * n <= 36 * n * n) by (nonlinear_arith);
                }
                let ch = board[r][c];
                if !(('0' <= ch && ch <= '9') || ('a' <= ch && ch <= 'f')) {
                    proof {
                        assert(!is_tile_char(b[r as int][c as int]));
                    }
                    return Err(BoardError::BadTile);
                }
                if ch == '0' {
                    blanks += 1;
                    hole = (r, c);
                }
                c += 1;
            }
            proof {
                assert(r * n + n == (r + 1) * n) by (nonlinear_arith);
            }
            r += 1;
        }
        if blanks != 1 {
            return Err(BoardError::BlankCount);
        }
        let big_board = expand_board(board, n);
        let ghost g = cells_of(&big_board);
        proof {
            assert(g == expanded(b));
            assert(crate::grid::is_square(g)) by {
                assert forall|rr: int| 0 <= rr < g.len() implies (#[trigger] g[rr]).len() == g.len() by {}
            }
            assert(4 * g.len() * g.len() == 36 * n * n) by (nonlinear_arith)
                requires
                    g.len() == 3 * n,
            ;
            assert(spec_tile_code('0') == 0);
            assert(crate::state::block_is_wall(g, (hole.0 as int, hole.1 as int))) by {
                assert forall|k: int, l: int| 0 <= k < 3 && 0 <= l < 3 implies !#[trigger] g[3 * hole.0 + k][3 * hole.1 + l] by {
                    let rr = 3 * hole.0 + k;
                    let cc = 3 * hole.1 + l;
                    assert(rr / 3 == hole.0 && cc / 3 == hole.1);
                    assert(0u8 & 1u8 == 0) by (bit_vector);
                    assert(0u8 & 2u8 == 0) by (bit_vector);
                    assert(0u8 & 4u8 == 0) by (bit_vector);
                    assert(0u8 & 8u8 == 0) by (bit_vector);
                }
            }
        }
        let m = big_board.len();
        let (bi, bj, size) = best_center(n, &big_board);
        let has_loop = detect_loop(3 * bi + 1, 3 * bj + 1, n, &big_board);
        let s = GameState {
            n,
            big_board,
            empty: hole,
            tree_size: size,
            has_loop,
            operation_list: Vec::new(),
            turn: 0,
            evaluated_score: 0,
        };
        proof {
            assert(in_board(n as int, (bi as int, bj as int)));
        }
        Ok(s)
    }
}

/// Stamps every tile of a validated grid as its 3x3 pattern.
fn expand_board(board: &Vec<Vec<char>>, n: usize) -> (big: Vec<Vec<bool>>)
    requires
        n == board@.len(),
        board_fits(n as int),
        rows_square(chars_of(board)),
        all_tiles(chars_of(board)),
    ensures
        cells_of(&big) == expanded(chars_of(board)),
{
    let ghost b = chars_of(board);
    proof {
        assert(3 * n <= 36 * n * n) by (nonlinear_arith)
            requires
                n >= 0,
        ;
    }
    let m = 3 * n;
    let mut big: Vec<Vec<bool>> = Vec::new();
    let mut r: usize = 0;
    while r < m
        invariant
            b == chars_of(board),
            n == b.len(),
            m == 3 * n,
            rows_square(b),
            all_tiles(b),
            r <= m,
            big@.len() == r,
            forall|rr: int| 0 <= rr < r ==> (#[trigger] big@[rr])@ == expanded(b)[rr],
        decreases m - r,
    {
        let mut row: Vec<bool> = Vec::new();
        let mut c: usize = 0;
        proof {
            assert(b[(r / 3) as int].len() == n);
        }
        while c < m
            invariant
                b == chars_of(board),
                n == b.len(),
                m == 3 * n,
                rows_square(b),
                all_tiles(b),
                r < m,
                c <= m,
                b[(r / 3) as int].len() == n,
                row@.len() == c,
                forall|cc: int| 0 <= cc < c ==> #[trigger] row@[cc] == expanded(b)[r as int][cc],
            decreases m - c,
        {
            let tile = board[r / 3][c / 3];
            proof {
                assert(is_tile_char(b[(r / 3) as int][(c / 3) as int]));
            }
            let pattern = convert_single_tile_to_3x3(&tile);
            row.push(pattern[r % 3][c % 3]);
            c += 1;
        }
        proof {
            assert(row@ =~= expanded(b)[r as int]);
        }
        big.push(row);
        r += 1;
    }
    proof {
        assert(cells_of(&big) =~= expanded(b));
    }
    big
}

} // verus!
