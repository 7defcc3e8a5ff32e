use vstd::prelude::*;
use crate::sums::{grid_sum, row_sum, lemma_grid_sum_bump, lemma_grid_sum_bounds, lemma_grid_sum_mono, lemma_grid_sum_double};

verus! {

/// The walkability view of a big board: `cells_of(b)[r][c]` is `true` when the
/// cell in row `r`, column `c` is open.
pub open spec fn cells_of(b: &Vec<Vec<bool>>) -> Seq<Seq<bool>> {
    Seq::new(b@.len(), |r: int| b@[r]@)
}

/// Every row is as long as there are rows.
pub open spec fn is_square(g: Seq<Seq<bool>>) -> bool {
    forall|r: int| 0 <= r < g.len() ==> (#[trigger] g[r]).len() == g.len()
}

/// Counts of up to four per cell still fit in a `usize`.
pub open spec fn fits(g: Seq<Seq<bool>>) -> bool {
    4 * g.len() * g.len() <= usize::MAX
}

pub open spec fn in_grid(g: Seq<Seq<bool>>, p: (int, int)) -> bool {
    0 <= p.0 < g.len() && 0 <= p.1 < g.len()
}

pub open spec fn is_open(g: Seq<Seq<bool>>, p: (int, int)) -> bool {
    in_grid(g, p) && g[p.0][p.1]
}

/// The cell next to `p` in direction `d`: 0 down, 1 right, 2 up, 3 left.
pub open spec fn neighbor(p: (int, int), d: int) -> (int, int) {
    if d == 0 {
        (p.0 + 1, p.1)
    } else if d == 1 {
        (p.0, p.1 + 1)
    } else if d == 2 {
        (p.0 - 1, p.1)
    } else {
        (p.0, p.1 - 1)
    }
}

pub open spec fn adjacent(p: (int, int), q: (int, int)) -> bool {
    q == neighbor(p, 0) || q == neighbor(p, 1) || q == neighbor(p, 2) || q == neighbor(p, 3)
}

/// One move of a walk: into an adjacent open cell.
pub open spec fn step(g: Seq<Seq<bool>>, p: (int, int), q: (int, int)) -> bool {
    adjacent(p, q) && is_open(g, q)
}

pub open spec fn walk_link(g: Seq<Seq<bool>>, w: Seq<(int, int)>, i: int) -> bool {
    step(g, w[i], w[i + 1])
}

/// A non-empty sequence of cells, each one step from the one before.
pub open spec fn is_walk(g: Seq<Seq<bool>>, w: Seq<(int, int)>) -> bool {
    w.len() >= 1 && forall|i: int| 0 <= i < w.len() - 1 ==> #[trigger] walk_link(g, w, i)
}

/// `c` can be reached from `s` through open cells.
pub open spec fn reachable(g: Seq<Seq<bool>>, s: (int, int), c: (int, int)) -> bool {
    exists|w: Seq<(int, int)>| #[trigger] is_walk(g, w) && w[0] == s && w.last() == c
}

/// The centre cell of a tile block.
pub open spec fn is_tile_center(p: (int, int)) -> bool {
    p.0 % 3 == 1 && p.1 % 3 == 1
}

/// One for each cell that counts towards the tree size from `s`.
pub open spec fn tree_weight(g: Seq<Seq<bool>>, s: (int, int)) -> spec_fn(int, int) -> int {
    |r: int, c: int|
        if reachable(g, s, (r, c)) && ((r, c) == s || is_tile_center((r, c))) {
            1int
        } else {
            0int
        }
}

/// Tree size from `s`: the tile centres reachable from `s`, `s` itself included.
pub open spec fn tree_size_of(g: Seq<Seq<bool>>, s: (int, int)) -> int {
    grid_sum(tree_weight(g, s), g.len() as int, g.len() as int)
}

pub open spec fn marks(v: Seq<Seq<bool>>) -> spec_fn(int, int) -> int {
    |r: int, c: int|
        if v[r][c] {
            1int
        } else {
            0int
        }
}

pub open spec fn reach_count(g: Seq<Seq<bool>>, s: (int, int), q: (int, int)) -> int {
    if in_grid(g, q) && reachable(g, s, q) {
        1
    } else {
        0
    }
}

/// One for each cell of the component of `s`.
pub open spec fn vertex_weight(g: Seq<Seq<bool>>, s: (int, int)) -> spec_fn(int, int) -> int {
    |r: int, c: int|
        if reachable(g, s, (r, c)) {
            1int
        } else {
            0int
        }
}

/// How many of the four neighbours of `p` lie in the component of `s`.
pub open spec fn component_degree(g: Seq<Seq<bool>>, s: (int, int), p: (int, int)) -> int {
    reach_count(g, s, neighbor(p, 0)) + reach_count(g, s, neighbor(p, 1)) + reach_count(
        g,
        s,
        neighbor(p, 2),
    ) + reach_count(g, s, neighbor(p, 3))
}

/// For each cell of the component of `s`, its neighbours in the component.
pub open spec fn edge_weight(g: Seq<Seq<bool>>, s: (int, int)) -> spec_fn(int, int) -> int {
    |r: int, c: int|
        if reachable(g, s, (r, c)) {
            component_degree(g, s, (r, c))
        } else {
            0int
        }
}

/// Number of cells in the component of `s`.
pub open spec fn component_vertices(g: Seq<Seq<bool>>, s: (int, int)) -> int {
    grid_sum(vertex_weight(g, s), g.len() as int, g.len() as int)
}

/// Twice the number of edges between adjacent cells of the component of `s`.
pub open spec fn component_edge_ends(g: Seq<Seq<bool>>, s: (int, int)) -> int {
    grid_sum(edge_weight(g, s), g.len() as int, g.len() as int)
}

/// The component of `s` holds a cycle. A connected graph is a tree exactly
/// when it has one edge fewer than vertices, so it holds a cycle exactly
/// when its edges are at least as many as its vertices.
pub open spec fn component_has_cycle(g: Seq<Seq<bool>>, s: (int, int)) -> bool {
    component_edge_ends(g, s) >= 2 * component_vertices(g, s)
}

/// The cell next to (r, c) in direction `d`, if it lies on an `m` x `m` grid.
pub fn neighbor_at(m: usize, r: usize, c: usize, d: usize) -> (res: Option<(usize, usize)>)
    requires
        r < m,
        c < m,
        d < 4,
    ensures
        ({
            let q = neighbor((r as int, c as int), d as int);
            &&& res.is_some() <==> (0 <= q.0 < m && 0 <= q.1 < m)
            &&& res.is_some() ==> res.unwrap().0 as int == q.0 && res.unwrap().1 as int == q.1
        }),
{
    if d == 0 {
        if r + 1 < m {
            Some((r + 1, c))
        } else {
            None
        }
    } else if d == 1 {
        if c + 1 < m {
            Some((r, c + 1))
        } else {
            None
        }
    } else if d == 2 {
        if r > 0 {
            Some((r - 1, c))
        } else {
            None
        }
    } else {
        if c > 0 {
            Some((r, c - 1))
        } else {
            None
        }
    }
}

/// An `m` x `m` grid of walls.
pub fn new_grid(m: usize) -> (v: Vec<Vec<bool>>)
    ensures
        v@.len() == m,
        forall|r: int| 0 <= r < m ==> (#[trigger] v@[r])@.len() == m,
        forall|r: int, c: int| 0 <= r < m && 0 <= c < m ==> !v@[r]@[c],
{
    let mut v: Vec<Vec<bool>> = Vec::new();
    let mut i: usize = 0;
    while i < m
        invariant
            i <= m,
            v@.len() == i,
            forall|r: int| 0 <= r < i ==> (#[trigger] v@[r])@.len() == m,
            forall|r: int, c: int| 0 <= r < i && 0 <= c < m ==> !v@[r]@[c],
        decreases m - i,
    {
        let mut row: Vec<bool> = Vec::new();
        let mut j: usize = 0;
        while j < m
            invariant
                j <= m,
                row@.len() == j,
                forall|c: int| 0 <= c < j ==> !row@[c],
            decreases m - j,
        {
            row.push(false);
            j += 1;
        }
        v.push(row);
        i += 1;
    }
    v
}

/// Breadth-first search from (x, y): marks exactly the cells reachable from it.
pub fn reached_cells(big_board: &Vec<Vec<bool>>, x: usize, y: usize) -> (visited: Vec<Vec<bool>>)
    requires
        is_square(cells_of(big_board)),
        fits(cells_of(big_board)),
        x < big_board@.len(),
        y < big_board@.len(),
    ensures
        visited@.len() == big_board@.len(),
        forall|r: int| 0 <= r < visited@.len() ==> (#[trigger] visited@[r])@.len() == visited@.len(),
        forall|r: int, c: int|
            0 <= r < visited@.len() && 0 <= c < visited@.len() ==> visited@[r]@[c] == reachable(
                cells_of(big_board),
                (x as int, y as int),
                (r, c),
            ),
{
    let ghost g = cells_of(big_board);
    let ghost s = (x as int, y as int);
    let m = big_board.len();
    let mut visited = new_grid(m);
    let mut queue: Vec<(usize, usize)> = Vec::new();
    let ghost before = cells_of(&visited);
    visited[x][y] = true;
    queue.push((x, y));
    proof {
        let after = cells_of(&visited);
        assert(grid_sum(marks(before), m as int, m as int) == 0) by {
            lemma_grid_sum_bounds(marks(before), m as int, m as int, 0);
            assert(0 * m * m == 0) by (nonlinear_arith);
        }
        lemma_grid_sum_bump(marks(before), marks(after), m as int, m as int, x as int, y as int);
        assert(reachable(g, s, s)) by {
            let w = seq![s];
            assert(is_walk(g, w));
            assert(w.last() == s);
        }
        assert(queue@[0] == (x, y));
    }
    let mut head: usize = 0;
    while head < queue.len()
        invariant
            g == cells_of(big_board),
            s == (x as int, y as int),
            m == big_board@.len(),
            is_square(g),
            fits(g),
            x < m,
            y < m,
            visited@.len() == m,
            forall|r: int| 0 <= r < m ==> (#[trigger] visited@[r])@.len() == m,
            visited@[x as int]@[y as int],
            head <= queue@.len(),
            forall|i: int|
                0 <= i < queue@.len() ==> (#[trigger] queue@[i]).0 < m && queue@[i].1 < m
                    && visited@[queue@[i].0 as int]@[queue@[i].1 as int],
            forall|r: int, c: int|
                0 <= r < m && 0 <= c < m && #[trigger] visited@[r]@[c] ==> exists|i: int|
                    0 <= i < queue@.len() && #[trigger] queue@[i] == (r as usize, c as usize),
            forall|r: int, c: int|
                0 <= r < m && 0 <= c < m && #[trigger] visited@[r]@[c] ==> reachable(g, s, (r, c)),
            forall|i: int, d: int|
                0 <= i < head && 0 <= d < 4 && is_open(
                    g,
                    #[trigger] neighbor((queue@[i].0 as int, queue@[i].1 as int), d),
                ) ==> visited@[neighbor((queue@[i].0 as int, queue@[i].1 as int), d).0]@[neighbor(
                    (queue@[i].0 as int, queue@[i].1 as int),
                    d,
                ).1],
            queue@.len() == grid_sum(marks(cells_of(&visited)), m as int, m as int),
        decreases m * m - head,
    {
        proof {
            lemma_grid_sum_bounds(marks(cells_of(&visited)), m as int, m as int, 1);
            assert(1 * m * m == m * m) by (nonlinear_arith);
        }
        let (fr, fc) = queue[head];
        let ghost p = (fr as int, fc as int);
        let mut d: usize = 0;
        while d < 4
            invariant
                g == cells_of(big_board),
                s == (x as int, y as int),
                m == big_board@.len(),
                is_square(g),
                fits(g),
                x < m,
                y < m,
                visited@.len() == m,
                forall|r: int| 0 <= r < m ==> (#[trigger] visited@[r])@.len() == m,
                visited@[x as int]@[y as int],
                head < queue@.len(),
                d <= 4,
                fr < m,
                fc < m,
                p == (fr as int, fc as int),
                queue@[head as int] == (fr, fc),
                forall|i: int|
                    0 <= i < queue@.len() ==> (#[trigger] queue@[i]).0 < m && queue@[i].1 < m
                        && visited@[queue@[i].0 as int]@[queue@[i].1 as int],
                forall|r: int, c: int|
                    0 <= r < m && 0 <= c < m && #[trigger] visited@[r]@[c] ==> exists|i: int|
                        0 <= i < queue@.len() && #[trigger] queue@[i] == (r as usize, c as usize),
                forall|r: int, c: int|
                    0 <= r < m && 0 <= c < m && #[trigger] visited@[r]@[c] ==> reachable(
                        g,
                        s,
                        (r, c),
                    ),
                forall|i: int, dd: int|
                    0 <= i < head && 0 <= dd < 4 && is_open(
                        g,
                        #[trigger] neighbor((queue@[i].0 as int, queue@[i].1 as int), dd),
                    ) ==> visited@[neighbor((queue@[i].0 as int, queue@[i].1 as int), dd).0]@[neighbor(
                        (queue@[i].0 as int, queue@[i].1 as int),
                        dd,
                    ).1],
                forall|dd: int|
                    0 <= dd < d && is_open(g, #[trigger] neighbor(p, dd)) ==> visited@[neighbor(
                        p,
                        dd,
                    ).0]@[neighbor(p, dd).1],
                queue@.len() == grid_sum(marks(cells_of(&visited)), m as int, m as int),
            decreases 4 - d,
        {
            match neighbor_at(m, fr, fc, d) {
                Some((tr, tc)) => {
                    proof {
                        assert(g[tr as int] == big_board@[tr as int]@);
                    }
                    if big_board[tr][tc] && !visited[tr][tc] {
                        let ghost before = cells_of(&visited);
                        let ghost old_queue = queue@;
                        proof {
                            lemma_grid_sum_bounds(marks(before), m as int, m as int, 1);
                            assert(1 * m * m == m * m) by (nonlinear_arith);
                            assert(visited@[fr as int]@[fc as int]);
                            assert(reachable(g, s, p));
                            let w = choose|w: Seq<(int, int)>|
                                #[trigger] is_walk(g, w) && w[0] == s && w.last() == p;
                            assert(step(g, p, (tr as int, tc as int)));
                            lemma_walk_push(g, w, (tr as int, tc as int));
                            assert(reachable(g, s, (tr as int, tc as int)));
                        }
                        visited[tr][tc] = true;
                        queue.push((tr, tc));
                        proof {
                            let after = cells_of(&visited);
                            assert(forall|r: int, c: int|
                                0 <= r < m && 0 <= c < m && (r != tr || c != tc) ==> #[trigger] after[r][c]
                                    == before[r][c]);
                            lemma_grid_sum_bump(
                                marks(before),
                                marks(after),
                                m as int,
                                m as int,
                                tr as int,
                                tc as int,
                            );
                            assert(queue@[old_queue.len() as int] == (tr, tc));
                            assert forall|r: int, c: int|
                                0 <= r < m && 0 <= c < m && #[trigger] visited@[r]@[c] implies exists|i: int|
                                    0 <= i < queue@.len() && #[trigger] queue@[i] == (
                                        r as usize,
                                        c as usize,
                                    ) by {
                                if r == tr && c == tc {
                                    assert(queue@[old_queue.len() as int] == (r as usize, c as usize));
                                } else {
                                    assert(before[r][c]);
                                    let i = choose|i: int|
                                        0 <= i < old_queue.len() && #[trigger] old_queue[i] == (
                                            r as usize,
                                            c as usize,
                                        );
                                    assert(queue@[i] == (r as usize, c as usize));
                                }
                            }
                        }
                    }
                },
                None => {},
            }
            d += 1;
        }
        head += 1;
    }
    proof {
        let vis = cells_of(&visited);
        assert forall|r: int, c: int, d: int|
            0 <= r < g.len() && 0 <= c < g.len() && 0 <= d < 4 && #[trigger] vis[r][c] && is_open(
                g,
                #[trigger] neighbor((r, c), d),
            ) implies vis[neighbor((r, c), d).0][neighbor((r, c), d).1] by {
            assert(visited@[r]@[c]);
            let i = choose|i: int| 0 <= i < queue@.len() && #[trigger] queue@[i] == (r as usize, c as usize);
            assert(neighbor((queue@[i].0 as int, queue@[i].1 as int), d) == neighbor((r, c), d));
        }
        assert forall|r: int, c: int|
            0 <= r < m && 0 <= c < m && reachable(g, s, (r, c)) implies visited@[r]@[c] by {
            let w = choose|w: Seq<(int, int)>| #[trigger] is_walk(g, w) && w[0] == s && w.last() == (r, c);
            assert(vis[x as int][y as int]);
            lemma_closed_walk(g, vis, w);
        }
    }
    visited
}

/// Tree size from (x, y): the number of tile centres reachable from it through
/// open cells, the start itself included.
pub fn compute_tree_size_by_bfs(x: usize, y: usize, n: usize, big_board: &Vec<Vec<bool>>) -> (size: usize)
    requires
        big_board@.len() == 3 * n,
        is_square(cells_of(big_board)),
        fits(cells_of(big_board)),
        x < 3 * n,
        y < 3 * n,
    ensures
        size == tree_size_of(cells_of(big_board), (x as int, y as int)),
{
    let ghost g = cells_of(big_board);
    let ghost s = (x as int, y as int);
    let ghost w = tree_weight(g, s);
    let visited = reached_cells(big_board, x, y);
    let m = big_board.len();
    let mut count: usize = 0;
    let mut r: usize = 0;
    while r < m
        invariant
            m == big_board@.len(),
            g == cells_of(big_board),
            w == tree_weight(g, s),
            s == (x as int, y as int),
            fits(g),
            r <= m,
            visited@.len() == m,
            forall|i: int| 0 <= i < m ==> (#[trigger] visited@[i])@.len() == m,
            forall|i: int, j: int|
                0 <= i < m && 0 <= j < m ==> visited@[i]@[j] == reachable(g, s, (i, j)),
            count == grid_sum(w, r as int, m as int),
            count <= r * m,
        decreases m - r,
    {
        let mut c: usize = 0;
        while c < m
            invariant
                m == big_board@.len(),
                g == cells_of(big_board),
                w == tree_weight(g, s),
                s == (x as int, y as int),
                fits(g),
                r < m,
                c <= m,
                visited@.len() == m,
                forall|i: int| 0 <= i < m ==> (#[trigger] visited@[i])@.len() == m,
                forall|i: int, j: int|
                    0 <= i < m && 0 <= j < m ==> visited@[i]@[j] == reachable(g, s, (i, j)),
                count == grid_sum(w, r as int, m as int) + row_sum(w, r as int, c as int),
                count <= r * m + c,
            decreases m - c,
        {
            proof {
                assert(r * m + c + 1 <= m * m) by (nonlinear_arith)
                    requires
                        r < m,
                        c < m,
                ;
                assert(4 * m * m == 4 * (m * m)) by (nonlinear_arith);
            }
            if visited[r][c] && ((r == x && c == y) || (r % 3 == 1 && c % 3 == 1)) {
                count += 1;
            }
            c += 1;
        }
        proof {
            assert(r * m + m == (r + 1) * m) by (nonlinear_arith);
        }
        r += 1;
    }
    count
}

/// Whether the neighbour of (r, c) in direction `d` lies on the grid and is marked.
fn marked_neighbor(visited: &Vec<Vec<bool>>, m: usize, r: usize, c: usize, d: usize) -> (b: bool)
    requires
        visited@.len() == m,
        forall|i: int| 0 <= i < m ==> (#[trigger] visited@[i])@.len() == m,
        r < m,
        c < m,
        d < 4,
    ensures
        ({
            let q = neighbor((r as int, c as int), d as int);
            b == (0 <= q.0 < m && 0 <= q.1 < m && visited@[q.0]@[q.1])
        }),
{
    match neighbor_at(m, r, c, d) {
        Some((i, j)) => visited[i][j],
        None => false,
    }
}

/// Whether the open component around (x, y) holds a cycle: whether it has at
/// least as many edges between adjacent cells as it has cells.
pub fn detect_loop(x: usize, y: usize, n: usize, big_board: &Vec<Vec<bool>>) -> (has_loop: bool)
    requires
        big_board@.len() == 3 * n,
        is_square(cells_of(big_board)),
        fits(cells_of(big_board)),
        x < 3 * n,
        y < 3 * n,
    ensures
        has_loop == component_has_cycle(cells_of(big_board), (x as int, y as int)),
{
    let ghost g = cells_of(big_board);
    let ghost s = (x as int, y as int);
    let ghost wv = vertex_weight(g, s);
    let ghost we = edge_weight(g, s);
    let visited = reached_cells(big_board, x, y);
    let m = big_board.len();
    let mut vertices: usize = 0;
    let mut ends: usize = 0;
    let mut r: usize = 0;
    while r < m
        invariant
            m == big_board@.len(),
            g == cells_of(big_board),
            wv == vertex_weight(g, s),
            we == edge_weight(g, s),
            s == (x as int, y as int),
            fits(g),
            r <= m,
            visited@.len() == m,
            forall|i: int| 0 <= i < m ==> (#[trigger] visited@[i])@.len() == m,
            forall|i: int, j: int|
                0 <= i < m && 0 <= j < m ==> visited@[i]@[j] == reachable(g, s, (i, j)),
            vertices == grid_sum(wv, r as int, m as int),
            ends == grid_sum(we, r as int, m as int),
            vertices <= r * m,
            ends <= 4 * (r * m),
        decreases m - r,
    {
        let mut c: usize = 0;
        while c < m
            invariant
                m == big_board@.len(),
                g == cells_of(big_board),
                wv == vertex_weight(g, s),
                we == edge_weight(g, s),
                s == (x as int, y as int),
                fits(g),
                r < m,
                c <= m,
                visited@.len() == m,
                forall|i: int| 0 <= i < m ==> (#[trigger] visited@[i])@.len() == m,
                forall|i: int, j: int|
                    0 <= i < m && 0 <= j < m ==> visited@[i]@[j] == reachable(g, s, (i, j)),
                vertices == grid_sum(wv, r as int, m as int) + row_sum(wv, r as int, c as int),
                ends == grid_sum(we, r as int, m as int) + row_sum(we, r as int, c as int),
                vertices <= r * m + c,
                ends <= 4 * (r * m + c),
            decreases m - c,
        {
            proof {
                assert(r * m + c + 1 <= m * m) by (nonlinear_arith)
                    requires
                        r < m,
                        c < m,
                ;
                assert(4 * m * m == 4 * (m * m)) by (nonlinear_arith);
            }
            if visited[r][c] {
                vertices += 1;
                let d0: usize = if marked_neighbor(&visited, m, r, c, 0) { 1 } else { 0 };
                let d1: usize = if marked_neighbor(&visited, m, r, c, 1) { 1 } else { 0 };
                let d2: usize = if marked_neighbor(&visited, m, r, c, 2) { 1 } else { 0 };
                let d3: usize = if marked_neighbor(&visited, m, r, c, 3) { 1 } else { 0 };
                ends += d0 + d1 + d2 + d3;
            }
            c += 1;
        }
        proof {
            assert(r * m + m == (r + 1) * m) by (nonlinear_arith);
        }
        r += 1;
    }
    proof {
        assert(4 * m * m == 4 * (m * m)) by (nonlinear_arith);
        assert(m * m == 0 * m + m * m) by (nonlinear_arith);
    }
    ends >= 2 * vertices
}

/// From a cell with no open neighbour, only the cell itself is reachable.
pub proof fn lemma_isolated_reach(g: Seq<Seq<bool>>, s: (int, int))
    requires
        forall|d: int| 0 <= d < 4 ==> !is_open(g, #[trigger] neighbor(s, d)),
    ensures
        forall|c: (int, int)| #[trigger] reachable(g, s, c) <==> c == s,
{
    assert forall|c: (int, int)| reachable(g, s, c) implies c == s by {
        let w = choose|w: Seq<(int, int)>| #[trigger] is_walk(g, w) && w[0] == s && w.last() == c;
        if w.len() > 1 {
            assert(walk_link(g, w, 0));
            assert(!is_open(g, neighbor(s, 0)));
            assert(!is_open(g, neighbor(s, 1)));
            assert(!is_open(g, neighbor(s, 2)));
            assert(!is_open(g, neighbor(s, 3)));
        }
    }
    assert(reachable(g, s, s)) by {
        let w = seq![s];
        assert(is_walk(g, w));
        assert(w.last() == s);
    }
}

/// A tile centre with no open neighbour has tree size one: only itself.
pub proof fn lemma_isolated_tree_size(g: Seq<Seq<bool>>, s: (int, int))
    requires
        is_square(g),
        in_grid(g, s),
        forall|d: int| 0 <= d < 4 ==> !is_open(g, #[trigger] neighbor(s, d)),
    ensures
        tree_size_of(g, s) == 1,
{
    let m = g.len() as int;
    lemma_isolated_reach(g, s);
    let zero = |r: int, c: int| 0int;
    lemma_grid_sum_bounds(zero, m, m, 0);
    assert(0 * m * m == 0) by (nonlinear_arith);
    lemma_grid_sum_bump(zero, tree_weight(g, s), m, m, s.0, s.1);
}

/// The tree size is a function of the board and the start alone: two
/// evaluations of equal boards from one start agree, whatever order the
/// search visits cells in.
pub proof fn lemma_tree_size_deterministic(b1: &Vec<Vec<bool>>, b2: &Vec<Vec<bool>>, x: usize, y: usize)
    requires
        cells_of(b1) == cells_of(b2),
    ensures
        tree_size_of(cells_of(b1), (x as int, y as int)) == tree_size_of(
            cells_of(b2),
            (x as int, y as int),
        ),
{
}

/// A cell with no open neighbour forms a component of one cell and no
/// edge, which holds no cycle.
pub proof fn lemma_isolated_no_cycle(g: Seq<Seq<bool>>, s: (int, int))
    requires
        is_square(g),
        in_grid(g, s),
        forall|d: int| 0 <= d < 4 ==> !is_open(g, #[trigger] neighbor(s, d)),
    ensures
        component_vertices(g, s) == 1,
        component_edge_ends(g, s) == 0,
        !component_has_cycle(g, s),
{
    let m = g.len() as int;
    lemma_isolated_reach(g, s);
    let zero = |r: int, c: int| 0int;
    lemma_grid_sum_bounds(zero, m, m, 0);
    assert(0 * m * m == 0) by (nonlinear_arith);
    lemma_grid_sum_bump(zero, vertex_weight(g, s), m, m, s.0, s.1);
    assert forall|r: int, c: int| 0 <= r < m && 0 <= c < m implies #[trigger] edge_weight(g, s)(r, c)
        == 0 by {
        if (r, c) == s {
            assert(neighbor(s, 0) != s && neighbor(s, 1) != s);
            assert(neighbor(s, 2) != s && neighbor(s, 3) != s);
        }
    }
    lemma_grid_sum_bounds(edge_weight(g, s), m, m, 0);
}

/// A component in which every cell has at most two neighbours in the
/// component, and some cell `e` at most one, is a simple path: it holds no
/// cycle.
pub proof fn lemma_path_no_cycle(g: Seq<Seq<bool>>, s: (int, int), e: (int, int))
    requires
        is_square(g),
        in_grid(g, s),
        forall|r: int, c: int|
            0 <= r < g.len() && 0 <= c < g.len() && reachable(g, s, (r, c)) ==> #[trigger] component_degree(
                g,
                s,
                (r, c),
            ) <= 2,
        in_grid(g, e),
        reachable(g, s, e),
        component_degree(g, s, e) <= 1,
    ensures
        !component_has_cycle(g, s),
{
    let m = g.len() as int;
    let wv = vertex_weight(g, s);
    let twice = |r: int, c: int| 2 * wv(r, c);
    assert forall|r: int, c: int| 0 <= r < m && 0 <= c < m implies edge_weight(g, s)(r, c) <= #[trigger] twice(
        r,
        c,
    ) by {
        if reachable(g, s, (r, c)) {
            assert(component_degree(g, s, (r, c)) <= 2);
        }
    }
    lemma_grid_sum_mono(edge_weight(g, s), twice, m, m, e.0, e.1);
    lemma_grid_sum_double(wv, twice, m, m);
}

/// A walk that starts in a set closed under steps stays in it.
pub proof fn lemma_closed_walk(g: Seq<Seq<bool>>, vis: Seq<Seq<bool>>, w: Seq<(int, int)>)
    requires
        is_walk(g, w),
        in_grid(g, w[0]),
        vis[w[0].0][w[0].1],
        forall|r: int, c: int, d: int|
            0 <= r < g.len() && 0 <= c < g.len() && 0 <= d < 4 && #[trigger] vis[r][c]
                && is_open(g, #[trigger] neighbor((r, c), d)) ==> vis[neighbor((r, c), d).0][neighbor(
                (r, c),
                d,
            ).1],
    ensures
        in_grid(g, w.last()),
        vis[w.last().0][w.last().1],
    decreases w.len(),
{
    if w.len() > 1 {
        let v = w.drop_last();
        assert forall|i: int| 0 <= i < v.len() - 1 implies #[trigger] walk_link(g, v, i) by {
            assert(walk_link(g, w, i));
        }
        lemma_closed_walk(g, vis, v);
        let p = v.last();
        let q = w.last();
        assert(walk_link(g, w, w.len() - 2));
        assert(p == w[w.len() - 2]);
        if q == neighbor(p, 0) {
            assert(vis[neighbor((p.0, p.1), 0).0][neighbor((p.0, p.1), 0).1]);
        } else if q == neighbor(p, 1) {
            assert(vis[neighbor((p.0, p.1), 1).0][neighbor((p.0, p.1), 1).1]);
        } else if q == neighbor(p, 2) {
            assert(vis[neighbor((p.0, p.1), 2).0][neighbor((p.0, p.1), 2).1]);
        } else {
            assert(vis[neighbor((p.0, p.1), 3).0][neighbor((p.0, p.1), 3).1]);
        }
    }
}

/// A walk extended by one step is a walk.
pub proof fn lemma_walk_push(g: Seq<Seq<bool>>, w: Seq<(int, int)>, q: (int, int))
    requires
        is_walk(g, w),
        step(g, w.last(), q),
    ensures
        is_walk(g, w.push(q)),
        w.push(q)[0] == w[0],
        w.push(q).last() == q,
{
    let v = w.push(q);
    assert forall|i: int| 0 <= i < v.len() - 1 implies #[trigger] walk_link(g, v, i) by {
        if i < w.len() - 1 {
            assert(walk_link(g, w, i));
        }
    }
}

} // verus!
