use vstd::prelude::*;

verus! {

/// A slide of the blank: the direction in which the blank moves.
#[derive(Clone, Copy, Debug, PartialEq, Eq, Structural)]
pub enum Move {
    Down,
    Right,
    Up,
    Left,
}

impl Move {
    pub open spec fn spec_reverse(self) -> Move {
        match self {
            Move::Down => Move::Up,
            Move::Right => Move::Left,
            Move::Up => Move::Down,
            Move::Left => Move::Right,
        }
    }

    /// The move that undoes this one.
    pub fn reverse(self) -> (r: Move)
        ensures
            r == self.spec_reverse(),
    {
        match self {
            Move::Down => Move::Up,
            Move::Right => Move::Left,
            Move::Up => Move::Down,
            Move::Left => Move::Right,
        }
    }

    pub open spec fn spec_letter(self) -> char {
        match self {
            Move::Down => 'D',
            Move::Right => 'R',
            Move::Up => 'U',
            Move::Left => 'L',
        }
    }

    /// The letter that writes this move in an answer.
    pub fn letter(self) -> (c: char)
        ensures
            c == self.spec_letter(),
    {
        match self {
            Move::Down => 'D',
            Move::Right => 'R',
            Move::Up => 'U',
            Move::Left => 'L',
        }
    }
}

/// Where the blank at `p` goes under `m` (row grows downwards).
pub open spec fn move_target(p: (int, int), m: Move) -> (int, int) {
    match m {
        Move::Down => (p.0 + 1, p.1),
        Move::Right => (p.0, p.1 + 1),
        Move::Up => (p.0 - 1, p.1),
        Move::Left => (p.0, p.1 - 1),
    }
}

pub open spec fn in_board(n: int, p: (int, int)) -> bool {
    0 <= p.0 < n && 0 <= p.1 < n
}

/// The last move of a sequence, if any.
pub open spec fn last_move(ops: Seq<Move>) -> Option<Move> {
    if ops.len() == 0 {
        None
    } else {
        Some(ops.last())
    }
}

/// `m` keeps the blank on the board and does not undo the previous move.
pub open spec fn is_legal(n: int, empty: (int, int), last: Option<Move>, m: Move) -> bool {
    &&& in_board(n, move_target(empty, m))
    &&& (last matches Some(l) ==> m != l.spec_reverse())
}

/// Where a sequence of moves takes the blank from `start`.
pub open spec fn walk_end(start: (int, int), ops: Seq<Move>) -> (int, int)
    decreases ops.len(),
{
    if ops.len() == 0 {
        start
    } else {
        move_target(walk_end(start, ops.drop_last()), ops.last())
    }
}

/// The legal moves at `empty`, in the order Down, Right, Up, Left.
pub open spec fn legal_moves(n: int, empty: (int, int), last: Option<Move>) -> Seq<Move> {
    seq![Move::Down, Move::Right, Move::Up, Move::Left].filter(|m: Move| is_legal(n, empty, last, m))
}

/// Every move of `ops`, played from `start`, is legal where it is played.
pub open spec fn is_legal_walk(n: int, start: (int, int), ops: Seq<Move>) -> bool
    decreases ops.len(),
{
    if ops.len() == 0 {
        true
    } else {
        is_legal_walk(n, start, ops.drop_last()) && is_legal(
            n,
            walk_end(start, ops.drop_last()),
            last_move(ops.drop_last()),
            ops.last(),
        )
    }
}

/// Where the blank at `empty` goes under `m`, if that stays on an `n` x `n` board.
pub fn target(empty: (usize, usize), m: Move, n: usize) -> (r: Option<(usize, usize)>)
    requires
        empty.0 < n,
        empty.1 < n,
    ensures
        r.is_some() == in_board(n as int, move_target((empty.0 as int, empty.1 as int), m)),
        r matches Some(t) ==> (t.0 as int, t.1 as int) == move_target(
            (empty.0 as int, empty.1 as int),
            m,
        ),
{
    match m {
        Move::Down => if empty.0 + 1 < n {
            Some((empty.0 + 1, empty.1))
        } else {
            None
        },
        Move::Right => if empty.1 + 1 < n {
            Some((empty.0, empty.1 + 1))
        } else {
            None
        },
        Move::Up => if empty.0 > 0 {
            Some((empty.0 - 1, empty.1))
        } else {
            None
        },
        Move::Left => if empty.1 > 0 {
            Some((empty.0, empty.1 - 1))
        } else {
            None
        },
    }
}

/// The moves that keep the blank on the board and do not undo the last move
/// of `operation_list`, each once.
pub fn get_legal_actions(operation_list: &Vec<Move>, empty: (usize, usize), n: usize) -> (actions: Vec<Move>)
    requires
        empty.0 < n,
        empty.1 < n,
    ensures
        forall|m: Move|
            actions@.contains(m) <==> is_legal(
                n as int,
                (empty.0 as int, empty.1 as int),
                last_move(operation_list@),
                m,
            ),
        actions@.no_duplicates(),
        actions@ == legal_moves(n as int, (empty.0 as int, empty.1 as int), last_move(operation_list@)),
{
    let last: Option<Move> = if operation_list.len() == 0 {
        None
    } else {
        Some(operation_list[operation_list.len() - 1])
    };
    let ghost e = (empty.0 as int, empty.1 as int);
    let ghost lm = last_move(operation_list@);
    let ghost p = |m: Move| is_legal(n as int, e, lm, m);
    let candidates: [Move; 4] = [Move::Down, Move::Right, Move::Up, Move::Left];
    let mut actions: Vec<Move> = Vec::new();
    proof {
        reveal(Seq::filter);
        assert(candidates@.subrange(0, 0).filter(p) =~= Seq::<Move>::empty());
    }
    let mut i: usize = 0;
    while i < 4
        invariant
            i <= 4,
            last == lm,
            e == (empty.0 as int, empty.1 as int),
            empty.0 < n,
            empty.1 < n,
            candidates@ == seq![Move::Down, Move::Right, Move::Up, Move::Left],
            forall|m: Move|
                actions@.contains(m) <==> (exists|j: int|
                    0 <= j < i && #[trigger] candidates@[j] == m && is_legal(n as int, e, lm, m)),
            actions@.no_duplicates(),
            p == (|m: Move| is_legal(n as int, e, lm, m)),
            actions@ == candidates@.subrange(0, i as int).filter(p),
        decreases 4 - i,
    {
        let m = candidates[i];
        let reverts = match last {
            Some(l) => m == l.reverse(),
            None => false,
        };
        let legal = !reverts && target(empty, m, n).is_some();
        proof {
            assert(legal == is_legal(n as int, e, lm, m));
        }
        let ghost old_actions = actions@;
        proof {
            assert(candidates@.subrange(0, i + 1).drop_last() =~= candidates@.subrange(0, i as int));
            assert(candidates@.subrange(0, i + 1).last() == m);
            assert(p(m) == legal);
        }
        if legal {
            proof {
                assert(!actions@.contains(m));
            }
            actions.push(m);
        }
        proof {
            reveal(Seq::filter);
            let ss = candidates@.subrange(0, i + 1);
            assert(ss.len() > 0);
            assert(ss.drop_last() == candidates@.subrange(0, i as int));
            assert(ss.filter(p) == (if p(ss.last()) {
                ss.drop_last().filter(p).push(ss.last())
            } else {
                ss.drop_last().filter(p)
            }));
            assert(old_actions == ss.drop_last().filter(p));
            assert(actions@ == ss.filter(p));
            assert forall|mm: Move|
                actions@.contains(mm) <==> (exists|j: int|
                    0 <= j < i + 1 && #[trigger] candidates@[j] == mm && is_legal(
                        n as int,
                        e,
                        lm,
                        mm,
                    )) by {
                if mm == m && is_legal(n as int, e, lm, mm) {
                    assert(candidates@[i as int] == mm);
                }
                if actions@.contains(mm) && !old_actions.contains(mm) {
                    assert(mm == m);
                    assert(candidates@[i as int] == mm);
                }
                if old_actions.contains(mm) {
                    let k = choose|k: int| 0 <= k < old_actions.len() && old_actions[k] == mm;
                    assert(actions@[k] == mm);
                }
                if exists|j: int|
                    0 <= j < i + 1 && #[trigger] candidates@[j] == mm && is_legal(n as int, e, lm, mm) {
                    let j = choose|j: int|
                        0 <= j < i + 1 && #[trigger] candidates@[j] == mm && is_legal(n as int, e, lm, mm);
                    if j == i {
                        assert(mm == m);
                        assert(actions@.last() == mm);
                    } else {
                        assert(old_actions.contains(mm));
                    }
                }
            }
        }
        i += 1;
    }
    proof {
        assert(candidates@.subrange(0, 4) =~= seq![Move::Down, Move::Right, Move::Up, Move::Left]);
        assert forall|m: Move| is_legal(n as int, e, lm, m) implies actions@.contains(m) by {
            match m {
                Move::Down => assert(candidates@[0] == m),
                Move::Right => assert(candidates@[1] == m),
                Move::Up => assert(candidates@[2] == m),
                Move::Left => assert(candidates@[3] == m),
            }
        }
    }
    actions
}

} // verus!
