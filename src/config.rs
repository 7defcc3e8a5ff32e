use vstd::prelude::*;

verus! {

/// Tuning of the searches for one board size.
#[derive(Clone, Copy, Debug, PartialEq, Eq, Structural)]
pub struct SearchConfig {
    /// Sweeps of the chokudai search.
    pub beam_number: usize,
    /// Deepest level of the chokudai search, a fraction of the move budget.
    pub beam_depth: usize,
    /// Restarts of the hill climbing.
    pub epoch: usize,
    /// States expanded per depth and sweep of the chokudai search.
    pub beam_width: usize,
}

/// Sweeps of the chokudai search for board size `n`.
pub open spec fn spec_beam_number(n: int) -> int {
    if n == 6 {
        200
    } else if n == 7 {
        150
    } else if n == 8 {
        100
    } else if n == 9 {
        50
    } else {
        30
    }
}

/// Tenths of the move budget that the chokudai search may go deep.
pub open spec fn spec_depth_tenths(n: int) -> int {
    if n == 6 {
        10
    } else if n == 7 {
        9
    } else if n == 8 {
        8
    } else {
        7
    }
}

/// Restarts of the hill climbing for board size `n`.
pub open spec fn spec_epoch(n: int) -> int {
    if n == 6 {
        500
    } else if n == 7 {
        400
    } else if n == 8 {
        300
    } else if n == 9 {
        200
    } else {
        100
    }
}

/// The tuning for an `n` x `n` board with a budget of `t` moves; boards of
/// sizes 6 to 10 are tuned, others are not.
pub fn search_config(n: usize, t: usize) -> (r: Option<SearchConfig>)
    ensures
        r.is_some() == (6 <= n <= 10),
        r matches Some(c) ==> {
            &&& c.beam_number == spec_beam_number(n as int)
            &&& c.beam_depth == t * spec_depth_tenths(n as int) / 10
            &&& c.epoch == spec_epoch(n as int)
            &&& c.beam_width == 1
        },
{
    if n < 6 || n > 10 {
        return None;
    }
    let (beam_number, tenths, epoch): (usize, u128, usize) = if n == 6 {
        (200, 10, 500)
    } else if n == 7 {
        (150, 9, 400)
    } else if n == 8 {
        (100, 8, 300)
    } else if n == 9 {
        (50, 7, 200)
    } else {
        (30, 7, 100)
    };
    let wide = t as u128;
    proof {
        assert(wide * tenths <= wide * 10) by (nonlinear_arith)
            requires
                tenths <= 10,
        ;
        assert(wide * tenths / 10 <= wide) by (nonlinear_arith)
            requires
                tenths <= 10,
                wide * tenths <= wide * 10,
        ;
    }
    let depth = (wide * tenths / 10) as usize;
    Some(SearchConfig { beam_number, beam_depth: depth, epoch, beam_width: 1 })
}

} // verus!
