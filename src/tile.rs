use vstd::prelude::*;

verus! {

/// Bit of a tile code that opens the tile to the left.
pub const LEFT_BIT: u8 = 1;

/// Bit of a tile code that opens the tile upwards.
pub const UP_BIT: u8 = 2;

/// Bit of a tile code that opens the tile to the right.
pub const RIGHT_BIT: u8 = 4;

/// Bit of a tile code that opens the tile downwards.
pub const DOWN_BIT: u8 = 8;

/// The character written for a tile code: `0`-`9` then `a`-`f`.
pub open spec fn is_tile_char(c: char) -> bool {
    ('0' <= c && c <= '9') || ('a' <= c && c <= 'f')
}

/// The 4-bit code that a tile character stands for.
pub open spec fn spec_tile_code(c: char) -> int {
    if '0' <= c && c <= '9' {
        (c as int) - ('0' as int)
    } else {
        (c as int) - ('a' as int) + 10
    }
}

/// Whether cell (k, l) of the 3x3 pattern of tile `code` is open.
/// Corners are always walls; the centre is open unless the tile is blank;
/// each edge midpoint is open exactly when its direction bit is set.
pub open spec fn tile_cell_open(code: u8, k: int, l: int) -> bool {
    if k == 1 && l == 1 {
        code != 0
    } else if k == 0 && l == 1 {
        code & UP_BIT != 0
    } else if k == 1 && l == 0 {
        code & LEFT_BIT != 0
    } else if k == 1 && l == 2 {
        code & RIGHT_BIT != 0
    } else if k == 2 && l == 1 {
        code & DOWN_BIT != 0
    } else {
        false
    }
}

/// Decodes a tile character; `None` for a character outside the alphabet.
pub fn tile_code(c: char) -> (r: Option<u8>)
    ensures
        r.is_some() == is_tile_char(c),
        r.is_some() ==> r.unwrap() as int == spec_tile_code(c) && r.unwrap() < 16,
{
    if '0' <= c && c <= '9' {
        Some(((c as u32) - ('0' as u32)) as u8)
    } else if 'a' <= c && c <= 'f' {
        Some(((c as u32) - ('a' as u32) + 10) as u8)
    } else {
        None
    }
}

/// Whether cell (k, l) of the pattern of tile `code` is open.
pub fn tile_cell(code: u8, k: usize, l: usize) -> (r: bool)
    requires
        k < 3,
        l < 3,
    ensures
        r == tile_cell_open(code, k as int, l as int),
{
    if k == 1 && l == 1 {
        code != 0
    } else if k == 0 && l == 1 {
        code & UP_BIT != 0
    } else if k == 1 && l == 0 {
        code & LEFT_BIT != 0
    } else if k == 1 && l == 2 {
        code & RIGHT_BIT != 0
    } else if k == 2 && l == 1 {
        code & DOWN_BIT != 0
    } else {
        false
    }
}

/// Expands a tile character into its 3x3 walkability pattern (`true` = open).
pub fn convert_single_tile_to_3x3(tile: &char) -> (r: Vec<Vec<bool>>)
    requires
        is_tile_char(*tile),
    ensures
        r@.len() == 3,
        forall|k: int| 0 <= k < 3 ==> (#[trigger] r@[k])@.len() == 3,
        forall|k: int, l: int|
            0 <= k < 3 && 0 <= l < 3 ==> r@[k]@[l] == tile_cell_open(
                spec_tile_code(*tile) as u8,
                k,
                l,
            ),
{
    let code = match tile_code(*tile) {
        Some(c) => c,
        None => 0,
    };
    let mut pattern: Vec<Vec<bool>> = Vec::new();
    let mut k: usize = 0;
    while k < 3
        invariant
            k <= 3,
            code as int == spec_tile_code(*tile),
            pattern@.len() == k,
            forall|a: int| 0 <= a < k ==> (#[trigger] pattern@[a])@.len() == 3,
            forall|a: int, l: int|
                0 <= a < k && 0 <= l < 3 ==> pattern@[a]@[l] == tile_cell_open(code, a, l),
        decreases 3 - k,
    {
        let mut row: Vec<bool> = Vec::new();
        let mut l: usize = 0;
        while l < 3
            invariant
                l <= 3,
                k < 3,
                row@.len() == l,
                forall|b: int| 0 <= b < l ==> row@[b] == tile_cell_open(code, k as int, b),
            decreases 3 - l,
        {
            row.push(tile_cell(code, k, l));
            l += 1;
        }
        pattern.push(row);
        k += 1;
    }
    pattern
}

} // verus!
