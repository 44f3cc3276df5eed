//! Occupancy lines: the nearest pieces along a row or a column.
//!
//! A line is a bit set over the squares of one row (9 bits) or one column
//! (10 bits).  For a square on the line, the rook points are the nearest
//! occupied squares on each side, and the cannon points the second nearest.

use vstd::prelude::*;
use crate::common::{Pos, PregenData, INVALID_POS};

verus! {

/// Whether bit `i` of `line` is set.
pub open spec fn has_bit(line: u32, i: int) -> bool {
    ((line >> (i as u32)) & 1) == 1
}

/// The first set bit of `line` among `i, i + 1, ..., hi`.
pub open spec fn scan_up(line: u32, i: int, hi: int) -> Option<int>
    decreases hi + 1 - i,
{
    if i > hi || i < 0 {
        None
    } else if has_bit(line, i) {
        Some(i)
    } else {
        scan_up(line, i + 1, hi)
    }
}

/// The first set bit of `line` among `i, i - 1, ..., 0`.
pub open spec fn scan_down(line: u32, i: int) -> Option<int>
    decreases i + 1,
{
    if i < 0 {
        None
    } else if has_bit(line, i) {
        Some(i)
    } else {
        scan_down(line, i - 1)
    }
}

/// Index of the nearest occupied place above `pos` (up to 9), or 9, the far
/// end, if none.
pub open spec fn rook_right(line: u32, pos: int) -> int {
    match scan_up(line, pos + 1, 9) {
        Some(j) => j,
        None => 9,
    }
}

/// Index of the nearest occupied place below `pos`, or 0, the near end, if
/// none.
pub open spec fn rook_left(line: u32, pos: int) -> int {
    match scan_down(line, pos - 1) {
        Some(j) => j,
        None => 0,
    }
}

/// Index of the second occupied place above `pos` (up to 9), or 15 if none.
pub open spec fn cannon_right(line: u32, pos: int) -> int {
    match scan_up(line, pos + 1, 9) {
        Some(a) => match scan_up(line, a + 1, 9) {
            Some(b) => b,
            None => 15,
        },
        None => 15,
    }
}

/// Index of the second occupied place below `pos`, or 15 if none.
pub open spec fn cannon_left(line: u32, pos: int) -> int {
    match scan_down(line, pos - 1) {
        Some(a) => match scan_down(line, a - 1) {
            Some(b) => b,
            None => 15,
        },
        None => 15,
    }
}

proof fn lemma_scan_up_range(line: u32, i: int, hi: int)
    ensures
        scan_up(line, i, hi) matches Some(j) ==> i <= j <= hi && j >= 0 && has_bit(line, j),
    decreases hi + 1 - i,
{
    if i <= hi && i >= 0 && !has_bit(line, i) {
        lemma_scan_up_range(line, i + 1, hi);
    }
}

proof fn lemma_scan_down_range(line: u32, i: int)
    ensures
        scan_down(line, i) matches Some(j) ==> 0 <= j <= i && has_bit(line, j),
    decreases i + 1,
{
    if i >= 0 && !has_bit(line, i) {
        lemma_scan_down_range(line, i - 1);
    }
}

/// Scanning down from `i` stops at `j` when `j` is set and nothing above it
/// up to `i` is.
pub proof fn lemma_scan_down_finds(line: u32, i: int, j: int)
    requires
        0 <= j <= i,
        has_bit(line, j),
        forall|k: int| j < k <= i ==> !#[trigger] has_bit(line, k),
    ensures
        scan_down(line, i) == Some(j),
    decreases i - j,
{
    if i > j {
        lemma_scan_down_finds(line, i - 1, j);
    }
}

/// Scanning up from `i` (up to `hi`) stops at `j` when `j` is set and
/// nothing from `i` below it is.
pub proof fn lemma_scan_up_finds(line: u32, i: int, hi: int, j: int)
    requires
        0 <= i <= j <= hi,
        has_bit(line, j),
        forall|k: int| i <= k < j ==> !#[trigger] has_bit(line, k),
    ensures
        scan_up(line, i, hi) == Some(j),
    decreases j - i,
{
    if i < j {
        lemma_scan_up_finds(line, i + 1, hi, j);
    }
}

proof fn lemma_nibbles_bounded(line: u32, pos: int)
    requires
        0 <= pos <= 9,
    ensures
        0 <= rook_left(line, pos) <= 9,
        rook_left(line, pos) <= pos,
        0 <= rook_right(line, pos) <= 9,
        0 <= cannon_left(line, pos) <= 9 || cannon_left(line, pos) == 15,
        0 <= cannon_right(line, pos) <= 9 || cannon_right(line, pos) == 15,
{
    lemma_scan_up_range(line, pos + 1, 9);
    lemma_scan_down_range(line, pos - 1);
    if let Some(a) = scan_up(line, pos + 1, 9) {
        lemma_scan_up_range(line, a + 1, 9);
    }
    if let Some(a) = scan_down(line, pos - 1) {
        lemma_scan_down_range(line, a - 1);
    }
}

/// Rook indices are places 0 to 9.
pub proof fn lemma_rook_nibbles(line: u32, pos: int)
    requires
        0 <= pos <= 9,
    ensures
        0 <= rook_left(line, pos) <= 9,
        rook_left(line, pos) <= pos,
        0 <= rook_right(line, pos) <= 9,
{
    lemma_nibbles_bounded(line, pos);
}

/// Sets the high four bits of `d` from `n`.
fn set_left_4bit(d: &mut PregenData, n: u32)
    ensures
        *final(d) == *old(d) | ((n << 4u32) as u8),
{
    *d |= (n << 4) as u8
}

/// Sets the low four bits of `d` from `n`.
fn set_right_4bit(d: &mut PregenData, n: u32)
    ensures
        *final(d) == *old(d) | (n as u8),
{
    *d |= n as u8
}

fn get_left_4bit(d: PregenData) -> (r: u8)
    ensures
        r == d >> 4u8,
{
    d >> 4
}

fn get_right_4bit(d: PregenData) -> (r: u8)
    ensures
        r == d & 0xFu8,
{
    d & 0xF
}

fn get_bit(d: u32, i: u32) -> (r: u32)
    requires
        i < 32,
    ensures
        r == (d >> i) & 1,
        r == 1 <==> has_bit(d, i as int),
        r == 0 || r == 1,
{
    let r = (d >> i) & 1;
    assert(r == 0 || r == 1) by (bit_vector)
        requires
            r == (d >> i) & 1,
    ;
    r
}

proof fn lemma_nibble_pack(l: u32, r: u32)
    requires
        l < 16,
        r < 16,
    ensures
        (((0u8 | (r as u8)) | ((l << 4u32) as u8)) >> 4u8) == l,
        (((0u8 | (r as u8)) | ((l << 4u32) as u8)) & 0xFu8) == r,
{
    assert((((0u8 | (r as u8)) | ((l << 4u32) as u8)) >> 4u8) == l) by (bit_vector)
        requires
            l < 16,
            r < 16,
    ;
    assert((((0u8 | (r as u8)) | ((l << 4u32) as u8)) & 0xFu8) == r) by (bit_vector)
        requires
            l < 16,
            r < 16,
    ;
}

/// The packed rook entry for place `pos` of `line`: left index in the high
/// four bits, right index in the low four bits.
fn rook_pregen_entry(pos: u8, line: u32) -> (e: u8)
    requires
        pos < 10,
    ensures
        e >> 4u8 == rook_left(line, pos as int),
        e & 0xFu8 == rook_right(line, pos as int),
{
    let mut entry: u8 = 0;
    let mut right: u32 = 0;
    let mut i: u8 = pos + 1;
    loop
        invariant
            pos + 1 <= i <= 10,
            pos < 10,
            scan_up(line, pos + 1, 9) == scan_up(line, i as int, 9),
        ensures
            right == rook_right(line, pos as int),
        decreases 10 - i,
    {
        if i > 9 {
            right = 9;
            break;
        }
        if get_bit(line, i as u32) == 1 {
            right = i as u32;
            break;
        }
        i += 1;
    }
    set_right_4bit(&mut entry, right);
    let mut left: u32 = 0;
    let mut j: u8 = pos;
    loop
        invariant
            j <= pos,
            pos < 10,
            scan_down(line, pos - 1) == scan_down(line, j - 1),
        ensures
            left == rook_left(line, pos as int),
        decreases j,
    {
        if j == 0 {
            left = 0;
            break;
        }
        if get_bit(line, (j - 1) as u32) == 1 {
            left = (j - 1) as u32;
            break;
        }
        j -= 1;
    }
    set_left_4bit(&mut entry, left);
    proof {
        lemma_nibbles_bounded(line, pos as int);
        lemma_nibble_pack(left, right);
    }
    entry
}

/// The packed cannon entry for place `pos` of `line`: left index in the
/// high four bits, right index in the low four bits, 15 meaning none.
fn cannon_pregen_entry(pos: u8, line: u32) -> (e: u8)
    requires
        pos < 10,
    ensures
        e >> 4u8 == cannon_left(line, pos as int),
        e & 0xFu8 == cannon_right(line, pos as int),
{
    let mut entry: u8 = 0;
    let mut right: u32 = 15;
    let mut i: u8 = pos + 1;
    let mut t: u8 = 0;
    loop
        invariant
            pos + 1 <= i <= 10,
            pos < 10,
            t == 0 ==> scan_up(line, pos + 1, 9) == scan_up(line, i as int, 9),
            t == 1 ==> (scan_up(line, pos + 1, 9) matches Some(a) && a < i
                && scan_up(line, a + 1, 9) == scan_up(line, i as int, 9)),
            t <= 1,
        ensures
            right == cannon_right(line, pos as int),
        decreases 10 - i,
    {
        if i > 9 {
            right = 15;
            break;
        }
        if get_bit(line, i as u32) > 0 {
            if t == 0 {
                t += 1;
            } else if i < 10 {
                right = i as u32;
                break;
            }
        }
        i += 1;
    }
    set_right_4bit(&mut entry, right);
    let mut left: u32 = 15;
    let mut j: u8 = pos.wrapping_sub(1);
    t = 0;
    loop
        invariant
            pos < 10,
            j == 0xFFu8 || j < pos,
            t == 0 ==> scan_down(line, pos - 1) == scan_down(line, if j == 0xFFu8 { -1 } else { j as int }),
            t == 1 ==> (scan_down(line, pos - 1) matches Some(a)
                && (j == 0xFFu8 || j < a)
                && if j == 0xFFu8 {
                    scan_down(line, a - 1) is None
                } else {
                    scan_down(line, a - 1) == scan_down(line, j as int)
                }),
            t <= 1,
        ensures
            left == cannon_left(line, pos as int),
        decreases if j == 0xFFu8 { 0 } else { j as int + 1 },
    {
        if j == 0xFF {
            left = 15;
            break;
        }
        if get_bit(line, j as u32) > 0 {
            if t == 0 {
                t += 1;
            } else {
                left = j as u32;
                break;
            }
        }
        j = j.wrapping_sub(1);
    }
    set_left_4bit(&mut entry, left);
    proof {
        lemma_nibbles_bounded(line, pos as int);
        lemma_nibble_pack(left, right);
    }
    entry
}

/// What `get_banner_points` gives: the two points of square `p` along its
/// row (`is9`) or its column, for a rook or a cannon.  A rook point is the
/// nearest piece on that side, or the edge of the board when there is none
/// (the far end 9 of a row is its last column, 8); it ends the rook's run of
/// non-capture moves.  A cannon point is the second piece on that side,
/// the square the cannon captures on.  A missing cannon
/// point is square index 100 on a row; on a column it is the column plus
/// 900 taken modulo 256, that is 132 to 140.
pub open spec fn banner_spec(bl: u16, p: u8, is9: bool, is_rook: bool) -> (u8, u8) {
    let i = if is9 { p % 9 } else { p / 9 };
    let v1 = if is_rook { rook_left(bl as u32, i as int) } else { cannon_left(bl as u32, i as int) };
    let v2 = if is_rook { rook_right(bl as u32, i as int) } else { cannon_right(bl as u32, i as int) };
    let l = if v1 == 15 { 100 } else { v1 };
    if is9 {
        let r = if v2 == 15 { 100 } else if v2 != 9 { v2 } else { 8 };
        ((p / 9 * 9 + l) as u8, (p / 9 * 9 + r) as u8)
    } else {
        let r = if v2 == 15 { 100 } else { v2 };
        ((p % 9 + (l * 9) % 256) as u8, (p % 9 + (r * 9) % 256) as u8)
    }
}

fn get_banner_points(bl: u16, p: Pos, is9: bool, is_rook: bool) -> (r: (Pos, Pos))
    requires
        p < 90,
        bl < 1024,
    ensures
        r == banner_spec(bl, p, is9, is_rook),
{
    let i = if is9 { p % 9 } else { p / 9 };
    let v = if is_rook {
        rook_pregen_entry(i, bl as u32)
    } else {
        cannon_pregen_entry(i, bl as u32)
    };
    let v1 = get_left_4bit(v);
    let v2 = get_right_4bit(v);
    proof {
        lemma_nibbles_bounded(bl as u32, i as int);
    }
    let l = if v1 == 0b1111 { INVALID_POS } else { v1 };
    if is9 {
        let r = if v2 == 0b1111 {
            INVALID_POS
        } else if v2 != 9 {
            v2
        } else {
            8
        };
        (p / 9 * 9 + l, p / 9 * 9 + r)
    } else {
        let r = if v2 == 0b1111 { INVALID_POS } else { v2 };
        (p % 9 + l.wrapping_mul(9), p % 9 + r.wrapping_mul(9))
    }
}

/// Rook points of square `p` along its row, from the row's occupancy `bl`.
pub fn rook9(bl: u16, p: Pos) -> (r: (Pos, Pos))
    requires
        p < 90,
        bl < 1024,
    ensures
        r == banner_spec(bl, p, true, true),
{
    get_banner_points(bl, p, true, true)
}

/// Rook points of square `p` along its column, from the column's occupancy `bl`.
pub fn rook10(bl: u16, p: Pos) -> (r: (Pos, Pos))
    requires
        p < 90,
        bl < 1024,
    ensures
        r == banner_spec(bl, p, false, true),
{
    get_banner_points(bl, p, false, true)
}

/// Cannon points of square `p` along its row, from the row's occupancy `bl`.
pub fn cannon9(bl: u16, p: Pos) -> (r: (Pos, Pos))
    requires
        p < 90,
        bl < 1024,
    ensures
        r == banner_spec(bl, p, true, false),
{
    get_banner_points(bl, p, true, false)
}

/// Cannon points of square `p` along its column, from the column's occupancy `bl`.
pub fn cannon10(bl: u16, p: Pos) -> (r: (Pos, Pos))
    requires
        p < 90,
        bl < 1024,
    ensures
        r == banner_spec(bl, p, false, false),
{
    get_banner_points(bl, p, false, false)
}

} // verus!

verus! {

/// Setting bit `c` of a line sets that bit and keeps the others.
pub proof fn lemma_line_set_bit(x: u16, c: u8, j: u32)
    requires
        c < 16,
        j < 32,
    ensures
        has_bit((x | (1u16 << c)) as u32, j as int) == (j == c || has_bit(x as u32, j as int)),
        x < 1024 && c < 10 ==> (x | (1u16 << c)) < 1024,
        x < 512 && c < 9 ==> (x | (1u16 << c)) < 512,
{
    assert(((((x | (1u16 << c)) as u32) >> j) & 1 == 1) == (j == c || ((x as u32 >> j) & 1 == 1)))
        by (bit_vector)
        requires
            c < 16,
            j < 32,
    ;
    assert(x < 1024 && c < 10 ==> (x | (1u16 << c)) < 1024) by (bit_vector);
    assert(x < 512 && c < 9 ==> (x | (1u16 << c)) < 512) by (bit_vector);
}

/// Clearing bit `c` of a line clears that bit and keeps the others.
pub proof fn lemma_line_clear_bit(x: u16, c: u8, j: u32)
    requires
        c < 16,
        j < 32,
    ensures
        has_bit((x & !(1u16 << c)) as u32, j as int) == (j != c && has_bit(x as u32, j as int)),
        (x & !(1u16 << c)) <= x,
{
    assert(((((x & !(1u16 << c)) as u32) >> j) & 1 == 1) == (j != c && ((x as u32 >> j) & 1 == 1)))
        by (bit_vector)
        requires
            c < 16,
            j < 32,
    ;
    assert((x & !(1u16 << c)) <= x) by (bit_vector);
}

/// Masking a ten-bit line with `0xFFF` keeps it.
pub proof fn lemma_line_mask(x: u16)
    requires
        x < 1024,
    ensures
        x & 0xFFFu16 == x,
{
    assert(x < 1024 ==> x & 0xFFFu16 == x) by (bit_vector);
}

/// Two ten-bit lines with the same bits are equal.
pub proof fn lemma_line_ext(x: u16, y: u16)
    requires
        x < 1024,
        y < 1024,
        forall|j: int| 0 <= j < 10 ==> #[trigger] has_bit(x as u32, j) == has_bit(y as u32, j),
    ensures
        x == y,
{
    assert(has_bit(x as u32, 0) == has_bit(y as u32, 0));
    assert(has_bit(x as u32, 1) == has_bit(y as u32, 1));
    assert(has_bit(x as u32, 2) == has_bit(y as u32, 2));
    assert(has_bit(x as u32, 3) == has_bit(y as u32, 3));
    assert(has_bit(x as u32, 4) == has_bit(y as u32, 4));
    assert(has_bit(x as u32, 5) == has_bit(y as u32, 5));
    assert(has_bit(x as u32, 6) == has_bit(y as u32, 6));
    assert(has_bit(x as u32, 7) == has_bit(y as u32, 7));
    assert(has_bit(x as u32, 8) == has_bit(y as u32, 8));
    assert(has_bit(x as u32, 9) == has_bit(y as u32, 9));
    assert(x == y) by (bit_vector)
        requires
            x < 1024,
            y < 1024,
            ((x as u32 >> 0u32) & 1 == 1) == ((y as u32 >> 0u32) & 1 == 1),
            ((x as u32 >> 1u32) & 1 == 1) == ((y as u32 >> 1u32) & 1 == 1),
            ((x as u32 >> 2u32) & 1 == 1) == ((y as u32 >> 2u32) & 1 == 1),
            ((x as u32 >> 3u32) & 1 == 1) == ((y as u32 >> 3u32) & 1 == 1),
            ((x as u32 >> 4u32) & 1 == 1) == ((y as u32 >> 4u32) & 1 == 1),
            ((x as u32 >> 5u32) & 1 == 1) == ((y as u32 >> 5u32) & 1 == 1),
            ((x as u32 >> 6u32) & 1 == 1) == ((y as u32 >> 6u32) & 1 == 1),
            ((x as u32 >> 7u32) & 1 == 1) == ((y as u32 >> 7u32) & 1 == 1),
            ((x as u32 >> 8u32) & 1 == 1) == ((y as u32 >> 8u32) & 1 == 1),
            ((x as u32 >> 9u32) & 1 == 1) == ((y as u32 >> 9u32) & 1 == 1),
    ;
}

/// The empty line has no bit set.
pub proof fn lemma_line_zero(j: u32)
    requires
        j < 32,
    ensures
        !has_bit(0u32, j as int),
{
    assert((0u32 >> j) & 1 != 1) by (bit_vector);
}

} // verus!
