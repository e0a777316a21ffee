//! Cells of the 5x5 board, their bit masks, the placements a fox may
//! occupy, and the eight symmetries of the square.
use vstd::prelude::*;
use crate::bits::{has_bit, lemma_test_single};

verus! {

/// Row-major index of a cell given as `(column, row)`.
pub open spec fn cell_index(pos: (usize, usize)) -> int {
    pos.1 * 5 + pos.0
}

/// The cell's index fits in a `u32` occupancy mask.
pub open spec fn indexable(pos: (usize, usize)) -> bool {
    cell_index(pos) < 32
}

/// The cell lies on the 5x5 board.
pub open spec fn on_board(pos: (usize, usize)) -> bool {
    pos.0 < 5 && pos.1 < 5
}

/// The mask with only the cell's bit set.
pub open spec fn mask_of(pos: (usize, usize)) -> u32 {
    1u32 << (cell_index(pos) as u32)
}

/// Column of a cell index.
pub open spec fn col(p: int) -> int {
    p % 5
}

/// Row of a cell index.
pub open spec fn row(p: int) -> int {
    p / 5
}

pub open spec fn abs(v: int) -> int {
    if v < 0 {
        -v
    } else {
        v
    }
}

/// A cell off the lanes: both coordinates even (the holes and the centre).
pub open spec fn off_lane(p: int) -> bool {
    col(p) % 2 == 0 && row(p) % 2 == 0
}

/// Two cell indices that a fox may cover together: orthogonal neighbours,
/// both on a lane.
pub open spec fn legal_edge(a: int, b: int) -> bool {
    &&& abs(col(a) - col(b)) + abs(row(a) - row(b)) == 1
    &&& !off_lane(a)
    &&& !off_lane(b)
}

/// Step `k` of the enumeration of cell pairs `(k / 25, k % 25)` in which
/// fox placements are numbered: the pair is a legal placement in increasing order.
pub open spec fn listed(k: int) -> bool {
    0 <= k < 625 && k / 25 < k % 25 && legal_edge(k / 25, k % 25)
}

/// Number of listed pairs before step `k`: the number given to the pair at step `k`.
pub open spec fn rank(k: int) -> nat
    decreases k,
{
    if k <= 0 {
        0
    } else {
        rank(k - 1) + if listed(k - 1) {
            1nat
        } else {
            0nat
        }
    }
}

/// Number of fox placements on the board.
pub open spec fn placement_count() -> nat {
    rank(625)
}

/// The number of the placement that covers cells `first < second`.
pub open spec fn placement_id(first: int, second: int) -> nat {
    rank(first * 25 + second)
}

/// Sum of the coordinates of a cell index.
pub open spec fn cell_sum(p: int) -> int {
    col(p) + row(p)
}

/// Image of the cell `(x, y)` under symmetry `s` of the square.
pub open spec fn sym_cell(x: int, y: int, s: int) -> (int, int) {
    if s == 0 {
        (x, y)
    } else if s == 1 {
        (y, 4 - x)
    } else if s == 2 {
        (4 - x, 4 - y)
    } else if s == 3 {
        (4 - y, x)
    } else if s == 4 {
        (4 - x, y)
    } else if s == 5 {
        (x, 4 - y)
    } else if s == 6 {
        (y, x)
    } else {
        (4 - y, 4 - x)
    }
}

/// Image of cell index `p` under symmetry `s`.
pub open spec fn transform_cell(p: int, s: int) -> int {
    let c = sym_cell(col(p), row(p), s);
    c.1 * 5 + c.0
}

/// The symmetries whose formula never subtracts the row from four.
pub open spec fn keeps_row_sign(s: int) -> bool {
    s == 0 || s == 1 || s == 4 || s == 6
}

pub proof fn lemma_index_coords(x: int, y: int)
    requires
        0 <= x < 5,
        0 <= y < 5,
    ensures
        col(y * 5 + x) == x,
        row(y * 5 + x) == y,
{
}

pub proof fn lemma_adjacent_order(a: int, b: int)
    requires
        0 <= a < 25,
        0 <= b < 25,
        abs(col(a) - col(b)) + abs(row(a) - row(b)) == 1,
    ensures
        a < b ==> (b == a + 1 || b == a + 5),
        a < b <==> cell_sum(a) < cell_sum(b),
        cell_sum(a) + 1 == cell_sum(b) || cell_sum(b) + 1 == cell_sum(a),
{
}

/// Listed pairs lie one or five apart.
pub proof fn lemma_listed_shape(k: int)
    requires
        listed(k),
    ensures
        k % 25 == k / 25 + 1 || k % 25 == k / 25 + 5,
{
    lemma_adjacent_order(k / 25, k % 25);
}

spec fn rank_bound(k: int) -> int {
    2 * (k / 25) + if k % 25 > k / 25 + 5 {
        2int
    } else if k % 25 > k / 25 + 1 {
        1int
    } else {
        0int
    }
}

proof fn lemma_rank_bounded(k: int)
    requires
        0 <= k <= 625,
    ensures
        rank(k) <= rank_bound(k),
    decreases k,
{
    if k > 0 {
        lemma_rank_bounded(k - 1);
        if listed(k - 1) {
            lemma_listed_shape(k - 1);
        }
    }
}

/// Fewer than fifty-one placements exist, so their numbers fit in a byte.
pub proof fn lemma_rank_small(k: int)
    requires
        0 <= k <= 625,
    ensures
        rank(k) <= 50,
{
    lemma_rank_bounded(k);
}

pub proof fn lemma_rank_monotone(j: int, k: int)
    requires
        j <= k,
    ensures
        rank(j) <= rank(k),
    decreases k - j,
{
    if j < k {
        lemma_rank_monotone(j, k - 1);
    }
}

/// A listed pair gets a number below the number of any later step.
pub proof fn lemma_rank_listed_lt(j: int, k: int)
    requires
        listed(j),
        j < k,
    ensures
        rank(j) < rank(k),
{
    lemma_rank_monotone(j + 1, k);
}

/// Distinct listed pairs get distinct numbers.
pub proof fn lemma_rank_injective(j: int, k: int)
    requires
        listed(j),
        listed(k),
        rank(j) == rank(k),
    ensures
        j == k,
{
    if j < k {
        lemma_rank_listed_lt(j, k);
    } else if k < j {
        lemma_rank_listed_lt(k, j);
    }
}

proof fn lemma_rank_flat(j: int, k: int)
    requires
        j <= k,
        forall|i: int| j <= i < k ==> !#[trigger] listed(i),
    ensures
        rank(j) == rank(k),
    decreases k - j,
{
    if j < k {
        lemma_rank_flat(j, k - 1);
    }
}

/// The listed steps among the pairs whose first cell is `a` are at most the pairs with
/// `a + 1` and with `a + 5`.
proof fn lemma_rank_row(a: int)
    requires
        0 <= a < 25,
    ensures
        rank(25 * a + 25) == rank(25 * a) + (if listed(25 * a + a + 1) {
            1int
        } else {
            0int
        }) + (if listed(25 * a + a + 5) {
            1int
        } else {
            0int
        }),
{
    let lo = 25 * a;
    let hi = 25 * a + 25;
    let p1 = 25 * a + a + 1;
    let p2 = 25 * a + a + 5;
    assert forall|i: int| lo <= i < hi && i != p1 && i != p2 implies !#[trigger] listed(i) by {
        if listed(i) {
            lemma_listed_shape(i);
        }
    }
    if a + 5 < 25 {
        lemma_rank_flat(lo, p1);
        lemma_rank_flat(p1 + 1, p2);
        lemma_rank_flat(p2 + 1, hi);
    } else if a + 1 < 25 {
        assert(!listed(p2)) by {
            assert(p2 / 25 == a + 1);
        }
        lemma_rank_flat(lo, p1);
        lemma_rank_flat(p1 + 1, hi);
    } else {
        assert(!listed(p1)) by {
            assert(p1 / 25 == a + 1);
        }
        assert(!listed(p2)) by {
            assert(p2 / 25 == a + 1);
        }
        lemma_rank_flat(lo, hi);
    }
}

/// The board has sixteen fox placements: four on each of the two odd rows and of the
/// two odd columns.
pub proof fn lemma_placement_count()
    ensures
        placement_count() == 16,
{
    assert(rank(0) == 0);
    assert(rank(25) == 0) by {
        lemma_rank_row(0);
        assert(rank(0) == 0);
    }
    assert(rank(50) == 1) by {
        lemma_rank_row(1);
        assert(rank(25) == 0);
    }
    assert(rank(75) == 1) by {
        lemma_rank_row(2);
        assert(rank(50) == 1);
    }
    assert(rank(100) == 2) by {
        lemma_rank_row(3);
        assert(rank(75) == 1);
    }
    assert(rank(125) == 2) by {
        lemma_rank_row(4);
        assert(rank(100) == 2);
    }
    assert(rank(150) == 3) by {
        lemma_rank_row(5);
        assert(rank(125) == 2);
    }
    assert(rank(175) == 5) by {
        lemma_rank_row(6);
        assert(rank(150) == 3);
    }
    assert(rank(200) == 6) by {
        lemma_rank_row(7);
        assert(rank(175) == 5);
    }
    assert(rank(225) == 8) by {
        lemma_rank_row(8);
        assert(rank(200) == 6);
    }
    assert(rank(250) == 8) by {
        lemma_rank_row(9);
        assert(rank(225) == 8);
    }
    assert(rank(275) == 8) by {
        lemma_rank_row(10);
        assert(rank(250) == 8);
    }
    assert(rank(300) == 9) by {
        lemma_rank_row(11);
        assert(rank(275) == 8);
    }
    assert(rank(325) == 9) by {
        lemma_rank_row(12);
        assert(rank(300) == 9);
    }
    assert(rank(350) == 10) by {
        lemma_rank_row(13);
        assert(rank(325) == 9);
    }
    assert(rank(375) == 10) by {
        lemma_rank_row(14);
        assert(rank(350) == 10);
    }
    assert(rank(400) == 11) by {
        lemma_rank_row(15);
        assert(rank(375) == 10);
    }
    assert(rank(425) == 13) by {
        lemma_rank_row(16);
        assert(rank(400) == 11);
    }
    assert(rank(450) == 14) by {
        lemma_rank_row(17);
        assert(rank(425) == 13);
    }
    assert(rank(475) == 16) by {
        lemma_rank_row(18);
        assert(rank(450) == 14);
    }
    assert(rank(500) == 16) by {
        lemma_rank_row(19);
        assert(rank(475) == 16);
    }
    assert(rank(525) == 16) by {
        lemma_rank_row(20);
        assert(rank(500) == 16);
    }
    assert(rank(550) == 16) by {
        lemma_rank_row(21);
        assert(rank(525) == 16);
    }
    assert(rank(575) == 16) by {
        lemma_rank_row(22);
        assert(rank(550) == 16);
    }
    assert(rank(600) == 16) by {
        lemma_rank_row(23);
        assert(rank(575) == 16);
    }
    assert(rank(625) == 16) by {
        lemma_rank_row(24);
        assert(rank(600) == 16);
    }
}

/// Mask with the bit of a cell set.
pub fn position_mask(pos: (usize, usize)) -> (r: u32)
    requires
        indexable(pos),
    ensures
        r == mask_of(pos),
{
    1u32 << ((pos.1 * 5 + pos.0) as u32)
}

/// Index of a cell, truncated to a byte as the placement numbering stores it.
pub fn position_index(pos: (usize, usize)) -> (r: u8)
    requires
        cell_index(pos) <= usize::MAX,
    ensures
        r as int == cell_index(pos) % 256,
{
    let i = pos.1 * 5 + pos.0;
    assert((i as u8) as int == i % 256) by (bit_vector);
    #[verifier::truncate]
    (i as u8)
}

/// Whether the cell's bit is set in an occupancy mask.
pub fn is_occupied(occupied: u32, pos: (usize, usize)) -> (r: bool)
    requires
        indexable(pos),
    ensures
        r == has_bit(occupied, cell_index(pos) as u32),
{
    let m = position_mask(pos);
    proof {
        lemma_test_single(occupied, cell_index(pos) as u32);
    }
    occupied & m != 0
}

/// Sum of the column and the row of a cell index.
pub fn position_sum(position: u8) -> (r: usize)
    ensures
        r == cell_sum(position as int),
{
    position as usize % 5 + position as usize / 5
}

fn abs_diff(a: usize, b: usize) -> (r: usize)
    ensures
        r == abs(a - b),
{
    if a >= b {
        a - b
    } else {
        b - a
    }
}

/// Whether a fox may cover the two cells.
pub fn is_legal_fox_edge(first: u8, second: u8) -> (r: bool)
    ensures
        r == legal_edge(first as int, second as int),
{
    let first_position = (first as usize % 5, first as usize / 5);
    let second_position = (second as usize % 5, second as usize / 5);
    let adjacent = abs_diff(first_position.0, second_position.0) + abs_diff(
        first_position.1,
        second_position.1,
    ) == 1;
    let first_on_lane = !(first_position.0 % 2 == 0 && first_position.1 % 2 == 0);
    let second_on_lane = !(second_position.0 % 2 == 0 && second_position.1 % 2 == 0);
    adjacent && first_on_lane && second_on_lane
}

/// The pair `(left, right)` as the enumeration lists it, if it is listed.
fn listed_pair(left: u8, right: u8) -> (r: Option<(u8, u8)>)
    requires
        left < right < 25,
    ensures
        r is Some <==> listed(left * 25 + right),
        r matches Some(p) ==> p == (left, right),
{
    let ghost k = left * 25 + right;
    assert(k / 25 == left && k % 25 == right);
    if is_legal_fox_edge(left, right) {
        let mut pair = (left, right);
        proof {
            lemma_adjacent_order(left as int, right as int);
        }
        if position_sum(pair.0) > position_sum(pair.1) {
            let t = pair.0;
            pair.0 = pair.1;
            pair.1 = t;
        }
        Some(pair)
    } else {
        None
    }
}

/// The number of the placement covering `first < second`.
#[verifier::rlimit(40)]
#[verifier::spinoff_prover]
pub fn fox_placement_id(first: u8, second: u8) -> (r: u8)
    requires
        second < 25,
        listed(first * 25 + second),
    ensures
        r == placement_id(first as int, second as int),
{
    let ghost target = first * 25 + second;
    let mut id: u8 = 0;
    let mut left: u8 = 0;
    proof {
        lemma_rank_small(target);
    }
    while left < 25
        invariant
            left <= 25,
            listed(target),
            rank(target) <= 50,
            id == rank(left * 25),
            left <= first,
            target == first * 25 + second,
            second < 25,
        decreases 25 - left,
    {
        let mut right: u8 = left + 1;
        proof {
            assert forall|i: int| left * 25 <= i < left * 25 + right implies !#[trigger] listed(i) by {}
            lemma_rank_flat(left * 25, left * 25 + right);
        }
        while right < 25
            invariant
                left < 25,
                left < right <= 25,
                listed(target),
                rank(target) <= 50,
                left <= first,
                target == first * 25 + second,
                second < 25,
                id == rank(left * 25 + right),
                left == first ==> right <= second,
            decreases 25 - right,
        {
            let ghost k = left * 25 + right;
            proof {
                lemma_rank_monotone(k, target);
            }
            match listed_pair(left, right) {
                Some(pair) => {
                    if pair.0 == first && pair.1 == second {
                        return id;
                    }
                    proof {
                        assert(k != target);
                        if left == first {
                            assert(right < second);
                        }
                        lemma_rank_listed_lt(k, target);
                    }
                    id = id + 1;
                },
                None => {},
            }
            right = right + 1;
        }
        proof {
            assert(left < first) by {
                if left == first {
                    assert(second < 25);
                }
            }
        }
        left = left + 1;
    }
    proof {
        assert(false);
    }
    0
}

/// The pair of cells `first < second` covered by placement number `target`.
#[verifier::rlimit(40)]
#[verifier::spinoff_prover]
pub fn fox_placement_from_id(target: u8) -> (r: (u8, u8))
    requires
        target < placement_count(),
    ensures
        r.1 < 25,
        listed(r.0 * 25 + r.1),
        placement_id(r.0 as int, r.1 as int) == target,
{
    let mut id: u8 = 0;
    let mut left: u8 = 0;
    proof {
        lemma_rank_small(625);
    }
    while left < 25
        invariant
            left <= 25,
            target < placement_count(),
            placement_count() <= 50,
            id == rank(left * 25),
            id <= target,
        decreases 25 - left,
    {
        let mut right: u8 = left + 1;
        proof {
            assert forall|i: int| left * 25 <= i < left * 25 + right implies !#[trigger] listed(i) by {}
            lemma_rank_flat(left * 25, left * 25 + right);
        }
        while right < 25
            invariant
                left < 25,
                left < right <= 25,
                target < placement_count(),
                placement_count() <= 50,
                id == rank(left * 25 + right),
                id <= target,
            decreases 25 - right,
        {
            match listed_pair(left, right) {
                Some(pair) => {
                    if id == target {
                        return pair;
                    }
                    id = id + 1;
                },
                None => {},
            }
            right = right + 1;
        }
        left = left + 1;
    }
    proof {
        assert(false);
    }
    (0, 0)
}

/// Image of a cell index under symmetry `symmetry`.
pub fn transform_position(position: u8, symmetry: usize) -> (r: u8)
    requires
        symmetry < 8,
        position < 25 || keeps_row_sign(symmetry as int),
    ensures
        r as int == transform_cell(position as int, symmetry as int) % 256,
{
    let x = position as usize % 5;
    let y = position as usize / 5;
    let (x, y) = if symmetry == 0 {
        (x, y)
    } else if symmetry == 1 {
        (y, 4 - x)
    } else if symmetry == 2 {
        (4 - x, 4 - y)
    } else if symmetry == 3 {
        (4 - y, x)
    } else if symmetry == 4 {
        (4 - x, y)
    } else if symmetry == 5 {
        (x, 4 - y)
    } else if symmetry == 6 {
        (y, x)
    } else {
        (4 - y, 4 - x)
    };
    let v = y * 5 + x;
    assert((v as u8) as int == v % 256) by (bit_vector);
    #[verifier::truncate]
    (v as u8)
}

/// The images of the twenty-five cells under each of the eight symmetries.
pub fn symmetry_maps() -> (maps: Vec<Vec<u8>>)
    ensures
        maps.len() == 8,
        forall|s: int| 0 <= s < 8 ==> #[trigger] maps[s].len() == 25,
        forall|s: int, p: int|
            0 <= s < 8 && 0 <= p < 25 ==> #[trigger] maps[s][p] == transform_cell(p, s),
{
    let mut maps: Vec<Vec<u8>> = Vec::new();
    let mut symmetry: usize = 0;
    while symmetry < 8
        invariant
            symmetry <= 8,
            maps.len() == symmetry,
            forall|s: int| 0 <= s < symmetry ==> #[trigger] maps[s].len() == 25,
            forall|s: int, p: int|
                0 <= s < symmetry && 0 <= p < 25 ==> #[trigger] maps[s][p] == transform_cell(p, s),
        decreases 8 - symmetry,
    {
        let mut map: Vec<u8> = Vec::new();
        let mut position: usize = 0;
        while position < 25
            invariant
                symmetry < 8,
                position <= 25,
                map.len() == position,
                forall|p: int| 0 <= p < position ==> #[trigger] map[p] == transform_cell(p, symmetry as int),
            decreases 25 - position,
        {
            let t = transform_position(position as u8, symmetry);
            proof {
                assert(0 <= transform_cell(position as int, symmetry as int) < 25);
            }
            map.push(t);
            position = position + 1;
        }
        maps.push(map);
        symmetry = symmetry + 1;
    }
    maps
}

} // verus!
