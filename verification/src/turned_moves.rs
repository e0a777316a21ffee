//! The moves of a turned or mirrored position are the turned or mirrored moves.
use vstd::prelude::*;
use crate::bits::has_bit;
use crate::geometry::{sym_cell, transform_cell, lemma_index_coords};
use crate::moves::{
    in_board, is_unit, landing, taken, steps_left, bunny_jump, bunny_moves, bunny_moves_upto, dir_x,
    dir_y, landed_bunny, slide, slide_start, fox_at, fox_moves, fox_moves_dir,
};
use crate::moves::{bunny_part, fox_part};
use crate::orient::{cell_image, fox_image, lemma_bits_image, lemma_cell_image_on_board};
use crate::pieces::{Bunny, Fox, Move, normalized, is_vertical};
use crate::geometry::{on_board, indexable};
use crate::board::{BoardModel, all_indexable, bits_of, bunny_cells, fox_cells, mushroom_cells};
use crate::compare::lemma_bits_same;
use crate::rules::{
    all_on_board, lemma_landing, lemma_slide, lemma_fox_dest, lemma_lane_fox, lane_dir, lane_fox,
    lemma_cells_index, lemma_move_member,
};
use crate::state::{lemma_transform_cell, permute_bits};
use crate::symmetry::{completing, lemma_cell_compose, lemma_compose_onto, lemma_permute_bit, sends};

verus! {

broadcast use vstd::seq_lib::group_to_multiset_ensures;

/// The step `(dx, dy)` turned by symmetry `s`: how the image of a cell moves when the
/// cell moves by the step.
pub open spec fn sym_step(dx: int, dy: int, s: int) -> (int, int) {
    let a = sym_cell(dx, dy, s);
    let o = sym_cell(0, 0, s);
    (a.0 - o.0, a.1 - o.1)
}

/// Symmetries are affine: a step of a cell is a turned step of its image.
pub proof fn lemma_sym_affine(x: int, y: int, dx: int, dy: int, s: int)
    ensures
        sym_cell(x + dx, y + dy, s) == (sym_cell(x, y, s).0 + sym_step(dx, dy, s).0, sym_cell(
            x,
            y,
            s,
        ).1 + sym_step(dx, dy, s).1),
{
}

/// Turned unit steps are unit steps, and other steps are not.
pub proof fn lemma_sym_step_unit(dx: int, dy: int, s: int)
    ensures
        is_unit(sym_step(dx, dy, s).0, sym_step(dx, dy, s).1) == is_unit(dx, dy),
{
}

/// A cell is on the board exactly when its image is.
pub proof fn lemma_sym_in_board(x: int, y: int, s: int)
    ensures
        in_board(sym_cell(x, y, s).0, sym_cell(x, y, s).1) == in_board(x, y),
{
}

/// A symmetry maps distinct cells of the board to distinct cells.
pub proof fn lemma_transform_injective(p: int, q: int, s: int)
    requires
        0 <= p < 25,
        0 <= q < 25,
        0 <= s < 8,
        transform_cell(p, s) == transform_cell(q, s),
    ensures
        p == q,
{
    lemma_compose_onto(s, 0);
    let u = completing(s, 0);
    lemma_cell_compose(p, s, u);
    lemma_cell_compose(q, s, u);
    lemma_transform_cell(p, 0);
    lemma_transform_cell(q, 0);
}

/// The image of a cell of the board is taken in the permuted mask exactly when the
/// cell is taken in the mask.
pub proof fn lemma_taken_image(occ: u32, x: int, y: int, s: int)
    requires
        in_board(x, y),
        0 <= s < 8,
    ensures
        taken(permute_bits(occ, s, 25), sym_cell(x, y, s).0, sym_cell(x, y, s).1) == taken(
            occ,
            x,
            y,
        ),
{
    let p = y * 5 + x;
    lemma_index_coords(x, y);
    lemma_transform_cell(p, s);
    let c = sym_cell(x, y, s);
    let tp = transform_cell(p, s);
    assert(tp == c.1 * 5 + c.0);
    lemma_permute_bit(occ, s, 25, tp as u32);
    if sends(occ, s, 25, tp) {
        let q = choose|q: int| 0 <= q < 25 && has_bit(occ, q as u32) && #[trigger] transform_cell(q, s) == tp;
        lemma_transform_injective(p, q, s);
    }
    if taken(occ, x, y) {
        assert(sends(occ, s, 25, tp));
    }
}

/// Where a jump lands, turned: the image of the landing cell, if any.
pub open spec fn sym_opt(o: Option<(int, int)>, s: int) -> Option<(int, int)> {
    match o {
        Some(c) => Some(sym_cell(c.0, c.1, s)),
        None => None,
    }
}

/// Landing in the permuted mask from the image cell in the turned direction lands on
/// the image of the landing cell.
pub proof fn lemma_landing_image(occ: u32, x: int, y: int, dx: int, dy: int, s: int)
    requires
        0 <= s < 8,
    ensures
        landing(
            permute_bits(occ, s, 25),
            sym_cell(x, y, s).0,
            sym_cell(x, y, s).1,
            sym_step(dx, dy, s).0,
            sym_step(dx, dy, s).1,
        ) == sym_opt(landing(occ, x, y, dx, dy), s),
    decreases steps_left(x, y, dx, dy),
{
    lemma_sym_step_unit(dx, dy, s);
    lemma_sym_in_board(x, y, s);
    if is_unit(dx, dy) && in_board(x, y) {
        lemma_taken_image(occ, x, y, s);
        if taken(occ, x, y) {
            lemma_landing_image(occ, x + dx, y + dy, dx, dy, s);
            lemma_sym_affine(x, y, dx, dy, s);
        }
    }
}

/// A jump from the image cell in the turned direction lands on the image of the landing cell.
pub proof fn lemma_jump_image(occ: u32, x: int, y: int, dx: int, dy: int, s: int)
    requires
        0 <= s < 8,
    ensures
        bunny_jump(
            permute_bits(occ, s, 25),
            sym_cell(x, y, s).0,
            sym_cell(x, y, s).1,
            sym_step(dx, dy, s).0,
            sym_step(dx, dy, s).1,
        ) == sym_opt(bunny_jump(occ, x, y, dx, dy), s),
{
    lemma_sym_affine(x, y, dx, dy, s);
    lemma_sym_affine(x, y, 2 * dx, 2 * dy, s);
    lemma_sym_in_board(x + dx, y + dy, s);
    assert(sym_step(2 * dx, 2 * dy, s) == (2 * sym_step(dx, dy, s).0, 2 * sym_step(dx, dy, s).1));
    if in_board(x + dx, y + dy) {
        lemma_taken_image(occ, x + dx, y + dy, s);
    }
    lemma_landing_image(occ, x + 2 * dx, y + 2 * dy, dx, dy, s);
}

/// The number of a unit step among the four directions.
pub open spec fn dir_of(dx: int, dy: int) -> int {
    if dx == 1 {
        0
    } else if dy == 1 {
        1
    } else if dx == -1 {
        2
    } else {
        3
    }
}

/// The jump of the bunny in direction number `d` lands where `t` stands.
pub open spec fn jump_gives(occ: u32, b: Bunny, d: int, t: Bunny) -> bool {
    match bunny_jump(occ, b.pos.0 as int, b.pos.1 as int, dir_x(d), dir_y(d)) {
        Some(c) => t.pos == (c.0 as usize, c.1 as usize),
        None => false,
    }
}

/// A bunny destination comes from a jump in one of the directions tried.
pub proof fn lemma_bunny_moves_source(occ: u32, b: Bunny, t: Bunny, k: int)
    requires
        bunny_moves_upto(occ, b, k).contains(t),
    ensures
        exists|d: int| 0 <= d < k && #[trigger] jump_gives(occ, b, d, t),
    decreases k,
{
    if k > 0 {
        let prev = bunny_moves_upto(occ, b, k - 1);
        let jump = bunny_jump(occ, b.pos.0 as int, b.pos.1 as int, dir_x(k - 1), dir_y(k - 1));
        let last = landed_bunny(jump);
        assert(bunny_moves_upto(occ, b, k) == prev + last);
        let j = choose|j: int| 0 <= j < (prev + last).len() && (prev + last)[j] == t;
        if j < prev.len() {
            assert(prev[j] == t);
            lemma_bunny_moves_source(occ, b, t, k - 1);
            let d = choose|d: int| 0 <= d < k - 1 && #[trigger] jump_gives(occ, b, d, t);
            assert(0 <= d < k);
        } else {
            assert(last[j - prev.len()] == t);
            assert(jump_gives(occ, b, k - 1, t));
        }
    }
}

/// A jump in one of the directions tried gives a bunny destination.
pub proof fn lemma_bunny_moves_from(occ: u32, b: Bunny, d: int, k: int)
    requires
        0 <= d < k,
        bunny_jump(occ, b.pos.0 as int, b.pos.1 as int, dir_x(d), dir_y(d)) is Some,
    ensures
        ({
            let c = bunny_jump(occ, b.pos.0 as int, b.pos.1 as int, dir_x(d), dir_y(d))->0;
            bunny_moves_upto(occ, b, k).contains(Bunny { pos: (c.0 as usize, c.1 as usize) })
        }),
    decreases k,
{
    let c = bunny_jump(occ, b.pos.0 as int, b.pos.1 as int, dir_x(d), dir_y(d))->0;
    let t = Bunny { pos: (c.0 as usize, c.1 as usize) };
    let prev = bunny_moves_upto(occ, b, k - 1);
    let jump = bunny_jump(occ, b.pos.0 as int, b.pos.1 as int, dir_x(k - 1), dir_y(k - 1));
    let last = landed_bunny(jump);
    assert(bunny_moves_upto(occ, b, k) == prev + last);
    if d < k - 1 {
        lemma_bunny_moves_from(occ, b, d, k - 1);
        let j = choose|j: int| 0 <= j < prev.len() && prev[j] == t;
        assert((prev + last)[j] == t);
    } else {
        assert(last[0] == t);
        assert((prev + last)[prev.len() as int] == t);
    }
}

/// A turned bunny jump is a bunny jump of the turned board.
pub proof fn lemma_bunny_moves_image(occ: u32, b: Bunny, t: Bunny, s: int)
    requires
        bunny_moves(occ, b).contains(t),
        on_board(b.pos),
        0 <= s < 8,
    ensures
        bunny_moves(permute_bits(occ, s, 25), Bunny { pos: cell_image(b.pos, s) }).contains(
            Bunny { pos: cell_image(t.pos, s) },
        ),
{
    let x = b.pos.0 as int;
    let y = b.pos.1 as int;
    lemma_bunny_moves_source(occ, b, t, 4);
    let d = choose|d: int| 0 <= d < 4 && #[trigger] jump_gives(occ, b, d, t);
    let c = bunny_jump(occ, x, y, dir_x(d), dir_y(d))->0;
    lemma_landing(occ, x + 2 * dir_x(d), y + 2 * dir_y(d), dir_x(d), dir_y(d));
    assert(in_board(c.0, c.1));
    lemma_jump_image(occ, x, y, dir_x(d), dir_y(d), s);
    let st = sym_step(dir_x(d), dir_y(d), s);
    lemma_sym_step_unit(dir_x(d), dir_y(d), s);
    let d2 = dir_of(st.0, st.1);
    assert(dir_x(d2) == st.0 && dir_y(d2) == st.1);
    let occ2 = permute_bits(occ, s, 25);
    let b2 = Bunny { pos: cell_image(b.pos, s) };
    lemma_sym_in_board(x, y, s);
    lemma_sym_in_board(c.0, c.1, s);
    assert(b2.pos.0 as int == sym_cell(x, y, s).0 && b2.pos.1 as int == sym_cell(x, y, s).1);
    assert(bunny_jump(occ2, b2.pos.0 as int, b2.pos.1 as int, dir_x(d2), dir_y(d2)) == Some(
        sym_cell(c.0, c.1, s),
    ));
    lemma_bunny_moves_from(occ2, b2, d2, 4);
}

/// Sliding from the image cell in the turned direction passes the images of the cells.
pub proof fn lemma_slide_image(occ: u32, x: int, y: int, dx: int, dy: int, s: int)
    requires
        0 <= s < 8,
    ensures
        slide(
            permute_bits(occ, s, 25),
            sym_cell(x, y, s).0,
            sym_cell(x, y, s).1,
            sym_step(dx, dy, s).0,
            sym_step(dx, dy, s).1,
        ) == slide(occ, x, y, dx, dy).map_values(|c: (int, int)| sym_cell(c.0, c.1, s)),
    decreases steps_left(x, y, dx, dy),
{
    lemma_sym_step_unit(dx, dy, s);
    lemma_sym_in_board(x, y, s);
    let occ2 = permute_bits(occ, s, 25);
    let c = sym_cell(x, y, s);
    let st = sym_step(dx, dy, s);
    if is_unit(dx, dy) && in_board(x, y) {
        lemma_taken_image(occ, x, y, s);
        if !taken(occ, x, y) {
            lemma_slide_image(occ, x + dx, y + dy, dx, dy, s);
            lemma_sym_affine(x, y, dx, dy, s);
            let rest = slide(occ, x + dx, y + dy, dx, dy);
            assert(slide(occ, x, y, dx, dy) == seq![(x, y)] + rest);
            assert(slide(occ2, c.0, c.1, st.0, st.1) == seq![c] + slide(
                occ2,
                c.0 + st.0,
                c.1 + st.1,
                st.0,
                st.1,
            ));
            assert((seq![(x, y)] + rest).map_values(|q: (int, int)| sym_cell(q.0, q.1, s)) =~= seq![
                c,
            ] + rest.map_values(|q: (int, int)| sym_cell(q.0, q.1, s)));
        } else {
            assert(slide(occ, x, y, dx, dy).map_values(|q: (int, int)| sym_cell(q.0, q.1, s))
                =~= Seq::<(int, int)>::empty());
        }
    } else {
        assert(slide(occ, x, y, dx, dy).map_values(|q: (int, int)| sym_cell(q.0, q.1, s))
            =~= Seq::<(int, int)>::empty());
    }
}

/// The cells of a fox as integer pairs.
pub open spec fn first_cell(f: Fox) -> (int, int) {
    (f.pos1.0 as int, f.pos1.1 as int)
}

pub open spec fn second_cell(f: Fox) -> (int, int) {
    (f.pos2.0 as int, f.pos2.1 as int)
}

/// A normalized fox on two neighbouring cells of a lane, sliding along its lane,
/// slides from the cell that the other cell lies one step behind.
pub proof fn lemma_front(f: Fox, dx: int, dy: int)
    requires
        on_board(f.pos1),
        on_board(f.pos2),
        lane_fox(f),
        normalized(f) == f,
        lane_dir(f, dx, dy),
    ensures
        (slide_start(f, dx, dy) == second_cell(f) && first_cell(f) == (second_cell(f).0 - dx,
            second_cell(f).1 - dy)) || (slide_start(f, dx, dy) == first_cell(f) && second_cell(f)
            == (first_cell(f).0 - dx, first_cell(f).1 - dy)),
{
    lemma_lane_fox(f);
}

/// A fox made from a cell and the cell one step behind, turned, is the fox made from the
/// image cell and the turned step.
pub proof fn lemma_fox_at_image(c: (int, int), dx: int, dy: int, s: int)
    requires
        in_board(c.0, c.1),
        in_board(c.0 - dx, c.1 - dy),
        is_unit(dx, dy),
        0 <= s < 8,
    ensures
        normalized(fox_image(fox_at(c, dx, dy), s)) == fox_at(
            sym_cell(c.0, c.1, s),
            sym_step(dx, dy, s).0,
            sym_step(dx, dy, s).1,
        ),
{
    lemma_sym_affine(c.0 - dx, c.1 - dy, dx, dy, s);
    lemma_sym_in_board(c.0, c.1, s);
    lemma_sym_in_board(c.0 - dx, c.1 - dy, s);
    lemma_sym_step_unit(dx, dy, s);
}

/// A destination made from a slide in a lane direction is a destination of the fox.
pub proof fn lemma_fox_moves_from(occ: u32, f: Fox, dx: int, dy: int, j: int)
    requires
        lane_dir(f, dx, dy),
        0 <= j < slide(
            occ,
            slide_start(f, dx, dy).0 + dx,
            slide_start(f, dx, dy).1 + dy,
            dx,
            dy,
        ).len(),
    ensures
        fox_moves(occ, f).contains(
            fox_at(
                slide(
                    occ,
                    slide_start(f, dx, dy).0 + dx,
                    slide_start(f, dx, dy).1 + dy,
                    dx,
                    dy,
                )[j],
                dx,
                dy,
            ),
        ),
{
    let (dx1, dy1, dx2, dy2) = if is_vertical(f) {
        (0int, 1int, 0int, -1int)
    } else {
        (1int, 0int, -1int, 0int)
    };
    let a = fox_moves_dir(occ, f, dx1, dy1);
    let b = fox_moves_dir(occ, f, dx2, dy2);
    assert(fox_moves(occ, f) == a + b);
    let st = slide_start(f, dx, dy);
    let sl = slide(occ, st.0 + dx, st.1 + dy, dx, dy);
    let g = fox_at(sl[j], dx, dy);
    if dx == dx1 && dy == dy1 {
        assert(a[j] == g);
        assert((a + b)[j] == g);
    } else {
        assert(b[j] == g);
        assert((a + b)[a.len() + j] == g);
    }
}

/// The image of a normalized fox on two neighbouring cells of a lane slides, in the
/// turned direction, from the image of the cell the fox slides from.
proof fn lemma_front_image(f: Fox, dx: int, dy: int, s: int)
    requires
        on_board(f.pos1),
        on_board(f.pos2),
        lane_fox(f),
        normalized(f) == f,
        lane_dir(f, dx, dy),
        0 <= s < 8,
    ensures
        ({
            let g = normalized(fox_image(f, s));
            let st = slide_start(f, dx, dy);
            let d2 = sym_step(dx, dy, s);
            &&& lane_dir(g, d2.0, d2.1)
            &&& slide_start(g, d2.0, d2.1) == sym_cell(st.0, st.1, s)
            &&& in_board(st.0, st.1)
        }),
{
    let g = normalized(fox_image(f, s));
    let st = slide_start(f, dx, dy);
    let d2 = sym_step(dx, dy, s);
    lemma_front(f, dx, dy);
    lemma_lane_fox(f);
    crate::orient::lemma_fox_id_image(f, s);
    lemma_sym_step_unit(dx, dy, s);
    let p1 = first_cell(f);
    let p2 = second_cell(f);
    lemma_sym_affine(p1.0, p1.1, p2.0 - p1.0, p2.1 - p1.1, s);
    lemma_sym_affine(st.0, st.1, -dx, -dy, s);
    assert(sym_step(-dx, -dy, s) == (-d2.0, -d2.1));
    lemma_sym_in_board(p1.0, p1.1, s);
    lemma_sym_in_board(p2.0, p2.1, s);
    assert(first_cell(fox_image(f, s)) == sym_cell(p1.0, p1.1, s));
    assert(second_cell(fox_image(f, s)) == sym_cell(p2.0, p2.1, s));
    lemma_lane_fox(g);
    assert(lane_dir(g, d2.0, d2.1));
    lemma_front(g, d2.0, d2.1);
}

/// A turned fox slide is a fox slide of the turned board.
pub proof fn lemma_fox_moves_image(occ: u32, f: Fox, t: Fox, s: int)
    requires
        fox_moves(occ, f).contains(t),
        on_board(f.pos1),
        on_board(f.pos2),
        lane_fox(f),
        normalized(f) == f,
        0 <= s < 8,
    ensures
        fox_moves(permute_bits(occ, s, 25), normalized(fox_image(f, s))).contains(
            normalized(fox_image(t, s)),
        ),
{
    lemma_fox_dest(occ, f, t);
    let (dx, dy, j) = choose|dx: int, dy: int, j: int|
        #![trigger lane_dir(f, dx, dy), slide(occ, slide_start(f, dx, dy).0 + dx, slide_start(f, dx, dy).1 + dy, dx, dy)[j]]
        lane_dir(f, dx, dy) && 0 <= j < slide(
            occ,
            slide_start(f, dx, dy).0 + dx,
            slide_start(f, dx, dy).1 + dy,
            dx,
            dy,
        ).len() && t == fox_at(
            slide(
                occ,
                slide_start(f, dx, dy).0 + dx,
                slide_start(f, dx, dy).1 + dy,
                dx,
                dy,
            )[j],
            dx,
            dy,
        );
    let st = slide_start(f, dx, dy);
    let sl = slide(occ, st.0 + dx, st.1 + dy, dx, dy);
    let g = normalized(fox_image(f, s));
    let d2 = sym_step(dx, dy, s);
    lemma_front_image(f, dx, dy, s);
    lemma_sym_affine(st.0, st.1, dx, dy, s);
    lemma_slide_image(occ, st.0 + dx, st.1 + dy, dx, dy, s);
    let occ2 = permute_bits(occ, s, 25);
    let st2 = slide_start(g, d2.0, d2.1);
    let sl2 = slide(occ2, st2.0 + d2.0, st2.1 + d2.1, d2.0, d2.1);
    assert(sl2 == sl.map_values(|c: (int, int)| sym_cell(c.0, c.1, s)));
    assert(sl2[j] == sym_cell(sl[j].0, sl[j].1, s));
    lemma_slide(occ, st.0 + dx, st.1 + dy, dx, dy);
    assert(in_board(sl[j].0, sl[j].1));
    if j > 0 {
        assert(sl[j] == (sl[j - 1].0 + dx, sl[j - 1].1 + dy));
        assert(in_board(sl[j - 1].0, sl[j - 1].1));
    }
    lemma_fox_at_image(sl[j], dx, dy, s);
    lemma_fox_moves_from(occ2, g, d2.0, d2.1, j);
}

/// Setting the bits of `a` and then of `b` is setting the bits of `a + b`.
pub proof fn lemma_bits_concat(acc: u32, a: Seq<(usize, usize)>, b: Seq<(usize, usize)>)
    ensures
        bits_of(acc, a + b) == bits_of(bits_of(acc, a), b),
    decreases b.len(),
{
    if b.len() == 0 {
        assert(a + b =~= a);
    } else {
        lemma_bits_concat(acc, a, b.drop_last());
        assert((a + b).drop_last() =~= a + b.drop_last());
        assert((a + b).last() == b.last());
    }
}

/// The occupancy mask has the bits of the covered cells.
pub proof fn lemma_occupancy_cells(m: BoardModel)
    ensures
        m.occupancy() == bits_of(0, m.cells()),
{
    let bc = bunny_cells(m.bunnies);
    let fc = fox_cells(m.foxes);
    let uc = mushroom_cells(m.mushrooms);
    lemma_bits_concat(0, bc, fc);
    lemma_bits_concat(0, bc + fc, uc);
}

/// The cells of the turned foxes are the images of the cells of the foxes, each fox's
/// two cells perhaps in the other order.
proof fn lemma_fox_cells_image(fs: Seq<Fox>, s: int)
    ensures
        fox_cells(fs.map_values(|f: Fox| normalized(fox_image(f, s)))).to_multiset() == fox_cells(
            fs,
        ).map_values(|p: (usize, usize)| cell_image(p, s)).to_multiset(),
    decreases fs.len(),
{
    let img = |p: (usize, usize)| cell_image(p, s);
    let turn = |f: Fox| normalized(fox_image(f, s));
    if fs.len() == 0 {
        assert(fs.map_values(turn) =~= Seq::<Fox>::empty());
        assert(fox_cells(fs).map_values(img) =~= Seq::<(usize, usize)>::empty());
    } else {
        let r = fs.drop_last();
        let f = fs.last();
        lemma_fox_cells_image(r, s);
        let g = turn(f);
        assert(fs.map_values(turn).drop_last() =~= r.map_values(turn));
        assert(fs.map_values(turn).last() == g);
        let left = fox_cells(r.map_values(turn));
        let right = fox_cells(r).map_values(img);
        assert(fox_cells(fs.map_values(turn)) == left.push(g.pos1).push(g.pos2));
        assert(fox_cells(fs) == fox_cells(r).push(f.pos1).push(f.pos2));
        assert(fox_cells(fs).map_values(img) =~= right.push(img(f.pos1)).push(img(f.pos2)));
        vstd::seq_lib::to_multiset_build(left, g.pos1);
        vstd::seq_lib::to_multiset_build(left.push(g.pos1), g.pos2);
        vstd::seq_lib::to_multiset_build(right, img(f.pos1));
        vstd::seq_lib::to_multiset_build(right.push(img(f.pos1)), img(f.pos2));
        broadcast use vstd::multiset::group_multiset_axioms;
        assert(left.push(g.pos1).push(g.pos2).to_multiset() =~= right.push(img(f.pos1)).push(
            img(f.pos2),
        ).to_multiset());
    }
}

/// The occupancy mask of a turned position is the turned occupancy mask.
pub proof fn lemma_occupancy_image(m: BoardModel, s: int)
    requires
        all_on_board(m.cells()),
        0 <= s < 8,
    ensures
        m.image(s).occupancy() == permute_bits(m.occupancy(), s, 25),
{
    let t = m.image(s);
    let img = |p: (usize, usize)| cell_image(p, s);
    lemma_occupancy_cells(m);
    lemma_occupancy_cells(t);
    let bc = bunny_cells(m.bunnies);
    let fc = fox_cells(m.foxes);
    let uc = mushroom_cells(m.mushrooms);
    assert(bunny_cells(t.bunnies) =~= bc.map_values(img));
    assert(mushroom_cells(t.mushrooms) =~= uc.map_values(img));
    lemma_fox_cells_image(m.foxes, s);
    let mapped = m.cells().map_values(img);
    assert(mapped =~= bc.map_values(img) + fc.map_values(img) + uc.map_values(img));
    vstd::seq_lib::lemma_multiset_commutative(bc.map_values(img), fc.map_values(img));
    vstd::seq_lib::lemma_multiset_commutative(bc.map_values(img) + fc.map_values(img), uc.map_values(img));
    let tf = fox_cells(t.foxes);
    vstd::seq_lib::lemma_multiset_commutative(bc.map_values(img), tf);
    vstd::seq_lib::lemma_multiset_commutative(bc.map_values(img) + tf, uc.map_values(img));
    assert(t.cells() == bc.map_values(img) + tf + uc.map_values(img));
    assert(mapped.to_multiset() =~= t.cells().to_multiset());
    assert(all_indexable(mapped)) by {
        assert forall|j: int| 0 <= j < mapped.len() implies indexable(#[trigger] mapped[j]) by {
            assert(on_board(m.cells()[j]));
            lemma_cell_image_on_board(m.cells()[j], s);
        }
    }
    lemma_bits_same(mapped, t.cells());
    lemma_bits_image(m.cells(), s);
}

pub proof fn lemma_bunny_part_has(occ: u32, s: Seq<Bunny>, from: Bunny, to: Bunny)
    requires
        s.contains(from),
        bunny_moves(occ, from).contains(to),
    ensures
        bunny_part(occ, s).contains(Move::Bunny { from, to }),
    decreases s.len(),
{
    let r = s.drop_last();
    let prev = bunny_part(occ, r);
    let l = s.last();
    let tail = bunny_moves(occ, l).map_values(|t: Bunny| Move::Bunny { from: l, to: t });
    assert(bunny_part(occ, s) == prev + tail);
    let mv = Move::Bunny { from, to };
    if l == from {
        let k = choose|k: int| 0 <= k < bunny_moves(occ, from).len() && bunny_moves(occ, from)[k] == to;
        assert(tail[k] == mv);
        assert((prev + tail)[prev.len() + k] == mv);
    } else {
        let k = choose|k: int| 0 <= k < s.len() && s[k] == from;
        assert(k < r.len());
        assert(r[k] == from);
        lemma_bunny_part_has(occ, r, from, to);
        let q = choose|q: int| 0 <= q < prev.len() && prev[q] == mv;
        assert((prev + tail)[q] == mv);
    }
}

pub proof fn lemma_fox_part_has(occ: u32, s: Seq<Fox>, from: Fox, to: Fox)
    requires
        s.contains(from),
        fox_moves(occ, from).contains(to),
    ensures
        fox_part(occ, s).contains(Move::Fox { from, to }),
    decreases s.len(),
{
    let r = s.drop_last();
    let prev = fox_part(occ, r);
    let l = s.last();
    let tail = fox_moves(occ, l).map_values(|t: Fox| Move::Fox { from: l, to: t });
    assert(fox_part(occ, s) == prev + tail);
    let mv = Move::Fox { from, to };
    if l == from {
        let k = choose|k: int| 0 <= k < fox_moves(occ, from).len() && fox_moves(occ, from)[k] == to;
        assert(tail[k] == mv);
        assert((prev + tail)[prev.len() + k] == mv);
    } else {
        let k = choose|k: int| 0 <= k < s.len() && s[k] == from;
        assert(k < r.len());
        assert(r[k] == from);
        lemma_fox_part_has(occ, r, from, to);
        let q = choose|q: int| 0 <= q < prev.len() && prev[q] == mv;
        assert((prev + tail)[q] == mv);
    }
}

/// A move of a piece of the board to one of its destinations is a generated move.
pub proof fn lemma_all_moves_has(m: BoardModel, mv: Move)
    requires
        match mv {
            Move::Bunny { from, to } => m.bunnies.contains(from) && bunny_moves(
                m.occupancy(),
                from,
            ).contains(to),
            Move::Fox { from, to } => m.foxes.contains(from) && fox_moves(m.occupancy(), from).contains(
                to,
            ),
        },
    ensures
        m.all_moves().contains(mv),
{
    let occ = m.occupancy();
    let b = bunny_part(occ, m.bunnies);
    let f = fox_part(occ, m.foxes);
    match mv {
        Move::Bunny { from, to } => {
            lemma_bunny_part_has(occ, m.bunnies, from, to);
            let q = choose|q: int| 0 <= q < b.len() && b[q] == mv;
            assert(m.all_moves()[q] == mv);
        },
        Move::Fox { from, to } => {
            lemma_fox_part_has(occ, m.foxes, from, to);
            let q = choose|q: int| 0 <= q < f.len() && f[q] == mv;
            assert(m.all_moves()[b.len() + q] == mv);
        },
    }
}

/// The move turned by symmetry `s`.
pub open spec fn move_image(mv: Move, s: int) -> Move {
    match mv {
        Move::Bunny { from, to } => Move::Bunny {
            from: Bunny { pos: cell_image(from.pos, s) },
            to: Bunny { pos: cell_image(to.pos, s) },
        },
        Move::Fox { from, to } => Move::Fox {
            from: normalized(fox_image(from, s)),
            to: normalized(fox_image(to, s)),
        },
    }
}

/// The turned moves of a position are moves of the turned position.
pub proof fn lemma_move_image(m: BoardModel, s: int, i: int)
    requires
        m.valid(),
        m.normal(),
        0 <= s < 8,
        0 <= i < m.all_moves().len(),
    ensures
        m.image(s).all_moves().contains(move_image(m.all_moves()[i], s)),
{
    let t = m.image(s);
    lemma_move_member(m, i);
    lemma_occupancy_image(m, s);
    lemma_cells_index(m);
    let nb = m.bunnies.len() as int;
    let occ = m.occupancy();
    match m.all_moves()[i] {
        Move::Bunny { from, to } => {
            let k = choose|k: int| 0 <= k < m.bunnies.len() && m.bunnies[k] == from;
            assert(on_board(m.cells()[k]));
            lemma_bunny_moves_image(occ, from, to, s);
            assert(t.bunnies[k] == Bunny { pos: cell_image(from.pos, s) });
            assert(t.bunnies.contains(Bunny { pos: cell_image(from.pos, s) }));
            lemma_all_moves_has(t, move_image(m.all_moves()[i], s));
        },
        Move::Fox { from, to } => {
            let k = choose|k: int| 0 <= k < m.foxes.len() && m.foxes[k] == from;
            assert(on_board(m.cells()[nb + 2 * k]));
            assert(on_board(m.cells()[nb + 2 * k + 1]));
            assert(lane_fox(m.foxes[k]));
            assert(normalized(m.foxes[k]) == m.foxes[k]);
            lemma_fox_moves_image(occ, from, to, s);
            assert(t.foxes[k] == normalized(fox_image(from, s)));
            assert(t.foxes.contains(normalized(fox_image(from, s))));
            lemma_all_moves_has(t, move_image(m.all_moves()[i], s));
        },
    }
}

} // verus!
