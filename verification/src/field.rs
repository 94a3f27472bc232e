//! The grid: mine placement, neighbour queries, number computation,
//! flood-fill reveal, chording, and the flag/open counters.

use vstd::prelude::*;

use crate::cell::{Cell, CellContent, CellState};
use crate::game::{
    lemma_idx_bounds, lemma_idx_injective, ButtonState, CellInteractionResult, FieldSize,
    MouseButton, Point,
};

verus! {

/// The playing field.  `cells` is a row-major flat grid of
/// `size.height` rows by `size.width` columns; `flags` counts the currently
/// flagged cells and `opened` the currently opened ones.
pub struct Field {
    pub cells: Vec<Cell>,
    pub size: FieldSize,
    pub flags: u32,
    pub opened: u32,
}

// ------------------------------------------------------------------
// Difficulty presets
// ------------------------------------------------------------------

/// Beginner preset: 8 x 8 cells, 10 mines.
pub fn field_size_10() -> (s: FieldSize)
    ensures
        s == (FieldSize { width: 8, height: 8, mines: 10 }),
        s.wf(),
{
    FieldSize { width: 8, height: 8, mines: 10 }
}

/// Intermediate preset: 13 x 15 cells, 40 mines.
pub fn field_size_40() -> (s: FieldSize)
    ensures
        s == (FieldSize { width: 13, height: 15, mines: 40 }),
        s.wf(),
{
    FieldSize { width: 13, height: 15, mines: 40 }
}

/// Expert preset: 16 x 30 cells, 99 mines.
pub fn field_size_99() -> (s: FieldSize)
    ensures
        s == (FieldSize { width: 16, height: 30, mines: 99 }),
        s.wf(),
{
    FieldSize { width: 16, height: 30, mines: 99 }
}

// ------------------------------------------------------------------
// Counting cells that satisfy a predicate
// ------------------------------------------------------------------

/// How many cells of `s` satisfy `f`.
pub open spec fn count_matching(s: Seq<Cell>, f: spec_fn(Cell) -> bool) -> nat
    decreases s.len(),
{
    if s.len() == 0 {
        0
    } else {
        count_matching(s.drop_last(), f) + (if f(s.last()) {
            1nat
        } else {
            0nat
        })
    }
}

/// The cell is currently opened.
pub open spec fn opened_pred() -> spec_fn(Cell) -> bool {
    |c: Cell| c.state == CellState::Opened
}

/// The cell is currently flagged.
pub open spec fn flagged_pred() -> spec_fn(Cell) -> bool {
    |c: Cell| c.state == CellState::Flagged
}

/// The cell hides a mine.
pub open spec fn mine_pred() -> spec_fn(Cell) -> bool {
    |c: Cell| c.content == CellContent::Mine
}

pub open spec fn count_opened(s: Seq<Cell>) -> nat {
    count_matching(s, opened_pred())
}

pub open spec fn count_flagged(s: Seq<Cell>) -> nat {
    count_matching(s, flagged_pred())
}

pub open spec fn count_mines(s: Seq<Cell>) -> nat {
    count_matching(s, mine_pred())
}

/// A count never exceeds the number of cells.
pub proof fn lemma_count_le_len(s: Seq<Cell>, f: spec_fn(Cell) -> bool)
    ensures
        count_matching(s, f) <= s.len(),
    decreases s.len(),
{
    if s.len() > 0 {
        lemma_count_le_len(s.drop_last(), f);
    }
}

/// Replacing the cell at `i` swaps its contribution for the new cell's.
pub proof fn lemma_count_update(s: Seq<Cell>, f: spec_fn(Cell) -> bool, i: int, c: Cell)
    requires
        0 <= i < s.len(),
    ensures
        count_matching(s.update(i, c), f) == count_matching(s, f) + (if f(c) {
            1int
        } else {
            0int
        }) - (if f(s[i]) {
            1int
        } else {
            0int
        }),
    decreases s.len(),
{
    let t = s.update(i, c);
    if i == s.len() - 1 {
        assert(t.drop_last() =~= s.drop_last());
        assert(t.last() == c);
    } else {
        assert(t.drop_last() =~= s.drop_last().update(i, c));
        assert(t.last() == s.last());
        lemma_count_update(s.drop_last(), f, i, c);
    }
}

/// If no cell satisfies `f`, the count is zero.
pub proof fn lemma_count_zero(s: Seq<Cell>, f: spec_fn(Cell) -> bool)
    requires
        forall|i: int| 0 <= i < s.len() ==> !f(#[trigger] s[i]),
    ensures
        count_matching(s, f) == 0,
    decreases s.len(),
{
    if s.len() > 0 {
        lemma_count_zero(s.drop_last(), f);
    }
}

/// Counting only looks at whether each cell satisfies `f`, so grids that
/// agree on that pointwise have the same count.
pub proof fn lemma_count_congruent(s1: Seq<Cell>, s2: Seq<Cell>, f: spec_fn(Cell) -> bool)
    requires
        s1.len() == s2.len(),
        forall|i: int| 0 <= i < s1.len() ==> f(#[trigger] s1[i]) == f(s2[i]),
    ensures
        count_matching(s1, f) == count_matching(s2, f),
    decreases s1.len(),
{
    if s1.len() > 0 {
        assert(f(s1.last()) == f(s2.last()));
        lemma_count_congruent(s1.drop_last(), s2.drop_last(), f);
    }
}

/// A pointwise implication between grids bounds their counts.
pub proof fn lemma_count_mono(s1: Seq<Cell>, s2: Seq<Cell>, f: spec_fn(Cell) -> bool)
    requires
        s1.len() == s2.len(),
        forall|i: int| 0 <= i < s1.len() && f(#[trigger] s1[i]) ==> f(s2[i]),
    ensures
        count_matching(s1, f) <= count_matching(s2, f),
    decreases s1.len(),
{
    if s1.len() > 0 {
        lemma_count_mono(s1.drop_last(), s2.drop_last(), f);
    }
}

/// A zero count means no cell satisfies the predicate.
pub proof fn lemma_count_zero_inverse(s: Seq<Cell>, f: spec_fn(Cell) -> bool)
    requires
        count_matching(s, f) == 0,
    ensures
        forall|i: int| 0 <= i < s.len() ==> !f(#[trigger] s[i]),
    decreases s.len(),
{
    if s.len() > 0 {
        lemma_count_zero_inverse(s.drop_last(), f);
        assert forall|i: int| 0 <= i < s.len() implies !f(#[trigger] s[i]) by {
            if i < s.len() - 1 {
                assert(s.drop_last()[i] == s[i]);
            } else {
                assert(s[i] == s.last());
            }
        }
    }
}

/// Predicates that exclude each other on every cell of `s` share the cells
/// between them.
pub proof fn lemma_count_disjoint(s: Seq<Cell>, f: spec_fn(Cell) -> bool, g: spec_fn(Cell) -> bool)
    requires
        forall|i: int| 0 <= i < s.len() ==> !(f(#[trigger] s[i]) && g(s[i])),
    ensures
        count_matching(s, f) + count_matching(s, g) <= s.len(),
    decreases s.len(),
{
    if s.len() > 0 {
        assert(s.last() == s[s.len() - 1]);
        lemma_count_disjoint(s.drop_last(), f, g);
    }
}

// ------------------------------------------------------------------
// Neighbourhoods
// ------------------------------------------------------------------

/// `q` lies in the edge-clipped Moore neighbourhood of `p`: both in bounds,
/// distinct, and at most one step apart on each axis.
pub open spec fn is_neighbour(size: FieldSize, p: Point, q: Point) -> bool {
    &&& size.contains(p)
    &&& size.contains(q)
    &&& q != p
    &&& -1 <= q.x as int - p.x as int <= 1
    &&& -1 <= q.y as int - p.y as int <= 1
}

/// The in-bounds neighbours of `p`, in the fixed order the field enumerates
/// them: west, east, north, south, north-west, north-east, south-west,
/// south-east.
pub open spec fn neighbour_points(size: FieldSize, p: Point) -> Seq<Point> {
    let w = Point { x: (p.x - 1) as u32, y: p.y };
    let e = Point { x: (p.x + 1) as u32, y: p.y };
    let n = Point { x: p.x, y: (p.y - 1) as u32 };
    let s = Point { x: p.x, y: (p.y + 1) as u32 };
    let nw = Point { x: (p.x - 1) as u32, y: (p.y - 1) as u32 };
    let ne = Point { x: (p.x + 1) as u32, y: (p.y - 1) as u32 };
    let sw = Point { x: (p.x - 1) as u32, y: (p.y + 1) as u32 };
    let se = Point { x: (p.x + 1) as u32, y: (p.y + 1) as u32 };
    let r = Seq::<Point>::empty();
    let r = if p.x > 0 { r.push(w) } else { r };
    let r = if p.x < size.width - 1 { r.push(e) } else { r };
    let r = if p.y > 0 { r.push(n) } else { r };
    let r = if p.y < size.height - 1 { r.push(s) } else { r };
    let r = if p.x > 0 && p.y > 0 { r.push(nw) } else { r };
    let r = if p.x < size.width - 1 && p.y > 0 { r.push(ne) } else { r };
    let r = if p.x > 0 && p.y < size.height - 1 { r.push(sw) } else { r };
    let r = if p.x < size.width - 1 && p.y < size.height - 1 { r.push(se) } else { r };
    r
}

/// 1 if coordinate `(x, y)` is on the grid and its cell satisfies `f`,
/// else 0.
pub open spec fn box_term(
    cells: Seq<Cell>,
    size: FieldSize,
    x: int,
    y: int,
    f: spec_fn(Cell) -> bool,
) -> nat {
    if 0 <= x < size.width && 0 <= y < size.height && f(cells[y * size.width + x]) {
        1nat
    } else {
        0nat
    }
}

/// How many cells of the edge-clipped Moore neighbourhood of `p` satisfy
/// `f`: one term for each of the eight surrounding coordinates.
pub open spec fn box_count(
    cells: Seq<Cell>,
    size: FieldSize,
    p: Point,
    f: spec_fn(Cell) -> bool,
) -> nat {
    let x = p.x as int;
    let y = p.y as int;
    box_term(cells, size, x - 1, y, f) + box_term(cells, size, x + 1, y, f) + box_term(
        cells,
        size,
        x,
        y - 1,
        f,
    ) + box_term(cells, size, x, y + 1, f) + box_term(cells, size, x - 1, y - 1, f) + box_term(
        cells,
        size,
        x + 1,
        y - 1,
        f,
    ) + box_term(cells, size, x - 1, y + 1, f) + box_term(cells, size, x + 1, y + 1, f)
}

/// A surrounding coordinate whose cell cannot satisfy `f` contributes
/// nothing.
pub proof fn lemma_box_term_zero(
    cells: Seq<Cell>,
    size: FieldSize,
    x: int,
    y: int,
    f: spec_fn(Cell) -> bool,
)
    requires
        size.wf(),
        cells.len() == size.area(),
        forall|i: int| 0 <= i < cells.len() ==> !f(#[trigger] cells[i]),
    ensures
        box_term(cells, size, x, y, f) == 0,
{
    if 0 <= x < size.width && 0 <= y < size.height {
        let q = Point { x: x as u32, y: y as u32 };
        lemma_idx_bounds(size, q);
        assert(size.idx(q) == y * size.width + x);
    }
}

/// The box count only looks at cells of the grid, so grids whose cells
/// satisfy `f` in the same places have the same count.
pub proof fn lemma_box_count_congruent(
    cells1: Seq<Cell>,
    cells2: Seq<Cell>,
    size: FieldSize,
    p: Point,
    f: spec_fn(Cell) -> bool,
)
    requires
        size.wf(),
        cells1.len() == size.area(),
        cells2.len() == size.area(),
        forall|i: int| 0 <= i < cells1.len() ==> f(#[trigger] cells1[i]) == f(cells2[i]),
    ensures
        box_count(cells1, size, p, f) == box_count(cells2, size, p, f),
{
    let x = p.x as int;
    let y = p.y as int;
    lemma_box_term_congruent(cells1, cells2, size, x - 1, y, f);
    lemma_box_term_congruent(cells1, cells2, size, x + 1, y, f);
    lemma_box_term_congruent(cells1, cells2, size, x, y - 1, f);
    lemma_box_term_congruent(cells1, cells2, size, x, y + 1, f);
    lemma_box_term_congruent(cells1, cells2, size, x - 1, y - 1, f);
    lemma_box_term_congruent(cells1, cells2, size, x + 1, y - 1, f);
    lemma_box_term_congruent(cells1, cells2, size, x - 1, y + 1, f);
    lemma_box_term_congruent(cells1, cells2, size, x + 1, y + 1, f);
}

/// One surrounding coordinate of the congruence argument above.
proof fn lemma_box_term_congruent(
    cells1: Seq<Cell>,
    cells2: Seq<Cell>,
    size: FieldSize,
    x: int,
    y: int,
    f: spec_fn(Cell) -> bool,
)
    requires
        size.wf(),
        cells1.len() == size.area(),
        cells2.len() == size.area(),
        forall|i: int| 0 <= i < cells1.len() ==> f(#[trigger] cells1[i]) == f(cells2[i]),
    ensures
        box_term(cells1, size, x, y, f) == box_term(cells2, size, x, y, f),
{
    if 0 <= x < size.width && 0 <= y < size.height {
        let q = Point { x: x as u32, y: y as u32 };
        lemma_idx_bounds(size, q);
        assert(size.idx(q) == y * size.width + x);
    }
}

/// How many of the points `ps` index a cell of `cells` satisfying `f`.
pub open spec fn count_points_matching(
    cells: Seq<Cell>,
    size: FieldSize,
    ps: Seq<Point>,
    f: spec_fn(Cell) -> bool,
) -> nat
    decreases ps.len(),
{
    if ps.len() == 0 {
        0
    } else {
        count_points_matching(cells, size, ps.drop_last(), f) + (if f(
            cells[size.idx(ps.last())],
        ) {
            1nat
        } else {
            0nat
        })
    }
}

/// Appending one point adds its cell's contribution to the count.
pub proof fn lemma_count_points_push(
    cells: Seq<Cell>,
    size: FieldSize,
    ps: Seq<Point>,
    f: spec_fn(Cell) -> bool,
    q: Point,
)
    ensures
        count_points_matching(cells, size, ps.push(q), f) == count_points_matching(
            cells,
            size,
            ps,
            f,
        ) + (if f(cells[size.idx(q)]) {
            1int
        } else {
            0int
        }),
{
    assert(ps.push(q).drop_last() =~= ps);
}

/// Counting over the neighbour list is counting over the neighbourhood box:
/// the list enumerates exactly the in-bounds surrounding coordinates.
pub proof fn lemma_count_points_box(
    cells: Seq<Cell>,
    size: FieldSize,
    p: Point,
    f: spec_fn(Cell) -> bool,
)
    requires
        size.wf(),
        size.contains(p),
    ensures
        count_points_matching(cells, size, neighbour_points(size, p), f) == box_count(
            cells,
            size,
            p,
            f,
        ),
{
    let x = p.x as int;
    let y = p.y as int;
    let w = Point { x: (p.x - 1) as u32, y: p.y };
    let e = Point { x: (p.x + 1) as u32, y: p.y };
    let n = Point { x: p.x, y: (p.y - 1) as u32 };
    let s = Point { x: p.x, y: (p.y + 1) as u32 };
    let nw = Point { x: (p.x - 1) as u32, y: (p.y - 1) as u32 };
    let ne = Point { x: (p.x + 1) as u32, y: (p.y - 1) as u32 };
    let sw = Point { x: (p.x - 1) as u32, y: (p.y + 1) as u32 };
    let se = Point { x: (p.x + 1) as u32, y: (p.y + 1) as u32 };
    let r0 = Seq::<Point>::empty();
    let r1 = if p.x > 0 { r0.push(w) } else { r0 };
    let r2 = if p.x < size.width - 1 { r1.push(e) } else { r1 };
    let r3 = if p.y > 0 { r2.push(n) } else { r2 };
    let r4 = if p.y < size.height - 1 { r3.push(s) } else { r3 };
    let r5 = if p.x > 0 && p.y > 0 { r4.push(nw) } else { r4 };
    let r6 = if p.x < size.width - 1 && p.y > 0 { r5.push(ne) } else { r5 };
    let r7 = if p.x > 0 && p.y < size.height - 1 { r6.push(sw) } else { r6 };
    let r8 = if p.x < size.width - 1 && p.y < size.height - 1 { r7.push(se) } else { r7 };
    assert(neighbour_points(size, p) == r8);
    if p.x > 0 {
        lemma_count_points_push(cells, size, r0, f, w);
        assert(size.idx(w) == y * size.width + (x - 1));
    }
    assert(count_points_matching(cells, size, r1, f) == box_term(cells, size, x - 1, y, f));
    if p.x < size.width - 1 {
        lemma_count_points_push(cells, size, r1, f, e);
        assert(size.idx(e) == y * size.width + (x + 1));
    }
    assert(count_points_matching(cells, size, r2, f) == count_points_matching(cells, size, r1, f)
        + box_term(cells, size, x + 1, y, f));
    if p.y > 0 {
        lemma_count_points_push(cells, size, r2, f, n);
        assert(size.idx(n) == (y - 1) * size.width + x);
    }
    assert(count_points_matching(cells, size, r3, f) == count_points_matching(cells, size, r2, f)
        + box_term(cells, size, x, y - 1, f));
    if p.y < size.height - 1 {
        lemma_count_points_push(cells, size, r3, f, s);
        assert(size.idx(s) == (y + 1) * size.width + x);
    }
    assert(count_points_matching(cells, size, r4, f) == count_points_matching(cells, size, r3, f)
        + box_term(cells, size, x, y + 1, f));
    if p.x > 0 && p.y > 0 {
        lemma_count_points_push(cells, size, r4, f, nw);
        assert(size.idx(nw) == (y - 1) * size.width + (x - 1));
    }
    assert(count_points_matching(cells, size, r5, f) == count_points_matching(cells, size, r4, f)
        + box_term(cells, size, x - 1, y - 1, f));
    if p.x < size.width - 1 && p.y > 0 {
        lemma_count_points_push(cells, size, r5, f, ne);
        assert(size.idx(ne) == (y - 1) * size.width + (x + 1));
    }
    assert(count_points_matching(cells, size, r6, f) == count_points_matching(cells, size, r5, f)
        + box_term(cells, size, x + 1, y - 1, f));
    if p.x > 0 && p.y < size.height - 1 {
        lemma_count_points_push(cells, size, r6, f, sw);
        assert(size.idx(sw) == (y + 1) * size.width + (x - 1));
    }
    assert(count_points_matching(cells, size, r7, f) == count_points_matching(cells, size, r6, f)
        + box_term(cells, size, x - 1, y + 1, f));
    if p.x < size.width - 1 && p.y < size.height - 1 {
        lemma_count_points_push(cells, size, r7, f, se);
        assert(size.idx(se) == (y + 1) * size.width + (x + 1));
    }
    assert(count_points_matching(cells, size, r8, f) == count_points_matching(cells, size, r7, f)
        + box_term(cells, size, x + 1, y + 1, f));
}

/// One list is the start of the other.
pub open spec fn seq_prefix(s: Seq<Point>, t: Seq<Point>) -> bool {
    s.len() <= t.len() && forall|j: int| 0 <= j < s.len() ==> s[j] == #[trigger] t[j]
}

proof fn lemma_prefix_contains(s: Seq<Point>, t: Seq<Point>, q: Point)
    requires
        seq_prefix(s, t),
        s.contains(q),
    ensures
        t.contains(q),
{
    let j = choose|j: int| 0 <= j < s.len() && s[j] == q;
    assert(t[j] == q);
}

/// The neighbour list of an in-bounds point holds exactly the points the
/// `is_neighbour` relation admits, and there are at most eight of them.
pub proof fn lemma_neighbour_points_wf(size: FieldSize, p: Point)
    requires
        size.wf(),
        size.contains(p),
    ensures
        forall|j: int|
            0 <= j < neighbour_points(size, p).len() ==> is_neighbour(
                size,
                p,
                #[trigger] neighbour_points(size, p)[j],
            ),
        forall|q: Point| is_neighbour(size, p, q) ==> neighbour_points(size, p).contains(q),
        neighbour_points(size, p).len() <= 8,
{
    let ps = neighbour_points(size, p);
    let x = p.x as int;
    let y = p.y as int;
    let w = Point { x: (p.x - 1) as u32, y: p.y };
    let e = Point { x: (p.x + 1) as u32, y: p.y };
    let n = Point { x: p.x, y: (p.y - 1) as u32 };
    let s = Point { x: p.x, y: (p.y + 1) as u32 };
    let nw = Point { x: (p.x - 1) as u32, y: (p.y - 1) as u32 };
    let ne = Point { x: (p.x + 1) as u32, y: (p.y - 1) as u32 };
    let sw = Point { x: (p.x - 1) as u32, y: (p.y + 1) as u32 };
    let se = Point { x: (p.x + 1) as u32, y: (p.y + 1) as u32 };
    let r0 = Seq::<Point>::empty();
    let r1 = if p.x > 0 { r0.push(w) } else { r0 };
    let r2 = if p.x < size.width - 1 { r1.push(e) } else { r1 };
    let r3 = if p.y > 0 { r2.push(n) } else { r2 };
    let r4 = if p.y < size.height - 1 { r3.push(s) } else { r3 };
    let r5 = if p.x > 0 && p.y > 0 { r4.push(nw) } else { r4 };
    let r6 = if p.x < size.width - 1 && p.y > 0 { r5.push(ne) } else { r5 };
    let r7 = if p.x > 0 && p.y < size.height - 1 { r6.push(sw) } else { r6 };
    let r8 = if p.x < size.width - 1 && p.y < size.height - 1 { r7.push(se) } else { r7 };
    assert(ps == r8);
    assert(seq_prefix(r1, r2));
    assert(seq_prefix(r2, r3));
    assert(seq_prefix(r3, r4));
    assert(seq_prefix(r4, r5));
    assert(seq_prefix(r5, r6));
    assert(seq_prefix(r6, r7));
    assert(seq_prefix(r7, r8));
    assert(seq_prefix(r6, r8));
    assert(seq_prefix(r5, r8));
    assert(seq_prefix(r4, r8));
    assert(seq_prefix(r3, r8));
    assert(seq_prefix(r2, r8));
    assert(seq_prefix(r1, r8));
    assert forall|q: Point| is_neighbour(size, p, q) implies ps.contains(q) by {
        let qx = q.x as int;
        let qy = q.y as int;
        if qy == y && qx == x - 1 {
            assert(q == w);
            assert(r1.contains(w)) by {
                assert(r1 == r0.push(w));
                assert(r1[0] == w);
            }
            lemma_prefix_contains(r1, r8, q);
        } else if qy == y && qx == x + 1 {
            assert(q == e);
            assert(r2.contains(e)) by {
                assert(r2 == r1.push(e));
                assert(r2[r1.len() as int] == e);
            }
            lemma_prefix_contains(r2, r8, q);
        } else if qy == y - 1 && qx == x {
            assert(q == n);
            assert(r3.contains(n)) by {
                assert(r3 == r2.push(n));
                assert(r3[r2.len() as int] == n);
            }
            lemma_prefix_contains(r3, r8, q);
        } else if qy == y + 1 && qx == x {
            assert(q == s);
            assert(r4.contains(s)) by {
                assert(r4 == r3.push(s));
                assert(r4[r3.len() as int] == s);
            }
            lemma_prefix_contains(r4, r8, q);
        } else if qy == y - 1 && qx == x - 1 {
            assert(q == nw);
            assert(r5.contains(nw)) by {
                assert(r5 == r4.push(nw));
                assert(r5[r4.len() as int] == nw);
            }
            lemma_prefix_contains(r5, r8, q);
        } else if qy == y - 1 && qx == x + 1 {
            assert(q == ne);
            assert(r6.contains(ne)) by {
                assert(r6 == r5.push(ne));
                assert(r6[r5.len() as int] == ne);
            }
            lemma_prefix_contains(r6, r8, q);
        } else if qy == y + 1 && qx == x - 1 {
            assert(q == sw);
            assert(r7.contains(sw)) by {
                assert(r7 == r6.push(sw));
                assert(r7[r6.len() as int] == sw);
            }
            lemma_prefix_contains(r7, r8, q);
        } else {
            assert(qy == y + 1 && qx == x + 1);
            assert(q == se);
            assert(r8.contains(se)) by {
                assert(r8 == r7.push(se));
                assert(r8[r7.len() as int] == se);
            }
        }
    }
}

// ------------------------------------------------------------------
// The field's invariants
// ------------------------------------------------------------------

impl Field {
    /// The cell at in-bounds coordinate `p`.
    pub open spec fn cell(self, p: Point) -> Cell {
        self.cells@[self.size.idx(p)]
    }

    /// Number of mines in the edge-clipped Moore neighbourhood of `p`.
    pub open spec fn neighbour_mines(self, p: Point) -> nat {
        box_count(self.cells@, self.size, p, mine_pred())
    }

    /// Number of flagged cells in the edge-clipped Moore neighbourhood of
    /// `p`.
    pub open spec fn neighbour_flags(self, p: Point) -> nat {
        box_count(self.cells@, self.size, p, flagged_pred())
    }

    /// Structural well-formedness: a usable size, a grid of exactly
    /// `width x height` cells each knowing its own coordinate and carrying a
    /// legal content, and counters that equal the number of flagged and
    /// opened cells.
    pub open spec fn wf(self) -> bool {
        &&& self.size.wf()
        &&& self.cells@.len() == self.size.area()
        &&& forall|p: Point| self.size.contains(p) ==> (#[trigger] self.cell(p)).position == p
        &&& forall|p: Point| self.size.contains(p) ==> (#[trigger] self.cell(p)).wf()
        &&& self.flags == count_flagged(self.cells@)
        &&& self.opened == count_opened(self.cells@)
    }

    /// Every non-mine cell's content records exactly the number of mines in
    /// its neighbourhood (zero is represented by `Empty`).
    pub open spec fn numbers_wf(self) -> bool {
        forall|p: Point|
            self.size.contains(p) && (#[trigger] self.cell(p)).content != CellContent::Mine
                ==> self.cell(p).content == content_for_count(self.neighbour_mines(p))
    }

    /// No mine has been opened.
    pub open spec fn no_opened_mine(self) -> bool {
        forall|p: Point|
            self.size.contains(p) && (#[trigger] self.cell(p)).content == CellContent::Mine
                ==> self.cell(p).state != CellState::Opened
    }
}

/// The content a non-mine cell carries for a given neighbour-mine count.
pub open spec fn content_for_count(n: nat) -> CellContent {
    if n == 0 {
        CellContent::Empty
    } else {
        CellContent::Number(n as u8)
    }
}

// ------------------------------------------------------------------
// Getters
// ------------------------------------------------------------------

impl Field {
    /// The configured number of mines.
    pub fn mines(&self) -> (n: u32)
        ensures
            n == self.size.mines,
    {
        self.size.mines
    }

    /// How many cells are currently flagged.
    pub fn flags(&self) -> (n: u32)
        ensures
            n == self.flags,
    {
        self.flags
    }

    /// How many safe (non-mine) cells are still unopened:
    /// `width * height - mines - opened`.
    pub fn cells_left(&self) -> (n: u32)
        requires
            self.wf(),
            self.opened + self.size.mines <= self.size.area(),
        ensures
            n == self.size.area() - self.size.mines - self.opened,
    {
        self.size.width * self.size.height - self.size.mines - self.opened
    }

    /// Shared access to the cell at `(x, y)`.
    pub fn cell_at(&self, x: u32, y: u32) -> (c: &Cell)
        requires
            self.size.wf(),
            self.cells@.len() == self.size.area(),
            self.size.contains(Point { x, y }),
        ensures
            *c == self.cell(Point { x, y }),
    {
        proof {
            lemma_idx_bounds(self.size, Point { x, y });
        }
        &self.cells[(y as usize) * (self.size.width as usize) + (x as usize)]
    }

    /// Shared access to the cell at `point`.
    pub fn cell_at_point(&self, point: Point) -> (c: &Cell)
        requires
            self.size.wf(),
            self.cells@.len() == self.size.area(),
            self.size.contains(point),
        ensures
            *c == self.cell(point),
    {
        self.cell_at(point.x, point.y)
    }

    /// Replace the cell at `point`.
    fn set_cell(&mut self, point: Point, c: Cell)
        requires
            old(self).size.wf(),
            old(self).cells@.len() == old(self).size.area(),
            old(self).size.contains(point),
        ensures
            final(self).cells@ == old(self).cells@.update(old(self).size.idx(point), c),
            final(self).size == old(self).size,
            final(self).flags == old(self).flags,
            final(self).opened == old(self).opened,
    {
        proof {
            lemma_idx_bounds(self.size, point);
        }
        self.cells[(point.y as usize) * (self.size.width as usize) + (point.x as usize)] = c;
    }
}

// ------------------------------------------------------------------
// Building a fresh grid
// ------------------------------------------------------------------

/// A row-major grid of closed, empty cells, each knowing its coordinate.
fn generate_cells(size: &FieldSize) -> (cells: Vec<Cell>)
    requires
        size.wf(),
    ensures
        cells@.len() == size.area(),
        forall|i: int|
            0 <= i < cells@.len() ==> (#[trigger] cells@[i]).state == CellState::Closed
                && cells@[i].content == CellContent::Empty,
        forall|p: Point| size.contains(p) ==> cells@[size.idx(p)].position == p,
{
    let mut cells: Vec<Cell> = Vec::new();
    let mut y: u32 = 0;
    while y < size.height
        invariant
            size.wf(),
            y <= size.height,
            cells@.len() == y * size.width,
            forall|i: int|
                0 <= i < cells@.len() ==> (#[trigger] cells@[i]).state == CellState::Closed
                    && cells@[i].content == CellContent::Empty,
            forall|p: Point|
                size.contains(p) && size.idx(p) < cells@.len() ==> cells@[size.idx(p)].position
                    == p,
        decreases size.height - y,
    {
        let mut x: u32 = 0;
        while x < size.width
            invariant
                size.wf(),
                y < size.height,
                x <= size.width,
                cells@.len() == y * size.width + x,
                forall|i: int|
                    0 <= i < cells@.len() ==> (#[trigger] cells@[i]).state == CellState::Closed
                        && cells@[i].content == CellContent::Empty,
                forall|p: Point|
                    size.contains(p) && size.idx(p) < cells@.len() ==> cells@[size.idx(p)].position
                        == p,
            decreases size.width - x,
        {
            let p = Point { x, y };
            cells.push(Cell::new(p));
            proof {
                assert forall|q: Point|
                    size.contains(q) && size.idx(q) < cells@.len() implies cells@[size.idx(
                    q,
                )].position == q by {
                    if size.idx(q) == cells@.len() - 1 {
                        lemma_idx_injective(*size, q, p);
                    }
                }
            }
            x = x + 1;
        }
        y = y + 1;
        proof {
            assert(cells@.len() == (y - 1) * size.width + size.width);
            assert((y - 1) * size.width + size.width == y * size.width) by (nonlinear_arith);
        }
    }
    proof {
        assert(y == size.height);
        assert(cells@.len() == y * size.width);
        assert(size.area() == size.width * size.height);
        assert(cells@.len() == size.area());
        assert forall|p: Point| size.contains(p) implies size.idx(p) < cells@.len() by {
            lemma_idx_bounds(*size, p);
        }
    }
    cells
}

/// A grid of closed, empty, correctly placed cells with zeroed counters is
/// well formed, carries no mines, and has all its numbers consistent.
proof fn lemma_fresh_field(f: Field)
    requires
        f.size.wf(),
        f.cells@.len() == f.size.area(),
        forall|i: int|
            0 <= i < f.cells@.len() ==> (#[trigger] f.cells@[i]).state == CellState::Closed
                && f.cells@[i].content == CellContent::Empty,
        forall|p: Point| f.size.contains(p) ==> f.cells@[f.size.idx(p)].position == p,
        f.flags == 0,
        f.opened == 0,
    ensures
        f.wf(),
        f.numbers_wf(),
        f.no_opened_mine(),
        count_mines(f.cells@) == 0,
{
    lemma_count_zero(f.cells@, opened_pred());
    lemma_count_zero(f.cells@, flagged_pred());
    lemma_count_zero(f.cells@, mine_pred());
    assert forall|p: Point|
        f.size.contains(p) implies (#[trigger] f.cell(p)).content == CellContent::Empty && f.cell(
        p,
    ).state == CellState::Closed by {
        lemma_idx_bounds(f.size, p);
    }
    assert forall|p: Point|
        f.size.contains(p) && (#[trigger] f.cell(p)).content != CellContent::Mine implies f.cell(
        p,
    ).content == content_for_count(f.neighbour_mines(p)) by {
        let x = p.x as int;
        let y = p.y as int;
        lemma_box_term_zero(f.cells@, f.size, x - 1, y, mine_pred());
        lemma_box_term_zero(f.cells@, f.size, x + 1, y, mine_pred());
        lemma_box_term_zero(f.cells@, f.size, x, y - 1, mine_pred());
        lemma_box_term_zero(f.cells@, f.size, x, y + 1, mine_pred());
        lemma_box_term_zero(f.cells@, f.size, x - 1, y - 1, mine_pred());
        lemma_box_term_zero(f.cells@, f.size, x + 1, y - 1, mine_pred());
        lemma_box_term_zero(f.cells@, f.size, x - 1, y + 1, mine_pred());
        lemma_box_term_zero(f.cells@, f.size, x + 1, y + 1, mine_pred());
        assert(f.neighbour_mines(p) == 0);
    }
}

// ------------------------------------------------------------------
// Construction and reset
// ------------------------------------------------------------------

impl Field {
    /// A fresh field: every cell closed and empty, no mines placed yet,
    /// counters zeroed.
    pub fn new(size: FieldSize) -> (f: Field)
        requires
            size.wf(),
        ensures
            f.wf(),
            f.numbers_wf(),
            f.no_opened_mine(),
            f.size == size,
            f.flags == 0,
            f.opened == 0,
            count_mines(f.cells@) == 0,
            forall|p: Point|
                size.contains(p) ==> (#[trigger] f.cell(p)).state == CellState::Closed,
    {
        let cells = generate_cells(&size);
        let f = Field { cells, size, flags: 0, opened: 0 };
        proof {
            lemma_fresh_field(f);
            assert forall|p: Point| size.contains(p) implies (#[trigger] f.cell(p)).state
                == CellState::Closed by {
                lemma_idx_bounds(size, p);
            }
        }
        f
    }

    /// Reinitialize the grid in place: new closed, empty cells, counters
    /// zeroed, no mines.
    pub fn reset(&mut self)
        requires
            old(self).wf(),
        ensures
            final(self).wf(),
            final(self).numbers_wf(),
            final(self).no_opened_mine(),
            final(self).size == old(self).size,
            final(self).flags == 0,
            final(self).opened == 0,
            count_mines(final(self).cells@) == 0,
            forall|p: Point|
                final(self).size.contains(p) ==> (#[trigger] final(self).cell(p)).state
                    == CellState::Closed,
    {
        self.cells = generate_cells(&self.size);
        self.flags = 0;
        self.opened = 0;
        proof {
            lemma_fresh_field(*self);
            assert forall|p: Point| self.size.contains(p) implies (#[trigger] self.cell(p)).state
                == CellState::Closed by {
                lemma_idx_bounds(self.size, p);
            }
        }
    }
}

// ------------------------------------------------------------------
// Neighbour enumeration and mine placement
// ------------------------------------------------------------------

impl Field {
    /// The in-bounds neighbours of `point`, in the order of
    /// `neighbour_points`.
    fn get_neighbours(&self, point: Point) -> (r: Vec<Point>)
        requires
            self.size.wf(),
            self.size.contains(point),
        ensures
            r@ == neighbour_points(self.size, point),
    {
        let mut neighbours: Vec<Point> = Vec::new();
        if point.x > 0 {
            neighbours.push(Point { x: point.x - 1, y: point.y });
        }
        if point.x < self.size.width - 1 {
            neighbours.push(Point { x: point.x + 1, y: point.y });
        }
        if point.y > 0 {
            neighbours.push(Point { x: point.x, y: point.y - 1 });
        }
        if point.y < self.size.height - 1 {
            neighbours.push(Point { x: point.x, y: point.y + 1 });
        }
        if point.x > 0 && point.y > 0 {
            neighbours.push(Point { x: point.x - 1, y: point.y - 1 });
        }
        if point.x < self.size.width - 1 && point.y > 0 {
            neighbours.push(Point { x: point.x + 1, y: point.y - 1 });
        }
        if point.x > 0 && point.y < self.size.height - 1 {
            neighbours.push(Point { x: point.x - 1, y: point.y + 1 });
        }
        if point.x < self.size.width - 1 && point.y < self.size.height - 1 {
            neighbours.push(Point { x: point.x + 1, y: point.y + 1 });
        }
        proof {
            assert(neighbours@ =~= neighbour_points(self.size, point));
        }
        neighbours
    }

    /// Every grid coordinate outside the row and column of `except`, in scan
    /// order, each exactly once.
    fn candidate_cells(&self, except: Point) -> (r: Vec<Point>)
        requires
            self.size.wf(),
            self.size.contains(except),
        ensures
            r@.len() == (self.size.width - 1) * (self.size.height - 1),
            forall|j: int|
                0 <= j < r@.len() ==> self.size.contains(#[trigger] r@[j]) && r@[j].x != except.x
                    && r@[j].y != except.y,
            forall|j1: int, j2: int|
                #![trigger r@[j1], r@[j2]]
                0 <= j1 < j2 < r@.len() ==> r@[j1] != r@[j2],
    {
        let mut r: Vec<Point> = Vec::new();
        let mut y: u32 = 0;
        while y < self.size.height
            invariant
                self.size.wf(),
                self.size.contains(except),
                y <= self.size.height,
                r@.len() == (if y <= except.y {
                    y as int
                } else {
                    y - 1
                }) * (self.size.width - 1),
                forall|j: int|
                    0 <= j < r@.len() ==> self.size.contains(#[trigger] r@[j]) && r@[j].x
                        != except.x && r@[j].y != except.y && r@[j].y < y,
                forall|j1: int, j2: int|
                    #![trigger r@[j1], r@[j2]]
                    0 <= j1 < j2 < r@.len() ==> r@[j1] != r@[j2],
            decreases self.size.height - y,
        {
            if y != except.y {
                let ghost rows: int = if y <= except.y {
                    y as int
                } else {
                    y - 1
                };
                let mut x: u32 = 0;
                while x < self.size.width
                    invariant
                        self.size.wf(),
                        self.size.contains(except),
                        y < self.size.height,
                        y != except.y,
                        x <= self.size.width,
                        rows == (if y <= except.y {
                            y as int
                        } else {
                            y - 1
                        }),
                        r@.len() == rows * (self.size.width - 1) + (if x <= except.x {
                            x as int
                        } else {
                            x - 1
                        }),
                        forall|j: int|
                            0 <= j < r@.len() ==> self.size.contains(#[trigger] r@[j]) && r@[j].x
                                != except.x && r@[j].y != except.y && (r@[j].y < y || (r@[j].y == y
                                && r@[j].x < x)),
                        forall|j1: int, j2: int|
                            #![trigger r@[j1], r@[j2]]
                            0 <= j1 < j2 < r@.len() ==> r@[j1] != r@[j2],
                    decreases self.size.width - x,
                {
                    if x != except.x {
                        r.push(Point { x, y });
                    }
                    x = x + 1;
                }
                y = y + 1;
                proof {
                    assert(r@.len() == rows * (self.size.width - 1) + (self.size.width - 1));
                    assert(rows * (self.size.width - 1) + (self.size.width - 1) == (rows + 1) * (
                    self.size.width - 1)) by (nonlinear_arith);
                }
            } else {
                y = y + 1;
            }
        }
        proof {
            assert(y == self.size.height);
            assert(r@.len() == (self.size.height - 1) * (self.size.width - 1));
            assert((self.size.height - 1) * (self.size.width - 1) == (self.size.width - 1) * (
            self.size.height - 1)) by (nonlinear_arith);
        }
        r
    }

    /// Place `size.mines` mines uniformly at random among the cells outside
    /// the row and column of `except`, on a grid of fresh closed, empty
    /// cells.
    fn randomize_mines(&mut self, except: Point)
        requires
            old(self).size.wf(),
            old(self).size.contains(except),
            old(self).cells@.len() == old(self).size.area(),
            forall|i: int|
                0 <= i < old(self).cells@.len() ==> (#[trigger] old(self).cells@[i]).state
                    == CellState::Closed && old(self).cells@[i].content == CellContent::Empty,
            forall|p: Point|
                old(self).size.contains(p) ==> (#[trigger] old(self).cell(p)).position == p,
        ensures
            final(self).size == old(self).size,
            final(self).flags == old(self).flags,
            final(self).opened == old(self).opened,
            final(self).cells@.len() == old(self).cells@.len(),
            forall|i: int|
                0 <= i < final(self).cells@.len() ==> (#[trigger] final(self).cells@[i]).state
                    == CellState::Closed && (final(self).cells@[i].content == CellContent::Empty
                    || final(self).cells@[i].content == CellContent::Mine),
            forall|p: Point|
                final(self).size.contains(p) ==> (#[trigger] final(self).cell(p)).position == p,
            count_mines(final(self).cells@) == final(self).size.mines,
            forall|p: Point|
                final(self).size.contains(p) && (p.x == except.x || p.y == except.y) ==> (
                #[trigger] final(self).cell(p)).content != CellContent::Mine,
    {
        let mut candidates = self.candidate_cells(except);
        let mut remaining = self.size.mines;
        proof {
            lemma_count_zero(self.cells@, mine_pred());
            assert((self.size.width - 1) * (self.size.height - 1) <= self.size.width
                * self.size.height) by (nonlinear_arith)
                requires
                    1 <= self.size.width,
                    1 <= self.size.height,
            ;
            assert forall|p: Point| self.size.contains(p) implies (#[trigger] self.cell(
                p,
            )).content == CellContent::Empty by {
                lemma_idx_bounds(self.size, p);
            }
        }
        while remaining > 0
            invariant
                self.size == old(self).size,
                self.size.wf(),
                self.size.contains(except),
                self.flags == old(self).flags,
                self.opened == old(self).opened,
                self.cells@.len() == self.size.area(),
                remaining <= self.size.mines,
                remaining <= candidates@.len(),
                candidates@.len() <= self.size.area(),
                count_mines(self.cells@) == self.size.mines - remaining,
                forall|i: int|
                    0 <= i < self.cells@.len() ==> (#[trigger] self.cells@[i]).state
                        == CellState::Closed && (self.cells@[i].content == CellContent::Empty
                        || self.cells@[i].content == CellContent::Mine),
                forall|p: Point|
                    self.size.contains(p) ==> (#[trigger] self.cell(p)).position == p,
                forall|p: Point|
                    self.size.contains(p) && (p.x == except.x || p.y == except.y) ==> (
                    #[trigger] self.cell(p)).content != CellContent::Mine,
                forall|j: int|
                    0 <= j < candidates@.len() ==> self.size.contains(#[trigger] candidates@[j])
                        && candidates@[j].x != except.x && candidates@[j].y != except.y
                        && self.cell(candidates@[j]).content != CellContent::Mine,
                forall|j1: int, j2: int|
                    #![trigger candidates@[j1], candidates@[j2]]
                    0 <= j1 < j2 < candidates@.len() ==> candidates@[j1] != candidates@[j2],
            decreases remaining,
        {
            let ghost prev = *self;
            let ghost prev_candidates = candidates@;
            let k = crate::rng::random_below(candidates.len() as u32) as usize;
            let point = candidates[k];
            let mut c = *self.cell_at_point(point);
            c.set_mine();
            self.set_cell(point, c);
            candidates.swap_remove(k);
            remaining = remaining - 1;
            proof {
                let i = prev.size.idx(point);
                lemma_idx_bounds(prev.size, point);
                assert(prev_candidates[k as int] == point);
                assert(prev.cell(point).position == point);
                assert(prev.cell(point).content != CellContent::Mine);
                lemma_count_update(prev.cells@, mine_pred(), i, c);
                assert forall|p: Point|
                    self.size.contains(p) && p != point implies #[trigger] self.cell(p)
                    == prev.cell(p) by {
                    lemma_idx_bounds(self.size, p);
                    if self.size.idx(p) == self.size.idx(point) {
                        lemma_idx_injective(self.size, p, point);
                    }
                }
                assert forall|j: int|
                    0 <= j < candidates@.len() implies self.size.contains(
                    #[trigger] candidates@[j],
                ) && candidates@[j].x != except.x && candidates@[j].y != except.y && self.cell(
                    candidates@[j],
                ).content != CellContent::Mine by {
                    let j0 = if j == k {
                        prev_candidates.len() - 1
                    } else {
                        j as int
                    };
                    assert(candidates@[j] == prev_candidates[j0]);
                    if j0 != k {
                        if j0 < k {
                            assert(prev_candidates[j0] != prev_candidates[k as int]);
                        } else {
                            assert(prev_candidates[k as int] != prev_candidates[j0]);
                        }
                    }
                    assert(candidates@[j] != point);
                }
                assert forall|j1: int, j2: int|
                    #![trigger candidates@[j1], candidates@[j2]]
                    0 <= j1 < j2 < candidates@.len() implies candidates@[j1]
                    != candidates@[j2] by {
                    let i1 = if j1 == k {
                        prev_candidates.len() - 1
                    } else {
                        j1
                    };
                    let i2 = if j2 == k {
                        prev_candidates.len() - 1
                    } else {
                        j2
                    };
                    assert(candidates@[j1] == prev_candidates[i1]);
                    assert(candidates@[j2] == prev_candidates[i2]);
                    if i1 < i2 {
                        assert(prev_candidates[i1] != prev_candidates[i2]);
                    } else {
                        assert(prev_candidates[i2] != prev_candidates[i1]);
                    }
                }
            }
        }
    }
}

// ------------------------------------------------------------------
// Computing and assigning the numbers
// ------------------------------------------------------------------

impl Field {
    /// How many of the neighbours of `point` hide a mine.
    fn mines_in_neighbours(&self, point: Point) -> (count: u8)
        requires
            self.size.wf(),
            self.cells@.len() == self.size.area(),
            self.size.contains(point),
        ensures
            count == self.neighbour_mines(point),
    {
        let neighbours = self.get_neighbours(point);
        proof {
            lemma_neighbour_points_wf(self.size, point);
        }
        let mut count: u8 = 0;
        let mut i: usize = 0;
        while i < neighbours.len()
            invariant
                self.size.wf(),
                self.cells@.len() == self.size.area(),
                self.size.contains(point),
                neighbours@ == neighbour_points(self.size, point),
                neighbours@.len() <= 8,
                forall|j: int|
                    0 <= j < neighbours@.len() ==> is_neighbour(
                        self.size,
                        point,
                        #[trigger] neighbours@[j],
                    ),
                i <= neighbours@.len(),
                count <= i,
                count == count_points_matching(
                    self.cells@,
                    self.size,
                    neighbours@.take(i as int),
                    mine_pred(),
                ),
            decreases neighbours@.len() - i,
        {
            let q = neighbours[i];
            proof {
                assert(neighbours@.take(i + 1).drop_last() =~= neighbours@.take(i as int));
                assert(neighbours@.take(i + 1).last() == neighbours@[i as int]);
                lemma_idx_bounds(self.size, q);
            }
            if self.cell_at_point(q).is_mine() {
                count = count + 1;
            }
            i = i + 1;
        }
        proof {
            assert(neighbours@.take(neighbours@.len() as int) =~= neighbours@);
            lemma_count_points_box(self.cells@, self.size, point, mine_pred());
        }
        count
    }

    /// How many of the neighbours of `point` are flagged.
    fn flags_in_neighbours(&self, point: Point) -> (count: u8)
        requires
            self.size.wf(),
            self.cells@.len() == self.size.area(),
            self.size.contains(point),
        ensures
            count == self.neighbour_flags(point),
    {
        let neighbours = self.get_neighbours(point);
        proof {
            lemma_neighbour_points_wf(self.size, point);
        }
        let mut count: u8 = 0;
        let mut i: usize = 0;
        while i < neighbours.len()
            invariant
                self.size.wf(),
                self.cells@.len() == self.size.area(),
                self.size.contains(point),
                neighbours@ == neighbour_points(self.size, point),
                neighbours@.len() <= 8,
                forall|j: int|
                    0 <= j < neighbours@.len() ==> is_neighbour(
                        self.size,
                        point,
                        #[trigger] neighbours@[j],
                    ),
                i <= neighbours@.len(),
                count <= i,
                count == count_points_matching(
                    self.cells@,
                    self.size,
                    neighbours@.take(i as int),
                    flagged_pred(),
                ),
            decreases neighbours@.len() - i,
        {
            let q = neighbours[i];
            proof {
                assert(neighbours@.take(i + 1).drop_last() =~= neighbours@.take(i as int));
                assert(neighbours@.take(i + 1).last() == neighbours@[i as int]);
                lemma_idx_bounds(self.size, q);
            }
            if self.cell_at_point(q).state() == CellState::Flagged {
                count = count + 1;
            }
            i = i + 1;
        }
        proof {
            assert(neighbours@.take(neighbours@.len() as int) =~= neighbours@);
            lemma_count_points_box(self.cells@, self.size, point, flagged_pred());
        }
        count
    }

    /// The neighbour-mine count of every coordinate, in a row-major flat
    /// table.
    fn calculate_numbers(&self) -> (numbers: Vec<u8>)
        requires
            self.size.wf(),
            self.cells@.len() == self.size.area(),
        ensures
            numbers@.len() == self.size.area(),
            forall|p: Point|
                self.size.contains(p) ==> numbers@[self.size.idx(p)] == self.neighbour_mines(p),
    {
        let mut numbers: Vec<u8> = Vec::new();
        let mut y: u32 = 0;
        while y < self.size.height
            invariant
                self.size.wf(),
                self.cells@.len() == self.size.area(),
                y <= self.size.height,
                numbers@.len() == y * self.size.width,
                forall|p: Point|
                    self.size.contains(p) && self.size.idx(p) < numbers@.len() ==> numbers@[self.size.idx(
                        p,
                    )] == self.neighbour_mines(p),
            decreases self.size.height - y,
        {
            let mut x: u32 = 0;
            while x < self.size.width
                invariant
                    self.size.wf(),
                    self.cells@.len() == self.size.area(),
                    y < self.size.height,
                    x <= self.size.width,
                    numbers@.len() == y * self.size.width + x,
                    forall|p: Point|
                        self.size.contains(p) && self.size.idx(p) < numbers@.len() ==> numbers@[self.size.idx(
                            p,
                        )] == self.neighbour_mines(p),
                decreases self.size.width - x,
            {
                let p = Point { x, y };
                let count = self.mines_in_neighbours(p);
                numbers.push(count);
                proof {
                    assert forall|q: Point|
                        self.size.contains(q) && self.size.idx(q) < numbers@.len() implies numbers@[self.size.idx(
                        q,
                    )] == self.neighbour_mines(q) by {
                        if self.size.idx(q) == numbers@.len() - 1 {
                            lemma_idx_injective(self.size, q, p);
                        }
                    }
                }
                x = x + 1;
            }
            y = y + 1;
            proof {
                assert(numbers@.len() == (y - 1) * self.size.width + self.size.width);
                assert((y - 1) * self.size.width + self.size.width == y * self.size.width)
                    by (nonlinear_arith);
            }
        }
        proof {
            assert(y == self.size.height);
            assert(numbers@.len() == y * self.size.width);
            assert(self.size.height * self.size.width == self.size.width * self.size.height)
                by (nonlinear_arith);
            assert(numbers@.len() == self.size.area());
            assert forall|p: Point| self.size.contains(p) implies self.size.idx(p)
                < numbers@.len() by {
                lemma_idx_bounds(self.size, p);
            }
        }
        numbers
    }

    /// Write the computed numbers into every non-mine cell.
    fn assign_numbers(&mut self, numbers: Vec<u8>)
        requires
            old(self).size.wf(),
            old(self).cells@.len() == old(self).size.area(),
            numbers@.len() == old(self).size.area(),
            forall|p: Point|
                old(self).size.contains(p) ==> numbers@[old(self).size.idx(p)] == old(
                    self,
                ).neighbour_mines(p),
        ensures
            final(self).size == old(self).size,
            final(self).flags == old(self).flags,
            final(self).opened == old(self).opened,
            final(self).cells@.len() == old(self).cells@.len(),
            forall|i: int|
                0 <= i < final(self).cells@.len() ==> (#[trigger] final(self).cells@[i]).state
                    == old(self).cells@[i].state && final(self).cells@[i].position == old(
                    self,
                ).cells@[i].position && ((final(self).cells@[i].content == CellContent::Mine) <==> (
                old(self).cells@[i].content == CellContent::Mine)),
            forall|p: Point|
                final(self).size.contains(p) && old(self).cell(p).content != CellContent::Mine
                    ==> (#[trigger] final(self).cell(p)).content == content_for_count(
                    old(self).neighbour_mines(p),
                ),
    {
        let ghost orig = *self;
        let mut y: u32 = 0;
        while y < self.size.height
            invariant
                self.size == orig.size,
                self.flags == orig.flags,
                self.opened == orig.opened,
                self.size.wf(),
                self.cells@.len() == orig.cells@.len(),
                orig.cells@.len() == self.size.area(),
                numbers@.len() == self.size.area(),
                forall|p: Point|
                    self.size.contains(p) ==> numbers@[self.size.idx(p)] == orig.neighbour_mines(
                        p,
                    ),
                y <= self.size.height,
                forall|i: int|
                    0 <= i < self.cells@.len() ==> (#[trigger] self.cells@[i]).state
                        == orig.cells@[i].state && self.cells@[i].position
                        == orig.cells@[i].position && ((self.cells@[i].content
                        == CellContent::Mine) <==> (orig.cells@[i].content == CellContent::Mine)),
                forall|i: int|
                    y * self.size.width <= i < self.cells@.len() ==> #[trigger] self.cells@[i]
                        == orig.cells@[i],
                forall|p: Point|
                    self.size.contains(p) && self.size.idx(p) < y * self.size.width && orig.cell(
                        p,
                    ).content != CellContent::Mine ==> (#[trigger] self.cell(p)).content
                        == content_for_count(orig.neighbour_mines(p)),
            decreases self.size.height - y,
        {
            let mut x: u32 = 0;
            while x < self.size.width
                invariant
                    self.size == orig.size,
                    self.flags == orig.flags,
                    self.opened == orig.opened,
                    self.size.wf(),
                    self.cells@.len() == orig.cells@.len(),
                    orig.cells@.len() == self.size.area(),
                    numbers@.len() == self.size.area(),
                    forall|p: Point|
                        self.size.contains(p) ==> numbers@[self.size.idx(p)]
                            == orig.neighbour_mines(p),
                    y < self.size.height,
                    x <= self.size.width,
                    forall|i: int|
                        0 <= i < self.cells@.len() ==> (#[trigger] self.cells@[i]).state
                            == orig.cells@[i].state && self.cells@[i].position
                            == orig.cells@[i].position && ((self.cells@[i].content
                            == CellContent::Mine) <==> (orig.cells@[i].content
                            == CellContent::Mine)),
                    forall|i: int|
                        y * self.size.width + x <= i < self.cells@.len() ==> #[trigger] self.cells@[i]
                            == orig.cells@[i],
                    forall|p: Point|
                        self.size.contains(p) && self.size.idx(p) < y * self.size.width + x
                            && orig.cell(p).content != CellContent::Mine ==> (
                        #[trigger] self.cell(p)).content == content_for_count(
                            orig.neighbour_mines(p),
                        ),
                decreases self.size.width - x,
            {
                let p = Point { x, y };
                proof {
                    lemma_idx_bounds(self.size, p);
                }
                let ghost before = *self;
                if !self.cell_at_point(p).is_mine() {
                    let mut c = *self.cell_at_point(p);
                    let n = numbers[(y as usize) * (self.size.width as usize) + (x as usize)];
                    proof {
                        assert(n == orig.neighbour_mines(p));
                        assert(orig.neighbour_mines(p) <= 8);
                    }
                    c.set_number(n);
                    self.set_cell(p, c);
                    proof {
                        assert(orig.cells@[orig.size.idx(p)].content != CellContent::Mine);
                        assert(self.cell(p).content == content_for_count(
                            orig.neighbour_mines(p),
                        ));
                    }
                } else {
                    proof {
                        assert(orig.cells@[orig.size.idx(p)].content == CellContent::Mine);
                    }
                }
                proof {
                    assert forall|q: Point|
                        self.size.contains(q) && self.size.idx(q) < y * self.size.width + x + 1
                            && orig.cell(q).content != CellContent::Mine implies (
                    #[trigger] self.cell(q)).content == content_for_count(
                        orig.neighbour_mines(q),
                    ) by {
                        lemma_idx_bounds(self.size, q);
                        assert(before.size == self.size);
                        if self.size.idx(q) == self.size.idx(p) {
                            lemma_idx_injective(self.size, q, p);
                            assert(q == p);
                        } else {
                            assert(self.size.idx(q) < y * self.size.width + x);
                            assert(self.cells@[self.size.idx(q)] == before.cells@[self.size.idx(
                                q,
                            )]);
                            assert(before.cell(q).content == content_for_count(
                                orig.neighbour_mines(q),
                            ));
                        }
                    }
                }
                x = x + 1;
            }
            y = y + 1;
            proof {
                assert((y - 1) * self.size.width + self.size.width == y * self.size.width)
                    by (nonlinear_arith);
            }
        }
        proof {
            assert(self.size.height * self.size.width == self.size.width * self.size.height)
                by (nonlinear_arith);
            assert forall|p: Point|
                self.size.contains(p) && orig.cell(p).content != CellContent::Mine implies (
            #[trigger] self.cell(p)).content == content_for_count(orig.neighbour_mines(p)) by {
                lemma_idx_bounds(self.size, p);
                assert(self.size.idx(p) < self.size.height * self.size.width);
            }
        }
    }

    /// Lazy first-click placement: regenerate the grid, zero the counters,
    /// place the mines at random outside the row and column of `except_pos`,
    /// and compute every number.
    pub fn init(&mut self, except_pos: Point)
        requires
            old(self).wf(),
            old(self).size.contains(except_pos),
        ensures
            init_post(*final(self), old(self).size, except_pos),
    {
        self.cells = generate_cells(&self.size);
        self.flags = 0;
        self.opened = 0;
        self.randomize_mines(except_pos);
        let ghost placed = *self;
        let numbers = self.calculate_numbers();
        self.assign_numbers(numbers);
        proof {
            lemma_count_zero(self.cells@, opened_pred());
            lemma_count_zero(self.cells@, flagged_pred());
            lemma_count_congruent(placed.cells@, self.cells@, mine_pred());
            assert forall|p: Point| self.size.contains(p) implies #[trigger] self.neighbour_mines(
                p,
            ) == placed.neighbour_mines(p) by {
                lemma_box_count_congruent(placed.cells@, self.cells@, self.size, p, mine_pred());
            }
            assert forall|p: Point|
                self.size.contains(p) implies (#[trigger] self.cell(p)).position == p && self.cell(
                p,
            ).state == CellState::Closed && self.cell(p).wf() by {
                lemma_idx_bounds(self.size, p);
                assert(placed.cell(p).position == p);
                assert(self.neighbour_mines(p) <= 8);
            }
            assert forall|p: Point|
                self.size.contains(p) && (#[trigger] self.cell(p)).content != CellContent::Mine
                    implies self.cell(p).content == content_for_count(
                self.neighbour_mines(p),
            ) by {
                lemma_idx_bounds(self.size, p);
                assert((self.cells@[self.size.idx(p)].content == CellContent::Mine) <==> (
                placed.cells@[self.size.idx(p)].content == CellContent::Mine));
                assert(placed.cell(p).content != CellContent::Mine);
                assert(self.cell(p).content == content_for_count(placed.neighbour_mines(p)));
            }
        }
    }
}

// ------------------------------------------------------------------
// The flood-fill reveal
// ------------------------------------------------------------------

/// `q` can be reached from `start` in at most `n` cascade steps on the
/// grid `pre`: either `q` neighbours `start` itself, or `q` neighbours a
/// closed empty cell that can be reached in fewer steps.
pub open spec fn cascade_reach(pre: Field, start: Point, q: Point, n: nat) -> bool
    decreases n,
{
    if is_neighbour(pre.size, start, q) {
        true
    } else if n == 0 {
        false
    } else {
        exists|m: Point|
            #![trigger pre.cell(m), is_neighbour(pre.size, m, q)]
            pre.size.contains(m) && pre.cell(m).state == CellState::Closed && pre.cell(m).content
                == CellContent::Empty && cascade_reach(pre, start, m, (n - 1) as nat)
                && is_neighbour(pre.size, m, q)
    }
}

/// How a flood-fill reveal on `start` relates the field before (`pre`) and
/// after (`post`):
/// - size and flag counter are untouched, contents and positions of every
///   cell are untouched, and a cell's state changes only from `Closed` to
///   `Opened`;
/// - no closed neighbour of `start` is left, and no newly opened empty cell
///   has a closed neighbour left (so the reveal is closed under connected
///   empty regions);
/// - every newly opened cell is reachable from `start` through cells that
///   were closed and empty before the call.
pub open spec fn cascade_post(pre: Field, post: Field, start: Point) -> bool {
    &&& post.size == pre.size
    &&& post.flags == pre.flags
    &&& post.cells@.len() == pre.cells@.len()
    &&& forall|i: int|
        0 <= i < post.cells@.len() ==> (#[trigger] post.cells@[i]).content
            == pre.cells@[i].content && post.cells@[i].position == pre.cells@[i].position && (
        post.cells@[i].state == pre.cells@[i].state || (pre.cells@[i].state == CellState::Closed
            && post.cells@[i].state == CellState::Opened))
    &&& forall|q: Point|
        is_neighbour(pre.size, start, q) ==> (#[trigger] post.cell(q)).state != CellState::Closed
    &&& forall|q: Point, r: Point|
        #![trigger post.cell(q), post.cell(r)]
        pre.size.contains(q) && pre.cell(q).state == CellState::Closed && post.cell(q).state
            == CellState::Opened && post.cell(q).content == CellContent::Empty && is_neighbour(
            pre.size,
            q,
            r,
        ) ==> post.cell(r).state != CellState::Closed
    &&& forall|q: Point|
        pre.size.contains(q) && pre.cell(q).state == CellState::Closed && (#[trigger] post.cell(
            q,
        )).state == CellState::Opened ==> exists|n: nat| cascade_reach(pre, start, q, n)
}

impl Field {
    /// Open the closed cell at `point`, counting it.
    fn open_cell_at(&mut self, point: Point)
        requires
            old(self).size.wf(),
            old(self).cells@.len() == old(self).size.area(),
            old(self).size.contains(point),
            old(self).cell(point).state == CellState::Closed,
            old(self).opened == count_opened(old(self).cells@),
            old(self).flags == count_flagged(old(self).cells@),
        ensures
            final(self).size == old(self).size,
            final(self).flags == old(self).flags,
            final(self).cells@ == old(self).cells@.update(
                old(self).size.idx(point),
                (Cell { state: CellState::Opened, ..old(self).cell(point) }),
            ),
            final(self).opened == old(self).opened + 1,
            final(self).opened == count_opened(final(self).cells@),
            final(self).flags == count_flagged(final(self).cells@),
    {
        proof {
            lemma_idx_bounds(self.size, point);
        }
        let mut c = *self.cell_at_point(point);
        c.open();
        proof {
            lemma_count_update(self.cells@, opened_pred(), self.size.idx(point), c);
            lemma_count_update(self.cells@, flagged_pred(), self.size.idx(point), c);
            lemma_count_le_len(self.cells@.update(self.size.idx(point), c), opened_pred());
        }
        self.set_cell(point, c);
        self.opened = self.opened + 1;
    }

    /// Flood-fill reveal: open every closed neighbour of `point`, and keep
    /// opening outwards through every newly opened empty cell, using an
    /// explicit worklist.  Returns `Exploded` if a mine was opened along the
    /// way, else `Opened`.
    ///
    /// A cell that is already opened is never acted on again: states only
    /// move from `Closed` to `Opened` (the frame clause of `cascade_post`),
    /// and `opened` stays the exact count of opened cells, so each cell is
    /// counted at most once per call.  The worklist loop terminates because
    /// every iteration either opens a cell or shortens the worklist.
    pub fn open_neighbours(&mut self, point: Point) -> (r: CellInteractionResult)
        requires
            old(self).wf(),
            old(self).size.contains(point),
        ensures
            final(self).wf(),
            cascade_post(*old(self), *final(self), point),
            old(self).numbers_wf() ==> final(self).numbers_wf(),
            (r == CellInteractionResult::Exploded <==> opened_a_mine(*old(self), *final(self))),
            r == CellInteractionResult::Exploded || r == CellInteractionResult::Opened,
    {
        let mut exploded = false;
        let mut stack: Vec<Point> = Vec::new();
        stack.push(point);
        proof {
            assert(stack@[0] == point);
            lemma_count_le_len(self.cells@, opened_pred());
        }
        while stack.len() > 0
            invariant
                self.size == old(self).size,
                self.flags == old(self).flags,
                self.size.wf(),
                self.size.contains(point),
                self.cells@.len() == old(self).cells@.len(),
                old(self).cells@.len() == self.size.area(),
                self.opened == count_opened(self.cells@),
                self.flags == count_flagged(self.cells@),
                forall|p: Point|
                    self.size.contains(p) ==> (#[trigger] self.cell(p)).position == p,
                forall|p: Point| self.size.contains(p) ==> (#[trigger] self.cell(p)).wf(),
                forall|i: int|
                    0 <= i < self.cells@.len() ==> (#[trigger] self.cells@[i]).content == old(
                        self,
                    ).cells@[i].content && self.cells@[i].position == old(self).cells@[i].position
                        && (self.cells@[i].state == old(self).cells@[i].state || (old(
                        self,
                    ).cells@[i].state == CellState::Closed && self.cells@[i].state
                        == CellState::Opened)),
                forall|j: int|
                    0 <= j < stack@.len() ==> #[trigger] stack@[j] == point || (self.size.contains(
                        stack@[j],
                    ) && old(self).cell(stack@[j]).state == CellState::Closed && self.cell(
                        stack@[j],
                    ).state == CellState::Opened && self.cell(stack@[j]).content
                        == CellContent::Empty && exists|n: nat|
                        cascade_reach(*old(self), point, stack@[j], n)),
                forall|q: Point, r: Point|
                    #![trigger self.cell(q), self.cell(r)]
                    self.size.contains(q) && old(self).cell(q).state == CellState::Closed
                        && self.cell(q).state == CellState::Opened && self.cell(q).content
                        == CellContent::Empty && !stack@.contains(q) && is_neighbour(
                        self.size,
                        q,
                        r,
                    ) ==> self.cell(r).state != CellState::Closed,
                !stack@.contains(point) ==> (forall|r: Point|
                    is_neighbour(self.size, point, r) ==> (#[trigger] self.cell(r)).state
                        != CellState::Closed),
                forall|q: Point|
                    self.size.contains(q) && old(self).cell(q).state == CellState::Closed && (
                    #[trigger] self.cell(q)).state == CellState::Opened ==> exists|n: nat|
                        cascade_reach(*old(self), point, q, n),
                exploded <==> exists|q: Point|
                    self.size.contains(q) && old(self).cell(q).state == CellState::Closed && (
                    #[trigger] self.cell(q)).state == CellState::Opened && self.cell(q).content
                        == CellContent::Mine,
            decreases self.cells@.len() - self.opened, stack@.len(),
        {
            let ghost stack_before = stack@;
            let p = stack.pop().unwrap();
            proof {
                assert(stack_before =~= stack@.push(p));
                assert forall|q: Point| stack@.contains(q) implies stack_before.contains(q) by {
                    let j = choose|j: int| 0 <= j < stack@.len() && stack@[j] == q;
                    assert(stack_before[j] == q);
                }
            }
            let neighbours = self.get_neighbours(p);
            proof {
                lemma_neighbour_points_wf(self.size, p);
            }
            let ghost opened0 = self.opened;
            let ghost stacklen0 = stack@.len();
            let mut i: usize = 0;
            while i < neighbours.len()
                invariant
                    self.size == old(self).size,
                    self.flags == old(self).flags,
                    self.size.wf(),
                    self.size.contains(point),
                    self.cells@.len() == old(self).cells@.len(),
                    old(self).cells@.len() == self.size.area(),
                    self.opened == count_opened(self.cells@),
                    self.flags == count_flagged(self.cells@),
                    i <= neighbours@.len(),
                    neighbours@ == neighbour_points(self.size, p),
                    p == point || (self.size.contains(p) && old(self).cell(p).state
                        == CellState::Closed && self.cell(p).content == CellContent::Empty
                        && exists|n: nat| cascade_reach(*old(self), point, p, n)),
                    self.size.contains(p),
                    forall|j: int|
                        0 <= j < neighbours@.len() ==> is_neighbour(
                            self.size,
                            p,
                            #[trigger] neighbours@[j],
                        ),
                    forall|q: Point|
                        is_neighbour(self.size, p, q) ==> neighbours@.contains(q),
                    forall|j: int|
                        0 <= j < i ==> (#[trigger] self.cell(neighbours@[j])).state
                            != CellState::Closed,
                    forall|p2: Point|
                        self.size.contains(p2) ==> (#[trigger] self.cell(p2)).position == p2,
                    forall|p2: Point| self.size.contains(p2) ==> (#[trigger] self.cell(p2)).wf(),
                    forall|i2: int|
                        0 <= i2 < self.cells@.len() ==> (#[trigger] self.cells@[i2]).content
                            == old(self).cells@[i2].content && self.cells@[i2].position == old(
                            self,
                        ).cells@[i2].position && (self.cells@[i2].state
                            == old(self).cells@[i2].state || (old(self).cells@[i2].state
                            == CellState::Closed && self.cells@[i2].state == CellState::Opened)),
                    forall|j: int|
                        0 <= j < stack@.len() ==> #[trigger] stack@[j] == point || (
                        self.size.contains(stack@[j]) && old(self).cell(stack@[j]).state
                            == CellState::Closed && self.cell(stack@[j]).state
                            == CellState::Opened && self.cell(stack@[j]).content
                            == CellContent::Empty && exists|n: nat|
                            cascade_reach(*old(self), point, stack@[j], n)),
                    forall|q: Point, r: Point|
                        #![trigger self.cell(q), self.cell(r)]
                        self.size.contains(q) && old(self).cell(q).state == CellState::Closed
                            && self.cell(q).state == CellState::Opened && self.cell(q).content
                            == CellContent::Empty && !stack@.contains(q) && q != p && is_neighbour(
                            self.size,
                            q,
                            r,
                        ) ==> self.cell(r).state != CellState::Closed,
                    !stack@.contains(point) && point != p ==> (forall|r: Point|
                        is_neighbour(self.size, point, r) ==> (#[trigger] self.cell(r)).state
                            != CellState::Closed),
                    forall|q: Point|
                        self.size.contains(q) && old(self).cell(q).state == CellState::Closed && (
                        #[trigger] self.cell(q)).state == CellState::Opened ==> exists|n: nat|
                            cascade_reach(*old(self), point, q, n),
                    exploded <==> exists|q: Point|
                        self.size.contains(q) && old(self).cell(q).state == CellState::Closed && (
                        #[trigger] self.cell(q)).state == CellState::Opened && self.cell(
                            q,
                        ).content == CellContent::Mine,
                    self.opened >= opened0,
                    stack@.len() >= stacklen0,
                    stack@.len() > stacklen0 ==> self.opened > opened0,
                decreases neighbours@.len() - i,
            {
                let q = neighbours[i];
                let ghost mid = *self;
                let ghost stack_mid = stack@;
                if self.cell_at_point(q).state() == CellState::Closed {
                    self.open_cell_at(q);
                    proof {
                        lemma_idx_bounds(mid.size, q);
                        assert(self.cells@.len() == mid.cells@.len());
                        assert(self.size == mid.size);
                    }
                    let is_mine = self.cell_at_point(q).is_mine();
                    if is_mine {
                        exploded = true;
                    }
                    if self.cell_at_point(q).is_empty() {
                        stack.push(q);
                    }
                    proof {
                        lemma_idx_bounds(self.size, q);
                        assert(mid.cells@[self.size.idx(q)].state == CellState::Closed);
                        assert(old(self).cell(q).state == CellState::Closed);
                        assert forall|p2: Point|
                            self.size.contains(p2) && p2 != q implies #[trigger] self.cell(p2)
                            == mid.cell(p2) by {
                            lemma_idx_bounds(self.size, p2);
                            if self.size.idx(p2) == self.size.idx(q) {
                                lemma_idx_injective(self.size, p2, q);
                            }
                        }
                        assert(self.cell(q).state == CellState::Opened);
                        assert(self.cell(q).content == mid.cell(q).content);
                        // the newly opened cell is reachable from the start
                        assert(exists|n: nat| cascade_reach(*old(self), point, q, n)) by {
                            if is_neighbour(self.size, point, q) {
                                assert(cascade_reach(*old(self), point, q, 0));
                            } else {
                                assert(is_neighbour(self.size, p, q));
                                assert(p != point);
                                lemma_idx_bounds(self.size, p);
                                assert(mid.cell(p).content == CellContent::Empty);
                                assert(mid.cells@[self.size.idx(p)].content == old(
                                    self,
                                ).cells@[self.size.idx(p)].content);
                                assert(old(self).cell(p).state == CellState::Closed
                                    && old(self).cell(p).content == CellContent::Empty);
                                let n = choose|n: nat| cascade_reach(*old(self), point, p, n);
                                assert(is_neighbour(old(self).size, p, q));
                                assert(cascade_reach(*old(self), point, q, n + 1));
                            }
                        }
                        // the result flag tracks whether a mine was opened
                        if is_mine {
                            assert(self.size.contains(q) && old(self).cell(q).state
                                == CellState::Closed && self.cell(q).state == CellState::Opened
                                && self.cell(q).content == CellContent::Mine);
                        } else {
                            if exploded {
                                let q3 = choose|q3: Point|
                                    self.size.contains(q3) && old(self).cell(q3).state
                                        == CellState::Closed && (#[trigger] mid.cell(q3)).state
                                        == CellState::Opened && mid.cell(q3).content
                                        == CellContent::Mine;
                                assert(q3 != q);
                                assert(self.cell(q3) == mid.cell(q3));
                                assert(self.size.contains(q3) && old(self).cell(q3).state
                                    == CellState::Closed && self.cell(q3).state
                                    == CellState::Opened && self.cell(q3).content
                                    == CellContent::Mine);
                            } else {
                                assert forall|q2: Point|
                                    self.size.contains(q2) && old(self).cell(q2).state
                                        == CellState::Closed && (#[trigger] self.cell(q2)).state
                                        == CellState::Opened implies self.cell(q2).content
                                    != CellContent::Mine by {
                                    lemma_idx_bounds(self.size, q2);
                                    if self.size.idx(q2) == self.size.idx(q) {
                                        lemma_idx_injective(self.size, q2, q);
                                    } else {
                                        assert(self.cells@[self.size.idx(q2)]
                                            == mid.cells@[self.size.idx(q2)]);
                                    }
                                }
                            }
                        }
                        // stack membership after a possible push
                        assert forall|q2: Point| stack_mid.contains(q2) implies stack@.contains(
                            q2,
                        ) by {
                            let j = choose|j: int|
                                0 <= j < stack_mid.len() && stack_mid[j] == q2;
                            assert(stack@[j] == q2);
                        }
                        if self.cell(q).content == CellContent::Empty {
                            assert(stack@[stack@.len() - 1] == q);
                            assert(stack@.contains(q));
                        }
                    }
                }
                i = i + 1;
            }
            proof {
                // every neighbour of the processed cell is now settled
                assert forall|r: Point| is_neighbour(self.size, p, r) implies (#[trigger] self.cell(
                    r,
                )).state != CellState::Closed by {
                    assert(neighbours@.contains(r));
                    let j = choose|j: int| 0 <= j < neighbours@.len() && neighbours@[j] == r;
                    assert(self.cell(neighbours@[j]).state != CellState::Closed);
                }
                lemma_count_le_len(self.cells@, opened_pred());
            }
        }
        proof {
            assert forall|p2: Point|
                self.size.contains(p2) && old(self).numbers_wf() && (#[trigger] self.cell(
                    p2,
                )).content != CellContent::Mine implies self.cell(p2).content == content_for_count(
                self.neighbour_mines(p2),
            ) by {
                lemma_idx_bounds(self.size, p2);
                lemma_box_count_congruent(
                    old(self).cells@,
                    self.cells@,
                    self.size,
                    p2,
                    mine_pred(),
                );
                assert(old(self).cell(p2).content == self.cell(p2).content);
            }
        }
        if exploded {
            CellInteractionResult::Exploded
        } else {
            CellInteractionResult::Opened
        }
    }
}

// ------------------------------------------------------------------
// Button dispatch
// ------------------------------------------------------------------

/// Nothing about the field changed.
pub open spec fn same_field(pre: Field, post: Field) -> bool {
    &&& post.cells@ == pre.cells@
    &&& post.size == pre.size
    &&& post.flags == pre.flags
    &&& post.opened == pre.opened
}

/// A chord on `p` fires: the cell is an opened number cell and exactly that
/// many of its neighbours are flagged.
pub open spec fn chord_applies(pre: Field, p: Point) -> bool {
    &&& pre.cell(p).state == CellState::Opened
    &&& pre.cell(p).content matches CellContent::Number(n) && pre.neighbour_flags(p) == n
}

/// A mine was opened by the call: some cell that was closed in `pre` is
/// opened in `post` and hides a mine.
pub open spec fn opened_a_mine(pre: Field, post: Field) -> bool {
    exists|q: Point|
        pre.size.contains(q) && pre.cell(q).state == CellState::Closed && (#[trigger] post.cell(
            q,
        )).state == CellState::Opened && post.cell(q).content == CellContent::Mine
}

/// How a left release on the closed cell `start` relates the field before
/// and after: `start` itself is opened, and if it was empty the reveal
/// cascades exactly as `cascade_post` describes, with `start` standing in
/// for the whole region.
pub open spec fn reveal_post(pre: Field, post: Field, start: Point) -> bool {
    &&& post.size == pre.size
    &&& post.flags == pre.flags
    &&& post.cells@.len() == pre.cells@.len()
    &&& forall|i: int|
        0 <= i < post.cells@.len() ==> (#[trigger] post.cells@[i]).content
            == pre.cells@[i].content && post.cells@[i].position == pre.cells@[i].position && (
        post.cells@[i].state == pre.cells@[i].state || (pre.cells@[i].state == CellState::Closed
            && post.cells@[i].state == CellState::Opened))
    &&& post.cell(start).state == CellState::Opened
    &&& (pre.cell(start).content == CellContent::Empty ==> forall|q: Point|
        is_neighbour(pre.size, start, q) ==> (#[trigger] post.cell(q)).state != CellState::Closed)
    &&& forall|q: Point, r: Point|
        #![trigger post.cell(q), post.cell(r)]
        pre.size.contains(q) && pre.cell(q).state == CellState::Closed && post.cell(q).state
            == CellState::Opened && post.cell(q).content == CellContent::Empty && is_neighbour(
            pre.size,
            q,
            r,
        ) ==> post.cell(r).state != CellState::Closed
    &&& forall|q: Point|
        pre.size.contains(q) && q != start && pre.cell(q).state == CellState::Closed && (
        #[trigger] post.cell(q)).state == CellState::Opened ==> pre.cell(start).content
            == CellContent::Empty && exists|n: nat| cascade_reach(pre, start, q, n)
}

/// Reaching farther on a grid whose closed empty cells include the first
/// grid's is still reaching.
pub proof fn lemma_reach_wider(pre1: Field, pre2: Field, start: Point, q: Point, n: nat)
    requires
        pre1.size == pre2.size,
        forall|m: Point|
            pre1.size.contains(m) && (#[trigger] pre1.cell(m)).state == CellState::Closed
                && pre1.cell(m).content == CellContent::Empty ==> (#[trigger] pre2.cell(m)).state
                == CellState::Closed && pre2.cell(m).content == CellContent::Empty,
        cascade_reach(pre1, start, q, n),
    ensures
        cascade_reach(pre2, start, q, n),
    decreases n,
{
    if !is_neighbour(pre1.size, start, q) {
        let m = choose|m: Point|
            #![trigger pre1.cell(m), is_neighbour(pre1.size, m, q)]
            pre1.size.contains(m) && pre1.cell(m).state == CellState::Closed && pre1.cell(
                m,
            ).content == CellContent::Empty && cascade_reach(pre1, start, m, (n - 1) as nat)
                && is_neighbour(pre1.size, m, q);
        lemma_reach_wider(pre1, pre2, start, m, (n - 1) as nat);
        assert(pre2.size.contains(m) && pre2.cell(m).state == CellState::Closed && pre2.cell(
            m,
        ).content == CellContent::Empty && cascade_reach(pre2, start, m, (n - 1) as nat)
            && is_neighbour(pre2.size, m, q));
    }
}

/// On a consistent grid, the neighbours of an empty cell hide no mines.
pub proof fn lemma_empty_cell_neighbours(f: Field, m: Point, q: Point)
    requires
        f.wf(),
        f.numbers_wf(),
        f.size.contains(m),
        f.cell(m).content == CellContent::Empty,
        is_neighbour(f.size, m, q),
    ensures
        f.cell(q).content != CellContent::Mine,
{
    assert(f.neighbour_mines(m) == 0);
    let x = m.x as int;
    let y = m.y as int;
    let qx = q.x as int;
    let qy = q.y as int;
    lemma_idx_bounds(f.size, q);
    assert(box_term(f.cells@, f.size, qx, qy, mine_pred()) == 0) by {
        if qy == y && qx == x - 1 {
            assert(box_term(f.cells@, f.size, x - 1, y, mine_pred()) == 0);
        } else if qy == y && qx == x + 1 {
            assert(box_term(f.cells@, f.size, x + 1, y, mine_pred()) == 0);
        } else if qy == y - 1 && qx == x {
            assert(box_term(f.cells@, f.size, x, y - 1, mine_pred()) == 0);
        } else if qy == y + 1 && qx == x {
            assert(box_term(f.cells@, f.size, x, y + 1, mine_pred()) == 0);
        } else if qy == y - 1 && qx == x - 1 {
            assert(box_term(f.cells@, f.size, x - 1, y - 1, mine_pred()) == 0);
        } else if qy == y - 1 && qx == x + 1 {
            assert(box_term(f.cells@, f.size, x + 1, y - 1, mine_pred()) == 0);
        } else if qy == y + 1 && qx == x - 1 {
            assert(box_term(f.cells@, f.size, x - 1, y + 1, mine_pred()) == 0);
        } else {
            assert(qy == y + 1 && qx == x + 1);
            assert(box_term(f.cells@, f.size, x + 1, y + 1, mine_pred()) == 0);
        }
    }
    assert(f.size.idx(q) == qy * f.size.width + qx);
}

/// A reveal that starts on a safe cell of a consistent grid never opens a
/// mine: the cascade only crosses empty cells, and empty cells have no
/// mines around them.
pub proof fn lemma_reveal_opens_no_mine(pre: Field, post: Field, start: Point)
    requires
        pre.wf(),
        pre.numbers_wf(),
        pre.size.contains(start),
        pre.cell(start).content != CellContent::Mine,
        reveal_post(pre, post, start),
    ensures
        !opened_a_mine(pre, post),
{
    assert forall|q: Point|
        pre.size.contains(q) && pre.cell(q).state == CellState::Closed && (#[trigger] post.cell(
            q,
        )).state == CellState::Opened implies post.cell(q).content != CellContent::Mine by {
        lemma_idx_bounds(pre.size, q);
        assert(post.cell(q).content == pre.cell(q).content);
        if q == start {
        } else {
            let n = choose|n: nat| cascade_reach(pre, start, q, n);
            if is_neighbour(pre.size, start, q) {
                lemma_empty_cell_neighbours(pre, start, q);
            } else {
                let m = choose|m: Point|
                    #![trigger pre.cell(m), is_neighbour(pre.size, m, q)]
                    pre.size.contains(m) && pre.cell(m).state == CellState::Closed && pre.cell(
                        m,
                    ).content == CellContent::Empty && cascade_reach(
                        pre,
                        start,
                        m,
                        (n - 1) as nat,
                    ) && is_neighbour(pre.size, m, q);
                lemma_empty_cell_neighbours(pre, m, q);
            }
        }
    }
}

/// How `Field::button_action` relates the field before (`pre`) and after
/// (`post`) one pointer event, case by case:
/// - with both buttons held, a satisfied chord cascades (`cascade_post`) and
///   explodes exactly if a mine was opened; an unsatisfied one is a no-op;
/// - a press alone never changes the grid;
/// - a left release opens a closed cell (`reveal_post`), exploding exactly
///   when that cell hides a mine (and, on a consistently numbered grid,
///   exactly when any mine was opened);
/// - a right release toggles a closed cell to flagged and back;
/// - everything else is a no-op.
pub open spec fn button_action_post(
    pre: Field,
    post: Field,
    button: MouseButton,
    state: ButtonState,
    cell_point: Point,
    both_buttons_flag: bool,
    r: CellInteractionResult,
) -> bool {
    &&& (both_buttons_flag ==> if chord_applies(pre, cell_point) {
        &&& cascade_post(pre, post, cell_point)
        &&& (r == CellInteractionResult::Exploded <==> opened_a_mine(pre, post))
        &&& (r == CellInteractionResult::Exploded || r == CellInteractionResult::Opened)
    } else {
        same_field(pre, post) && r == CellInteractionResult::NoAction
    })
    &&& (!both_buttons_flag && state == ButtonState::Press ==> same_field(pre, post) && r
        == CellInteractionResult::NoAction)
    &&& (!both_buttons_flag && state == ButtonState::Release && button == MouseButton::Left
        ==> if pre.cell(cell_point).state == CellState::Closed {
        &&& reveal_post(pre, post, cell_point)
        &&& post.opened > pre.opened
        &&& (r == CellInteractionResult::Exploded <==> pre.cell(cell_point).content
            == CellContent::Mine)
        &&& (pre.numbers_wf() ==> (r == CellInteractionResult::Exploded <==> opened_a_mine(
            pre,
            post,
        )))
        &&& (r == CellInteractionResult::Exploded || r == CellInteractionResult::Opened)
    } else {
        same_field(pre, post) && r == CellInteractionResult::NoAction
    })
    &&& (!both_buttons_flag && state == ButtonState::Release && button == MouseButton::Right
        ==> if pre.cell(cell_point).state == CellState::Closed {
        &&& post.cells@ == pre.cells@.update(
            pre.size.idx(cell_point),
            (Cell { state: CellState::Flagged, ..pre.cell(cell_point) }),
        )
        &&& post.flags == pre.flags + 1
        &&& post.opened == pre.opened
        &&& r == CellInteractionResult::Flagged
    } else if pre.cell(cell_point).state == CellState::Flagged {
        &&& post.cells@ == pre.cells@.update(
            pre.size.idx(cell_point),
            (Cell { state: CellState::Closed, ..pre.cell(cell_point) }),
        )
        &&& post.flags == pre.flags - 1
        &&& post.opened == pre.opened
        &&& r == CellInteractionResult::Unflagged
    } else {
        same_field(pre, post) && r == CellInteractionResult::NoAction
    })
}

impl Field {
    /// The single state-transition entry point for pointer input on a cell.
    ///
    /// - With both buttons held (`both_buttons_flag`), a chord: if
    ///   `cell_point` is an opened number cell whose flagged-neighbour count
    ///   matches its number, every closed neighbour is opened (cascading
    ///   through empty cells); otherwise nothing happens.
    /// - A press alone never changes the grid.
    /// - A left release on a closed cell opens it (cascading if it is
    ///   empty); the result is `Exploded` exactly when the cell itself hides
    ///   a mine.
    /// - A right release toggles a closed cell to flagged and back,
    ///   adjusting the flag counter.
    /// - Anything else is `NoAction`.
    #[verifier::rlimit(60)]
    pub fn button_action(
        &mut self,
        button: MouseButton,
        state: ButtonState,
        cell_point: Point,
        both_buttons_flag: bool,
    ) -> (r: CellInteractionResult)
        requires
            old(self).wf(),
            old(self).size.contains(cell_point),
        ensures
            final(self).wf(),
            final(self).size == old(self).size,
            old(self).numbers_wf() ==> final(self).numbers_wf(),
            old(self).no_opened_mine() && old(self).numbers_wf() && r
                != CellInteractionResult::Exploded ==> final(self).no_opened_mine(),
            count_mines(final(self).cells@) == count_mines(old(self).cells@),
            final(self).opened >= old(self).opened,
            button_action_post(
                *old(self),
                *final(self),
                button,
                state,
                cell_point,
                both_buttons_flag,
                r,
            ),
    {
        if both_buttons_flag {
            if self.cell_at_point(cell_point).state() == CellState::Opened {
                let content = self.cell_at_point(cell_point).content;
                match content {
                    CellContent::Number(number) => {
                        if number == self.flags_in_neighbours(cell_point) {
                            let r = self.open_neighbours(cell_point);
                            proof {
                                if old(self).no_opened_mine() && r
                                    != CellInteractionResult::Exploded {
                                    lemma_no_mine_keeps_safety(*old(self), *self);
                                }
                                lemma_count_congruent(
                                    old(self).cells@,
                                    self.cells@,
                                    mine_pred(),
                                );
                                lemma_count_mono(old(self).cells@, self.cells@, opened_pred());
                            }
                            return r;
                        }
                    },
                    _ => {},
                }
            }
            CellInteractionResult::NoAction
        } else if state == ButtonState::Press {
            // a press only affects how the cell is drawn; the grid is untouched
            CellInteractionResult::NoAction
        } else if button == MouseButton::Left {
            if self.cell_at_point(cell_point).state() == CellState::Closed {
                self.open_cell_at(cell_point);
                proof {
                    lemma_idx_bounds(self.size, cell_point);
                    assert forall|p2: Point|
                        self.size.contains(p2) && p2 != cell_point implies #[trigger] self.cell(p2)
                        == old(self).cell(p2) by {
                        lemma_idx_bounds(self.size, p2);
                        if self.size.idx(p2) == self.size.idx(cell_point) {
                            lemma_idx_injective(self.size, p2, cell_point);
                        }
                    }
                    assert forall|p2: Point| self.size.contains(p2) implies (#[trigger] self.cell(
                        p2,
                    )).position == p2 && self.cell(p2).wf() by {
                        if p2 != cell_point {
                        } else {
                            assert(self.cell(cell_point).content == old(self).cell(
                                cell_point,
                            ).content);
                        }
                    }
                }
                proof {
                    assert forall|p2: Point|
                        old(self).numbers_wf() && self.size.contains(p2) && (#[trigger] self.cell(
                            p2,
                        )).content != CellContent::Mine implies self.cell(p2).content
                        == content_for_count(self.neighbour_mines(p2)) by {
                        lemma_idx_bounds(self.size, p2);
                        lemma_box_count_congruent(
                            old(self).cells@,
                            self.cells@,
                            self.size,
                            p2,
                            mine_pred(),
                        );
                        assert(old(self).cell(p2).content == self.cell(p2).content);
                    }
                }
                proof {
                    lemma_count_congruent(old(self).cells@, self.cells@, mine_pred());
                }
                let ghost mid = *self;
                let empty = self.cell_at_point(cell_point).is_empty();
                let was_mine = self.cell_at_point(cell_point).is_mine();
                if empty {
                    self.open_neighbours(cell_point);
                    proof {
                        lemma_count_mono(mid.cells@, self.cells@, opened_pred());
                        lemma_count_congruent(mid.cells@, self.cells@, mine_pred());
                        assert forall|q: Point|
                            self.size.contains(q) && q != cell_point && old(self).cell(q).state
                                == CellState::Closed && (#[trigger] self.cell(q)).state
                                == CellState::Opened implies exists|n: nat|
                            cascade_reach(*old(self), cell_point, q, n) by {
                            lemma_idx_bounds(self.size, q);
                            assert(mid.cell(q) == old(self).cell(q));
                            let n = choose|n: nat| cascade_reach(mid, cell_point, q, n);
                            lemma_reach_wider(mid, *old(self), cell_point, q, n);
                        }
                        assert forall|q: Point, r2: Point|
                            #![trigger self.cell(q), self.cell(r2)]
                            self.size.contains(q) && old(self).cell(q).state == CellState::Closed
                                && self.cell(q).state == CellState::Opened && self.cell(q).content
                                == CellContent::Empty && is_neighbour(
                                self.size,
                                q,
                                r2,
                            ) implies self.cell(r2).state != CellState::Closed by {
                            lemma_idx_bounds(self.size, q);
                            if q != cell_point {
                                assert(mid.cell(q).state == CellState::Closed);
                            }
                        }
                    }
                }
                proof {
                    if !empty {
                        assert forall|q: Point|
                            self.size.contains(q) && q != cell_point implies #[trigger] self.cell(
                            q,
                        ) == old(self).cell(q) by {
                            lemma_idx_bounds(self.size, q);
                            if self.size.idx(q) == self.size.idx(cell_point) {
                                lemma_idx_injective(self.size, q, cell_point);
                            }
                        }
                    }
                    assert(reveal_post(*old(self), *self, cell_point));
                    if !was_mine && old(self).numbers_wf() {
                        lemma_reveal_opens_no_mine(*old(self), *self, cell_point);
                        if old(self).no_opened_mine() {
                            lemma_no_mine_keeps_safety(*old(self), *self);
                        }
                    }
                    if was_mine {
                        lemma_idx_bounds(self.size, cell_point);
                        assert(self.size.contains(cell_point) && old(self).cell(cell_point).state
                            == CellState::Closed && self.cell(cell_point).state
                            == CellState::Opened && self.cell(cell_point).content
                            == CellContent::Mine);
                        assert(opened_a_mine(*old(self), *self));
                    }
                }
                if was_mine {
                    CellInteractionResult::Exploded
                } else {
                    CellInteractionResult::Opened
                }
            } else {
                CellInteractionResult::NoAction
            }
        } else {
            // a right release toggles the flag on a closed cell
            if self.cell_at_point(cell_point).state() == CellState::Closed {
                let mut c = *self.cell_at_point(cell_point);
                c.flag();
                proof {
                    lemma_idx_bounds(self.size, cell_point);
                    lemma_count_update(self.cells@, flagged_pred(), self.size.idx(cell_point), c);
                    lemma_count_update(self.cells@, opened_pred(), self.size.idx(cell_point), c);
                    lemma_count_update(self.cells@, mine_pred(), self.size.idx(cell_point), c);
                    lemma_count_le_len(
                        self.cells@.update(self.size.idx(cell_point), c),
                        flagged_pred(),
                    );
                }
                self.set_cell(cell_point, c);
                self.flags = self.flags + 1;
                proof {
                    self.lemma_one_cell_changed(*old(self), cell_point);
                }
                CellInteractionResult::Flagged
            } else if self.cell_at_point(cell_point).state() == CellState::Flagged {
                let mut c = *self.cell_at_point(cell_point);
                c.unflag();
                proof {
                    lemma_idx_bounds(self.size, cell_point);
                    lemma_count_update(self.cells@, flagged_pred(), self.size.idx(cell_point), c);
                    lemma_count_update(self.cells@, opened_pred(), self.size.idx(cell_point), c);
                    lemma_count_update(self.cells@, mine_pred(), self.size.idx(cell_point), c);
                }
                self.set_cell(cell_point, c);
                self.flags = self.flags - 1;
                proof {
                    self.lemma_one_cell_changed(*old(self), cell_point);
                }
                CellInteractionResult::Unflagged
            } else {
                CellInteractionResult::NoAction
            }
        }
    }

    /// After replacing the cell at `point` with one of the same content and
    /// position, the per-point structural facts, the consistency of the
    /// numbers, and (if the new state is not `Opened`) the absence of opened
    /// mines all still hold.
    proof fn lemma_one_cell_changed(self, pre: Field, point: Point)
        requires
            pre.size.wf(),
            pre.cells@.len() == pre.size.area(),
            pre.size.contains(point),
            self.size == pre.size,
            self.cells@.len() == pre.cells@.len(),
            forall|i: int|
                0 <= i < self.cells@.len() ==> (#[trigger] self.cells@[i]).content
                    == pre.cells@[i].content && self.cells@[i].position
                    == pre.cells@[i].position,
            forall|i: int|
                0 <= i < self.cells@.len() && i != pre.size.idx(point)
                    ==> #[trigger] self.cells@[i] == pre.cells@[i],
            forall|p: Point| pre.size.contains(p) ==> (#[trigger] pre.cell(p)).position == p,
            forall|p: Point| pre.size.contains(p) ==> (#[trigger] pre.cell(p)).wf(),
        ensures
            forall|p: Point| self.size.contains(p) ==> (#[trigger] self.cell(p)).position == p,
            forall|p: Point| self.size.contains(p) ==> (#[trigger] self.cell(p)).wf(),
            pre.numbers_wf() ==> self.numbers_wf(),
            pre.no_opened_mine() && self.cells@[pre.size.idx(point)].state != CellState::Opened
                ==> self.no_opened_mine(),
    {
        assert forall|p: Point| self.size.contains(p) implies (#[trigger] self.cell(p)).position
            == p && self.cell(p).wf() by {
            lemma_idx_bounds(self.size, p);
            assert(pre.cell(p).position == p);
            assert(pre.cell(p).wf());
            assert(self.cells@[self.size.idx(p)].content == pre.cells@[self.size.idx(p)].content);
            assert(self.cells@[self.size.idx(p)].position == pre.cells@[self.size.idx(
                p,
            )].position);
        }
        assert forall|p: Point|
            pre.numbers_wf() && self.size.contains(p) && (#[trigger] self.cell(p)).content
                != CellContent::Mine implies self.cell(p).content == content_for_count(
            self.neighbour_mines(p),
        ) by {
            lemma_idx_bounds(self.size, p);
            lemma_box_count_congruent(pre.cells@, self.cells@, self.size, p, mine_pred());
            assert(pre.cell(p).content == self.cell(p).content);
        }
        if pre.no_opened_mine() && self.cells@[pre.size.idx(point)].state != CellState::Opened {
            assert forall|p: Point|
                self.size.contains(p) && (#[trigger] self.cell(p)).content == CellContent::Mine
                    implies self.cell(p).state != CellState::Opened by {
                lemma_idx_bounds(self.size, p);
                assert(pre.cell(p).content == CellContent::Mine);
            }
        }
    }
}

/// What `Field::init` guarantees of the freshly placed field: a well-formed,
/// consistently numbered grid of the given size, every cell closed, counters
/// zeroed, exactly `size.mines` mines, and none of them on the row or column
/// of the first click `except`.
pub open spec fn init_post(placed: Field, size: FieldSize, except: Point) -> bool {
    &&& placed.wf()
    &&& placed.numbers_wf()
    &&& placed.no_opened_mine()
    &&& placed.size == size
    &&& placed.flags == 0
    &&& placed.opened == 0
    &&& count_mines(placed.cells@) == size.mines
    &&& forall|p: Point|
        placed.size.contains(p) && (p.x == except.x || p.y == except.y) ==> (
        #[trigger] placed.cell(p)).content != CellContent::Mine
    &&& forall|p: Point|
        placed.size.contains(p) ==> (#[trigger] placed.cell(p)).state == CellState::Closed
}

/// The flood fill opens everything it can reach: after `open_neighbours`
/// on `start`, every cell that was closed and is reachable from `start`
/// through closed empty cells ends up opened.  For an empty region this is
/// the whole connected region plus the ring of numbered cells around it.
pub proof fn lemma_cascade_opens_region(pre: Field, post: Field, start: Point, q: Point, n: nat)
    requires
        pre.size.wf(),
        pre.cells@.len() == pre.size.area(),
        cascade_post(pre, post, start),
        cascade_reach(pre, start, q, n),
        pre.size.contains(q),
        pre.cell(q).state == CellState::Closed,
    ensures
        post.cell(q).state == CellState::Opened,
    decreases n,
{
    lemma_idx_bounds(pre.size, q);
    if is_neighbour(pre.size, start, q) {
        assert(post.cell(q).state != CellState::Closed);
    } else {
        let m = choose|m: Point|
            #![trigger pre.cell(m), is_neighbour(pre.size, m, q)]
            pre.size.contains(m) && pre.cell(m).state == CellState::Closed && pre.cell(m).content
                == CellContent::Empty && cascade_reach(pre, start, m, (n - 1) as nat)
                && is_neighbour(pre.size, m, q);
        lemma_cascade_opens_region(pre, post, start, m, (n - 1) as nat);
        lemma_idx_bounds(pre.size, m);
        assert(post.cell(m).content == CellContent::Empty);
        assert(post.cell(q).state != CellState::Closed);
    }
}

/// The same region property for a left release on a closed empty cell:
/// everything reachable from it through closed empty cells is opened.
pub proof fn lemma_reveal_opens_region(pre: Field, post: Field, start: Point, q: Point, n: nat)
    requires
        pre.size.wf(),
        pre.cells@.len() == pre.size.area(),
        reveal_post(pre, post, start),
        pre.cell(start).content == CellContent::Empty,
        cascade_reach(pre, start, q, n),
        pre.size.contains(q),
        pre.cell(q).state == CellState::Closed,
    ensures
        post.cell(q).state == CellState::Opened,
    decreases n,
{
    lemma_idx_bounds(pre.size, q);
    if is_neighbour(pre.size, start, q) {
        assert(post.cell(q).state != CellState::Closed);
    } else {
        let m = choose|m: Point|
            #![trigger pre.cell(m), is_neighbour(pre.size, m, q)]
            pre.size.contains(m) && pre.cell(m).state == CellState::Closed && pre.cell(m).content
                == CellContent::Empty && cascade_reach(pre, start, m, (n - 1) as nat)
                && is_neighbour(pre.size, m, q);
        lemma_reveal_opens_region(pre, post, start, m, (n - 1) as nat);
        lemma_idx_bounds(pre.size, m);
        assert(post.cell(m).content == CellContent::Empty);
        assert(post.cell(q).state != CellState::Closed);
    }
}

/// On a grid with no opened mine, the opened cells all lie among the safe
/// cells, so their number is bounded by `area - mines`.
pub proof fn lemma_safe_open_bound(f: Field)
    requires
        f.wf(),
        f.no_opened_mine(),
    ensures
        f.opened + count_mines(f.cells@) <= f.size.area(),
{
    assert forall|i: int|
        0 <= i < f.cells@.len() implies !(opened_pred()(#[trigger] f.cells@[i]) && mine_pred()(
        f.cells@[i],
    )) by {
        crate::game::lemma_point_at(f.size, i);
        let p = crate::game::point_at(f.size, i);
        assert(f.cell(p) == f.cells@[i]);
    }
    lemma_count_disjoint(f.cells@, opened_pred(), mine_pred());
}

/// A call that only opens closed cells and reports no opened mine keeps
/// the field free of opened mines.
pub proof fn lemma_no_mine_keeps_safety(pre: Field, post: Field)
    requires
        pre.size.wf(),
        pre.cells@.len() == pre.size.area(),
        pre.size == post.size,
        pre.cells@.len() == post.cells@.len(),
        pre.no_opened_mine(),
        !opened_a_mine(pre, post),
        forall|i: int|
            0 <= i < post.cells@.len() ==> (#[trigger] post.cells@[i]).content
                == pre.cells@[i].content && (post.cells@[i].state == pre.cells@[i].state || (
            pre.cells@[i].state == CellState::Closed && post.cells@[i].state
                == CellState::Opened)),
    ensures
        post.no_opened_mine(),
{
    assert forall|p: Point|
        post.size.contains(p) && (#[trigger] post.cell(p)).content == CellContent::Mine implies post.cell(
        p,
    ).state != CellState::Opened by {
        lemma_idx_bounds(post.size, p);
        assert(pre.cell(p).content == CellContent::Mine);
        if post.cell(p).state == CellState::Opened {
            assert(pre.cell(p).state != CellState::Opened);
            assert(pre.cell(p).state == CellState::Closed);
            assert(opened_a_mine(pre, post));
        }
    }
}

} // verus!
