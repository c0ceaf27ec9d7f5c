use vstd::prelude::*;
use crate::heading::{heading_for_offset, is_unit_offset, lemma_heading_reverse};
use crate::coords::{Cell, NodeCoords, calculate_heading};

verus! {

/// The movement grid: `grid[x][y]` is zero where a unit may stand and
/// non-zero where it is blocked.
pub struct MovementGrid {
    pub grid: Vec<Vec<u8>>,
}

impl MovementGrid {
    /// Number of columns.
    pub open spec fn width(&self) -> int {
        self.grid@.len() as int
    }

    /// Number of rows: the length of the first column.
    pub open spec fn height(&self) -> int {
        self.grid@[0]@.len() as int
    }

    /// The grid has at least one column and no column is shorter than the
    /// first (cells beyond that length are never read).
    pub open spec fn well_formed(&self) -> bool {
        &&& self.grid@.len() > 0
        &&& forall|i: int| 0 <= i < self.grid@.len() ==> #[trigger] self.grid@[i]@.len() >= self.height()
    }

    pub open spec fn in_bounds(&self, x: int, y: int) -> bool {
        0 <= x < self.width() && 0 <= y < self.height()
    }

    pub open spec fn blocked(&self, x: int, y: int) -> bool {
        self.grid@[x]@[y] != 0
    }

    /// A diagonal step from `(cx, cy)` to `(tx, ty)` is refused when both
    /// corner cells it passes between are blocked; a straight step always
    /// passes.
    pub open spec fn corner_clear(&self, cx: int, cy: int, tx: int, ty: int) -> bool {
        !(cx != tx && cy != ty && self.blocked(cx, ty) && self.blocked(tx, cy))
    }

    /// The corner cells that the width check reads for a step from
    /// `(cx, cy)` to `(tx, ty)` lie in the grid: the first always, the second
    /// only when the first is blocked.
    pub open spec fn corner_reads_in_bounds(&self, cx: int, cy: int, tx: int, ty: int) -> bool {
        (cx != tx && cy != ty) ==> (self.has_cell(cx, ty) && (self.blocked(cx, ty) ==> self.has_cell(tx, cy)))
    }

    /// Cell `(x, y)` exists: column `x` exists and is longer than `y`.
    pub open spec fn has_cell(&self, x: int, y: int) -> bool {
        0 <= x < self.grid@.len() && 0 <= y < self.grid@[x]@.len()
    }

    /// A unit on `(cx, cy)` may step to the adjacent cell `(tx, ty)`: the
    /// target lies in the grid, is free, differs from the start and the
    /// step does not squeeze between two blocked corners.
    pub open spec fn can_step(&self, cx: int, cy: int, tx: int, ty: int) -> bool {
        &&& is_unit_offset(tx - cx, ty - cy)
        &&& self.in_bounds(tx, ty)
        &&& !self.blocked(tx, ty)
        &&& self.corner_clear(cx, cy, tx, ty)
    }

    /// Scanning the neighbours of `c` never reads outside the grid.
    pub open spec fn neighbour_scan_safe(&self, c: Cell) -> bool {
        forall|dx: int, dy: int|
            #![trigger self.in_bounds(c.x + dx, c.y + dy)]
            is_unit_offset(dx, dy) && self.in_bounds(c.x + dx, c.y + dy) && !self.blocked(c.x + dx, c.y + dy)
                ==> self.corner_reads_in_bounds(c.x as int, c.y as int, c.x + dx, c.y + dy)
    }

    /// Every cell of the 3 by 3 block around `c` that lies within the width
    /// of the grid and the length of its first column exists, so the scan may
    /// read it.
    pub open spec fn neighbour_reads_exist(&self, c: Cell) -> bool {
        forall|dx: int, dy: int|
            #![trigger self.in_bounds(c.x + dx, c.y + dy)]
            -1 <= dx <= 1 && -1 <= dy <= 1 && self.in_bounds(c.x + dx, c.y + dy) ==> self.has_cell(c.x + dx, c.y + dy)
    }

    /// The node reached by the step from `c` by `(dx, dy)`, if that step is
    /// allowed, as a sequence of zero or one nodes.
    pub open spec fn step_seq(&self, c: Cell, dx: int, dy: int) -> Seq<NodeCoords> {
        if self.can_step(c.x as int, c.y as int, c.x + dx, c.y + dy) {
            seq![NodeCoords { xy: Cell { x: (c.x + dx) as u32, y: (c.y + dy) as u32 }, h: Some(heading_for_offset(dx, dy)) }]
        } else {
            Seq::empty()
        }
    }

    /// The allowed steps from `c` with horizontal offset `dx` and vertical
    /// offsets `-1, 0, 1` taken in that order, the first `n` of them.
    pub open spec fn column_steps(&self, c: Cell, dx: int, n: int) -> Seq<NodeCoords> {
        if n <= 0 {
            Seq::empty()
        } else if n == 1 {
            self.step_seq(c, dx, -1)
        } else if n == 2 {
            self.step_seq(c, dx, -1) + self.step_seq(c, dx, 0)
        } else {
            self.step_seq(c, dx, -1) + self.step_seq(c, dx, 0) + self.step_seq(c, dx, 1)
        }
    }

    /// The allowed steps from `c`, horizontal offset `-1, 0, 1` in turn and
    /// within each the vertical offset `-1, 0, 1`, the first `m` columns.
    pub open spec fn steps_prefix(&self, c: Cell, m: int) -> Seq<NodeCoords> {
        if m <= 0 {
            Seq::empty()
        } else if m == 1 {
            self.column_steps(c, -1, 3)
        } else if m == 2 {
            self.column_steps(c, -1, 3) + self.column_steps(c, 0, 3)
        } else {
            self.column_steps(c, -1, 3) + self.column_steps(c, 0, 3) + self.column_steps(c, 1, 3)
        }
    }

    /// All the steps a unit on `c` may take, in scanning order.
    pub open spec fn neighbours(&self, c: Cell) -> Seq<NodeCoords> {
        self.steps_prefix(c, 3)
    }
}

/// `node` is the node a unit on `c` reaches by an allowed step: the step
/// is allowed and the node faces the heading of that step.
pub open spec fn is_step_node(grid: &MovementGrid, c: Cell, node: NodeCoords) -> bool {
    &&& grid.can_step(c.x as int, c.y as int, node.xy.x as int, node.xy.y as int)
    &&& node.h == Some(heading_for_offset(node.xy.x - c.x, node.xy.y - c.y))
}

/// The node reached from `c` by the step `(dx, dy)`.
pub open spec fn step_node(c: Cell, dx: int, dy: int) -> NodeCoords {
    NodeCoords { xy: Cell { x: (c.x + dx) as u32, y: (c.y + dy) as u32 }, h: Some(heading_for_offset(dx, dy)) }
}

proof fn lemma_concat_contains<A>(a: Seq<A>, b: Seq<A>, x: A)
    requires
        a.contains(x) || b.contains(x),
    ensures
        (a + b).contains(x),
{
    if a.contains(x) {
        let i = choose|i: int| 0 <= i < a.len() && a[i] == x;
        assert((a + b)[i] == x);
    } else {
        let i = choose|i: int| 0 <= i < b.len() && b[i] == x;
        assert((a + b)[a.len() + i] == x);
    }
}

/// Every node listed as a neighbour of `c` is reached by an allowed step.
pub proof fn lemma_neighbours_sound(grid: &MovementGrid, c: Cell)
    requires
        c.x < i32::MAX,
        c.y < i32::MAX,
    ensures
        forall|k: int|
            0 <= k < grid.neighbours(c).len() ==> #[trigger] is_step_node(grid, c, grid.neighbours(c)[k]),
{
    assert forall|dx: int, dy: int, k: int|
        0 <= k < grid.step_seq(c, dx, dy).len() implies #[trigger] is_step_node(grid, c, grid.step_seq(c, dx, dy)[k]) by {
    }
    assert forall|dx: int, k: int|
        0 <= k < grid.column_steps(c, dx, 3).len() implies #[trigger] is_step_node(grid, c, grid.column_steps(c, dx, 3)[k]) by {
        let a = grid.step_seq(c, dx, -1);
        let b = grid.step_seq(c, dx, 0);
        let d = grid.step_seq(c, dx, 1);
        if k < a.len() {
            assert(grid.column_steps(c, dx, 3)[k] == a[k]);
        } else if k < a.len() + b.len() {
            assert(grid.column_steps(c, dx, 3)[k] == b[k - a.len()]);
        } else {
            assert(grid.column_steps(c, dx, 3)[k] == d[k - a.len() - b.len()]);
        }
    }
    assert forall|k: int| 0 <= k < grid.neighbours(c).len() implies #[trigger] is_step_node(grid, c, grid.neighbours(c)[k]) by {
        let a = grid.column_steps(c, -1, 3);
        let b = grid.column_steps(c, 0, 3);
        let d = grid.column_steps(c, 1, 3);
        if k < a.len() {
            assert(grid.neighbours(c)[k] == a[k]);
        } else if k < a.len() + b.len() {
            assert(grid.neighbours(c)[k] == b[k - a.len()]);
        } else {
            assert(grid.neighbours(c)[k] == d[k - a.len() - b.len()]);
        }
    }
}

/// Every allowed step from `c` is listed among its neighbours.
pub proof fn lemma_neighbours_complete(grid: &MovementGrid, c: Cell, dx: int, dy: int)
    requires
        grid.can_step(c.x as int, c.y as int, c.x + dx, c.y + dy),
    ensures
        grid.neighbours(c).contains(step_node(c, dx, dy)),
{
    let node = step_node(c, dx, dy);
    assert(grid.step_seq(c, dx, dy)[0] == node);
    assert(grid.step_seq(c, dx, dy).contains(node));
    let a = grid.step_seq(c, dx, -1);
    let b = grid.step_seq(c, dx, 0);
    let d = grid.step_seq(c, dx, 1);
    if dy == -1 {
        lemma_concat_contains(a, b, node);
    } else if dy == 0 {
        lemma_concat_contains(a, b, node);
    }
    lemma_concat_contains(a + b, d, node);
    assert(grid.column_steps(c, dx, 3).contains(node));
    let p = grid.column_steps(c, -1, 3);
    let q = grid.column_steps(c, 0, 3);
    let r = grid.column_steps(c, 1, 3);
    if dx == -1 {
        lemma_concat_contains(p, q, node);
    } else if dx == 0 {
        lemma_concat_contains(p, q, node);
    }
    lemma_concat_contains(p + q, r, node);
}

proof fn lemma_small_u32_as_i32(v: u32)
    requires
        v <= 0x7fff_ffff,
    ensures
        (v as i32) as int == v as int,
{
    assert(v <= 0x7fff_ffff ==> (v as i32) as int == v as int) by (bit_vector);
}

/// Whether a unit can pass from `current` to `target`: a diagonal step is
/// refused when both corner cells between them are blocked.
pub fn check_path_width(current: Cell, target: Cell, gridmap: &MovementGrid) -> (passes: bool)
    requires
        gridmap.corner_reads_in_bounds(current.x as int, current.y as int, target.x as int, target.y as int),
    ensures
        passes == gridmap.corner_clear(current.x as int, current.y as int, target.x as int, target.y as int),
        passes == !(current.x != target.x && current.y != target.y && gridmap.grid@[current.x as int]@[target.y as int]
            != 0 && gridmap.grid@[target.x as int]@[current.y as int] != 0),
{
    if current.x != target.x && current.y != target.y {
        if gridmap.grid[current.x as usize][target.y as usize] != 0
            && gridmap.grid[target.x as usize][current.y as usize] != 0 {
            return false;
        }
    }
    true
}

/// The nodes a unit on `current` can step to: each adjacent cell inside the
/// grid that is free and not squeezed between blocked corners, with the
/// heading of the step, scanning the column offset and within it the row
/// offset from -1 to 1.
pub fn get_neighbours(current: Cell, gridmap: &MovementGrid) -> (neighbours: Vec<NodeCoords>)
    requires
        current.x < i32::MAX,
        current.y < i32::MAX,
        gridmap.neighbour_reads_exist(current),
        gridmap.neighbour_scan_safe(current),
    ensures
        neighbours@ == gridmap.neighbours(current),
{
    let mut neighbours: Vec<NodeCoords> = Vec::new();
    let width: usize = gridmap.grid.len();
    if width == 0 {
        assert(gridmap.neighbours(current) =~= Seq::<NodeCoords>::empty());
        return neighbours;
    }
    let height: usize = gridmap.grid[0].len();
    let mut x: i32 = -1;
    while x < 2
        invariant
            -1 <= x <= 2,
            gridmap.neighbour_reads_exist(current),
            width > 0,
            current.x < i32::MAX,
            current.y < i32::MAX,
            gridmap.neighbour_scan_safe(current),
            width == gridmap.width(),
            height == gridmap.height(),
            neighbours@ == gridmap.steps_prefix(current, x + 1),
        decreases 2 - x,
    {
        let mut y: i32 = -1;
        while y < 2
            invariant
                -1 <= x < 2,
                -1 <= y <= 2,
                gridmap.neighbour_reads_exist(current),
                width > 0,
                current.x < i32::MAX,
                current.y < i32::MAX,
                gridmap.neighbour_scan_safe(current),
                width == gridmap.width(),
                height == gridmap.height(),
                neighbours@ == gridmap.steps_prefix(current, x + 1) + gridmap.column_steps(current, x as int, y + 1),
            decreases 2 - y,
        {
            let ax: i64 = current.x as i64 + x as i64;
            let ay: i64 = current.y as i64 + y as i64;
            let ghost before = neighbours@;
            proof {
                if 0 <= ax < width && 0 <= ay < height {
                    assert(gridmap.in_bounds(current.x + x, current.y + y));
                }
            }
            if ax >= 0 && (ax as usize) < width && ay >= 0 && (ay as usize) < height
                && gridmap.grid[ax as usize][ay as usize] == 0 && !(x == 0 && y == 0) {
                let adjacent = Cell { x: ax as u32, y: ay as u32 };
                assert(gridmap.in_bounds(current.x + x, current.y + y));
                if check_path_width(current, adjacent, gridmap) {
                    proof {
                        lemma_small_u32_as_i32(adjacent.x);
                        lemma_small_u32_as_i32(adjacent.y);
                        lemma_small_u32_as_i32(current.x);
                        lemma_small_u32_as_i32(current.y);
                    }
                    let h = calculate_heading(&current, &adjacent);
                    neighbours.push(NodeCoords { xy: adjacent, h: Some(h) });
                }
            }
            assert(gridmap.column_steps(current, x as int, y + 2) == gridmap.column_steps(current, x as int, y + 1) + gridmap.step_seq(current, x as int, y as int));
            y = y + 1;
        }
        assert(gridmap.steps_prefix(current, x + 2) == gridmap.steps_prefix(current, x + 1) + gridmap.column_steps(current, x as int, 3));
        x = x + 1;
    }
    neighbours
}


/// The width check does not depend on the direction of the step.
pub proof fn lemma_corner_clear_symmetric(grid: &MovementGrid, cx: int, cy: int, tx: int, ty: int)
    ensures
        grid.corner_clear(cx, cy, tx, ty) == grid.corner_clear(tx, ty, cx, cy),
{
}

/// A step can be taken back: when a unit on the free cell `(cx, cy)` of the
/// grid may step to `(tx, ty)`, a unit there may step back.
pub proof fn lemma_can_step_symmetric(grid: &MovementGrid, cx: int, cy: int, tx: int, ty: int)
    requires
        grid.can_step(cx, cy, tx, ty),
        grid.in_bounds(cx, cy),
        !grid.blocked(cx, cy),
    ensures
        grid.can_step(tx, ty, cx, cy),
{
}


/// The width check gives the same answer in both directions, whenever both
/// checks read only cells of the grid.
pub proof fn lemma_path_width_symmetric(grid: &MovementGrid, a: Cell, b: Cell)
    requires
        grid.corner_reads_in_bounds(a.x as int, a.y as int, b.x as int, b.y as int),
        grid.corner_reads_in_bounds(b.x as int, b.y as int, a.x as int, a.y as int),
    ensures
        grid.corner_clear(a.x as int, a.y as int, b.x as int, b.y as int) == grid.corner_clear(
            b.x as int,
            b.y as int,
            a.x as int,
            a.y as int,
        ),
{
}

/// The neighbour relation is symmetric on free cells of the grid: `b` is
/// listed among the neighbours of `a` exactly when `a` is listed among the
/// neighbours of `b`, and the two steps face opposite headings.
pub proof fn lemma_neighbours_symmetric(grid: &MovementGrid, a: Cell, b: Cell)
    requires
        grid.well_formed(),
        grid.in_bounds(a.x as int, a.y as int),
        grid.in_bounds(b.x as int, b.y as int),
        !grid.blocked(a.x as int, a.y as int),
        !grid.blocked(b.x as int, b.y as int),
        a.x < i32::MAX,
        a.y < i32::MAX,
        b.x < i32::MAX,
        b.y < i32::MAX,
    ensures
        (exists|k: int| 0 <= k < grid.neighbours(a).len() && grid.neighbours(a)[k].xy == b)
            <==> (exists|k: int| 0 <= k < grid.neighbours(b).len() && grid.neighbours(b)[k].xy == a),
        forall|k: int, m: int|
            0 <= k < grid.neighbours(a).len() && grid.neighbours(a)[k].xy == b && 0 <= m < grid.neighbours(b).len()
                && grid.neighbours(b)[m].xy == a ==> grid.neighbours(b)[m].h == Some(
                grid.neighbours(a)[k].h.unwrap().opposite(),
            ),
{
    lemma_neighbours_sound(grid, a);
    lemma_neighbours_sound(grid, b);
    let dx = b.x - a.x;
    let dy = b.y - a.y;
    if exists|k: int| 0 <= k < grid.neighbours(a).len() && grid.neighbours(a)[k].xy == b {
        let k = choose|k: int| 0 <= k < grid.neighbours(a).len() && grid.neighbours(a)[k].xy == b;
        assert(is_step_node(grid, a, grid.neighbours(a)[k]));
        lemma_can_step_symmetric(grid, a.x as int, a.y as int, b.x as int, b.y as int);
        lemma_neighbours_complete(grid, b, -dx, -dy);
        assert(step_node(b, -dx, -dy).xy == a);
        let m = choose|m: int| 0 <= m < grid.neighbours(b).len() && grid.neighbours(b)[m] == step_node(b, -dx, -dy);
        assert(grid.neighbours(b)[m].xy == a);
    }
    if exists|k: int| 0 <= k < grid.neighbours(b).len() && grid.neighbours(b)[k].xy == a {
        let k = choose|k: int| 0 <= k < grid.neighbours(b).len() && grid.neighbours(b)[k].xy == a;
        assert(is_step_node(grid, b, grid.neighbours(b)[k]));
        lemma_can_step_symmetric(grid, b.x as int, b.y as int, a.x as int, a.y as int);
        lemma_neighbours_complete(grid, a, dx, dy);
        assert(step_node(a, dx, dy).xy == b);
        let m = choose|m: int| 0 <= m < grid.neighbours(a).len() && grid.neighbours(a)[m] == step_node(a, dx, dy);
        assert(grid.neighbours(a)[m].xy == b);
    }
    assert forall|k: int, m: int|
        0 <= k < grid.neighbours(a).len() && grid.neighbours(a)[k].xy == b && 0 <= m < grid.neighbours(b).len()
            && grid.neighbours(b)[m].xy == a implies grid.neighbours(b)[m].h == Some(
            grid.neighbours(a)[k].h.unwrap().opposite(),
        ) by {
        assert(is_step_node(grid, a, grid.neighbours(a)[k]));
        assert(is_step_node(grid, b, grid.neighbours(b)[m]));
        lemma_heading_reverse(dx, dy);
    }
}


/// What decides a step: a unit may step from `(cx, cy)` to the adjacent cell
/// `(tx, ty)` of the grid exactly when that cell holds 0 and, for a step
/// that changes both coordinates, at least one of the two corner cells it
/// passes between holds 0; any non-zero value blocks, on the target cell and
/// on the corners alike. A straight step needs only a free target.
pub proof fn lemma_step_rule(grid: &MovementGrid, cx: int, cy: int, tx: int, ty: int)
    requires
        is_unit_offset(tx - cx, ty - cy),
        grid.in_bounds(tx, ty),
    ensures
        grid.can_step(cx, cy, tx, ty) <==> (grid.grid@[tx]@[ty] == 0 && (cx == tx || cy == ty || grid.grid@[cx]@[ty]
            == 0 || grid.grid@[tx]@[cy] == 0)),
        (cx == tx || cy == ty) ==> grid.corner_clear(cx, cy, tx, ty),
        (cx != tx && cy != ty) ==> (grid.corner_clear(cx, cy, tx, ty) <==> (grid.grid@[cx]@[ty] == 0
            || grid.grid@[tx]@[cy] == 0)),
{
}

} // verus!
