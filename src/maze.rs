//! Maze generation by randomized depth-first carving, and its rendering to
//! pixels.
use grid::Grid;
use rand::rngs::SmallRng;
use rgb::RGB8;
use vstd::prelude::*;

use crate::grid_store::{
    cell_at, flag_at, flag_rows, has_shape, in_grid, lemma_grid_set_one, new_flag_grid,
    new_tile_grid, set_cell, set_flag, set_tile, tile_at, tile_rows, unset_count,
};
use crate::passages::{
    arrived_from, before, carved_count, carved_seen, is_open, isolated, lemma_carve_counts,
    lemma_carve_first, lemma_carve_isolated, lemma_counts_same_openings, lemma_walls_counts,
    link_count, no_corner_contact, no_open_square, only_at, unmarked, valid_neighbour,
    adjacent, all_joined, joined, lemma_all_joined, lemma_joined_grows, lemma_joined_step,
    is_passage, reached_from, grown, lemma_second_carved, lemma_stuck_grows, step_down, stuck,
    lemma_two_carved_count,
};
use crate::random::{draw_below, shuffle_candidates};

verus! {

/// The pixel type of `rgb`, a plain struct with the public fields `r`, `g`
/// and `b`, which the colour mapping builds directly.
#[verifier::external_type_specification]
#[verifier::reject_recursive_types(T)]
pub struct ExRgb<T>(rgb::Rgb<T>);

/// The state of one cell of the maze.
#[derive(Debug, Copy, Clone, PartialEq, Eq, Structural, PartialOrd, Ord, Hash)]
pub enum TileState {
    Wall,
    Empty,
    Start,
    End,
}

impl Default for TileState {
    fn default() -> (t: TileState)
        ensures
            t == TileState::Wall,
    {
        TileState::Wall
    }
}

/// The step that leads from the current cell to a candidate neighbour.
#[derive(Debug, Copy, Clone, PartialEq, Eq, Structural, PartialOrd, Ord, Hash)]
pub enum Direction {
    North,
    South,
    East,
    West,
}

/// Why a maze cannot be generated.
#[derive(Debug, Copy, Clone, PartialEq, Eq, Structural)]
pub enum MazeError {
    /// The width or the height is zero: there is no cell to start from.
    ZeroDimension,
}

/// The colour a tile is drawn in: walls black, passages white, the entry
/// green and the exit red.
pub open spec fn colour_of(t: TileState) -> RGB8 {
    match t {
        TileState::Wall => RGB8 { r: 0x00, g: 0x00, b: 0x00 },
        TileState::Empty => RGB8 { r: 0xFF, g: 0xFF, b: 0xFF },
        TileState::Start => RGB8 { r: 0x00, g: 0xFF, b: 0x00 },
        TileState::End => RGB8 { r: 0xFF, g: 0x00, b: 0x00 },
    }
}

/// The colours of a row of tiles, in order.
pub open spec fn row_colours(r: Seq<TileState>) -> Seq<RGB8> {
    r.map_values(|t: TileState| colour_of(t))
}

/// The colours of the tiles of `rows`, row after row.
pub open spec fn pixel_seq(rows: Seq<Seq<TileState>>) -> Seq<RGB8>
    decreases rows.len(),
{
    if rows.len() == 0 {
        Seq::empty()
    } else {
        pixel_seq(rows.drop_last()) + row_colours(rows.last())
    }
}

/// The colour a tile is drawn in.
pub fn tile_colour(t: TileState) -> (c: RGB8)
    ensures
        c == colour_of(t),
{
    match t {
        TileState::Wall => RGB8 { r: 0x00, g: 0x00, b: 0x00 },
        TileState::Empty => RGB8 { r: 0xFF, g: 0xFF, b: 0xFF },
        TileState::Start => RGB8 { r: 0x00, g: 0xFF, b: 0x00 },
        TileState::End => RGB8 { r: 0xFF, g: 0x00, b: 0x00 },
    }
}

/// Refuses dimensions that leave no cell to start carving from.
pub fn check_dimensions(width: u32, height: u32) -> (r: Result<(), MazeError>)
    ensures
        r is Err <==> width == 0 || height == 0,
        r is Err ==> r == Err::<(), MazeError>(MazeError::ZeroDimension),
{
    if width == 0 || height == 0 {
        Err(MazeError::ZeroDimension)
    } else {
        Ok(())
    }
}

/// Every visited cell is carved, but for the top of the stack.
pub open spec fn seen_carved_or_top(
    cells: Seq<Seq<TileState>>,
    seen: Seq<Seq<bool>>,
    stack: Seq<(usize, usize)>,
) -> bool {
    forall|i: int, j: int|
        in_grid(seen, i, j) && #[trigger] seen[i][j] ==> is_open(cells, i, j) || (stack.len() > 0
            && (i, j) == (stack.last().0 as int, stack.last().1 as int))
}

/// Every carved cell that has left the stack has nothing left to do.
pub open spec fn done_stuck(
    cells: Seq<Seq<TileState>>,
    seen: Seq<Seq<bool>>,
    stack: Seq<(usize, usize)>,
) -> bool {
    forall|i: int, j: int|
        #[trigger] is_open(cells, i, j) && !stack.contains((i as usize, j as usize)) ==> stuck(
            cells,
            seen,
            i,
            j,
        )
}

/// Backing off the top `(x, y)` of the stack once it is carved and has nothing
/// left to do keeps both invariants.
pub proof fn lemma_pop_keeps(
    cells0: Seq<Seq<TileState>>,
    seen0: Seq<Seq<bool>>,
    c1: Seq<Seq<TileState>>,
    stack0: Seq<(usize, usize)>,
    x: int,
    y: int,
)
    requires
        stack0.len() > 0,
        stack0.last().0 as int == x,
        stack0.last().1 as int == y,
        stuck(cells0, seen0, x, y),
        forall|a: int, b: int| #[trigger] is_open(c1, a, b) == (is_open(cells0, a, b) || (a == x && b == y)),
        grown(cells0, seen0, c1, seen0),
        seen_carved_or_top(cells0, seen0, stack0),
        done_stuck(cells0, seen0, stack0),
        cells0.len() <= usize::MAX,
        forall|i: int| 0 <= i < cells0.len() ==> #[trigger] cells0[i].len() <= usize::MAX,
    ensures
        seen_carved_or_top(c1, seen0, stack0.drop_last()),
        done_stuck(c1, seen0, stack0.drop_last()),
{
    let st = stack0.drop_last();
    assert forall|i: int, j: int| in_grid(seen0, i, j) && #[trigger] seen0[i][j] implies is_open(c1, i, j) by {}
    assert forall|i: int, j: int|
        #[trigger] is_open(c1, i, j) && !st.contains((i as usize, j as usize)) implies stuck(c1, seen0, i, j) by {
        if (i, j) != (x, y) {
            assert(is_open(cells0, i, j));
            assert(cells0[i].len() <= usize::MAX);
            if stack0.contains((i as usize, j as usize)) {
                let k = choose|k: int| 0 <= k < stack0.len() && stack0[k] == (i as usize, j as usize);
                if k < stack0.len() - 1 {
                    assert(st[k] == stack0[k]);
                    assert(st.contains((i as usize, j as usize)));
                } else {
                    assert(stack0[k] == stack0.last());
                }
            }
        }
        lemma_stuck_grows(cells0, seen0, c1, seen0, i, j);
    }
}

/// Carving the top `(x, y)` and moving on to the unvisited `(nx, ny)` keeps
/// both invariants.
pub proof fn lemma_push_keeps(
    cells0: Seq<Seq<TileState>>,
    seen0: Seq<Seq<bool>>,
    c1: Seq<Seq<TileState>>,
    seen1: Seq<Seq<bool>>,
    stack0: Seq<(usize, usize)>,
    x: int,
    y: int,
    nx: usize,
    ny: usize,
)
    requires
        stack0.len() > 0,
        stack0.last().0 as int == x,
        stack0.last().1 as int == y,
        in_grid(seen0, nx as int, ny as int),
        seen1 == set_cell(seen0, nx as int, ny as int, true),
        forall|a: int, b: int| #[trigger] is_open(c1, a, b) == (is_open(cells0, a, b) || (a == x && b == y)),
        seen_carved_or_top(cells0, seen0, stack0),
        done_stuck(cells0, seen0, stack0),
    ensures
        seen_carved_or_top(c1, seen1, stack0.push((nx, ny))),
        done_stuck(c1, seen1, stack0.push((nx, ny))),
{
    let st = stack0.push((nx, ny));
    assert(grown(cells0, seen0, c1, seen1));
    assert forall|i: int, j: int|
        in_grid(seen1, i, j) && #[trigger] seen1[i][j] implies is_open(c1, i, j) || (st.len() > 0
            && (i, j) == (st.last().0 as int, st.last().1 as int)) by {
        if (i, j) != (nx as int, ny as int) {
            assert(seen0[i][j]);
        }
    }
    assert forall|i: int, j: int|
        #[trigger] is_open(c1, i, j) && !st.contains((i as usize, j as usize)) implies stuck(c1, seen1, i, j) by {
        assert(st[stack0.len() - 1] == stack0[stack0.len() - 1]);
        assert((i, j) != (x, y));
        if stack0.contains((i as usize, j as usize)) {
            let k = choose|k: int| 0 <= k < stack0.len() && stack0[k] == (i as usize, j as usize);
            assert(st[k] == stack0[k]);
        }
        lemma_stuck_grows(cells0, seen0, c1, seen1, i, j);
    }
}

/// Where no candidate in a reordering of the four candidates of `(x, y)` may
/// be carved, the cell has nothing left to do.
pub proof fn lemma_no_candidate(
    cells: Seq<Seq<TileState>>,
    seen: Seq<Seq<bool>>,
    cands: Seq<(usize, usize, Direction)>,
    shuffled: Seq<(usize, usize, Direction)>,
    x: int,
    y: int,
)
    requires
        cands.len() == 4,
        cands[0].0 as int == x && cands[0].1 as int == y + 1 && cands[0].2 == Direction::North,
        cands[1].0 as int == x + 1 && cands[1].1 as int == y && cands[1].2 == Direction::East,
        cands[2].0 as int == x && cands[2].1 as int == step_down(y) && cands[2].2 == Direction::South,
        cands[3].0 as int == step_down(x) && cands[3].1 as int == y && cands[3].2 == Direction::West,
        shuffled.to_multiset() == cands.to_multiset(),
        forall|j: int|
            0 <= j < shuffled.len() ==> !valid_neighbour(
                cells,
                seen,
                #[trigger] shuffled[j].0 as int,
                shuffled[j].1 as int,
                shuffled[j].2,
            ),
    ensures
        stuck(cells, seen, x, y),
{
    broadcast use vstd::seq_lib::group_to_multiset_ensures;

    assert forall|j: int| 0 <= j < 4 implies !valid_neighbour(
        cells,
        seen,
        #[trigger] cands[j].0 as int,
        cands[j].1 as int,
        cands[j].2,
    ) by {
        assert(cands.to_multiset().count(cands[j]) > 0);
        assert(shuffled.contains(cands[j]));
    }
    assert(cands[0].0 as int == x);
    assert(cands[1].0 as int == x + 1);
    assert(cands[2].0 as int == x);
    assert(cands[3].0 as int == step_down(x));
}

/// The state of the search: tiles, visited flags and the stack of cells.
pub type SearchState = (Seq<Seq<TileState>>, Seq<Seq<bool>>, Seq<(usize, usize)>);

/// The four candidates of `(x, y)` in their fixed order: north, east, south
/// and west, a step below zero staying at zero.
pub open spec fn candidates(x: usize, y: usize) -> Seq<(usize, usize, Direction)> {
    seq![
        (x, (y + 1) as usize, Direction::North),
        ((x + 1) as usize, y, Direction::East),
        (x, step_down(y as int) as usize, Direction::South),
        (step_down(x as int) as usize, y, Direction::West),
    ]
}

/// Where the search starts from `(sx, sy)`: that cell visited and alone on the
/// stack.
pub open spec fn search_start(
    cells: Seq<Seq<TileState>>,
    seen: Seq<Seq<bool>>,
    sx: usize,
    sy: usize,
) -> SearchState {
    (cells, set_cell(seen, sx as int, sy as int, true), seq![(sx, sy)])
}

/// The first candidate of `order` that may be carved, if any.
pub open spec fn pick(
    cells: Seq<Seq<TileState>>,
    seen: Seq<Seq<bool>>,
    order: Seq<(usize, usize, Direction)>,
) -> Option<(usize, usize)>
    decreases order.len(),
{
    if order.len() == 0 {
        None
    } else if valid_neighbour(cells, seen, order[0].0 as int, order[0].1 as int, order[0].2) {
        Some((order[0].0, order[0].1))
    } else {
        pick(cells, seen, order.drop_first())
    }
}

/// One step of the search with the candidates of the top taken in `order`:
/// the top is carved; the first valid candidate is visited and pushed, or,
/// when there is none, the top is popped.
pub open spec fn search_step(st: SearchState, order: Seq<(usize, usize, Direction)>) -> SearchState {
    let (cells, seen, stack) = st;
    let top = stack.last();
    let carved = set_cell(cells, top.0 as int, top.1 as int, TileState::Empty);
    match pick(cells, seen, order) {
        Some(n) => (carved, set_cell(seen, n.0 as int, n.1 as int, true), stack.push(n)),
        None => (carved, seen, stack.drop_last()),
    }
}

/// The search run from `st` through the orders of `trace`, one per step.
pub open spec fn search_run(st: SearchState, trace: Seq<Seq<(usize, usize, Direction)>>) -> SearchState
    decreases trace.len(),
{
    if trace.len() == 0 {
        st
    } else {
        search_step(search_run(st, trace.drop_last()), trace.last())
    }
}

/// Each order of `trace` is a reordering of the candidates of the cell on top
/// of the stack at its step.
pub open spec fn trace_orders(st: SearchState, trace: Seq<Seq<(usize, usize, Direction)>>) -> bool {
    forall|k: int|
        0 <= k < trace.len() ==> #[trigger] trace[k].to_multiset() == candidates(
            search_run(st, trace.take(k)).2.last().0,
            search_run(st, trace.take(k)).2.last().1,
        ).to_multiset()
}

/// `pick` yields the first valid candidate of `order`.
pub proof fn lemma_pick(
    cells: Seq<Seq<TileState>>,
    seen: Seq<Seq<bool>>,
    order: Seq<(usize, usize, Direction)>,
    k: Option<usize>,
)
    requires
        match k {
            Some(k) => {
                &&& k < order.len()
                &&& valid_neighbour(cells, seen, order[k as int].0 as int, order[k as int].1 as int, order[k as int].2)
                &&& forall|j: int|
                    0 <= j < k ==> !valid_neighbour(
                        cells,
                        seen,
                        #[trigger] order[j].0 as int,
                        order[j].1 as int,
                        order[j].2,
                    )
            },
            None => forall|j: int|
                0 <= j < order.len() ==> !valid_neighbour(
                    cells,
                    seen,
                    #[trigger] order[j].0 as int,
                    order[j].1 as int,
                    order[j].2,
                ),
        },
    ensures
        pick(cells, seen, order) == match k {
            Some(k) => Some((order[k as int].0, order[k as int].1)),
            None => None::<(usize, usize)>,
        },
    decreases order.len(),
{
    if order.len() > 0 {
        let rest = order.drop_first();
        match k {
            Some(k) => {
                if k > 0 {
                    assert(!valid_neighbour(cells, seen, order[0].0 as int, order[0].1 as int, order[0].2));
                    assert forall|j: int| 0 <= j < k - 1 implies !valid_neighbour(
                        cells,
                        seen,
                        #[trigger] rest[j].0 as int,
                        rest[j].1 as int,
                        rest[j].2,
                    ) by {
                        assert(rest[j] == order[j + 1]);
                    }
                    assert(rest[k - 1] == order[k as int]);
                    lemma_pick(cells, seen, rest, Some((k - 1) as usize));
                }
            },
            None => {
                assert(!valid_neighbour(cells, seen, order[0].0 as int, order[0].1 as int, order[0].2));
                assert forall|j: int| 0 <= j < rest.len() implies !valid_neighbour(
                    cells,
                    seen,
                    #[trigger] rest[j].0 as int,
                    rest[j].1 as int,
                    rest[j].2,
                ) by {
                    assert(rest[j] == order[j + 1]);
                }
                lemma_pick(cells, seen, rest, None);
            },
        }
    }
}

/// A maze of `width` by `height` cells. The tile grid has one row per unit of
/// width and one column per unit of height; `visited` runs beside it.
#[derive(Debug, Clone, PartialEq, Eq)]
pub struct Maze {
    width: u32,
    height: u32,
    data: Grid<TileState>,
    visited: Grid<bool>,
}

impl Maze {
    /// The tiles, row by row.
    pub closed spec fn cells(&self) -> Seq<Seq<TileState>> {
        tile_rows(self.data)
    }

    /// The visited flags, row by row.
    pub closed spec fn seen(&self) -> Seq<Seq<bool>> {
        flag_rows(self.visited)
    }

    pub closed spec fn spec_width(&self) -> u32 {
        self.width
    }

    pub closed spec fn spec_height(&self) -> u32 {
        self.height
    }

    /// Both grids have the maze's dimensions.
    pub open spec fn wf(&self) -> bool {
        &&& has_shape(self.cells(), self.spec_width() as int, self.spec_height() as int)
        &&& has_shape(self.seen(), self.spec_width() as int, self.spec_height() as int)
    }

    /// A maze of `width` by `height` cells, all walls, none visited.
    pub fn new(width: u32, height: u32) -> (m: Maze)
        requires
            width * height <= usize::MAX,
        ensures
            m.wf(),
            m.spec_width() == width,
            m.spec_height() == height,
            forall|i: int, j: int| #[trigger]
                in_grid(m.cells(), i, j) ==> m.cells()[i][j] == TileState::Wall,
            forall|i: int, j: int| #[trigger] in_grid(m.seen(), i, j) ==> !m.seen()[i][j],
    {
        Maze {
            width,
            height,
            data: new_tile_grid(width as usize, height as usize),
            visited: new_flag_grid(width as usize, height as usize, false),
        }
    }
    /// Whether the cell at `(x, y)` is in the grid and carved.
    fn is_open_at(&self, x: usize, y: usize) -> (r: bool)
        ensures
            r == is_open(self.cells(), x as int, y as int),
    {
        match tile_at(&self.data, x, y) {
            Some(TileState::Wall) | None => false,
            Some(_) => true,
        }
    }

    /// Whether the cell at `(x, y)`, reached by a step in `direction`, may be
    /// carved next.
    fn is_valid_neighbour(&self, x: usize, y: usize, direction: Direction) -> (r: bool)
        requires
            self.wf(),
        ensures
            r == valid_neighbour(self.cells(), self.seen(), x as int, y as int, direction),
    {
        let xs = x.saturating_sub(1);
        let ys = y.saturating_sub(1);
        let xp = x.saturating_add(1);
        let yp = y.saturating_add(1);
        let blocked = (self.is_open_at(xp, y) && !matches!(direction, Direction::West))
            || (self.is_open_at(x, yp) && !matches!(direction, Direction::South))
            || (self.is_open_at(xp, yp) && !matches!(direction, Direction::South | Direction::West))
            || (self.is_open_at(xs, y) && !matches!(direction, Direction::East))
            || (self.is_open_at(xs, yp) && !matches!(direction, Direction::South | Direction::East))
            || (self.is_open_at(x, ys) && !matches!(direction, Direction::North))
            || (self.is_open_at(xp, ys) && !matches!(direction, Direction::North | Direction::West))
            || (self.is_open_at(xs, ys) && !matches!(direction, Direction::North | Direction::East));
        !blocked && matches!(flag_at(&self.visited, x, y), Some(false))
    }
    /// The position of the first candidate that may be carved, if any.
    fn first_valid(&self, cands: &Vec<(usize, usize, Direction)>) -> (r: Option<usize>)
        requires
            self.wf(),
        ensures
            match r {
                Some(k) => {
                    &&& k < cands@.len()
                    &&& valid_neighbour(
                        self.cells(),
                        self.seen(),
                        cands@[k as int].0 as int,
                        cands@[k as int].1 as int,
                        cands@[k as int].2,
                    )
                    &&& forall|j: int|
                        0 <= j < k ==> !valid_neighbour(
                            self.cells(),
                            self.seen(),
                            #[trigger] cands@[j].0 as int,
                            cands@[j].1 as int,
                            cands@[j].2,
                        )
                },
                None => forall|j: int|
                    0 <= j < cands@.len() ==> !valid_neighbour(
                        self.cells(),
                        self.seen(),
                        #[trigger] cands@[j].0 as int,
                        cands@[j].1 as int,
                        cands@[j].2,
                    ),
            },
    {
        let mut i: usize = 0;
        while i < cands.len()
            invariant
                i <= cands@.len(),
                self.wf(),
                forall|j: int|
                    0 <= j < i ==> !valid_neighbour(
                        self.cells(),
                        self.seen(),
                        #[trigger] cands@[j].0 as int,
                        cands@[j].1 as int,
                        cands@[j].2,
                    ),
            decreases cands@.len() - i,
        {
            let (nx, ny, d) = cands[i];
            if self.is_valid_neighbour(nx, ny, d) {
                return Some(i);
            }
            i += 1;
        }
        None
    }

    /// The first carved cell in row-major order, if any.
    fn first_empty(&self) -> (r: Option<(usize, usize)>)
        requires
            self.wf(),
        ensures
            match r {
                Some((x, y)) => {
                    &&& in_grid(self.cells(), x as int, y as int)
                    &&& self.cells()[x as int][y as int] == TileState::Empty
                    &&& forall|i: int, j: int|
                        #![trigger self.cells()[i][j]]
                        in_grid(self.cells(), i, j) && before((i, j), (x as int, y as int))
                            ==> self.cells()[i][j] != TileState::Empty
                },
                None => forall|i: int, j: int|
                    #![trigger self.cells()[i][j]]
                    in_grid(self.cells(), i, j) ==> self.cells()[i][j] != TileState::Empty,
            },
    {
        let rows: usize = if self.height == 0 { 0 } else { self.width as usize };
        let cols: usize = if self.width == 0 { 0 } else { self.height as usize };
        let mut x: usize = 0;
        while x < rows
            invariant
                self.wf(),
                x <= rows,
                rows == self.cells().len(),
                forall|i: int| 0 <= i < rows ==> #[trigger] self.cells()[i].len() == cols,
                forall|i: int, j: int|
                    #![trigger self.cells()[i][j]]
                    in_grid(self.cells(), i, j) && i < x ==> self.cells()[i][j]
                        != TileState::Empty,
            decreases rows - x,
        {
            let mut y: usize = 0;
            while y < cols
                invariant
                    self.wf(),
                    x < rows,
                    y <= cols,
                    rows == self.cells().len(),
                    forall|i: int| 0 <= i < rows ==> #[trigger] self.cells()[i].len() == cols,
                    forall|i: int, j: int|
                        #![trigger self.cells()[i][j]]
                        in_grid(self.cells(), i, j) && (i < x || (i == x && j < y))
                            ==> self.cells()[i][j] != TileState::Empty,
                decreases cols - y,
            {
                if matches!(tile_at(&self.data, x, y), Some(TileState::Empty)) {
                    return Some((x, y));
                }
                y += 1;
            }
            x += 1;
        }
        None
    }

    /// The last carved cell in row-major order, if any.
    fn last_empty(&self) -> (r: Option<(usize, usize)>)
        requires
            self.wf(),
        ensures
            match r {
                Some((x, y)) => {
                    &&& in_grid(self.cells(), x as int, y as int)
                    &&& self.cells()[x as int][y as int] == TileState::Empty
                    &&& forall|i: int, j: int|
                        #![trigger self.cells()[i][j]]
                        in_grid(self.cells(), i, j) && before((x as int, y as int), (i, j))
                            ==> self.cells()[i][j] != TileState::Empty
                },
                None => forall|i: int, j: int|
                    #![trigger self.cells()[i][j]]
                    in_grid(self.cells(), i, j) ==> self.cells()[i][j] != TileState::Empty,
            },
    {
        let rows: usize = if self.height == 0 { 0 } else { self.width as usize };
        let cols: usize = if self.width == 0 { 0 } else { self.height as usize };
        let mut x: usize = rows;
        while x > 0
            invariant
                self.wf(),
                x <= rows,
                rows == self.cells().len(),
                forall|i: int| 0 <= i < rows ==> #[trigger] self.cells()[i].len() == cols,
                forall|i: int, j: int|
                    #![trigger self.cells()[i][j]]
                    in_grid(self.cells(), i, j) && i >= x ==> self.cells()[i][j]
                        != TileState::Empty,
            decreases x,
        {
            let mut y: usize = cols;
            while y > 0
                invariant
                    self.wf(),
                    0 < x <= rows,
                    y <= cols,
                    rows == self.cells().len(),
                    forall|i: int| 0 <= i < rows ==> #[trigger] self.cells()[i].len() == cols,
                    forall|i: int, j: int|
                        #![trigger self.cells()[i][j]]
                        in_grid(self.cells(), i, j) && (i >= x || (i == x - 1 && j >= y))
                            ==> self.cells()[i][j] != TileState::Empty,
                decreases y,
            {
                if matches!(tile_at(&self.data, x - 1, y - 1), Some(TileState::Empty)) {
                    return Some((x - 1, y - 1));
                }
                y -= 1;
            }
            x -= 1;
        }
        None
    }
    /// The state of the carving between two steps. `stack` holds the path
    /// from the start cell `(sx, sy)`; every cell on it but the top is carved,
    /// and a top that is not yet carved is a wall reached by a step in `dtop`
    /// from the cell below it (or, alone on the stack, the first cell of an
    /// all-wall grid).
    pub open spec fn carving(
        &self,
        stack: Seq<(usize, usize)>,
        dtop: Direction,
        sx: usize,
        sy: usize,
    ) -> bool {
        let w = self.spec_width();
        let h = self.spec_height();
        let cells = self.cells();
        let seen = self.seen();
        &&& self.wf()
        &&& w > 0
        &&& h > 0
        &&& sx < w
        &&& sy < h
        &&& unmarked(cells)
        &&& carved_seen(cells, seen)
        &&& no_open_square(cells)
        &&& no_corner_contact(cells)
        &&& forall|k: int|
            0 <= k < stack.len() ==> #[trigger] stack[k].0 < w && stack[k].1 < h
                && seen[stack[k].0 as int][stack[k].1 as int]
        &&& forall|k1: int, k2: int|
            0 <= k1 < k2 < stack.len() ==> #[trigger] stack[k1] != #[trigger] stack[k2]
        &&& forall|k: int|
            0 <= k < stack.len() - 1 ==> is_open(
                cells,
                #[trigger] stack[k].0 as int,
                stack[k].1 as int,
            )
        &&& (stack.len() > 0 && !is_open(cells, stack.last().0 as int, stack.last().1 as int)
            ==> if stack.len() == 1 {
            forall|i: int, j: int|
                #![trigger cells[i][j]]
                in_grid(cells, i, j) ==> cells[i][j] == TileState::Wall
        } else {
            &&& arrived_from(stack.last().0 as int, stack.last().1 as int, dtop) == (
            stack[stack.len() - 2].0 as int, stack[stack.len() - 2].1 as int)
            &&& isolated(cells, stack.last().0 as int, stack.last().1 as int, dtop)
        })
        &&& ((stack.len() > 0 && stack[0] == (sx, sy)) || cells[sx as int][sy as int]
            == TileState::Empty)
        &&& (carved_count(cells) == link_count(cells) + 1 || (carved_count(cells) == link_count(
            cells,
        ) && forall|i: int, j: int|
            #![trigger cells[i][j]]
            in_grid(cells, i, j) ==> cells[i][j] == TileState::Wall))
        &&& reached_from(cells, (sx as int, sy as int))
        &&& seen_carved_or_top(cells, seen, stack)
        &&& done_stuck(cells, seen, stack)
    }

    /// Carving the top of the stack keeps the shape of the passages and
    /// leaves one link fewer than carved cells.
    proof fn lemma_carve_top(
        m: &Maze,
        stack: Seq<(usize, usize)>,
        dtop: Direction,
        sx: usize,
        sy: usize,
    )
        requires
            m.carving(stack, dtop, sx, sy),
            stack.len() > 0,
        ensures
            ({
                let x = stack.last().0 as int;
                let y = stack.last().1 as int;
                let c1 = set_cell(m.cells(), x, y, TileState::Empty);
                &&& unmarked(c1)
                &&& no_open_square(c1)
                &&& no_corner_contact(c1)
                &&& link_count(c1) + 1 == carved_count(c1)
                &&& reached_from(c1, (sx as int, sy as int))
                &&& forall|a: int, b: int| #[trigger]
                    is_open(c1, a, b) == (is_open(m.cells(), a, b) || (a == x && b == y))
            }),
    {
        let cells0 = m.cells();
        let x = stack.last().0 as int;
        let y = stack.last().1 as int;
        let c1 = set_cell(cells0, x, y, TileState::Empty);
        assert(stack[stack.len() - 1].0 < m.spec_width());
        if is_open(cells0, x, y) {
            assert(cells0[x][y] == TileState::Empty);
            assert(cells0[x].update(y, TileState::Empty) =~= cells0[x]);
            assert(c1 =~= cells0);
            assert(carved_count(cells0) == link_count(cells0) + 1);
        } else if stack.len() == 1 {
            lemma_walls_counts(cells0);
            lemma_carve_first(cells0, x, y);
            lemma_carve_counts(cells0, x, y);
            assert(!is_open(cells0, x + 1, y));
            assert(!is_open(cells0, x - 1, y));
            assert(!is_open(cells0, x, y + 1));
            assert(!is_open(cells0, x, y - 1));
        } else {
            let p = stack[stack.len() - 2];
            assert(is_open(cells0, p.0 as int, p.1 as int));
            lemma_carve_isolated(cells0, x, y, dtop);
            lemma_carve_counts(cells0, x, y);
            assert(is_open(cells0, stack[0].0 as int, stack[0].1 as int));
            assert(cells0[stack[0].0 as int][stack[0].1 as int] != TileState::Wall);
        }
        assert forall|a: int, b: int| #[trigger]
            is_open(c1, a, b) == (is_open(cells0, a, b) || (a == x && b == y)) by {}
        assert forall|i: int, j: int| #[trigger]
            in_grid(c1, i, j) implies c1[i][j] == TileState::Wall || c1[i][j] == TileState::Empty by {
            if (i, j) != (x, y) {
                assert(c1[i][j] == cells0[i][j]);
            }
        }
        let root = (sx as int, sy as int);
        if !is_open(cells0, x, y) {
            assert forall|i: int, j: int| #[trigger] is_open(c1, i, j) implies joined(
                c1,
                root,
                (i, j),
            ) by {
                if (i, j) == (x, y) {
                    if stack.len() == 1 {
                        assert(stack[0] == (sx, sy));
                        let w = seq![(x, y)];
                        assert(is_passage(c1, w));
                    } else {
                        let p = stack[stack.len() - 2];
                        let pp = (p.0 as int, p.1 as int);
                        assert(is_open(cells0, pp.0, pp.1));
                        lemma_joined_grows(cells0, c1, root, pp);
                        assert(adjacent(pp, (x, y)));
                        lemma_joined_step(c1, root, pp, (x, y));
                    }
                } else {
                    assert(is_open(cells0, i, j));
                    lemma_joined_grows(cells0, c1, root, (i, j));
                }
            }
        }
    }

    /// One step of the search: carves the cell on top of the stack, then moves
    /// on to a random valid neighbour of it, or backs off when there is none.
    #[verifier::rlimit(100)]
    fn carve_step(
        &mut self,
        rng: &mut SmallRng,
        stack: &mut Vec<(usize, usize)>,
        dtop: Ghost<Direction>,
        sx: Ghost<usize>,
        sy: Ghost<usize>,
    ) -> (nd: Ghost<(Direction, Seq<(usize, usize, Direction)>)>)
        requires
            old(self).carving(old(stack)@, dtop@, sx@, sy@),
            old(stack)@.len() > 0,
        ensures
            final(self).carving(final(stack)@, nd@.0, sx@, sy@),
            (final(self).cells(), final(self).seen(), final(stack)@) == search_step(
                (old(self).cells(), old(self).seen(), old(stack)@),
                nd@.1,
            ),
            nd@.1.to_multiset() == candidates(old(stack)@.last().0, old(stack)@.last().1).to_multiset(),
            final(self).spec_width() == old(self).spec_width(),
            final(self).spec_height() == old(self).spec_height(),
            2 * unset_count(final(self).seen()) + final(stack)@.len() < 2 * unset_count(
                old(self).seen(),
            ) + old(stack)@.len(),
    {
        let ghost w = self.width;
        let ghost h = self.height;
        let (x, y) = stack[stack.len() - 1];
        let mut neighbours: Vec<(usize, usize, Direction)> = vec![
            (x, y + 1, Direction::North),
            (x + 1, y, Direction::East),
            (x, y.saturating_sub(1), Direction::South),
            (x.saturating_sub(1), y, Direction::West),
        ];
        let ghost before_shuffle = neighbours@;
        shuffle_candidates(rng, &mut neighbours);
        proof {
            broadcast use vstd::seq_lib::group_to_multiset_ensures;

            assert forall|k: int| 0 <= k < neighbours@.len() implies {
                &&& #[trigger] neighbours@[k].0 <= w
                &&& neighbours@[k].1 <= h
                &&& before_shuffle.contains(neighbours@[k])
            } by {
                assert(neighbours@.to_multiset().count(neighbours@[k]) > 0);
            }
        }
        let ghost cells0 = self.cells();
        let ghost seen0 = self.seen();
        let ghost stack0 = stack@;
        let chosen = self.first_valid(&neighbours);
        proof {
            assert(before_shuffle =~= candidates(x, y));
            lemma_pick(cells0, seen0, neighbours@, chosen);
        }
        set_tile(&mut self.data, x, y, TileState::Empty);
        proof {
            Self::lemma_carve_top(old(self), stack0, dtop@, sx@, sy@);
            let c1 = self.cells();
            assert(c1 == set_cell(cells0, x as int, y as int, TileState::Empty));
        }
        match chosen {
            Some(k) => {
                let (nx, ny, d) = neighbours[k];
                proof {
                    let c1 = self.cells();
                    assert(before_shuffle.contains((nx, ny, d)));
                    let j = choose|j: int|
                        0 <= j < before_shuffle.len() && before_shuffle[j] == (nx, ny, d);
                    assert(j == 0 || j == 1 || j == 2 || j == 3);
                    assert(seen0[x as int][y as int]);
                    assert(arrived_from(nx as int, ny as int, d) == (x as int, y as int));
                    assert(isolated(c1, nx as int, ny as int, d));
                    lemma_grid_set_one(seen0, nx as int, ny as int);
                    assert forall|k: int| 0 <= k < stack@.len() implies #[trigger] stack@[k] != (
                    nx, ny) by {
                        assert(seen0[stack@[k].0 as int][stack@[k].1 as int]);
                    }
                }
                set_flag(&mut self.visited, nx, ny, true);
                stack.push((nx, ny));
                proof {
                    let seen1 = self.seen();
                    assert(in_grid(seen0, nx as int, ny as int));
                    assert forall|k: int| 0 <= k < stack@.len() implies #[trigger] stack@[k].0 < w
                        && stack@[k].1 < h && seen1[stack@[k].0 as int][stack@[k].1 as int] by {
                        if k < stack@.len() - 1 {
                            assert(stack@[k] == stack0[k]);
                            assert(stack0[k].0 < w);
                        }
                    }
                    assert forall|k: int| 0 <= k < stack@.len() - 1 implies is_open(
                        self.cells(),
                        #[trigger] stack@[k].0 as int,
                        stack@[k].1 as int,
                    ) by {
                        assert(stack@[k] == stack0[k]);
                        if k < stack0.len() - 1 {
                            assert(is_open(cells0, stack0[k].0 as int, stack0[k].1 as int));
                        }
                    }
                    lemma_push_keeps(cells0, seen0, self.cells(), seen1, stack0, x as int, y as int, nx, ny);
                    assert(stack@ == stack0.push((nx, ny)));
                }
                Ghost((d, neighbours@))
            },
            None => {
                stack.pop();
                proof {
                    assert forall|k: int| 0 <= k < stack@.len() implies #[trigger] stack@[k].0 < w
                        && stack@[k].1 < h && seen0[stack@[k].0 as int][stack@[k].1 as int] by {
                        assert(stack@[k] == stack0[k]);
                        assert(stack0[k].0 < w);
                    }
                    assert forall|k: int| 0 <= k < stack@.len() - 1 implies is_open(
                        self.cells(),
                        #[trigger] stack@[k].0 as int,
                        stack@[k].1 as int,
                    ) by {
                        assert(stack@[k] == stack0[k]);
                        assert(is_open(cells0, stack0[k].0 as int, stack0[k].1 as int));
                    }
                    lemma_no_candidate(cells0, seen0, before_shuffle, neighbours@, x as int, y as int);
                    lemma_pop_keeps(cells0, seen0, self.cells(), stack0, x as int, y as int);
                    assert(stack@ == stack0.drop_last());
                }
                Ghost((dtop@, neighbours@))
            },
        }
    }

    /// A finished maze carved from `(sx, sy)`: the start cell is carved; a
    /// cell is visited exactly when it is carved; no carved cell has a
    /// candidate left that may be carved; the carved cells form a tree (any two
    /// are joined by a walk through carved cells, and there is exactly one link,
    /// a pair of carved cells sharing an edge, fewer than carved cells); the
    /// passages are one cell wide and never touch at a corner alone; the exit is
    /// the last carved cell in row-major order and, on a grid of at least two
    /// cells, the entry is the first one, before the exit.
    pub open spec fn generated(&self, sx: int, sy: int) -> bool {
        let cells = self.cells();
        let seen = self.seen();
        &&& self.wf()
        &&& is_open(cells, sx, sy)
        &&& forall|i: int, j: int|
            #![trigger seen[i][j]]
            in_grid(cells, i, j) ==> seen[i][j] == (cells[i][j] != TileState::Wall)
        &&& forall|i: int, j: int| #[trigger] is_open(cells, i, j) ==> stuck(cells, seen, i, j)
        &&& no_open_square(cells)
        &&& no_corner_contact(cells)
        &&& link_count(cells) + 1 == carved_count(cells)
        &&& all_joined(cells)
        &&& (self.spec_width() * self.spec_height() >= 2 ==> carved_count(cells) >= 2)
        &&& exists|ex: int, ey: int|
            {
                &&& #[trigger] only_at(cells, TileState::End, ex, ey)
                &&& forall|i: int, j: int|
                    #![trigger cells[i][j]]
                    in_grid(cells, i, j) && before((ex, ey), (i, j)) ==> cells[i][j]
                        == TileState::Wall
                &&& (self.spec_width() * self.spec_height() >= 2 ==> exists|ax: int, ay: int|
                    {
                        &&& #[trigger] only_at(cells, TileState::Start, ax, ay)
                        &&& before((ax, ay), (ex, ey))
                        &&& forall|i: int, j: int|
                            #![trigger cells[i][j]]
                            in_grid(cells, i, j) && before((i, j), (ax, ay)) ==> cells[i][j]
                                == TileState::Wall
                    })
            }
    }

    /// The maze is what the finished search `r` left, up to the entry and exit
    /// marks: the stack is empty, the visited flags are those of `r`, and the
    /// carved cells are those of `r`.
    pub open spec fn ran(&self, r: SearchState) -> bool {
        &&& r.2.len() == 0
        &&& self.seen() == r.1
        &&& forall|i: int, j: int| #[trigger] is_open(self.cells(), i, j) == is_open(r.0, i, j)
    }

    /// The maze is the result of the search from `(sx, sy)` over the tiles
    /// `cells` and flags `seen`, for some order of the candidates at each step,
    /// and has the properties of `generated`.
    pub open spec fn searched_from(
        &self,
        cells: Seq<Seq<TileState>>,
        seen: Seq<Seq<bool>>,
        sx: usize,
        sy: usize,
    ) -> bool {
        &&& self.generated(sx as int, sy as int)
        &&& exists|trace: Seq<Seq<(usize, usize, Direction)>>|
            #![trigger search_run(search_start(cells, seen, sx, sy), trace)]
            {
                &&& trace_orders(search_start(cells, seen, sx, sy), trace)
                &&& self.ran(search_run(search_start(cells, seen, sx, sy), trace))
            }
    }

    /// A fresh maze: every cell a wall, none visited.
    pub open spec fn fresh(&self) -> bool {
        &&& self.wf()
        &&& forall|i: int, j: int|
            #![trigger self.cells()[i][j]]
            in_grid(self.cells(), i, j) ==> self.cells()[i][j] == TileState::Wall
        &&& forall|i: int, j: int|
            #![trigger self.seen()[i][j]]
            in_grid(self.seen(), i, j) ==> !self.seen()[i][j]
    }

    /// Carves a maze by randomized depth-first search from `(sx, sy)`, then
    /// marks the first carved cell in row-major order as the entry and the last
    /// as the exit. Where the two coincide, the exit wins.
    pub fn carve_from(&mut self, rng: &mut SmallRng, sx: usize, sy: usize)
        requires
            old(self).fresh(),
            sx < old(self).spec_width(),
            sy < old(self).spec_height(),
        ensures
            final(self).searched_from(old(self).cells(), old(self).seen(), sx, sy),
            final(self).spec_width() == old(self).spec_width(),
            final(self).spec_height() == old(self).spec_height(),
    {
        let ghost w = self.width;
        let ghost h = self.height;
        let mut stack: Vec<(usize, usize)> = vec![(sx, sy)];
        let ghost before_mark = self.cells();
        let ghost seen_before = self.seen();
        set_flag(&mut self.visited, sx, sy, true);
        let mut dtop: Ghost<Direction> = Ghost(Direction::North);
        let ghost st0 = search_start(before_mark, seen_before, sx, sy);
        let ghost mut trace: Seq<Seq<(usize, usize, Direction)>> = Seq::empty();
        proof {
            assert((self.cells(), self.seen(), stack@) == search_run(st0, trace));
            assert forall|i: int, j: int| #[trigger] is_open(self.cells(), i, j) implies false by {
                assert(self.cells()[i][j] == TileState::Wall);
            }
            assert(self.cells() == before_mark);
            lemma_walls_counts(self.cells());
            assert(reached_from(self.cells(), (sx as int, sy as int)));
            assert forall|i: int, j: int|
                in_grid(self.seen(), i, j) && #[trigger] self.seen()[i][j] implies is_open(
                self.cells(),
                i,
                j,
            ) || (stack@.len() > 0 && (i, j) == (stack@.last().0 as int,
            stack@.last().1 as int)) by {
                if (i, j) != (sx as int, sy as int) {
                    assert(!seen_before[i][j]);
                }
            }
        }

        while stack.len() > 0
            invariant
                self.carving(stack@, dtop@, sx, sy),
                self.spec_width() == w,
                self.spec_height() == h,
                (self.cells(), self.seen(), stack@) == search_run(st0, trace),
                trace_orders(st0, trace),
            decreases 2 * unset_count(self.seen()) + stack@.len(),
        {
            let ghost prev = (self.cells(), self.seen(), stack@);
            let step = self.carve_step(rng, &mut stack, dtop, Ghost(sx), Ghost(sy));
            proof {
                let t2 = trace.push(step@.1);
                assert(t2.drop_last() =~= trace);
                assert forall|k: int| 0 <= k < t2.len() implies #[trigger] t2[k].to_multiset()
                    == candidates(
                    search_run(st0, t2.take(k)).2.last().0,
                    search_run(st0, t2.take(k)).2.last().1,
                ).to_multiset() by {
                    if k < trace.len() {
                        assert(t2.take(k) =~= trace.take(k));
                    } else {
                        assert(t2.take(k) =~= trace);
                    }
                }
                trace = t2;
            }
            dtop = Ghost(step@.0);
        }

        let first = self.first_empty();
        let last = self.last_empty();
        let ghost carved = self.cells();
        let ghost seen = self.seen();
        proof {
            assert forall|i: int, j: int| #[trigger] is_open(carved, i, j) implies stuck(
                carved,
                seen,
                i,
                j,
            ) by {
                assert(!stack@.contains((i as usize, j as usize)));
            }
        }
        if let Some((fx, fy)) = first {
            set_tile(&mut self.data, fx, fy, TileState::Start);
        }
        if let Some((lx, ly)) = last {
            set_tile(&mut self.data, lx, ly, TileState::End);
        }
        proof {
            assert(trace_orders(st0, trace));
            assert(self.ran(search_run(st0, trace))) by {
                assert forall|i: int, j: int| #[trigger]
                    is_open(self.cells(), i, j) == is_open(carved, i, j) by {}
            }
            let (fx, fy) = first.unwrap();
            let (lx, ly) = last.unwrap();
            let fin = self.cells();
            assert forall|a: int, b: int| #[trigger]
                is_open(fin, a, b) == is_open(carved, a, b) by {}
            lemma_counts_same_openings(carved, fin);
            let root = (sx as int, sy as int);
            assert forall|i: int, j: int| #[trigger] is_open(fin, i, j) implies joined(
                fin,
                root,
                (i, j),
            ) by {
                assert(is_open(carved, i, j));
                lemma_joined_grows(carved, fin, root, (i, j));
            }
            lemma_all_joined(fin, root);
            assert forall|i: int, j: int| #[trigger] is_open(fin, i, j) implies stuck(
                fin,
                seen,
                i,
                j,
            ) by {
                assert(is_open(carved, i, j));
                assert(stuck(carved, seen, i, j));
            }
            assert forall|i: int, j: int| #![trigger seen[i][j]] in_grid(fin, i, j) implies seen[i][j]
                == (fin[i][j] != TileState::Wall) by {
                assert(is_open(fin, i, j) == is_open(carved, i, j));
                if seen[i][j] {
                    assert(is_open(carved, i, j));
                }
            }
            assert(only_at(fin, TileState::End, lx as int, ly as int));
            assert forall|i: int, j: int|
                in_grid(fin, i, j) && before((lx as int, ly as int), (i, j)) implies #[trigger] fin[i][j]
                == TileState::Wall by {
                assert(carved[i][j] != TileState::Empty);
            }
            if w * h >= 2 {
                let c = lemma_second_carved(carved, seen, w as int, h as int, sx as int, sy as int);
                assert(carved[c.0][c.1] == TileState::Empty);
                assert(carved[sx as int][sy as int] == TileState::Empty);
                assert((fx, fy) != (lx, ly));
                assert(before((fx as int, fy as int), (lx as int, ly as int)));
                assert(only_at(fin, TileState::Start, fx as int, fy as int));
                lemma_two_carved_count(fin, (fx as int, fy as int), (lx as int, ly as int));
                assert forall|i: int, j: int|
                    in_grid(fin, i, j) && before((i, j), (fx as int, fy as int)) implies #[trigger] fin[i][j]
                    == TileState::Wall by {
                    assert(carved[i][j] != TileState::Empty);
                }
            }
        }
    }

    /// Carves a maze by randomized depth-first search from a random cell, then
    /// marks the entry and the exit (see `carve_from`). The two numbers drawn
    /// for the start cell are the only part of the outcome not stated by
    /// `carve_from`.
    pub fn populate(&mut self, rng: &mut SmallRng)
        requires
            old(self).fresh(),
            old(self).spec_width() > 0,
            old(self).spec_height() > 0,
        ensures
            exists|sx: usize, sy: usize|
                #![trigger final(self).searched_from(old(self).cells(), old(self).seen(), sx, sy)]
                {
                    &&& sx < old(self).spec_width()
                    &&& sy < old(self).spec_height()
                    &&& final(self).searched_from(old(self).cells(), old(self).seen(), sx, sy)
                },
            final(self).spec_width() == old(self).spec_width(),
            final(self).spec_height() == old(self).spec_height(),
    {
        let ghost cells0 = self.cells();
        let ghost seen0 = self.seen();
        let start_x = draw_below(rng, self.width) as usize;
        let start_y = draw_below(rng, self.height) as usize;
        self.carve_from(rng, start_x, start_y);
        assert(self.searched_from(cells0, seen0, start_x, start_y));
    }

    /// Like `populate`, but refuses a maze with no cell to start from.
    pub fn try_populate(&mut self, rng: &mut SmallRng) -> (r: Result<(), MazeError>)
        requires
            old(self).fresh(),
        ensures
            r is Err <==> old(self).spec_width() == 0 || old(self).spec_height() == 0,
            r is Err ==> r == Err::<(), MazeError>(MazeError::ZeroDimension) && final(self).cells()
                == old(self).cells() && final(self).seen() == old(self).seen(),
            r is Ok ==> exists|sx: usize, sy: usize|
                #![trigger final(self).searched_from(old(self).cells(), old(self).seen(), sx, sy)]
                {
                    &&& sx < old(self).spec_width()
                    &&& sy < old(self).spec_height()
                    &&& final(self).searched_from(old(self).cells(), old(self).seen(), sx, sy)
                },
            final(self).spec_width() == old(self).spec_width(),
            final(self).spec_height() == old(self).spec_height(),
    {
        match check_dimensions(self.width, self.height) {
            Err(e) => Err(e),
            Ok(()) => {
                self.populate(rng);
                Ok(())
            },
        }
    }

    /// The width of the maze in cells.
    pub fn width(&self) -> (r: u32)
        ensures
            r == self.spec_width(),
    {
        self.width
    }

    /// The height of the maze in cells.
    pub fn height(&self) -> (r: u32)
        ensures
            r == self.spec_height(),
    {
        self.height
    }

    /// The tile at `(x, y)`, or nothing out of bounds.
    pub fn tile(&self, x: usize, y: usize) -> (r: Option<TileState>)
        ensures
            r == cell_at(self.cells(), x as int, y as int),
    {
        tile_at(&self.data, x, y)
    }

    /// The colour of every tile, in row-major order: one pixel per cell.
    pub fn pixels(&self) -> (p: Vec<RGB8>)
        requires
            self.wf(),
        ensures
            p@ == pixel_seq(self.cells()),
    {
        let rows: usize = if self.height == 0 { 0 } else { self.width as usize };
        let cols: usize = if self.width == 0 { 0 } else { self.height as usize };
        let mut p: Vec<RGB8> = Vec::new();
        let mut x: usize = 0;
        while x < rows
            invariant
                self.wf(),
                x <= rows,
                rows == self.cells().len(),
                forall|i: int| 0 <= i < rows ==> #[trigger] self.cells()[i].len() == cols,
                p@ == pixel_seq(self.cells().take(x as int)),
            decreases rows - x,
        {
            let ghost done = p@;
            let mut y: usize = 0;
            while y < cols
                invariant
                    self.wf(),
                    x < rows,
                    y <= cols,
                    rows == self.cells().len(),
                    forall|i: int| 0 <= i < rows ==> #[trigger] self.cells()[i].len() == cols,
                    p@ == done + row_colours(self.cells()[x as int].take(y as int)),
                decreases cols - y,
            {
                let t = tile_at(&self.data, x, y).unwrap();
                p.push(tile_colour(t));
                proof {
                    let row = self.cells()[x as int];
                    assert(row.take(y + 1) =~= row.take(y as int).push(t));
                    assert(row_colours(row.take(y + 1)) =~= row_colours(row.take(y as int)).push(
                        colour_of(t),
                    ));
                }
                y += 1;
            }
            proof {
                let c = self.cells();
                assert(c.take(x + 1).drop_last() =~= c.take(x as int));
                assert(c[x as int].take(cols as int) =~= c[x as int]);
            }
            x += 1;
        }
        proof {
            assert(self.cells().take(rows as int) =~= self.cells());
        }
        p
    }
}

} // verus!
