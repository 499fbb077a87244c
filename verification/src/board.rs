//! The puzzle board: a fixed grid of cells, each empty or holding the symbol
//! of the piece that occupies it, with placement legality checks, placement
//! application, and canonical serialization.

use vstd::multiset::Multiset;
use vstd::prelude::*;
use vstd::string::StrSliceExecFns;

use crate::calendar::{Day, Month, MonthDay, Weekday};
use crate::piece::{
    view_coords, Coordinates, Piece, Placement, Rotation,
};
use crate::pieces::{marker_piece, Pieces};
use crate::region::{
    adjacent, blank_at, blank_cells, blank_count, board_cells, closed_under_adjacency,
    has_bad_region, is_region_size, lemma_board_cells_finite, lemma_closed_contains_region,
    lemma_closed_misses_region, lemma_len_disjoint_union, lemma_member_means_nonempty,
    lemma_reaches_refl, lemma_reaches_step, lemma_region_finite, lemma_region_same, reaches,
    region, region_size,
};

verus! {

/// Largest board dimension accepted; keeps all cell arithmetic well inside
/// the machine integer ranges.
pub const MAX_DIM: usize = 65535;

/// The footprint size every movable piece covers; a blank region whose size
/// this does not divide can never be tiled by such pieces.
pub const PRUNE_DIVISOR: usize = 5;

/// Why a placement is illegal: the first offending cell, with the reason.
#[derive(Debug, Clone, Copy, PartialEq, Eq, Structural)]
pub enum PlacementError {
    OutOfBounds { x: i64, y: i64 },
    Occupied { x: i64, y: i64 },
}

/// The mathematical model of a board: dimensions, the grid of cells in
/// row-major order, and the symbol that stands for an empty cell.
pub ghost struct BoardModel {
    pub width: int,
    pub height: int,
    pub grid: Seq<Seq<Option<char>>>,
    pub blank: char,
}

impl BoardModel {
    /// The grid has exactly `height` rows of `width` cells, within bounds.
    pub open spec fn wf(self) -> bool {
        &&& 0 <= self.width <= MAX_DIM as int
        &&& 0 <= self.height <= MAX_DIM as int
        &&& self.grid.len() == self.height
        &&& forall|y: int| 0 <= y < self.height ==> (#[trigger] self.grid[y]).len() == self.width
    }

    /// True when the coordinate lies on the board.
    pub open spec fn in_bounds(self, x: int, y: int) -> bool {
        0 <= x < self.width && 0 <= y < self.height
    }

    /// The content of one cell.
    pub open spec fn cell(self, x: int, y: int) -> Option<char> {
        self.grid[y][x]
    }

    /// True when the cell holds a piece.
    pub open spec fn occupied(self, x: int, y: int) -> bool {
        self.cell(x, y) is Some
    }

    /// True when every listed cell lies on the board and is empty.
    pub open spec fn cells_free(self, cells: Seq<(int, int)>) -> bool {
        forall|i: int|
            0 <= i < cells.len() ==> self.in_bounds((#[trigger] cells[i]).0, cells[i].1)
                && !self.occupied(cells[i].0, cells[i].1)
    }

    /// The board with the listed cells set to the given symbol.
    pub open spec fn place_cells(self, sym: char, cells: Seq<(int, int)>) -> BoardModel
        decreases cells.len(),
    {
        if cells.len() == 0 {
            self
        } else {
            let c = cells.last();
            let b = self.place_cells(sym, cells.drop_last());
            BoardModel { grid: b.grid.update(c.1, b.grid[c.1].update(c.0, Some(sym))), ..b }
        }
    }

    /// The canonical row-major serialization of the board.
    pub open spec fn serial(self) -> Seq<char> {
        serial_rows(self.grid, self.blank)
    }
}

/// One row rendered for serialization: the occupying symbol, or the blank.
pub open spec fn row_serial(row: Seq<Option<char>>, blank: char) -> Seq<char> {
    row.map_values(
        |c: Option<char>|
            match c {
                Some(ch) => ch,
                None => blank,
            },
    )
}

/// All rows rendered and joined, in row order.
pub open spec fn serial_rows(g: Seq<Seq<Option<char>>>, blank: char) -> Seq<char>
    decreases g.len(),
{
    if g.len() == 0 {
        Seq::empty()
    } else {
        serial_rows(g.drop_last(), blank) + row_serial(g.last(), blank)
    }
}

/// Every row contributes exactly `width` symbols, so a well-formed board's
/// serialization holds exactly `width * height` characters.
proof fn lemma_serial_rows_len(g: Seq<Seq<Option<char>>>, blank: char, w: int)
    requires
        forall|y: int| 0 <= y < g.len() ==> (#[trigger] g[y]).len() == w,
    ensures
        serial_rows(g, blank).len() == g.len() * w,
    decreases g.len(),
{
    if g.len() == 0 {
    } else {
        let init = g.drop_last();
        assert(forall|y: int| 0 <= y < init.len() ==> init[y] == g[y]);
        lemma_serial_rows_len(init, blank, w);
        assert(g.last().len() == w);
        assert((g.len() - 1) * w + w == g.len() * w) by (nonlinear_arith);
    }
}

/// A well-formed board serializes to exactly one symbol per cell.
pub proof fn lemma_serial_len(m: BoardModel)
    requires
        m.wf(),
    ensures
        m.serial().len() == m.width * m.height,
{
    lemma_serial_rows_len(m.grid, m.blank, m.width);
    assert(m.height * m.width == m.width * m.height) by (nonlinear_arith);
}

/// The absolute cells a shape covers when anchored at `(px, py)`.
pub open spec fn abs_cells(shape: Seq<(int, int)>, px: int, py: int) -> Seq<(int, int)> {
    shape.map_values(|c: (int, int)| (c.0 + px, c.1 + py))
}

/// The absolute cells a placement of the piece covers.
pub open spec fn placement_cells(piece: Piece, p: Placement) -> Seq<(int, int)> {
    abs_cells(piece.shape_at(p.rotation, p.flipped), p.x as int, p.y as int)
}

/// True when the placement's anchor lies on the board. Candidate placements
/// are enumerated over anchors on the board only.
pub open spec fn anchor_on_board(m: BoardModel, p: Placement) -> bool {
    0 <= p.x as int && (p.x as int) < m.width && 0 <= p.y as int && (p.y as int) < m.height
}

/// Placement legality: the orientation is permitted for the piece and every
/// covered cell lies on the board and is empty.
pub open spec fn fits(m: BoardModel, piece: Piece, p: Placement) -> bool {
    (p.flipped ==> piece.flippable) && m.cells_free(placement_cells(piece, p))
}

/// The verdict of checking the cells one by one from index `i`: the first
/// violation found, or success.
pub open spec fn check_cells_from(m: BoardModel, cells: Seq<(int, int)>, i: int) -> Result<
    (),
    PlacementError,
>
    decreases cells.len() - i,
{
    if i < 0 || i >= cells.len() {
        Ok(())
    } else if !m.in_bounds(cells[i].0, cells[i].1) {
        Err(PlacementError::OutOfBounds { x: cells[i].0 as i64, y: cells[i].1 as i64 })
    } else if m.occupied(cells[i].0, cells[i].1) {
        Err(PlacementError::Occupied { x: cells[i].0 as i64, y: cells[i].1 as i64 })
    } else {
        check_cells_from(m, cells, i + 1)
    }
}

/// The board itself. Every mutating operation is invoked on an exclusively
/// owned value, so search branches never share state.
#[derive(Debug, Clone)]
pub struct Board {
    pub width: usize,
    pub height: usize,
    pub grid: Vec<Vec<Option<char>>>,
    pub blank: char,
}

impl View for Board {
    type V = BoardModel;

    open spec fn view(&self) -> BoardModel {
        BoardModel {
            width: self.width as int,
            height: self.height as int,
            grid: self.grid@.map_values(|row: Vec<Option<char>>| row@),
            blank: self.blank,
        }
    }
}

impl Board {
    /// The executable board matches its model.
    pub open spec fn wf(self) -> bool {
        self@.wf()
    }

    /// Creates a new board with the given dimensions, all cells empty.
    pub fn new(width: usize, height: usize, blank: char) -> (r: Board)
        requires
            width <= MAX_DIM,
            height <= MAX_DIM,
        ensures
            r.wf(),
            r@.width == width,
            r@.height == height,
            r@.blank == blank,
            forall|x: int, y: int| r@.in_bounds(x, y) ==> !r@.occupied(x, y),
    {
        let row: Vec<Option<char>> = vec![None; width];
        let grid: Vec<Vec<Option<char>>> = vec![row; height];
        let r = Board { width, height, grid, blank };
        proof {
            assert forall|x: int, y: int| r@.in_bounds(x, y) implies !r@.occupied(x, y) by {
                assert(r@.grid[y] == r.grid@[y]@);
            }
        }
        r
    }

    /// Builds the calendar board for a day: the 9 by 6 grid with the
    /// month, day-of-month and weekday marker pieces placed on the day's
    /// cells and the corner marker on the board's missing corner.
    pub fn make(day: &Day) -> (r: Board)
        requires
            day.day.wf(),
        ensures
            r.wf(),
            r@.width == 9,
            r@.height == 6,
            r@.blank == '\u{b7}',
            forall|x: int, y: int|
                r@.in_bounds(x, y) ==> #[trigger] r@.cell(x, y) == date_cell_content(
                    day.month,
                    day.day,
                    day.weekday,
                    x,
                    y,
                ),
    {
        let mut board = Board::new(9, 6, '\u{b7}');
        let ghost m0 = board@;
        let month_piece = Pieces::get_month();
        let day_piece = Pieces::get_day();
        let weekday_piece = Pieces::get_weekday();
        let corner_piece = Pieces::get_corner();
        proof {
            lemma_date_cells_distinct(day.month, day.day, day.weekday);
        }
        let mc = day.month.to_coordinates();
        let pl1 = Placement::new(Rotation::Zero, false, mc);
        proof {
            lemma_marker_cells(m0, month_piece, pl1);
        }
        let ok1 = board.place_piece(&month_piece, pl1);
        let ghost m1 = board@;
        proof {
            assert(ok1);
            m0.lemma_place_cells_grid('m', placement_cells(month_piece, pl1));
        }
        let dc = day.day.to_coordinates();
        let pl2 = Placement::new(Rotation::Zero, false, dc);
        proof {
            lemma_marker_cells(m1, day_piece, pl2);
            let c: (int, int) = (dc.0 as int, dc.1 as int);
            assert(c == day.day.spec_coordinates());
            assert(placement_cells(month_piece, pl1) =~= seq![day.month.spec_coordinates()]);
            assert(!placement_cells(month_piece, pl1).contains(c));
            assert(m0.place_cells('m', placement_cells(month_piece, pl1)).cell(c.0, c.1)
                == m0.cell(c.0, c.1));
            assert(m0.in_bounds(c.0, c.1) && !m0.occupied(c.0, c.1));
            assert(!m1.occupied(c.0, c.1));
        }
        let ok2 = board.place_piece(&day_piece, pl2);
        let ghost m2 = board@;
        proof {
            assert(ok2);
            m1.lemma_place_cells_grid('d', placement_cells(day_piece, pl2));
        }
        let wc = day.weekday.to_coordinates();
        let pl3 = Placement::new(Rotation::Zero, false, wc);
        proof {
            lemma_marker_cells(m2, weekday_piece, pl3);
            let c: (int, int) = (wc.0 as int, wc.1 as int);
            assert(c == day.weekday.spec_coordinates());
            assert(placement_cells(month_piece, pl1) =~= seq![day.month.spec_coordinates()]);
            assert(placement_cells(day_piece, pl2) =~= seq![day.day.spec_coordinates()]);
            assert(!placement_cells(month_piece, pl1).contains(c));
            assert(!placement_cells(day_piece, pl2).contains(c));
            assert(m0.place_cells('m', placement_cells(month_piece, pl1)).cell(c.0, c.1)
                == m0.cell(c.0, c.1));
            assert(m1.place_cells('d', placement_cells(day_piece, pl2)).cell(c.0, c.1) == m1.cell(
                c.0,
                c.1,
            ));
            assert(m0.in_bounds(c.0, c.1) && !m0.occupied(c.0, c.1));
            assert(!m2.occupied(c.0, c.1));
        }
        let ok3 = board.place_piece(&weekday_piece, pl3);
        let ghost m3 = board@;
        proof {
            assert(ok3);
            m2.lemma_place_cells_grid('w', placement_cells(weekday_piece, pl3));
        }
        let pl4 = Placement::new(Rotation::Zero, false, (8, 5));
        proof {
            lemma_marker_cells(m3, corner_piece, pl4);
            let c: (int, int) = (8, 5);
            assert(placement_cells(month_piece, pl1) =~= seq![day.month.spec_coordinates()]);
            assert(placement_cells(day_piece, pl2) =~= seq![day.day.spec_coordinates()]);
            assert(placement_cells(weekday_piece, pl3) =~= seq![day.weekday.spec_coordinates()]);
            assert(!placement_cells(month_piece, pl1).contains(c));
            assert(!placement_cells(day_piece, pl2).contains(c));
            assert(!placement_cells(weekday_piece, pl3).contains(c));
            assert(m0.place_cells('m', placement_cells(month_piece, pl1)).cell(c.0, c.1)
                == m0.cell(c.0, c.1));
            assert(m1.place_cells('d', placement_cells(day_piece, pl2)).cell(c.0, c.1) == m1.cell(
                c.0,
                c.1,
            ));
            assert(m2.place_cells('w', placement_cells(weekday_piece, pl3)).cell(c.0, c.1)
                == m2.cell(c.0, c.1));
            assert(m0.in_bounds(c.0, c.1) && !m0.occupied(c.0, c.1));
            assert(!m3.occupied(c.0, c.1));
        }
        let ok4 = board.place_piece(&corner_piece, pl4);
        proof {
            assert(ok4);
            m3.lemma_place_cells_grid('x', placement_cells(corner_piece, pl4));
            assert forall|x: int, y: int| board@.in_bounds(x, y) implies #[trigger] board@.cell(
                x,
                y,
            ) == date_cell_content(day.month, day.day, day.weekday, x, y) by {
                let cells1 = placement_cells(month_piece, pl1);
                let cells2 = placement_cells(day_piece, pl2);
                let cells3 = placement_cells(weekday_piece, pl3);
                let cells4 = placement_cells(corner_piece, pl4);
                assert(cells1 =~= seq![day.month.spec_coordinates()]);
                assert(cells2 =~= seq![day.day.spec_coordinates()]);
                assert(cells3 =~= seq![day.weekday.spec_coordinates()]);
                assert(cells4 =~= seq![(8int, 5int)]);
                assert(cells1.contains((x, y)) <==> (x, y) == day.month.spec_coordinates()) by {
                    if (x, y) == day.month.spec_coordinates() {
                        assert(cells1[0] == (x, y));
                    }
                }
                assert(cells2.contains((x, y)) <==> (x, y) == day.day.spec_coordinates()) by {
                    if (x, y) == day.day.spec_coordinates() {
                        assert(cells2[0] == (x, y));
                    }
                }
                assert(cells3.contains((x, y)) <==> (x, y) == day.weekday.spec_coordinates()) by {
                    if (x, y) == day.weekday.spec_coordinates() {
                        assert(cells3[0] == (x, y));
                    }
                }
                assert(cells4.contains((x, y)) <==> (x, y) == ((8int, 5int))) by {
                    if (x, y) == ((8int, 5int)) {
                        assert(cells4[0] == (x, y));
                    }
                }
                assert(m0.place_cells('m', cells1).cell(x, y) == if cells1.contains((x, y)) {
                    Some('m')
                } else {
                    m0.cell(x, y)
                });
                assert(m1.place_cells('d', cells2).cell(x, y) == if cells2.contains((x, y)) {
                    Some('d')
                } else {
                    m1.cell(x, y)
                });
                assert(m2.place_cells('w', cells3).cell(x, y) == if cells3.contains((x, y)) {
                    Some('w')
                } else {
                    m2.cell(x, y)
                });
                assert(m3.place_cells('x', cells4).cell(x, y) == if cells4.contains((x, y)) {
                    Some('x')
                } else {
                    m3.cell(x, y)
                });
                assert(!m0.occupied(x, y));
            }
        }
        board
    }

    /// Checks whether a piece in the given placement fits the board, and
    /// returns the absolute coordinates it would cover. Cells are examined
    /// in shape order and the first violation is reported.
    pub fn can_place_piece(&self, piece: &Piece, placement: Placement) -> (r: Result<
        Vec<Coordinates>,
        PlacementError,
    >)
        requires
            self.wf(),
            piece.wf(),
            placement.flipped ==> piece.flippable,
        ensures
            r is Ok <==> fits(self@, *piece, placement),
            (match r {
                Ok(v) => view_coords(v@) == placement_cells(*piece, placement),
                Err(e) => check_cells_from(self@, placement_cells(*piece, placement), 0) == Err::<
                    (),
                    PlacementError,
                >(e),
            }),
    {
        let ghost cells = placement_cells(*piece, placement);
        let shape = piece.get_shape(placement.rotation, placement.flipped);
        let mut coordinates: Vec<Coordinates> = Vec::new();
        let n = shape.len();
        proof {
            assert(cells.len() == n);
        }
        for i in 0..n
            invariant
                self.wf(),
                n == shape@.len(),
                cells == placement_cells(*piece, placement),
                cells.len() == n,
                forall|j: int| 0 <= j < n ==> #[trigger] cells[j] == (shape@[j].0 + placement.x, shape@[j].1 + placement.y),
                coordinates@.len() == i,
                forall|j: int|
                    0 <= j < i ==> ((#[trigger] coordinates@[j]).0 as int, coordinates@[j].1 as int)
                        == cells[j],
                forall|j: int|
                    0 <= j < i ==> self@.in_bounds(#[trigger] cells[j].0, cells[j].1)
                        && !self@.occupied(cells[j].0, cells[j].1),
                check_cells_from(self@, cells, 0) == check_cells_from(self@, cells, i as int),
        {
            let (dx, dy) = shape[i];
            let x = placement.x as i64 + dx as i64;
            let y = placement.y as i64 + dy as i64;
            if x < 0 || y < 0 || x >= self.width as i64 || y >= self.height as i64 {
                return Err(PlacementError::OutOfBounds { x, y });
            }
            if self.grid[y as usize][x as usize].is_some() {
                proof {
                    assert(self@.grid[y as int] == self.grid@[y as int]@);
                }
                return Err(PlacementError::Occupied { x, y });
            }
            proof {
                assert(self@.grid[y as int] == self.grid@[y as int]@);
            }
            coordinates.push((x as i32, y as i32));
        }
        proof {
            assert(view_coords(coordinates@) =~= cells);
        }
        Ok(coordinates)
    }

    /// Places a piece if its placement fits, writing the piece's symbol into
    /// every covered cell; an unplaceable piece leaves the board unchanged.
    pub fn place_piece(&mut self, piece: &Piece, placement: Placement) -> (r: bool)
        requires
            old(self).wf(),
            piece.wf(),
            placement.flipped ==> piece.flippable,
        ensures
            r == fits(old(self)@, *piece, placement),
            r ==> final(self)@ == old(self)@.place_cells(
                piece.symbol,
                placement_cells(*piece, placement),
            ),
            !r ==> *final(self) == *old(self),
            final(self).wf(),
    {
        let ghost cells = placement_cells(*piece, placement);
        match self.can_place_piece(piece, placement) {
            Ok(coords) => {
                proof {
                    old(self)@.lemma_place_cells_grid(piece.symbol, cells);
                }
                let n = coords.len();
                for i in 0..n
                    invariant
                        n == coords@.len(),
                        cells.len() == n,
                        forall|j: int|
                            0 <= j < n ==> ((#[trigger] coords@[j]).0 as int, coords@[j].1 as int)
                                == cells[j],
                        old(self)@.cells_free(cells),
                        old(self).wf(),
                        self@ == old(self)@.place_cells(piece.symbol, cells.take(i as int)),
                        self.wf(),
                        self@.width == old(self)@.width,
                        self@.height == old(self)@.height,
                    decreases n - i,
                {
                    proof {
                        old(self)@.lemma_place_cells_grid(piece.symbol, cells.take(i as int));
                        assert(cells.take(i + 1).drop_last() =~= cells.take(i as int));
                        assert(cells.take(i + 1).last() == cells[i as int]);
                    }
                    let (x, y) = coords[i];
                    let ghost prev = old(self)@.place_cells(piece.symbol, cells.take(i as int));
                    proof {
                        assert(cells[i as int] == (x as int, y as int));
                        assert(old(self)@.in_bounds(x as int, y as int));
                        assert(self.grid@.len() == self@.height);
                        assert(self@.grid[y as int] == self.grid@[y as int]@);
                        assert(self.grid@[y as int]@.len() == self@.width);
                    }
                    let row: &mut Vec<Option<char>> = &mut self.grid[y as usize];
                    row[x as usize] = Some(piece.symbol);
                    proof {
                        let next = old(self)@.place_cells(piece.symbol, cells.take(i + 1));
                        assert(next.grid == prev.grid.update(
                            y as int,
                            prev.grid[y as int].update(x as int, Some(piece.symbol)),
                        ));
                        assert forall|k: int| 0 <= k < self@.grid.len() implies self@.grid[k]
                            == next.grid[k] by {
                            assert(self@.grid[k] == self.grid@[k]@);
                            if k != y as int {
                                assert(prev.grid[k] == self.grid@[k]@);
                            }
                        }
                        assert(self@.grid =~= next.grid);
                        assert(self@ == next);
                    }
                }
                proof {
                    assert(cells.take(n as int) =~= cells);
                }
                true
            },
            Err(_) => false,
        }
    }

    /// An owned copy of the board with an identical grid, for branching the
    /// search without sharing state.
    pub fn duplicate(&self) -> (r: Board)
        ensures
            r@ == self@,
    {
        let mut grid: Vec<Vec<Option<char>>> = Vec::new();
        let rows = self.grid.len();
        for y in 0..rows
            invariant
                rows == self.grid@.len(),
                grid@.len() == y,
                forall|k: int| 0 <= k < y ==> (#[trigger] grid@[k])@ == self.grid@[k]@,
        {
            let src = &self.grid[y];
            let mut row: Vec<Option<char>> = Vec::new();
            let cols = src.len();
            for x in 0..cols
                invariant
                    cols == src@.len(),
                    row@.len() == x,
                    forall|k: int| 0 <= k < x ==> row@[k] == src@[k],
            {
                row.push(src[x]);
            }
            proof {
                assert(row@ =~= src@);
            }
            grid.push(row);
        }
        let r = Board { width: self.width, height: self.height, grid, blank: self.blank };
        proof {
            assert(r@.grid =~= self@.grid);
        }
        r
    }

    /// Flood fill from one blank cell: marks every cell of its connected
    /// blank region in the visited matrix and returns the region's size.
    /// The matrix may already mark other complete regions; it must not mark
    /// any cell of the start's region.
    #[verifier::rlimit(100)]
    fn flood_fill_blank(
        &self,
        start_x: usize,
        start_y: usize,
        visited: &mut Vec<Vec<bool>>,
    ) -> (size: usize)
        requires
            self.wf(),
            vis_wf(self@, vis_view(old(visited)@)),
            only_blank(self@, visited_set(vis_view(old(visited)@))),
            closed_under_adjacency(self@, visited_set(vis_view(old(visited)@))),
            blank_at(self@, (start_x as int, start_y as int)),
            !visited_set(vis_view(old(visited)@)).contains((start_x as int, start_y as int)),
        ensures
            vis_wf(self@, vis_view(final(visited)@)),
            only_blank(self@, visited_set(vis_view(final(visited)@))),
            closed_under_adjacency(self@, visited_set(vis_view(final(visited)@))),
            visited_set(vis_view(final(visited)@)) == visited_set(vis_view(old(visited)@)).union(
                region(self@, (start_x as int, start_y as int)),
            ),
            size as nat == region_size(self@, (start_x as int, start_y as int)),
    {
        let ghost m = self@;
        let ghost startc: (int, int) = (start_x as int, start_y as int);
        let ghost v0 = visited_set(vis_view(visited@));
        let mut stack: Vec<(usize, usize)> = Vec::new();
        stack.push((start_x, start_y));
        let mut size: usize = 0;
        proof {
            lemma_stack_cells_push(Seq::<(usize, usize)>::empty(), (start_x, start_y));
            assert(stack_cells(Seq::<(usize, usize)>::empty()) =~= Set::<(int, int)>::empty());
            assert(stack_cells(stack@).contains(startc));
            lemma_reaches_refl(m, startc);
            assert(v0.difference(v0) =~= Set::<(int, int)>::empty());
            assert(m.width * m.height <= 65535 * 65535) by (nonlinear_arith)
                requires
                    0 <= m.width <= 65535,
                    0 <= m.height <= 65535,
            ;
        }
        while stack.len() != 0
            invariant
                self.wf(),
                m == self@,
                startc == (start_x as int, start_y as int),
                blank_at(m, startc),
                v0 == visited_set(vis_view(old(visited)@)),
                !v0.contains(startc),
                closed_under_adjacency(m, v0),
                flood_inv(m, v0, vis_view(visited@), stack@, size as nat, startc),
                size <= m.width * m.height,
                m.width * m.height <= 65535 * 65535,
            decreases m.width * m.height - size, stack@.len(),
        {
            let ghost st0 = stack@;
            let popped = stack.pop();
            let (x, y) = match popped {
                Some(q) => q,
                None => unreached(),
            };
            let ghost cxy: (int, int) = (x as int, y as int);
            proof {
                assert(stack@ =~= st0.drop_last());
                lemma_stack_cells_pop(st0);
                assert(st0.last() == (x, y));
                assert(blank_at(m, cxy) && reaches(m, startc, cxy));
                assert(vis_view(visited@)[y as int] == visited@[y as int]@);
            }
            let ghost v_before = visited_set(vis_view(visited@));
            if !visited[y][x] {
                proof {
                    assert(!v_before.contains(cxy));
                }
                let ghost vv0 = visited@;
                let row: &mut Vec<bool> = &mut visited[y];
                row[x] = true;
                let ghost v1 = visited_set(vis_view(visited@));
                proof {
                    assert forall|j: int| 0 <= j < visited@.len() implies #[trigger] vis_view(
                        visited@,
                    )[j] == vis_view(vv0).update(
                        y as int,
                        vis_view(vv0)[y as int].update(x as int, true),
                    )[j] by {
                        assert(vis_view(visited@)[j] == visited@[j]@);
                        assert(vis_view(vv0)[j] == vv0[j]@);
                    }
                    assert(vis_view(visited@) =~= vis_view(vv0).update(
                        y as int,
                        vis_view(vv0)[y as int].update(x as int, true),
                    ));
                    lemma_visited_insert(vis_view(vv0), vis_view(visited@), x as int, y as int);
                    assert(v1 == v_before.insert(cxy));
                    lemma_vset_extend(m, v0, v_before, v1, cxy, startc);
                    lemma_size_step(m, v0, v_before, v1, cxy);
                }
                size = size + 1;
                let ghost st1 = stack@;
                if x + 1 < self.width {
                    proof {
                        if blank_at(m, ((x + 1) as int, y as int)) {
                            lemma_reaches_step(m, startc, cxy, ((x + 1) as int, y as int));
                        }
                    }
                    self.push_if_open(visited, &mut stack, x + 1, y, Ghost(startc));
                }
                let ghost st2 = stack@;
                if x > 0 {
                    proof {
                        if blank_at(m, ((x - 1) as int, y as int)) {
                            lemma_reaches_step(m, startc, cxy, ((x - 1) as int, y as int));
                        }
                    }
                    self.push_if_open(visited, &mut stack, x - 1, y, Ghost(startc));
                }
                let ghost st3 = stack@;
                if y + 1 < self.height {
                    proof {
                        if blank_at(m, (x as int, (y + 1) as int)) {
                            lemma_reaches_step(m, startc, cxy, (x as int, (y + 1) as int));
                        }
                    }
                    self.push_if_open(visited, &mut stack, x, y + 1, Ghost(startc));
                }
                let ghost st4 = stack@;
                if y > 0 {
                    proof {
                        if blank_at(m, (x as int, (y - 1) as int)) {
                            lemma_reaches_step(m, startc, cxy, (x as int, (y - 1) as int));
                        }
                    }
                    self.push_if_open(visited, &mut stack, x, y - 1, Ghost(startc));
                }
                proof {
                    let stf = stack@;
                    assert(stack_cells(st1).subset_of(stack_cells(stf)));
                    assert(blank_at(m, (cxy.0 + 1, cxy.1)) ==> v1.contains((cxy.0 + 1, cxy.1))
                        || stack_cells(stf).contains((cxy.0 + 1, cxy.1))) by {
                        if blank_at(m, (cxy.0 + 1, cxy.1)) && !v1.contains((cxy.0 + 1, cxy.1)) {
                            assert(stack_cells(st2).contains((cxy.0 + 1, cxy.1)));
                        }
                    }
                    assert(blank_at(m, (cxy.0 - 1, cxy.1)) ==> v1.contains((cxy.0 - 1, cxy.1))
                        || stack_cells(stf).contains((cxy.0 - 1, cxy.1))) by {
                        if blank_at(m, (cxy.0 - 1, cxy.1)) && !v1.contains((cxy.0 - 1, cxy.1)) {
                            assert(stack_cells(st3).contains((cxy.0 - 1, cxy.1)));
                        }
                    }
                    assert(blank_at(m, (cxy.0, cxy.1 + 1)) ==> v1.contains((cxy.0, cxy.1 + 1))
                        || stack_cells(stf).contains((cxy.0, cxy.1 + 1))) by {
                        if blank_at(m, (cxy.0, cxy.1 + 1)) && !v1.contains((cxy.0, cxy.1 + 1)) {
                            assert(stack_cells(st4).contains((cxy.0, cxy.1 + 1)));
                        }
                    }
                    assert(blank_at(m, (cxy.0, cxy.1 - 1)) ==> v1.contains((cxy.0, cxy.1 - 1))
                        || stack_cells(stf).contains((cxy.0, cxy.1 - 1))) by {
                        if blank_at(m, (cxy.0, cxy.1 - 1)) && !v1.contains((cxy.0, cxy.1 - 1)) {
                            assert(stack_cells(stf).contains((cxy.0, cxy.1 - 1)));
                        }
                    }
                    lemma_neighbors_covered(m, cxy, v1, stack_cells(stf));
                    lemma_closed_except_update(
                        m,
                        v_before,
                        v1,
                        stack_cells(st0),
                        stack_cells(st0.drop_last()),
                        stack_cells(stf),
                        cxy,
                    );
                    if !v1.contains(startc) {
                        assert(stack_cells(st0).contains(startc));
                        assert(startc != cxy);
                        assert(stack_cells(st0.drop_last()).contains(startc));
                    }
                    assert(flood_inv(m, v0, vis_view(visited@), stack@, size as nat, startc));
                }
            } else {
                proof {
                    assert(v_before.contains(cxy));
                    lemma_closed_except_pop(
                        m,
                        v_before,
                        stack_cells(st0),
                        stack_cells(stack@),
                        cxy,
                    );
                    if !v_before.contains(startc) {
                        assert(stack_cells(st0).contains(startc));
                        assert(startc != cxy);
                    }
                    assert(flood_inv(m, v0, vis_view(visited@), stack@, size as nat, startc));
                }
            }
        }
        proof {
            let vfin = visited_set(vis_view(visited@));
            assert(stack_cells(stack@) =~= Set::<(int, int)>::empty());
            assert(closed_under_adjacency(m, vfin));
            assert(vfin.contains(startc));
            lemma_closed_contains_region(m, vfin, startc);
            lemma_closed_misses_region(m, v0, startc);
            assert(vfin.difference(v0) =~= region(m, startc));
            assert(vfin =~= v0.union(region(m, startc)));
        }
        size
    }

    /// Scans the board for all connected blank regions and returns their
    /// sizes: every entry is the size of some region, and every region's
    /// size appears among the entries.
    pub fn scan_blank_areas(&self) -> (r: Vec<usize>)
        requires
            self.wf(),
        ensures
            forall|i: int| 0 <= i < r@.len() ==> is_region_size(self@, (#[trigger] r@[i]) as nat),
            forall|c: (int, int)|
                #[trigger] blank_at(self@, c) ==> exists|i: int|
                    0 <= i < r@.len() && r@[i] as nat == region_size(self@, c),
            forall|i: int| 0 <= i < r@.len() ==> 1 <= #[trigger] r@[i],
            sum_sizes(r@) == blank_count(self@),
    {
        let ghost m = self@;
        let row: Vec<bool> = vec![false; self.width];
        let mut visited: Vec<Vec<bool>> = vec![row; self.height];
        let mut blank_areas: Vec<usize> = Vec::new();
        let ghost mut reps: Seq<(int, int)> = Seq::empty();
        let ghost mut idx: Map<(int, int), int> = Map::empty();
        proof {
            assert forall|c: (int, int)| !visited_set(vis_view(visited@)).contains(c) by {
                if 0 <= c.1 < visited@.len() {
                    assert(vis_view(visited@)[c.1] == visited@[c.1]@);
                }
            }
            assert(visited_set(vis_view(visited@)) =~= Set::<(int, int)>::empty());
        }
        let height = self.height;
        let width = self.width;
        for y in 0..height
            invariant
                self.wf(),
                m == self@,
                height == m.height,
                width == m.width,
                vis_wf(m, vis_view(visited@)),
                only_blank(m, visited_set(vis_view(visited@))),
                closed_under_adjacency(m, visited_set(vis_view(visited@))),
                scan_inv(m, vis_view(visited@), blank_areas@, reps, idx),
                visited_set(vis_view(visited@)).finite(),
                sum_sizes(blank_areas@) == visited_set(vis_view(visited@)).len(),
                forall|i: int| 0 <= i < blank_areas@.len() ==> 1 <= #[trigger] blank_areas@[i],
                forall|c: (int, int)|
                    blank_at(m, c) && c.1 < y ==> #[trigger] visited_set(
                        vis_view(visited@),
                    ).contains(c),
        {
            for x in 0..width
                invariant
                    self.wf(),
                    m == self@,
                    height == m.height,
                    width == m.width,
                    y < height,
                    vis_wf(m, vis_view(visited@)),
                    only_blank(m, visited_set(vis_view(visited@))),
                    closed_under_adjacency(m, visited_set(vis_view(visited@))),
                    scan_inv(m, vis_view(visited@), blank_areas@, reps, idx),
                    visited_set(vis_view(visited@)).finite(),
                    sum_sizes(blank_areas@) == visited_set(vis_view(visited@)).len(),
                    forall|i: int| 0 <= i < blank_areas@.len() ==> 1 <= #[trigger] blank_areas@[i],
                    forall|c: (int, int)|
                        blank_at(m, c) && (c.1 < y || (c.1 == y && c.0 < x)) ==> #[trigger]
                        visited_set(vis_view(visited@)).contains(c),
            {
                proof {
                    assert(vis_view(visited@)[y as int] == visited@[y as int]@);
                    assert(m.grid[y as int] == self.grid@[y as int]@);
                }
                let ghost cxy: (int, int) = (x as int, y as int);
                if !visited[y][x] && self.grid[y][x].is_none() {
                    let ghost vprev = visited_set(vis_view(visited@));
                    let size = self.flood_fill_blank(x, y, &mut visited);
                    let ghost areas0 = blank_areas@;
                    let ghost j = areas0.len() as int;
                    blank_areas.push(size);
                    proof {
                        lemma_reaches_refl(m, cxy);
                        lemma_region_finite(m, cxy);
                        lemma_member_means_nonempty(region(m, cxy), cxy);
                        lemma_closed_misses_region(m, vprev, cxy);
                        assert(vprev.disjoint(region(m, cxy)));
                        lemma_len_disjoint_union(vprev, region(m, cxy));
                        assert(blank_areas@.drop_last() =~= areas0);
                        assert(sum_sizes(blank_areas@) == visited_set(
                            vis_view(visited@),
                        ).len());
                        reps = reps.push(cxy);
                        let idx0 = idx;
                        idx = Map::new(
                            |c: (int, int)| idx0.dom().contains(c) || region(m, cxy).contains(c),
                            |c: (int, int)|
                                if region(m, cxy).contains(c) {
                                    j
                                } else {
                                    idx0[c]
                                },
                        );
                        assert forall|i: int| 0 <= i < blank_areas@.len() implies blank_at(
                            m,
                            #[trigger] reps[i],
                        ) && blank_areas@[i] as nat == region_size(m, reps[i]) by {
                            if i < j {
                                assert(blank_areas@[i] == areas0[i]);
                            } else {
                                assert(reps[i] == cxy && blank_areas@[i] == size);
                            }
                        }
                        assert forall|c: (int, int)|
                            #[trigger] visited_set(vis_view(visited@)).contains(c) implies
                            idx.dom().contains(c) && 0 <= idx[c] < blank_areas@.len()
                            && blank_areas@[idx[c]] as nat == region_size(m, c) by {
                            if region(m, cxy).contains(c) {
                                lemma_region_same(m, cxy, c);
                                assert(idx[c] == j && blank_areas@[j] == size);
                            } else {
                                assert(vprev.contains(c));
                                assert(idx0.dom().contains(c) && 0 <= idx0[c] < j);
                                assert(idx[c] == idx0[c]);
                                assert(blank_areas@[idx0[c]] == areas0[idx0[c]]);
                            }
                        }
                        assert(scan_inv(m, vis_view(visited@), blank_areas@, reps, idx));
                    }
                } else {
                    proof {
                        if !m.occupied(cxy.0, cxy.1) {
                            assert(visited_set(vis_view(visited@)).contains(cxy));
                        }
                    }
                }
            }
        }
        proof {
            assert forall|i: int| 0 <= i < blank_areas@.len() implies is_region_size(
                self@,
                (#[trigger] blank_areas@[i]) as nat,
            ) by {
                let w = reps[i];
                assert(blank_at(self@, w));
                assert(blank_areas@[i] as nat == region_size(self@, w));
            }
            assert forall|c: (int, int)| #[trigger] blank_at(self@, c) implies exists|i: int|
                0 <= i < blank_areas@.len() && blank_areas@[i] as nat == region_size(
                    self@,
                    c,
                ) by {
                assert(visited_set(vis_view(visited@)).contains(c));
                let i0 = idx[c];
                assert(0 <= i0 < blank_areas@.len());
                assert(blank_areas@[i0] as nat == region_size(self@, c));
            }
            assert(visited_set(vis_view(visited@)) =~= blank_cells(m));
        }
        blank_areas
    }

    /// True when some connected blank region's size is not a multiple of the
    /// given divisor. Such a board can never be completed by pieces whose
    /// footprints are all multiples of that divisor, so the search prunes it;
    /// `lemma_pocket_pruning_sound` shows the predicate stays false on every
    /// board whose blanks an exact cover by connected divisor-sized tiles
    /// can still fill.
    #[verifier::loop_isolation(false)]
    #[verifier::rlimit(100)]
    pub fn has_dead_end_blanks_not_divisible_by(&self, divisible_by: usize) -> (r: bool)
        requires
            self.wf(),
            divisible_by > 0,
        ensures
            r == has_bad_region(self@, divisible_by as int),
    {
        let areas = self.scan_blank_areas();
        let n = areas.len();
        for i in 0..n
            invariant
                forall|j: int| 0 <= j < i ==> (#[trigger] areas@[j]) as int % (divisible_by as int)
                    == 0,
        {
            if areas[i] % divisible_by != 0 {
                proof {
                    assert(is_region_size(self@, areas@[i as int] as nat));
                    let c = choose|c: (int, int)|
                        #[trigger] blank_at(self@, c) && areas@[i as int] as nat == region_size(
                            self@,
                            c,
                        );
                    assert(blank_at(self@, c) && region_size(self@, c) as int % (
                    divisible_by as int) != 0);
                }
                return true;
            }
        }
        proof {
            assert forall|c: (int, int)| #[trigger] blank_at(self@, c) implies region_size(
                self@,
                c,
            ) as int % (divisible_by as int) == 0 by {
                let i0 = choose|i0: int|
                    0 <= i0 < areas@.len() && areas@[i0] as nat == region_size(self@, c);
                assert(areas@[i0] as int % (divisible_by as int) == 0);
            }
        }
        false
    }

    /// Finds all boards that result from placing the piece at one of its
    /// cached candidate placements, keeping placements that fit the current
    /// board and leave every blank region's size divisible by the piece
    /// footprint.
    pub fn find_all_valid_boards_with_new_piece(&self, piece: &Piece) -> (r: Vec<Board>)
        requires
            self.wf(),
            piece.wf(),
            piece.allowed_ok(),
        ensures
            r@.map_values(|b: Board| b@) == successors(self@, *piece),
            forall|i: int|
                0 <= i < r@.len() ==> (#[trigger] r@[i]).wf() && r@[i]@.width == self@.width
                    && r@[i]@.height == self@.height && r@[i]@.blank == self@.blank,
    {
        let ghost m = self@;
        let mut valid_boards: Vec<Board> = Vec::new();
        let allowed = piece.get_allowed_placements();
        let n = allowed.len();
        for i in 0..n
            invariant
                self.wf(),
                m == self@,
                piece.wf(),
                piece.allowed_ok(),
                n == piece.allowed().len(),
                allowed@ == piece.allowed(),
                successors_from(m, *piece, 0) == valid_boards@.map_values(|b: Board| b@)
                    + successors_from(m, *piece, i as int),
                forall|k: int|
                    0 <= k < valid_boards@.len() ==> (#[trigger] valid_boards@[k]).wf()
                        && valid_boards@[k]@.width == m.width && valid_boards@[k]@.height
                        == m.height && valid_boards@[k]@.blank == m.blank,
        {
            let placement = allowed[i];
            let ghost before = valid_boards@.map_values(|b: Board| b@);
            if self.can_place_piece(piece, placement).is_ok() {
                let mut new_board = self.duplicate();
                new_board.place_piece(piece, placement);
                if !new_board.has_dead_end_blanks_not_divisible_by(PRUNE_DIVISOR) {
                    proof {
                        m.lemma_place_cells_grid(
                            piece.symbol,
                            placement_cells(*piece, placement),
                        );
                    }
                    valid_boards.push(new_board);
                    proof {
                        assert(valid_boards@.map_values(|b: Board| b@) =~= before.push(
                            placed(m, *piece, placement),
                        ));
                        assert(successors_from(m, *piece, i as int) == seq![
                            placed(m, *piece, placement),
                        ] + successors_from(m, *piece, i + 1));
                        assert(before + successors_from(m, *piece, i as int) =~= before.push(
                            placed(m, *piece, placement),
                        ) + successors_from(m, *piece, i + 1));
                    }
                }
            }
        }
        proof {
            assert(successors_from(m, *piece, n as int) =~= Seq::<BoardModel>::empty());
            assert(valid_boards@.map_values(|b: Board| b@) + Seq::<BoardModel>::empty()
                =~= valid_boards@.map_values(|b: Board| b@));
        }
        valid_boards
    }

    /// Searches for boards on which all remaining pieces, from `idx` on, are
    /// placed. Results carry distinct serializations; with `find_all` the
    /// result is the complete deduplicated solution set, without it the
    /// search stops at the first solution found.
    fn search_pieces(&self, pieces: &[Piece], idx: usize, find_all: bool) -> (r: Vec<Board>)
        requires
            self.wf(),
            idx <= pieces@.len(),
            forall|i: int|
                0 <= i < pieces@.len() ==> (#[trigger] pieces@[i]).wf() && pieces@[i].allowed_ok(),
        ensures
            forall|i: int|
                0 <= i < r@.len() ==> (#[trigger] r@[i]).wf() && r@[i]@.width == self@.width
                    && r@[i]@.height == self@.height && r@[i]@.blank == self@.blank
                    && solution_serials(self@, pieces@.skip(idx as int)).contains(
                    r@[i]@.serial(),
                ),
            forall|i: int, j: int| 0 <= i < j < r@.len() ==> r@[i]@.serial() != r@[j]@.serial(),
            find_all ==> forall|s: Seq<char>|
                #[trigger] solution_serials(self@, pieces@.skip(idx as int)).contains(s)
                    ==> boards_hold_serial(r@, s),
            !find_all ==> r@.len() <= 1 && (r@.len() == 1 <==> solution_serials(
                self@,
                pieces@.skip(idx as int),
            ) != Set::<Seq<char>>::empty()),
        decreases pieces@.len() - idx,
    {
        let ghost m = self@;
        let ghost remaining = pieces@.skip(idx as int);
        if idx == pieces.len() {
            let mut out: Vec<Board> = Vec::new();
            out.push(self.duplicate());
            proof {
                assert(remaining =~= Seq::<Piece>::empty());
                assert(solution_serials(m, remaining) == Set::<Seq<char>>::empty().insert(
                    m.serial(),
                ));
                assert(out@[0]@.serial() == m.serial());
                assert forall|s: Seq<char>|
                    #[trigger] solution_serials(m, remaining).contains(s) implies
                    boards_hold_serial(out@, s) by {
                    assert(out@[0]@.serial() == s);
                }
                assert(solution_serials(m, remaining).contains(m.serial()));
            }
            out
        } else {
            let piece = &pieces[idx];
            let ghost rest = pieces@.skip(idx as int + 1);
            proof {
                assert(remaining[0] == pieces@[idx as int]);
                assert(remaining.drop_first() =~= rest);
                assert(solution_serials(m, remaining) == sols_over(
                    successors(m, *piece),
                    rest,
                    0,
                ));
            }
            let nexts = self.find_all_valid_boards_with_new_piece(piece);
            let ghost succ = nexts@.map_values(|b: Board| b@);
            let mut out: Vec<Board> = Vec::new();
            let nn = nexts.len();
            let np = pieces.len();
            for k in 0..nn
                invariant
                    self.wf(),
                    m == self@,
                    np == pieces@.len(),
                    idx < np,
                    forall|i: int|
                        0 <= i < pieces@.len() ==> (#[trigger] pieces@[i]).wf()
                            && pieces@[i].allowed_ok(),
                    rest == pieces@.skip(idx as int + 1),
                    nn == nexts@.len(),
                    succ == nexts@.map_values(|b: Board| b@),
                    succ.len() == nn,
                    forall|i: int|
                        0 <= i < nexts@.len() ==> (#[trigger] nexts@[i]).wf() && nexts@[i]@.width
                            == m.width && nexts@[i]@.height == m.height && nexts@[i]@.blank
                            == m.blank,
                    solution_serials(m, remaining) == sols_over(succ, rest, 0),
                    forall|i: int|
                        0 <= i < out@.len() ==> (#[trigger] out@[i]).wf() && out@[i]@.width
                            == m.width && out@[i]@.height == m.height && out@[i]@.blank == m.blank
                            && sols_over(succ, rest, 0).contains(out@[i]@.serial()),
                    forall|i: int, j: int|
                        0 <= i < j < out@.len() ==> out@[i]@.serial() != out@[j]@.serial(),
                    find_all ==> forall|s: Seq<char>|
                        #[trigger] sols_over(succ, rest, 0).contains(s) ==> boards_hold_serial(
                            out@,
                            s,
                        ) || sols_over(succ, rest, k as int).contains(s),
                    !find_all ==> out@.len() <= 1,
                    !find_all && out@.len() == 0 ==> sols_over(succ, rest, 0) == sols_over(
                        succ,
                        rest,
                        k as int,
                    ),
            {
                proof {
                    assert(nexts@[k as int]@ == succ[k as int]);
                    assert(sols_over(succ, rest, k as int) == solution_serials(
                        succ[k as int],
                        rest,
                    ).union(sols_over(succ, rest, k + 1)));
                    lemma_sols_over_superset(succ, rest, 0, k as int);
                }
                if find_all || out.len() == 0 {
                    let sub = nexts[k].search_pieces(pieces, idx + 1, find_all);
                    let ghost out0 = out@;
                    let ghost subv = sub@;
                    proof {
                        assert forall|i: int| 0 <= i < subv.len() implies (
                        #[trigger] subv[i]).wf() && sols_over(succ, rest, 0).contains(
                            subv[i]@.serial(),
                        ) by {
                            assert(solution_serials(succ[k as int], rest).contains(
                                subv[i]@.serial(),
                            ));
                        }
                    }
                    merge_dedup(&mut out, sub, Ghost(sols_over(succ, rest, 0)));
                    proof {
                        assert forall|i: int|
                            0 <= i < out@.len() implies (#[trigger] out@[i])@.width == m.width
                            && out@[i]@.height == m.height && out@[i]@.blank == m.blank by {
                            if out0.contains(out@[i]) {
                                let i0 = choose|i0: int|
                                    0 <= i0 < out0.len() && (#[trigger] out0[i0]) == out@[i];
                            } else {
                                assert(subv.contains(out@[i]));
                                let j0 = choose|j0: int|
                                    0 <= j0 < subv.len() && (#[trigger] subv[j0]) == out@[i];
                            }
                        }
                        if find_all {
                            assert forall|s: Seq<char>|
                                #[trigger] sols_over(succ, rest, 0).contains(s) implies
                                boards_hold_serial(out@, s) || sols_over(
                                succ,
                                rest,
                                k + 1,
                            ).contains(s) by {
                                if boards_hold_serial(out0, s) {
                                    let i0 = choose|i: int|
                                        0 <= i < out0.len() && (#[trigger] out0[i])@.serial() == s;
                                    assert(out@[i0]@.serial() == s);
                                    assert(boards_hold_serial(out@, s));
                                } else if sols_over(succ, rest, k as int).contains(s) {
                                    if solution_serials(succ[k as int], rest).contains(s) {
                                        assert(boards_hold_serial(subv, s));
                                        let j0 = choose|j: int|
                                            0 <= j < subv.len() && (#[trigger] subv[j])@.serial()
                                                == s;
                                        assert(boards_hold_serial(out@, subv[j0]@.serial()));
                                        let i0 = choose|i: int|
                                            0 <= i < out@.len() && (#[trigger] out@[i])@.serial()
                                                == subv[j0]@.serial();
                                        assert(out@[i0]@.serial() == s);
                                        assert(boards_hold_serial(out@, s));
                                    }
                                }
                            }
                        }
                        if !find_all && out.len() == 0 {
                            assert(subv.len() == 0);
                            assert(solution_serials(succ[k as int], rest) =~= Set::<
                                Seq<char>,
                            >::empty());
                            assert(sols_over(succ, rest, k as int) =~= sols_over(
                                succ,
                                rest,
                                k + 1,
                            ));
                        }
                    }
                }
            }
            proof {
                assert(sols_over(succ, rest, nn as int) =~= Set::<Seq<char>>::empty());
                if !find_all && out@.len() == 0 {
                    assert(sols_over(succ, rest, 0) =~= Set::<Seq<char>>::empty());
                }
                if !find_all && out@.len() == 1 {
                    assert(sols_over(succ, rest, 0).contains(out@[0]@.serial()));
                    assert(sols_over(succ, rest, 0) != Set::<Seq<char>>::empty());
                }
            }
            out
        }
    }

    /// Recursively attempts to place all pieces on the board, in order.
    /// Returns the boards that place every piece, deduplicated by canonical
    /// serialization. With `find_all` the result is the complete solution
    /// set; without it the search stops at the first solution, so the result
    /// holds one board exactly when any solution exists.
    pub fn find_boards_placing_all_pieces(&self, pieces: &[Piece], find_all: bool) -> (r: Vec<
        Board,
    >)
        requires
            self.wf(),
            forall|i: int|
                0 <= i < pieces@.len() ==> (#[trigger] pieces@[i]).wf() && pieces@[i].allowed_ok(),
        ensures
            forall|i: int|
                0 <= i < r@.len() ==> (#[trigger] r@[i]).wf() && r@[i]@.width == self@.width
                    && r@[i]@.height == self@.height && r@[i]@.blank == self@.blank
                    && solution_serials(self@, pieces@).contains(r@[i]@.serial()),
            forall|i: int, j: int| 0 <= i < j < r@.len() ==> r@[i]@.serial() != r@[j]@.serial(),
            find_all ==> forall|s: Seq<char>|
                #[trigger] solution_serials(self@, pieces@).contains(s) ==> boards_hold_serial(
                    r@,
                    s,
                ),
            !find_all ==> r@.len() <= 1 && (r@.len() == 1 <==> solution_serials(self@, pieces@)
                != Set::<Seq<char>>::empty()),
    {
        proof {
            assert(pieces@.skip(0) =~= pieces@);
        }
        self.search_pieces(pieces, 0, find_all)
    }

    /// Queues one neighbour cell for the flood fill if it is empty and not
    /// yet visited.
    fn push_if_open(
        &self,
        visited: &Vec<Vec<bool>>,
        stack: &mut Vec<(usize, usize)>,
        nx: usize,
        ny: usize,
        Ghost(startc): Ghost<(int, int)>,
    )
        requires
            self.wf(),
            vis_wf(self@, vis_view(visited@)),
            nx < self@.width,
            ny < self@.height,
            blank_at(self@, (nx as int, ny as int)) ==> reaches(
                self@,
                startc,
                (nx as int, ny as int),
            ),
            forall|i: int|
                0 <= i < old(stack)@.len() ==> blank_at(
                    self@,
                    ((#[trigger] old(stack)@[i]).0 as int, old(stack)@[i].1 as int),
                ) && reaches(self@, startc, (old(stack)@[i].0 as int, old(stack)@[i].1 as int)),
        ensures
            forall|i: int|
                0 <= i < final(stack)@.len() ==> blank_at(
                    self@,
                    ((#[trigger] final(stack)@[i]).0 as int, final(stack)@[i].1 as int),
                ) && reaches(self@, startc, (final(stack)@[i].0 as int, final(stack)@[i].1 as int)),
            stack_cells(old(stack)@).subset_of(stack_cells(final(stack)@)),
            stack_cells(final(stack)@).subset_of(
                stack_cells(old(stack)@).insert((nx as int, ny as int)),
            ),
            (blank_at(self@, (nx as int, ny as int)) && !visited_set(vis_view(visited@)).contains(
                (nx as int, ny as int),
            )) ==> stack_cells(final(stack)@).contains((nx as int, ny as int)),
    {
        proof {
            assert(self@.grid[ny as int] == self.grid@[ny as int]@);
            assert(vis_view(visited@)[ny as int] == visited@[ny as int]@);
        }
        if self.grid[ny][nx].is_none() && !visited[ny][nx] {
            proof {
                lemma_stack_cells_push(stack@, (nx, ny));
            }
            stack.push((nx, ny));
        }
    }

    /// The canonical serialization: one symbol per cell, row-major, with the
    /// blank symbol for empty cells.
    pub fn serialize(&self) -> (r: String)
        requires
            self.wf(),
        ensures
            r@ == self@.serial(),
    {
        let mut out = String::new();
        let height = self.height;
        let width = self.width;
        for y in 0..height
            invariant
                self.wf(),
                height == self@.height,
                width == self@.width,
                out@ == serial_rows(self@.grid.take(y as int), self@.blank),
        {
            let row = &self.grid[y];
            proof {
                assert(self@.grid[y as int] == row@);
            }
            for x in 0..width
                invariant
                    self.wf(),
                    height == self@.height,
                    width == self@.width,
                    y < height,
                    row@ == self@.grid[y as int],
                    row@.len() == width,
                    out@ == serial_rows(self@.grid.take(y as int), self@.blank) + row_serial(
                        row@,
                        self@.blank,
                    ).take(x as int),
            {
                let c = match row[x] {
                    Some(ch) => ch,
                    None => self.blank,
                };
                push_char(&mut out, c);
                proof {
                    assert(row_serial(row@, self@.blank).take(x + 1) =~= row_serial(
                        row@,
                        self@.blank,
                    ).take(x as int).push(c));
                }
            }
            proof {
                assert(self@.grid.take(y + 1).drop_last() =~= self@.grid.take(y as int));
                assert(row_serial(row@, self@.blank).take(width as int) =~= row_serial(
                    row@,
                    self@.blank,
                ));
            }
        }
        proof {
            assert(self@.grid.take(height as int) =~= self@.grid);
        }
        out
    }
}

impl BoardModel {
    /// Placing cells only rewrites the listed cells; dimensions, the blank
    /// symbol, and every other cell stay as they were.
    pub proof fn lemma_place_cells_grid(self, sym: char, cells: Seq<(int, int)>)
        requires
            self.wf(),
            self.cells_free(cells),
        ensures
            (self.place_cells(sym, cells)).wf(),
            (self.place_cells(sym, cells)).width == self.width,
            (self.place_cells(sym, cells)).height == self.height,
            (self.place_cells(sym, cells)).blank == self.blank,
            forall|x: int, y: int|
                self.in_bounds(x, y) ==> (#[trigger] self.place_cells(sym, cells).cell(x, y))
                    == if cells.contains((x, y)) {
                    Some(sym)
                } else {
                    self.cell(x, y)
                },
        decreases cells.len(),
    {
        if cells.len() == 0 {
        } else {
            let c = cells.last();
            let rest = cells.drop_last();
            assert(self.cells_free(rest)) by {
                assert(forall|i: int| 0 <= i < rest.len() ==> rest[i] == cells[i]);
            }
            self.lemma_place_cells_grid(sym, rest);
            let b = self.place_cells(sym, rest);
            let placed = self.place_cells(sym, cells);
            assert(cells[cells.len() - 1] == c);
            assert(self.in_bounds(c.0, c.1));
            assert forall|x: int, y: int| self.in_bounds(x, y) implies #[trigger] placed.cell(x, y)
                == if cells.contains((x, y)) {
                Some(sym)
            } else {
                self.cell(x, y)
            } by {
                if (x, y) == c {
                    assert(cells.contains((x, y)));
                } else {
                    assert(placed.cell(x, y) == b.cell(x, y));
                    if cells.contains((x, y)) {
                        let i = choose|i: int| 0 <= i < cells.len() && cells[i] == (x, y);
                        assert(i < cells.len() - 1);
                        assert(rest[i] == (x, y));
                        assert(rest.contains((x, y)));
                    } else {
                        assert(!rest.contains((x, y))) by {
                            if rest.contains((x, y)) {
                                let i = choose|i: int|
                                    0 <= i < rest.len() && rest[i] == (x, y);
                                assert(cells[i] == (x, y));
                            }
                        }
                    }
                }
            }
        }
    }
}

/// The view of a visited matrix.
pub open spec fn vis_view(v: Seq<Vec<bool>>) -> Seq<Seq<bool>> {
    v.map_values(|r: Vec<bool>| r@)
}

/// The visited matrix has the board's dimensions.
pub open spec fn vis_wf(m: BoardModel, vis: Seq<Seq<bool>>) -> bool {
    vis.len() == m.height && forall|y: int|
        0 <= y < m.height ==> (#[trigger] vis[y]).len() == m.width
}

/// The set of cells a visited matrix marks.
pub open spec fn visited_set(vis: Seq<Seq<bool>>) -> Set<(int, int)> {
    Set::new(
        |c: (int, int)| 0 <= c.1 < vis.len() && 0 <= c.0 < vis[c.1].len() && vis[c.1][c.0],
    )
}

/// Every member of the set is a blank cell of the board.
pub open spec fn only_blank(m: BoardModel, s: Set<(int, int)>) -> bool {
    forall|c: (int, int)| #[trigger] s.contains(c) ==> blank_at(m, c)
}

/// The cells a work stack holds.
pub open spec fn stack_cells(st: Seq<(usize, usize)>) -> Set<(int, int)> {
    Set::new(
        |c: (int, int)|
            exists|i: int|
                0 <= i < st.len() && ((#[trigger] st[i]).0 as int, st[i].1 as int) == c,
    )
}

/// Pushing a work item makes exactly its cell newly available.
proof fn lemma_stack_cells_push(st: Seq<(usize, usize)>, e: (usize, usize))
    ensures
        stack_cells(st.push(e)) == stack_cells(st).insert((e.0 as int, e.1 as int)),
{
    let lhs = stack_cells(st.push(e));
    let rhs = stack_cells(st).insert((e.0 as int, e.1 as int));
    assert forall|c: (int, int)| lhs.contains(c) implies rhs.contains(c) by {
        let i = choose|i: int|
            0 <= i < st.push(e).len() && ((#[trigger] st.push(e)[i]).0 as int, st.push(
                e,
            )[i].1 as int) == c;
        if i < st.len() {
            assert((st[i].0 as int, st[i].1 as int) == c);
        }
    }
    assert forall|c: (int, int)| rhs.contains(c) implies lhs.contains(c) by {
        if c == ((e.0 as int, e.1 as int)) {
            assert((st.push(e)[st.len() as int].0 as int, st.push(e)[st.len() as int].1 as int)
                == c);
        } else {
            let i = choose|i: int|
                0 <= i < st.len() && ((#[trigger] st[i]).0 as int, st[i].1 as int) == c;
            assert((st.push(e)[i].0 as int, st.push(e)[i].1 as int) == c);
        }
    }
    assert(lhs =~= rhs);
}

/// Popping a work item loses at most its cell and invents none.
proof fn lemma_stack_cells_pop(st: Seq<(usize, usize)>)
    requires
        st.len() >= 1,
    ensures
        stack_cells(st).subset_of(
            stack_cells(st.drop_last()).insert((st.last().0 as int, st.last().1 as int)),
        ),
        stack_cells(st.drop_last()).subset_of(stack_cells(st)),
{
    assert forall|c: (int, int)| stack_cells(st).contains(c) implies stack_cells(
        st.drop_last(),
    ).insert((st.last().0 as int, st.last().1 as int)).contains(c) by {
        let i = choose|i: int|
            0 <= i < st.len() && ((#[trigger] st[i]).0 as int, st[i].1 as int) == c;
        if i < st.len() - 1 {
            assert((st.drop_last()[i].0 as int, st.drop_last()[i].1 as int) == c);
        }
    }
    assert forall|c: (int, int)| stack_cells(st.drop_last()).contains(c) implies stack_cells(
        st,
    ).contains(c) by {
        let i = choose|i: int|
            0 <= i < st.drop_last().len() && ((#[trigger] st.drop_last()[i]).0 as int, st.drop_last(
            )[i].1 as int) == c;
        assert((st[i].0 as int, st[i].1 as int) == c);
    }
}

/// Marking one cell in the matrix adds exactly that cell to the visited set.
proof fn lemma_visited_insert(vis0: Seq<Seq<bool>>, vis1: Seq<Seq<bool>>, x: int, y: int)
    requires
        0 <= y < vis0.len(),
        0 <= x < vis0[y].len(),
        vis1 == vis0.update(y, vis0[y].update(x, true)),
    ensures
        visited_set(vis1) == visited_set(vis0).insert((x, y)),
        vis1.len() == vis0.len(),
        forall|j: int| 0 <= j < vis1.len() ==> (#[trigger] vis1[j]).len() == vis0[j].len(),
{
    assert forall|c: (int, int)| #[trigger] visited_set(vis1).contains(c) <==> visited_set(
        vis0,
    ).contains(c) || c == ((x, y)) by {}
    assert(visited_set(vis1) =~= visited_set(vis0).insert((x, y)));
}

/// The newly visited cells stay blank, reachable, and above the base set
/// when one more reachable blank cell is marked.
proof fn lemma_vset_extend(
    m: BoardModel,
    v0: Set<(int, int)>,
    vb: Set<(int, int)>,
    v1: Set<(int, int)>,
    cxy: (int, int),
    startc: (int, int),
)
    requires
        only_blank(m, vb),
        forall|c: (int, int)| #[trigger] vb.contains(c) ==> v0.contains(c) || reaches(m, startc, c),
        forall|c: (int, int)| v0.contains(c) ==> #[trigger] vb.contains(c),
        v1 == vb.insert(cxy),
        blank_at(m, cxy),
        reaches(m, startc, cxy),
    ensures
        only_blank(m, v1),
        forall|c: (int, int)| #[trigger] v1.contains(c) ==> v0.contains(c) || reaches(m, startc, c),
        forall|c: (int, int)| v0.contains(c) ==> #[trigger] v1.contains(c),
{
}

/// The count of newly visited cells grows by one and stays within the board.
proof fn lemma_size_step(
    m: BoardModel,
    v0: Set<(int, int)>,
    vb: Set<(int, int)>,
    v1: Set<(int, int)>,
    cxy: (int, int),
)
    requires
        m.wf(),
        v1 == vb.insert(cxy),
        !vb.contains(cxy),
        !v0.contains(cxy),
        vb.difference(v0).finite(),
        only_blank(m, v1),
    ensures
        v1.difference(v0).finite(),
        v1.difference(v0).len() == vb.difference(v0).len() + 1,
        v1.difference(v0).len() <= m.width * m.height,
{
    assert(v1.difference(v0) =~= vb.difference(v0).insert(cxy));
    lemma_board_cells_finite(m);
    assert forall|c: (int, int)| v1.difference(v0).contains(c) implies board_cells(m).contains(
        c,
    ) by {
        assert(v1.contains(c));
        assert(blank_at(m, c));
    }
    vstd::set_lib::lemma_len_subset::<(int, int)>(v1.difference(v0), board_cells(m));
}

/// Every blank neighbour of a marked cell stays marked or queued after a
/// cell is marked and its open neighbours are queued.
proof fn lemma_closed_except_update(
    m: BoardModel,
    vb: Set<(int, int)>,
    v1: Set<(int, int)>,
    sc0: Set<(int, int)>,
    scd: Set<(int, int)>,
    scf: Set<(int, int)>,
    cxy: (int, int),
)
    requires
        forall|c: (int, int), n: (int, int)|
            vb.contains(c) && #[trigger] adjacent(c, n) && blank_at(m, n) ==> vb.contains(n)
                || sc0.contains(n),
        sc0.subset_of(scd.insert(cxy)),
        scd.subset_of(scf),
        v1 == vb.insert(cxy),
        forall|n: (int, int)|
            #[trigger] adjacent(cxy, n) && blank_at(m, n) ==> v1.contains(n) || scf.contains(n),
    ensures
        forall|c: (int, int), n: (int, int)|
            v1.contains(c) && #[trigger] adjacent(c, n) && blank_at(m, n) ==> v1.contains(n)
                || scf.contains(n),
{
    assert forall|c: (int, int), n: (int, int)|
        v1.contains(c) && #[trigger] adjacent(c, n) && blank_at(m, n) implies v1.contains(n)
        || scf.contains(n) by {
        if c != cxy {
            assert(vb.contains(c));
            if !vb.contains(n) {
                assert(sc0.contains(n));
                if n != cxy {
                    assert(scd.contains(n));
                }
            }
        }
    }
}

/// Every blank neighbour of a marked cell stays marked or queued after an
/// already marked cell is dropped from the queue.
proof fn lemma_closed_except_pop(
    m: BoardModel,
    vb: Set<(int, int)>,
    sc0: Set<(int, int)>,
    scd: Set<(int, int)>,
    cxy: (int, int),
)
    requires
        forall|c: (int, int), n: (int, int)|
            vb.contains(c) && #[trigger] adjacent(c, n) && blank_at(m, n) ==> vb.contains(n)
                || sc0.contains(n),
        sc0.subset_of(scd.insert(cxy)),
        vb.contains(cxy),
    ensures
        forall|c: (int, int), n: (int, int)|
            vb.contains(c) && #[trigger] adjacent(c, n) && blank_at(m, n) ==> vb.contains(n)
                || scd.contains(n),
{
    assert forall|c: (int, int), n: (int, int)|
        vb.contains(c) && #[trigger] adjacent(c, n) && blank_at(m, n) implies vb.contains(n)
        || scd.contains(n) by {
        if !vb.contains(n) {
            assert(sc0.contains(n));
        }
    }
}

/// A cell's blank neighbours are covered once each of its four edge
/// neighbours is marked or queued whenever it is blank.
proof fn lemma_neighbors_covered(
    m: BoardModel,
    cxy: (int, int),
    v1: Set<(int, int)>,
    s: Set<(int, int)>,
)
    requires
        blank_at(m, (cxy.0 + 1, cxy.1)) ==> v1.contains((cxy.0 + 1, cxy.1)) || s.contains(
            (cxy.0 + 1, cxy.1),
        ),
        blank_at(m, (cxy.0 - 1, cxy.1)) ==> v1.contains((cxy.0 - 1, cxy.1)) || s.contains(
            (cxy.0 - 1, cxy.1),
        ),
        blank_at(m, (cxy.0, cxy.1 + 1)) ==> v1.contains((cxy.0, cxy.1 + 1)) || s.contains(
            (cxy.0, cxy.1 + 1),
        ),
        blank_at(m, (cxy.0, cxy.1 - 1)) ==> v1.contains((cxy.0, cxy.1 - 1)) || s.contains(
            (cxy.0, cxy.1 - 1),
        ),
    ensures
        forall|n: (int, int)|
            #[trigger] adjacent(cxy, n) && blank_at(m, n) ==> v1.contains(n) || s.contains(n),
{
    assert forall|n: (int, int)| #[trigger] adjacent(cxy, n) && blank_at(m, n) implies v1.contains(
        n,
    ) || s.contains(n) by {
        assert(n == ((cxy.0 + 1, cxy.1)) || n == ((cxy.0 - 1, cxy.1)) || n == (
        (cxy.0, cxy.1 + 1)) || n == ((cxy.0, cxy.1 - 1)));
    }
}

/// The board after a piece is placed: the model-level result of one search
/// step.
pub open spec fn placed(m: BoardModel, piece: Piece, p: Placement) -> BoardModel {
    m.place_cells(piece.symbol, placement_cells(piece, p))
}

/// The boards reached from `m` by placing the piece at one of its cached
/// candidate placements from index `j` on, keeping only placements that fit
/// and leave no blank region whose size the piece footprint cannot divide.
pub open spec fn successors_from(m: BoardModel, piece: Piece, j: int) -> Seq<BoardModel>
    decreases piece.allowed().len() - j,
{
    if j < 0 || j >= piece.allowed().len() {
        Seq::empty()
    } else {
        let rest = successors_from(m, piece, j + 1);
        let p = piece.allowed()[j];
        if fits(m, piece, p) && !has_bad_region(placed(m, piece, p), PRUNE_DIVISOR as int) {
            seq![placed(m, piece, p)] + rest
        } else {
            rest
        }
    }
}

/// All boards reached from `m` by one legal, unpruned placement of the piece.
pub open spec fn successors(m: BoardModel, piece: Piece) -> Seq<BoardModel> {
    successors_from(m, piece, 0)
}

/// The canonical serializations of every complete tiling reachable from `m`
/// by placing the remaining pieces in order.
pub open spec fn solution_serials(m: BoardModel, pieces: Seq<Piece>) -> Set<Seq<char>>
    decreases pieces.len(), 0int,
{
    if pieces.len() == 0 {
        Set::<Seq<char>>::empty().insert(m.serial())
    } else {
        sols_over(successors(m, pieces[0]), pieces.drop_first(), 0)
    }
}

/// The union of the solution serializations over the listed boards from
/// index `k` on.
pub open spec fn sols_over(list: Seq<BoardModel>, rest: Seq<Piece>, k: int) -> Set<Seq<char>>
    decreases rest.len(), list.len() - k + 1,
{
    if k < 0 || k >= list.len() {
        Set::<Seq<char>>::empty()
    } else {
        solution_serials(list[k], rest).union(sols_over(list, rest, k + 1))
    }
}

/// Every board of the list contributes its whole solution set to the union.
proof fn lemma_sols_over_superset(list: Seq<BoardModel>, rest: Seq<Piece>, i: int, j: int)
    requires
        0 <= i <= j < list.len(),
    ensures
        solution_serials(list[j], rest).subset_of(sols_over(list, rest, i)),
    decreases j - i,
{
    if i < j {
        lemma_sols_over_superset(list, rest, i + 1, j);
    }
}

/// Placement legality only shrinks as cells fill: a placement that still
/// fits after another piece was placed also fit beforehand, and its cells
/// avoid every cell the earlier placement occupied. In particular a
/// placement found legal stays legal while the board is unchanged, since
/// legality is a function of the board alone.
pub proof fn lemma_legality_monotonic(m: BoardModel, piece1: Piece, p1: Placement, piece2: Piece, p2: Placement)
    requires
        m.wf(),
        fits(m, piece1, p1),
        fits(placed(m, piece1, p1), piece2, p2),
    ensures
        fits(m, piece2, p2),
        forall|i: int, j: int|
            0 <= i < placement_cells(piece2, p2).len() && 0 <= j < placement_cells(
                piece1,
                p1,
            ).len() ==> #[trigger] placement_cells(piece2, p2)[i] != #[trigger] placement_cells(
                piece1,
                p1,
            )[j],
{
    let cells1 = placement_cells(piece1, p1);
    let cells2 = placement_cells(piece2, p2);
    let after = placed(m, piece1, p1);
    m.lemma_place_cells_grid(piece1.symbol, cells1);
    assert forall|i: int| 0 <= i < cells2.len() implies m.in_bounds(
        (#[trigger] cells2[i]).0,
        cells2[i].1,
    ) && !m.occupied(cells2[i].0, cells2[i].1) by {
        assert(after.in_bounds(cells2[i].0, cells2[i].1) && !after.occupied(
            cells2[i].0,
            cells2[i].1,
        ));
        assert(!cells1.contains(cells2[i]));
    }
    assert forall|i: int, j: int|
        0 <= i < cells2.len() && 0 <= j < cells1.len() implies #[trigger] cells2[i]
        != #[trigger] cells1[j] by {
        assert(after.in_bounds(cells2[i].0, cells2[i].1) && !after.occupied(
            cells2[i].0,
            cells2[i].1,
        ));
        if cells2[i] == cells1[j] {
            assert(cells1.contains(cells2[i]));
        }
    }
}

/// A batch of placements: the board after every listed (symbol, cells)
/// pair is applied, in list order.
pub open spec fn place_all(m: BoardModel, ps: Seq<(char, Seq<(int, int)>)>) -> BoardModel
    decreases ps.len(),
{
    if ps.len() == 0 {
        m
    } else {
        place_all(m, ps.drop_last()).place_cells(ps.last().0, ps.last().1)
    }
}

/// No two placements of the batch share a cell.
pub open spec fn placements_disjoint(ps: Seq<(char, Seq<(int, int)>)>) -> bool {
    forall|i: int, j: int, u: int, v: int|
        #![trigger ps[i].1[u], ps[j].1[v]]
        0 <= i < j < ps.len() && 0 <= u < ps[i].1.len() && 0 <= v < ps[j].1.len() ==> ps[i].1[u]
            != ps[j].1[v]
}

/// Every placement of the batch targets free cells of the board.
pub open spec fn placements_free(m: BoardModel, ps: Seq<(char, Seq<(int, int)>)>) -> bool {
    forall|i: int| 0 <= i < ps.len() ==> m.cells_free((#[trigger] ps[i]).1)
}

/// Some placement of the batch covers the cell.
pub open spec fn covered_by(ps: Seq<(char, Seq<(int, int)>)>, x: int, y: int) -> bool {
    exists|i: int| 0 <= i < ps.len() && (#[trigger] ps[i]).1.contains((x, y))
}

/// A batch of disjoint placements on free cells writes each covered cell
/// with its own placement's symbol and leaves every other cell alone — so
/// the result does not depend on the order of the batch.
pub proof fn lemma_place_all_cells(m: BoardModel, ps: Seq<(char, Seq<(int, int)>)>)
    requires
        m.wf(),
        placements_free(m, ps),
        placements_disjoint(ps),
    ensures
        place_all(m, ps).wf(),
        place_all(m, ps).width == m.width,
        place_all(m, ps).height == m.height,
        place_all(m, ps).blank == m.blank,
        forall|i: int, x: int, y: int|
            #![trigger ps[i].1.contains((x, y))]
            0 <= i < ps.len() && ps[i].1.contains((x, y)) && m.in_bounds(x, y) ==> place_all(
                m,
                ps,
            ).cell(x, y) == Some(ps[i].0),
        forall|x: int, y: int|
            m.in_bounds(x, y) && !covered_by(ps, x, y) ==> #[trigger] place_all(m, ps).cell(x, y)
                == m.cell(x, y),
    decreases ps.len(),
{
    if ps.len() > 0 {
        let init = ps.drop_last();
        let last = ps.last();
        assert(placements_free(m, init)) by {
            assert(forall|i: int| 0 <= i < init.len() ==> init[i] == ps[i]);
        }
        assert(placements_disjoint(init)) by {
            assert(forall|i: int| 0 <= i < init.len() ==> init[i] == ps[i]);
        }
        lemma_place_all_cells(m, init);
        let b = place_all(m, init);
        assert(b.cells_free(last.1)) by {
            assert forall|u: int| 0 <= u < last.1.len() implies b.in_bounds(
                (#[trigger] last.1[u]).0,
                last.1[u].1,
            ) && !b.occupied(last.1[u].0, last.1[u].1) by {
                let c = last.1[u];
                assert(m.cells_free(ps[ps.len() - 1].1));
                assert(m.in_bounds(c.0, c.1) && !m.occupied(c.0, c.1));
                assert(!covered_by(init, c.0, c.1)) by {
                    if covered_by(init, c.0, c.1) {
                        let i = choose|i: int|
                            0 <= i < init.len() && (#[trigger] init[i]).1.contains((c.0, c.1));
                        let v = choose|v: int|
                            0 <= v < init[i].1.len() && init[i].1[v] == ((c.0, c.1));
                        assert(ps[i].1[v] == ps[ps.len() - 1].1[u]);
                    }
                }
            }
        }
        b.lemma_place_cells_grid(last.0, last.1);
        assert forall|i: int, x: int, y: int|
            #![trigger ps[i].1.contains((x, y))]
            0 <= i < ps.len() && ps[i].1.contains((x, y)) && m.in_bounds(x, y) implies place_all(
            m,
            ps,
        ).cell(x, y) == Some(ps[i].0) by {
            if i < ps.len() - 1 {
                assert(init[i].1.contains((x, y)));
                assert(b.cell(x, y) == Some(ps[i].0));
                assert(!last.1.contains((x, y))) by {
                    if last.1.contains((x, y)) {
                        let u = choose|u: int|
                            0 <= u < init[i].1.len() && (#[trigger] init[i].1[u]) == ((x, y));
                        let v = choose|v: int|
                            0 <= v < last.1.len() && (#[trigger] last.1[v]) == ((x, y));
                        assert(ps[i].1[u] == ps[ps.len() - 1].1[v]);
                    }
                }
            } else {
                assert(last.1.contains((x, y)));
            }
        }
        assert forall|x: int, y: int|
            m.in_bounds(x, y) && !covered_by(ps, x, y) implies #[trigger] place_all(m, ps).cell(
            x,
            y,
        ) == m.cell(x, y) by {
            assert(!covered_by(init, x, y)) by {
                if covered_by(init, x, y) {
                    let i = choose|i: int|
                        0 <= i < init.len() && (#[trigger] init[i]).1.contains((x, y));
                    assert(ps[i].1.contains((x, y)));
                }
            }
            assert(!last.1.contains((x, y))) by {
                if last.1.contains((x, y)) {
                    assert(ps[ps.len() - 1].1.contains((x, y)));
                }
            }
        }
    }
}

/// Placement order is irrelevant: two batches holding the same disjoint
/// free-cell placements yield the same board, in whatever order each lists
/// them — so both serialize to the same canonical string and collapse to
/// one solution.
pub proof fn lemma_place_order_irrelevant(
    m: BoardModel,
    ps1: Seq<(char, Seq<(int, int)>)>,
    ps2: Seq<(char, Seq<(int, int)>)>,
)
    requires
        m.wf(),
        placements_free(m, ps1),
        placements_disjoint(ps1),
        placements_free(m, ps2),
        placements_disjoint(ps2),
        forall|p: (char, Seq<(int, int)>)| ps1.contains(p) <==> ps2.contains(p),
    ensures
        place_all(m, ps1) == place_all(m, ps2),
{
    lemma_place_all_cells(m, ps1);
    lemma_place_all_cells(m, ps2);
    let b1 = place_all(m, ps1);
    let b2 = place_all(m, ps2);
    assert forall|x: int, y: int| m.in_bounds(x, y) implies b1.cell(x, y) == b2.cell(x, y) by {
        if covered_by(ps1, x, y) {
            let i = choose|i: int| 0 <= i < ps1.len() && (#[trigger] ps1[i]).1.contains((x, y));
            assert(ps1.contains(ps1[i]));
            assert(ps2.contains(ps1[i]));
            let j = choose|j: int| 0 <= j < ps2.len() && (#[trigger] ps2[j]) == ps1[i];
            assert(ps2[j].1.contains((x, y)));
            assert(b1.cell(x, y) == Some(ps1[i].0));
            assert(b2.cell(x, y) == Some(ps2[j].0));
        } else if covered_by(ps2, x, y) {
            let j = choose|j: int| 0 <= j < ps2.len() && (#[trigger] ps2[j]).1.contains((x, y));
            assert(ps2.contains(ps2[j]));
            assert(ps1.contains(ps2[j]));
            let i = choose|i: int| 0 <= i < ps1.len() && (#[trigger] ps1[i]) == ps2[j];
            assert(ps1[i].1.contains((x, y)));
            assert(covered_by(ps1, x, y));
        }
    }
    assert forall|k: int| 0 <= k < b1.grid.len() implies b1.grid[k] == b2.grid[k] by {
        assert(b1.grid[k].len() == m.width);
        assert(b2.grid[k].len() == m.width);
        assert forall|x: int| 0 <= x < m.width implies b1.grid[k][x] == b2.grid[k][x] by {
            assert(m.in_bounds(x, k));
            assert(b1.cell(x, k) == b2.cell(x, k));
        }
        assert(b1.grid[k] =~= b2.grid[k]);
    }
    assert(b1.grid =~= b2.grid);
}

/// Every board the first-solution search returns also appears in the
/// result of the exhaustive search over the same board and piece list.
pub proof fn lemma_find_first_within_find_all(
    m: BoardModel,
    pieces: Seq<Piece>,
    first: Seq<Board>,
    all_results: Seq<Board>,
)
    requires
        forall|i: int|
            0 <= i < first.len() ==> solution_serials(m, pieces).contains(
                (#[trigger] first[i])@.serial(),
            ),
        forall|s: Seq<char>|
            #[trigger] solution_serials(m, pieces).contains(s) ==> boards_hold_serial(
                all_results,
                s,
            ),
    ensures
        forall|i: int|
            0 <= i < first.len() ==> boards_hold_serial(
                all_results,
                (#[trigger] first[i])@.serial(),
            ),
{
    assert forall|i: int| 0 <= i < first.len() implies boards_hold_serial(
        all_results,
        (#[trigger] first[i])@.serial(),
    ) by {
        assert(solution_serials(m, pieces).contains(first[i]@.serial()));
    }
}

/// A one-by-one board can never accept a piece that covers more than one
/// distinct cell: every placement of such a piece fails its legality check.
pub proof fn lemma_one_cell_board_rejects_multi_cell_piece(
    m: BoardModel,
    piece: Piece,
    p: Placement,
)
    requires
        m.wf(),
        m.width == 1,
        m.height == 1,
        piece.shape_at(p.rotation, p.flipped).len() >= 2,
        forall|i: int, j: int|
            0 <= i < j < piece.shape_at(p.rotation, p.flipped).len() ==> piece.shape_at(
                p.rotation,
                p.flipped,
            )[i] != piece.shape_at(p.rotation, p.flipped)[j],
    ensures
        !fits(m, piece, p),
{
    let shape = piece.shape_at(p.rotation, p.flipped);
    let cells = placement_cells(piece, p);
    if fits(m, piece, p) {
        assert(m.in_bounds(cells[0].0, cells[0].1));
        assert(m.in_bounds(cells[1].0, cells[1].1));
        assert(cells[0] == ((0int, 0int)));
        assert(cells[1] == ((0int, 0int)));
        assert(cells[0] == (shape[0].0 + p.x as int, shape[0].1 + p.y as int));
        assert(cells[1] == (shape[1].0 + p.x as int, shape[1].1 + p.y as int));
        assert(shape[0] == shape[1]);
    }
}

/// The total of a list of region sizes.
pub open spec fn sum_sizes(s: Seq<usize>) -> int
    decreases s.len(),
{
    if s.len() == 0 {
        0
    } else {
        sum_sizes(s.drop_last()) + s.last()
    }
}

/// The running state of the region scan: every recorded size is the size of
/// its recorded representative's region, and every visited cell's region
/// size is recorded at its index.
spec fn scan_inv(
    m: BoardModel,
    vis: Seq<Seq<bool>>,
    areas: Seq<usize>,
    reps: Seq<(int, int)>,
    idx: Map<(int, int), int>,
) -> bool {
    &&& reps.len() == areas.len()
    &&& (forall|i: int|
        0 <= i < areas.len() ==> blank_at(m, #[trigger] reps[i]) && areas[i] as nat == region_size(
            m,
            reps[i],
        ))
    &&& (forall|c: (int, int)|
        #[trigger] visited_set(vis).contains(c) ==> idx.dom().contains(c) && 0 <= idx[c]
            < areas.len() && areas[idx[c]] as nat == region_size(m, c))
}

/// What the calendar board holds at each cell: the month, day and weekday
/// markers on their cells, the corner marker at the missing corner, and
/// nothing elsewhere.
pub open spec fn date_cell_content(mo: Month, d: MonthDay, w: Weekday, x: int, y: int) -> Option<
    char,
> {
    if (x, y) == mo.spec_coordinates() {
        Some('m')
    } else if (x, y) == d.spec_coordinates() {
        Some('d')
    } else if (x, y) == w.spec_coordinates() {
        Some('w')
    } else if (x, y) == ((8int, 5int)) {
        Some('x')
    } else {
        None
    }
}

/// The four cells of a date lie on the 9 by 6 board and are pairwise
/// distinct.
proof fn lemma_date_cells_distinct(mo: Month, d: MonthDay, w: Weekday)
    requires
        d.wf(),
    ensures
        0 <= mo.spec_coordinates().0 < 9 && 0 <= mo.spec_coordinates().1 < 6,
        0 <= d.spec_coordinates().0 < 9 && 0 <= d.spec_coordinates().1 < 6,
        0 <= w.spec_coordinates().0 < 9 && 0 <= w.spec_coordinates().1 < 6,
        mo.spec_coordinates() != d.spec_coordinates(),
        mo.spec_coordinates() != w.spec_coordinates(),
        mo.spec_coordinates() != ((8int, 5int)),
        d.spec_coordinates() != w.spec_coordinates(),
        d.spec_coordinates() != ((8int, 5int)),
        w.spec_coordinates() != ((8int, 5int)),
{
}

/// A single-cell marker placed unrotated covers exactly its anchor, and
/// fits wherever that anchor is a free cell of the board.
proof fn lemma_marker_cells(m: BoardModel, p: Piece, pl: Placement)
    requires
        marker_piece(p, p.symbol),
        pl.rotation == Rotation::Zero,
        !pl.flipped,
    ensures
        placement_cells(p, pl) == seq![(pl.x as int, pl.y as int)],
        m.in_bounds(pl.x as int, pl.y as int) && !m.occupied(pl.x as int, pl.y as int) ==> fits(
            m,
            p,
            pl,
        ),
{
    assert(p.shape_at(Rotation::Zero, false) == p.base_shape());
    assert(placement_cells(p, pl) =~= seq![(pl.x as int, pl.y as int)]);
    if m.in_bounds(pl.x as int, pl.y as int) && !m.occupied(pl.x as int, pl.y as int) {
        assert forall|i: int| 0 <= i < placement_cells(p, pl).len() implies m.in_bounds(
            (#[trigger] placement_cells(p, pl)[i]).0,
            placement_cells(p, pl)[i].1,
        ) && !m.occupied(placement_cells(p, pl)[i].0, placement_cells(p, pl)[i].1) by {}
    }
}

/// The running state of one flood fill: the matrix marks the previously
/// visited cells plus a reachable part of the start's region, the stack holds
/// reachable blank cells, every blank neighbour of a marked cell is marked or
/// queued, and `size` counts the newly marked cells.
spec fn flood_inv(
    m: BoardModel,
    v0: Set<(int, int)>,
    vis: Seq<Seq<bool>>,
    st: Seq<(usize, usize)>,
    size: nat,
    startc: (int, int),
) -> bool {
    &&& vis_wf(m, vis)
    &&& only_blank(m, visited_set(vis))
    &&& (forall|c: (int, int)| v0.contains(c) ==> #[trigger] visited_set(vis).contains(c))
    &&& (forall|c: (int, int)|
        #[trigger] visited_set(vis).contains(c) ==> v0.contains(c) || reaches(m, startc, c))
    &&& (forall|i: int|
        0 <= i < st.len() ==> blank_at(m, ((#[trigger] st[i]).0 as int, st[i].1 as int))
            && reaches(m, startc, (st[i].0 as int, st[i].1 as int)))
    &&& (forall|c: (int, int), n: (int, int)|
        visited_set(vis).contains(c) && #[trigger] adjacent(c, n) && blank_at(m, n)
            ==> visited_set(vis).contains(n) || stack_cells(st).contains(n))
    &&& (visited_set(vis).contains(startc) || stack_cells(st).contains(startc))
    &&& visited_set(vis).difference(v0).finite()
    &&& size == visited_set(vis).difference(v0).len()
}

/// True when one of the boards serializes to the given string.
pub open spec fn boards_hold_serial(bs: Seq<Board>, s: Seq<char>) -> bool {
    exists|i: int| 0 <= i < bs.len() && (#[trigger] bs[i])@.serial() == s
}

/// True when one of the boards serializes to the given string.
fn contains_serial(boards: &Vec<Board>, s: &String) -> (r: bool)
    requires
        forall|i: int| 0 <= i < boards@.len() ==> (#[trigger] boards@[i]).wf(),
    ensures
        r <==> boards_hold_serial(boards@, s@),
{
    let n = boards.len();
    for i in 0..n
        invariant
            n == boards@.len(),
            forall|j: int| 0 <= j < boards@.len() ==> (#[trigger] boards@[j]).wf(),
            forall|j: int| 0 <= j < i ==> (#[trigger] boards@[j])@.serial() != s@,
    {
        let bs = boards[i].serialize();
        if bs == *s {
            proof {
                assert(boards@[i as int]@.serial() == s@);
            }
            return true;
        }
    }
    false
}

/// Moves the boards of `more` into `acc`, dropping each whose serialization
/// `acc` already holds, so that `acc` stays free of duplicates while gaining
/// every serialization of `more`.
fn merge_dedup(acc: &mut Vec<Board>, more: Vec<Board>, Ghost(uni): Ghost<Set<Seq<char>>>)
    requires
        forall|i: int|
            0 <= i < old(acc)@.len() ==> (#[trigger] old(acc)@[i]).wf() && uni.contains(
                old(acc)@[i]@.serial(),
            ),
        forall|i: int, j: int|
            0 <= i < j < old(acc)@.len() ==> old(acc)@[i]@.serial() != old(acc)@[j]@.serial(),
        forall|i: int|
            0 <= i < more@.len() ==> (#[trigger] more@[i]).wf() && uni.contains(
                more@[i]@.serial(),
            ),
    ensures
        forall|i: int|
            0 <= i < final(acc)@.len() ==> (#[trigger] final(acc)@[i]).wf() && uni.contains(
                final(acc)@[i]@.serial(),
            ),
        forall|i: int, j: int|
            0 <= i < j < final(acc)@.len() ==> final(acc)@[i]@.serial() != final(
                acc)@[j]@.serial(),
        forall|i: int| 0 <= i < old(acc)@.len() ==> final(acc)@[i] == old(acc)@[i],
        final(acc)@.len() >= old(acc)@.len(),
        forall|j: int|
            0 <= j < more@.len() ==> boards_hold_serial(
                final(acc)@,
                (#[trigger] more@[j])@.serial(),
            ),
        final(acc)@.len() <= old(acc)@.len() + more@.len(),
        final(acc)@.len() == 0 ==> more@.len() == 0,
        forall|i: int|
            0 <= i < final(acc)@.len() ==> old(acc)@.contains(#[trigger] final(acc)@[i])
                || more@.contains(final(acc)@[i]),
{
    let ghost orig = more@;
    let mut more = more;
    while more.len() > 0
        invariant
            more@ == orig.take(more@.len() as int),
            forall|i: int|
                0 <= i < acc@.len() ==> (#[trigger] acc@[i]).wf() && uni.contains(
                    acc@[i]@.serial(),
                ),
            forall|i: int, j: int|
                0 <= i < j < acc@.len() ==> acc@[i]@.serial() != acc@[j]@.serial(),
            forall|i: int| 0 <= i < old(acc)@.len() ==> acc@[i] == old(acc)@[i],
            acc@.len() >= old(acc)@.len(),
            forall|i: int|
                0 <= i < orig.len() ==> (#[trigger] orig[i]).wf() && uni.contains(
                    orig[i]@.serial(),
                ),
            forall|j: int|
                more@.len() <= j < orig.len() ==> boards_hold_serial(
                    acc@,
                    (#[trigger] orig[j])@.serial(),
                ),
            acc@.len() <= old(acc)@.len() + (orig.len() - more@.len()),
            forall|i: int|
                0 <= i < acc@.len() ==> old(acc)@.contains(#[trigger] acc@[i]) || orig.contains(
                    acc@[i],
                ),
        decreases more@.len(),
    {
        let ghost acc0 = acc@;
        let popped = more.pop();
        let b = match popped {
            Some(q) => q,
            None => unreached(),
        };
        proof {
            assert(b == orig[more@.len() as int]);
            assert(more@ =~= orig.take(more@.len() as int));
        }
        let s = b.serialize();
        let had = contains_serial(acc, &s);
        if !had {
            acc.push(b);
            proof {
                assert forall|i: int, j: int|
                    0 <= i < j < acc@.len() implies acc@[i]@.serial() != acc@[j]@.serial() by {
                    if j == acc@.len() - 1 {
                        assert(acc@[i] == acc0[i]);
                        assert(acc0[i]@.serial() != s@);
                    }
                }
                assert(orig.contains(acc@[acc@.len() - 1])) by {
                    assert(orig[more@.len() as int] == acc@[acc@.len() - 1]);
                }
                assert forall|i: int|
                    0 <= i < acc@.len() implies old(acc)@.contains(#[trigger] acc@[i])
                    || orig.contains(acc@[i]) by {
                    if i < acc@.len() - 1 {
                        assert(acc@[i] == acc0[i]);
                    }
                }
            }
        }
        proof {
            assert forall|j: int| more@.len() <= j < orig.len() implies boards_hold_serial(
                acc@,
                (#[trigger] orig[j])@.serial(),
            ) by {
                if j == more@.len() {
                    if had {
                        let i0 = choose|i: int|
                            0 <= i < acc0.len() && (#[trigger] acc0[i])@.serial() == s@;
                        assert(acc@[i0]@.serial() == orig[j]@.serial());
                    } else {
                        assert(acc@[acc@.len() - 1]@.serial() == orig[j]@.serial());
                    }
                } else {
                    assert(boards_hold_serial(acc0, orig[j]@.serial()));
                    let i0 = choose|i: int|
                        0 <= i < acc0.len() && (#[trigger] acc0[i])@.serial() == orig[
                        j]@.serial();
                    assert(acc@[i0] == acc0[i0]);
                    assert(acc@[i0]@.serial() == orig[j]@.serial());
                }
            }
        }
    }
    proof {
        assert(orig.take(0) =~= Seq::<Board>::empty());
        if acc@.len() == 0 && orig.len() > 0 {
            assert(boards_hold_serial(acc@, orig[orig.len() - 1]@.serial()));
            let i0 = choose|i: int|
                0 <= i < acc@.len() && (#[trigger] acc@[i])@.serial() == orig[orig.len()
                    - 1]@.serial();
        }
    }
}

/// Removes duplicate boards: the result holds exactly the serializations of
/// the input, each once.
pub fn dedup_boards(boards: Vec<Board>) -> (r: Vec<Board>)
    requires
        forall|i: int| 0 <= i < boards@.len() ==> (#[trigger] boards@[i]).wf(),
    ensures
        forall|i: int, j: int| 0 <= i < j < r@.len() ==> r@[i]@.serial() != r@[j]@.serial(),
        forall|i: int|
            0 <= i < r@.len() ==> (#[trigger] r@[i]).wf() && boards_hold_serial(
                boards@,
                r@[i]@.serial(),
            ),
        forall|j: int|
            0 <= j < boards@.len() ==> boards_hold_serial(r@, (#[trigger] boards@[j])@.serial()),
{
    let ghost uni = Set::<Seq<char>>::new(|s: Seq<char>| boards_hold_serial(boards@, s));
    let mut out: Vec<Board> = Vec::new();
    proof {
        assert forall|i: int| 0 <= i < boards@.len() implies uni.contains(
            (#[trigger] boards@[i])@.serial(),
        ) by {
            assert(boards_hold_serial(boards@, boards@[i]@.serial()));
        }
    }
    merge_dedup(&mut out, boards, Ghost(uni));
    proof {
        assert forall|i: int| 0 <= i < out@.len() implies boards_hold_serial(
            boards@,
            (#[trigger] out@[i])@.serial(),
        ) by {
            assert(uni.contains(out@[i]@.serial()));
        }
    }
    out
}

/// Code-point lexicographic order on serializations: the empty string
/// first, then by the first differing character.
pub open spec fn lex_leq(a: Seq<char>, b: Seq<char>) -> bool
    decreases a.len(),
{
    if a.len() == 0 {
        true
    } else if b.len() == 0 {
        false
    } else if (a[0] as u32) < (b[0] as u32) {
        true
    } else if (a[0] as u32) > (b[0] as u32) {
        false
    } else {
        lex_leq(a.drop_first(), b.drop_first())
    }
}

/// The boards are in ascending serialization order.
pub open spec fn sorted_by_serial(s: Seq<Board>) -> bool {
    forall|i: int, j: int|
        0 <= i < j < s.len() ==> lex_leq((#[trigger] s[i])@.serial(), (#[trigger] s[j])@.serial())
}

/// The lexicographic order is total.
proof fn lemma_lex_total(a: Seq<char>, b: Seq<char>)
    ensures
        lex_leq(a, b) || lex_leq(b, a),
    decreases a.len(),
{
    if a.len() > 0 && b.len() > 0 && (a[0] as u32) == (b[0] as u32) {
        lemma_lex_total(a.drop_first(), b.drop_first());
    }
}

/// The lexicographic order is transitive.
proof fn lemma_lex_trans(a: Seq<char>, b: Seq<char>, c: Seq<char>)
    requires
        lex_leq(a, b),
        lex_leq(b, c),
    ensures
        lex_leq(a, c),
    decreases a.len(),
{
    if a.len() > 0 && b.len() > 0 && c.len() > 0 && (a[0] as u32) == (b[0] as u32) && (b[0] as u32)
        == (c[0] as u32) {
        lemma_lex_trans(a.drop_first(), b.drop_first(), c.drop_first());
    }
}

/// Compares two boards by their canonical serializations.
fn serial_leq(a: &Board, b: &Board) -> (r: bool)
    requires
        a.wf(),
        b.wf(),
    ensures
        r == lex_leq(a@.serial(), b@.serial()),
{
    let sa = a.serialize();
    let sb = b.serialize();
    let la = sa.as_str().unicode_len();
    let lb = sb.as_str().unicode_len();
    proof {
        assert(sa@.skip(0) =~= sa@);
        assert(sb@.skip(0) =~= sb@);
    }
    let mut i: usize = 0;
    while i < la && i < lb
        invariant
            la == sa@.len(),
            lb == sb@.len(),
            sa@ == a@.serial(),
            sb@ == b@.serial(),
            i <= la,
            i <= lb,
            lex_leq(sa@, sb@) == lex_leq(sa@.skip(i as int), sb@.skip(i as int)),
        decreases la - i,
    {
        let ca = sa.as_str().get_char(i);
        let cb = sb.as_str().get_char(i);
        proof {
            assert(sa@.skip(i as int)[0] == sa@[i as int]);
            assert(sb@.skip(i as int)[0] == sb@[i as int]);
            assert(sa@.skip(i as int).drop_first() =~= sa@.skip(i + 1));
            assert(sb@.skip(i as int).drop_first() =~= sb@.skip(i + 1));
        }
        if (ca as u32) < (cb as u32) {
            return true;
        }
        if (ca as u32) > (cb as u32) {
            return false;
        }
        i = i + 1;
    }
    proof {
        if i >= la {
            assert(sa@.skip(i as int) =~= Seq::<char>::empty());
        } else {
            assert(sb@.skip(i as int) =~= Seq::<char>::empty());
            assert(sa@.skip(i as int).len() > 0);
        }
    }
    la <= lb
}

/// The position where a board joins a sorted list: the first entry that
/// does not precede it.
fn find_sorted_position(out: &Vec<Board>, b: &Board) -> (p: usize)
    requires
        b.wf(),
        forall|i: int| 0 <= i < out@.len() ==> (#[trigger] out@[i]).wf(),
    ensures
        p <= out@.len(),
        forall|k: int| 0 <= k < p ==> lex_leq((#[trigger] out@[k])@.serial(), b@.serial()),
        p < out@.len() ==> !lex_leq(out@[p as int]@.serial(), b@.serial()),
{
    let n = out.len();
    for i in 0..n
        invariant
            n == out@.len(),
            b.wf(),
            forall|k: int| 0 <= k < out@.len() ==> (#[trigger] out@[k]).wf(),
            forall|k: int| 0 <= k < i ==> lex_leq((#[trigger] out@[k])@.serial(), b@.serial()),
    {
        if !serial_leq(&out[i], b) {
            return i;
        }
    }
    n
}

/// Inserting an element anywhere adds exactly it to the sequence's
/// multiset.
proof fn lemma_insert_multiset<T>(s: Seq<T>, i: int, v: T)
    requires
        0 <= i <= s.len(),
    ensures
        s.insert(i, v).to_multiset() == s.to_multiset().insert(v),
{
    broadcast use vstd::seq_lib::group_to_multiset_ensures;

    let a = s.take(i);
    let b = s.skip(i);
    assert(s.insert(i, v) =~= a + (seq![v] + b));
    vstd::seq_lib::lemma_multiset_commutative(a, seq![v] + b);
    vstd::seq_lib::lemma_multiset_commutative(seq![v], b);
    assert(s =~= a + b);
    vstd::seq_lib::lemma_multiset_commutative(a, b);
    assert(seq![v] =~= Seq::<T>::empty().push(v));
    assert(seq![v].to_multiset() =~= Multiset::<T>::empty().insert(v));
    assert(s.insert(i, v).to_multiset() =~= s.to_multiset().insert(v));
}

/// Sorts boards into ascending canonical-serialization order, so that the
/// solution list is deterministic across runs and schedulers. The result
/// holds exactly the boards given.
pub fn sort_boards_by_serial(boards: Vec<Board>) -> (r: Vec<Board>)
    requires
        forall|i: int| 0 <= i < boards@.len() ==> (#[trigger] boards@[i]).wf(),
    ensures
        forall|i: int| 0 <= i < r@.len() ==> (#[trigger] r@[i]).wf(),
        sorted_by_serial(r@),
        r@.to_multiset() == boards@.to_multiset(),
{
    let ghost orig = boards@;
    let mut rem = boards;
    let mut out: Vec<Board> = Vec::new();
    proof {
        broadcast use vstd::seq_lib::group_to_multiset_ensures;

        assert(Seq::<Board>::empty().to_multiset() =~= Multiset::<Board>::empty());
        assert(out@.to_multiset().add(rem@.to_multiset()) =~= orig.to_multiset());
    }
    while rem.len() > 0
        invariant
            forall|i: int| 0 <= i < rem@.len() ==> (#[trigger] rem@[i]).wf(),
            forall|i: int| 0 <= i < out@.len() ==> (#[trigger] out@[i]).wf(),
            sorted_by_serial(out@),
            out@.to_multiset().add(rem@.to_multiset()) == orig.to_multiset(),
        decreases rem@.len(),
    {
        let ghost rem0 = rem@;
        let popped = rem.pop();
        let b = match popped {
            Some(q) => q,
            None => unreached(),
        };
        let ghost out0 = out@;
        let p = find_sorted_position(&out, &b);
        out.insert(p, b);
        proof {
            broadcast use vstd::seq_lib::group_to_multiset_ensures;

            assert(rem0 =~= rem@.push(b));
            lemma_insert_multiset(out0, p as int, b);
            assert(out@.to_multiset().add(rem@.to_multiset()) =~= orig.to_multiset());
            assert forall|i: int, j: int| 0 <= i < j < out@.len() implies lex_leq(
                (#[trigger] out@[i])@.serial(),
                (#[trigger] out@[j])@.serial(),
            ) by {
                if j == p {
                    assert(out@[i] == out0[i]);
                } else if i == p {
                    assert(out@[j] == out0[j - 1]);
                    assert(!lex_leq(out0[p as int]@.serial(), b@.serial()));
                    lemma_lex_total(out0[p as int]@.serial(), b@.serial());
                    if j - 1 > p {
                        lemma_lex_trans(
                            b@.serial(),
                            out0[p as int]@.serial(),
                            out0[j - 1]@.serial(),
                        );
                    }
                } else if i < p && j > p {
                    assert(out@[i] == out0[i] && out@[j] == out0[j - 1]);
                    if j - 1 > i {
                        assert(lex_leq(out0[i]@.serial(), out0[j - 1]@.serial()));
                    } else {
                        assert(lex_leq(out0[i]@.serial(), b@.serial()));
                        assert(!lex_leq(out0[p as int]@.serial(), b@.serial()));
                        lemma_lex_total(out0[p as int]@.serial(), b@.serial());
                        lemma_lex_trans(
                            out0[i]@.serial(),
                            b@.serial(),
                            out0[p as int]@.serial(),
                        );
                    }
                } else if j < p {
                    assert(out@[i] == out0[i] && out@[j] == out0[j]);
                } else {
                    assert(out@[i] == out0[i - 1] && out@[j] == out0[j - 1]);
                }
            }
        }
    }
    proof {
        broadcast use vstd::seq_lib::group_to_multiset_ensures;

        assert(rem@ =~= Seq::<Board>::empty());
        assert(Seq::<Board>::empty().to_multiset() =~= Multiset::<Board>::empty());
        assert(out@.to_multiset() =~= orig.to_multiset());
    }
    out
}

/// Relies on `String::push`: appends the given character to the end of the
/// string.
#[verifier::external_body]
fn push_char(s: &mut String, c: char)
    ensures
        final(s)@ == old(s)@.push(c),
{
    s.push(c);
}

} // verus!
