//! Hint boards: reduce a solved board to a few well-placed pieces so the
//! rest can be solved by hand. The subset shown is chosen by a cosmetic
//! adjacency heuristic; which subset wins has no bearing on solutions.

use vstd::prelude::*;

use crate::board::{Board, BoardModel};

verus! {

/// True for the piece symbols hint boards keep or clear: the movable pieces
/// carry ASCII uppercase identities, the date markers lowercase ones.
pub open spec fn is_upper(c: char) -> bool {
    65 <= c as u32 <= 90
}

/// How many edges of one cell lie on the board's border.
pub open spec fn cell_border_edges(w: int, h: int, c: (usize, usize)) -> int {
    (if c.0 as int == 0 {
        1int
    } else {
        0int
    }) + (if c.0 as int == w - 1 {
        1int
    } else {
        0int
    }) + (if c.1 as int == 0 {
        1int
    } else {
        0int
    }) + (if c.1 as int == h - 1 {
        1int
    } else {
        0int
    })
}

/// How many edge-neighbour cells of `c` the list `cb` holds.
pub open spec fn cell_touch_count(cb: Seq<(usize, usize)>, c: (usize, usize)) -> int {
    (if c.0 < usize::MAX && cb.contains(((c.0 + 1) as usize, c.1)) {
        1int
    } else {
        0int
    }) + (if c.0 > 0 && cb.contains(((c.0 - 1) as usize, c.1)) {
        1int
    } else {
        0int
    }) + (if c.1 < usize::MAX && cb.contains((c.0, (c.1 + 1) as usize)) {
        1int
    } else {
        0int
    }) + (if c.1 > 0 && cb.contains((c.0, (c.1 - 1) as usize)) {
        1int
    } else {
        0int
    })
}

/// The collector has the cell recorded under the symbol.
pub open spec fn collected(
    out: Seq<(char, Vec<(usize, usize)>)>,
    sym: char,
    c: (usize, usize),
) -> bool {
    exists|i: int| 0 <= i < out.len() && (#[trigger] out[i]).0 == sym && out[i].1@.contains(c)
}

/// One uppercase piece on the board together with all its cells.
pub open spec fn entry_exact(m: BoardModel, sym: char, cs: Seq<(usize, usize)>) -> bool {
    &&& is_upper(sym)
    &&& (forall|k: int|
        0 <= k < cs.len() ==> m.in_bounds((#[trigger] cs[k]).0 as int, cs[k].1 as int)
            && m.cell(cs[k].0 as int, cs[k].1 as int) == Some(sym))
    &&& (forall|x: int, y: int|
        m.in_bounds(x, y) && #[trigger] m.cell(x, y) == Some(sym) ==> cs.contains(
            (x as usize, y as usize)))
}

impl Board {
    /// Collects, for every uppercase piece on the board, the piece's symbol
    /// and the full list of cells it occupies.
    pub fn collect_piece_coordinates(&self) -> (r: Vec<(char, Vec<(usize, usize)>)>)
        requires
            self.wf(),
        ensures
            forall|i: int, j: int| 0 <= i < j < r@.len() ==> r@[i].0 != r@[j].0,
            forall|i: int|
                0 <= i < r@.len() ==> entry_exact(self@, (#[trigger] r@[i]).0, r@[i].1@),
            forall|x: int, y: int|
                self@.in_bounds(x, y) && #[trigger] upper_cell(self@, x, y) ==> collected(
                    r@,
                    self@.cell(x, y).unwrap(),
                    (x as usize, y as usize),
                ),
    {
        let ghost m = self@;
        let mut out: Vec<(char, Vec<(usize, usize)>)> = Vec::new();
        let height = self.height;
        let width = self.width;
        for y in 0..height
            invariant
                self.wf(),
                m == self@,
                height == m.height,
                width == m.width,
                forall|i: int, j: int| 0 <= i < j < out@.len() ==> out@[i].0 != out@[j].0,
                forall|i: int| 0 <= i < out@.len() ==> is_upper((#[trigger] out@[i]).0),
                forall|i: int, k: int|
                    0 <= i < out@.len() && 0 <= k < out@[i].1@.len() ==> m.in_bounds(
                        (#[trigger] out@[i].1@[k]).0 as int,
                        out@[i].1@[k].1 as int,
                    ) && m.cell(out@[i].1@[k].0 as int, out@[i].1@[k].1 as int) == Some(out@[i].0),
                forall|x: int, y0: int|
                    m.in_bounds(x, y0) && #[trigger] upper_cell(m, x, y0) && y0 < y ==> collected(
                        out@,
                        m.cell(x, y0).unwrap(),
                        (x as usize, y0 as usize),
                    ),
        {
            for x in 0..width
                invariant
                    self.wf(),
                    m == self@,
                    height == m.height,
                    width == m.width,
                    y < height,
                    forall|i: int, j: int| 0 <= i < j < out@.len() ==> out@[i].0 != out@[j].0,
                    forall|i: int| 0 <= i < out@.len() ==> is_upper((#[trigger] out@[i]).0),
                    forall|i: int, k: int|
                        0 <= i < out@.len() && 0 <= k < out@[i].1@.len() ==> m.in_bounds(
                            (#[trigger] out@[i].1@[k]).0 as int,
                            out@[i].1@[k].1 as int,
                        ) && m.cell(out@[i].1@[k].0 as int, out@[i].1@[k].1 as int) == Some(
                            out@[i].0,
                        ),
                    forall|x0: int, y0: int|
                        m.in_bounds(x0, y0) && #[trigger] upper_cell(m, x0, y0) && (y0 < y || (y0
                            == y && x0 < x)) ==> collected(
                            out@,
                            m.cell(x0, y0).unwrap(),
                            (x0 as usize, y0 as usize),
                        ),
            {
                proof {
                    assert(m.grid[y as int] == self.grid@[y as int]@);
                }
                let cellv = self.grid[y][x];
                if let Some(sym) = cellv {
                    let code = sym as u32;
                    if code >= 65 && code <= 90 {
                        proof {
                            assert(is_upper(sym));
                        }
                        let ghost out0 = out@;
                        match find_symbol(&out, sym) {
                            Some(idx) => {
                                let entry = &mut out[idx];
                                entry.1.push((x, y));
                                proof {
                                    lemma_collect_step(
                                        m,
                                        out0,
                                        out@,
                                        idx as int,
                                        sym,
                                        x as int,
                                        y as int,
                                    );
                                    assert(out@[idx as int].0 == sym && out@[
                                    idx as int].1@.contains((x, y)));
                                    assert(collected(out@, sym, (x, y)));
                                    lemma_collected_preserved(out0, out@);
                                }
                            },
                            None => {
                                let mut cs: Vec<(usize, usize)> = Vec::new();
                                cs.push((x, y));
                                out.push((sym, cs));
                                proof {
                                    lemma_collect_new(m, out0, out@, sym, x as int, y as int);
                                    assert(out@[out0.len() as int].0 == sym && out@[
                                    out0.len() as int].1@.contains((x, y)));
                                    assert(collected(out@, sym, (x, y)));
                                    lemma_collected_preserved(out0, out@);
                                }
                            },
                        }
                    }
                }
            }
        }
        proof {
            assert forall|i: int| 0 <= i < out@.len() implies entry_exact(
                m,
                (#[trigger] out@[i]).0,
                out@[i].1@,
            ) by {
                assert forall|x: int, y: int|
                    m.in_bounds(x, y) && #[trigger] m.cell(x, y) == Some(out@[i].0) implies
                    out@[i].1@.contains((x as usize, y as usize)) by {
                    assert(upper_cell(m, x, y));
                    assert(collected(out@, m.cell(x, y).unwrap(), (x as usize, y as usize)));
                    let j = choose|j: int|
                        0 <= j < out@.len() && (#[trigger] out@[j]).0 == m.cell(x, y).unwrap()
                            && out@[j].1@.contains((x as usize, y as usize));
                    assert(j == i);
                }
            }
        }
        out
    }
}

/// True when the cell holds an uppercase piece symbol.
pub open spec fn upper_cell(m: BoardModel, x: int, y: int) -> bool {
    match m.cell(x, y) {
        Some(c) => is_upper(c),
        None => false,
    }
}

/// Whatever was collected stays collected when an entry grows or a fresh
/// entry is appended.
proof fn lemma_collected_preserved(
    out0: Seq<(char, Vec<(usize, usize)>)>,
    out1: Seq<(char, Vec<(usize, usize)>)>,
)
    requires
        out1.len() >= out0.len(),
        forall|i: int| 0 <= i < out0.len() ==> out1[i].0 == out0[i].0,
        forall|i: int, c: (usize, usize)|
            0 <= i < out0.len() && #[trigger] out0[i].1@.contains(c) ==> #[trigger] out1[
                i].1@.contains(c),
    ensures
        forall|sym: char, c: (usize, usize)|
            #[trigger] collected(out0, sym, c) ==> collected(out1, sym, c),
{
    assert forall|sym: char, c: (usize, usize)| #[trigger] collected(out0, sym, c) implies
        collected(out1, sym, c) by {
        let i = choose|i: int|
            0 <= i < out0.len() && (#[trigger] out0[i]).0 == sym && out0[i].1@.contains(c);
        assert(out0[i].1@.contains(c));
        assert(out1[i].0 == sym && out1[i].1@.contains(c));
    }
}

/// An integer clamped to the machine word, as `saturating_add` leaves it.
pub open spec fn usat(n: int) -> int {
    if n > usize::MAX as int {
        usize::MAX as int
    } else {
        n
    }
}

/// The border score of a cell list, accumulated with saturation.
pub open spec fn border_score_sat(w: int, h: int, cs: Seq<(usize, usize)>) -> int
    decreases cs.len(),
{
    if cs.len() == 0 {
        0
    } else {
        usat(border_score_sat(w, h, cs.drop_last()) + cell_border_edges(w, h, cs.last()))
    }
}

/// The touch count of two cell lists, accumulated with saturation.
pub open spec fn touch_count_sat(ca: Seq<(usize, usize)>, cb: Seq<(usize, usize)>) -> int
    decreases ca.len(),
{
    if ca.len() == 0 {
        0
    } else {
        usat(touch_count_sat(ca.drop_last(), cb) + cell_touch_count(cb, ca.last()))
    }
}

/// The adjacency table the double loop over piece pairs builds: for every
/// pair of entries whose symbols are in ascending order, the pair's touch
/// count is recorded under both key orders.
pub open spec fn adj_table(
    map: Seq<(char, Vec<(usize, usize)>)>,
    i: int,
    j: int,
) -> Seq<((char, char), int)>
    decreases map.len() - i, map.len() - j,
{
    if i < 0 || j < 0 || i >= map.len() {
        Seq::empty()
    } else if j >= map.len() {
        adj_table(map, i + 1, 0)
    } else {
        let rest = adj_table(map, i, j + 1);
        if (map[i].0 as u32) < (map[j].0 as u32) {
            seq![
                ((map[i].0, map[j].0), touch_count_sat(map[i].1@, map[j].1@)),
                ((map[j].0, map[i].0), touch_count_sat(map[i].1@, map[j].1@)),
            ] + rest
        } else {
            rest
        }
    }
}

/// Every member of the list appears among the symbols from `start` on.
pub open spec fn from_suffix(e: Seq<char>, symbols: Seq<char>, start: int) -> bool {
    forall|t: char|
        #[trigger] e.contains(t) ==> exists|ix: int|
            start <= ix < symbols.len() && symbols[ix] == t
}

impl Board {
    /// Sums, for each collected piece, how many of its cell edges lie on
    /// the board border; the heuristic prefers pieces pinned to the rim.
    pub fn build_boundary_adjacency(
        &self,
        coords_map: &Vec<(char, Vec<(usize, usize)>)>,
    ) -> (r: Vec<(char, usize)>)
        requires
            self.wf(),
        ensures
            r@.len() == coords_map@.len(),
            forall|i: int|
                0 <= i < r@.len() ==> (#[trigger] r@[i]).0 == coords_map@[i].0 && r@[i].1 as int
                    == border_score_sat(self@.width, self@.height, coords_map@[i].1@),
    {
        let mut out: Vec<(char, usize)> = Vec::new();
        let n = coords_map.len();
        let w = self.width;
        let h = self.height;
        for i in 0..n
            invariant
                self.wf(),
                w == self@.width,
                h == self@.height,
                n == coords_map@.len(),
                out@.len() == i,
                forall|i0: int|
                    0 <= i0 < i ==> (#[trigger] out@[i0]).0 == coords_map@[i0].0 && out@[i0].1
                        as int == border_score_sat(self@.width, self@.height, coords_map@[i0].1@),
        {
            let entry = &coords_map[i];
            let cs = &entry.1;
            let m = cs.len();
            let mut score: usize = 0;
            for k in 0..m
                invariant
                    w == self@.width,
                    h == self@.height,
                    m == cs@.len(),
                    score as int == border_score_sat(self@.width, self@.height, cs@.take(k as int)),
            {
                proof {
                    assert(cs@.take(k + 1).drop_last() =~= cs@.take(k as int));
                    assert(cs@.take(k + 1).last() == cs@[k as int]);
                }
                let (x, y) = cs[k];
                let mut edges: usize = 0;
                if x == 0 {
                    edges = edges + 1;
                }
                if w > 0 && x == w - 1 {
                    edges = edges + 1;
                }
                if y == 0 {
                    edges = edges + 1;
                }
                if h > 0 && y == h - 1 {
                    edges = edges + 1;
                }
                proof {
                    assert(edges as int == cell_border_edges(self@.width, self@.height, cs@[
                    k as int]));
                }
                score = score.saturating_add(edges);
            }
            proof {
                assert(cs@.take(m as int) =~= cs@);
            }
            out.push((entry.0, score));
        }
        out
    }

    /// Counts, for every ascending pair of collected pieces, how many of
    /// their cells touch edge to edge; the count is recorded under both key
    /// orders so it can be looked up either way.
    pub fn build_piece_adjacency(
        coords_map: &Vec<(char, Vec<(usize, usize)>)>,
    ) -> (r: Vec<((char, char), usize)>)
        ensures
            r@.map_values(|e: ((char, char), usize)| (e.0, e.1 as int)) == adj_table(
                coords_map@,
                0,
                0,
            ),
    {
        let mut out: Vec<((char, char), usize)> = Vec::new();
        let n = coords_map.len();
        for i in 0..n
            invariant
                n == coords_map@.len(),
                adj_table(coords_map@, 0, 0) == out@.map_values(
                    |e: ((char, char), usize)| (e.0, e.1 as int),
                ) + adj_table(coords_map@, i as int, 0),
        {
            for j in 0..n
                invariant
                    n == coords_map@.len(),
                    i < n,
                    adj_table(coords_map@, 0, 0) == out@.map_values(
                        |e: ((char, char), usize)| (e.0, e.1 as int),
                    ) + adj_table(coords_map@, i as int, j as int),
            {
                let ghost before = out@.map_values(|e: ((char, char), usize)| (e.0, e.1 as int));
                let a = coords_map[i].0;
                let b = coords_map[j].0;
                if (a as u32) < (b as u32) {
                    let count = touch_cells(&coords_map[i].1, &coords_map[j].1);
                    out.push(((a, b), count));
                    out.push(((b, a), count));
                    proof {
                        let after = out@.map_values(
                            |e: ((char, char), usize)| (e.0, e.1 as int),
                        );
                        assert(after =~= before + seq![
                            ((a, b), count as int),
                            ((b, a), count as int),
                        ]);
                        assert(before + adj_table(coords_map@, i as int, j as int) =~= after
                            + adj_table(coords_map@, i as int, j + 1));
                    }
                }
            }
            proof {
                assert(adj_table(coords_map@, i as int, n as int) == adj_table(
                    coords_map@,
                    i + 1,
                    0,
                ));
            }
        }
        proof {
            assert(adj_table(coords_map@, n as int, 0) =~= Seq::<((char, char), int)>::empty());
            assert(out@.map_values(|e: ((char, char), usize)| (e.0, e.1 as int)) + Seq::<
                ((char, char), int),
            >::empty() =~= out@.map_values(|e: ((char, char), usize)| (e.0, e.1 as int)));
        }
        out
    }

    /// Picks, of all size-`k` subsets of the symbols, one that maximizes
    /// the combined border and adjacency score, or the empty subset when no
    /// size-`k` subset scores above zero.
    pub fn pick_subset_max_combined_adjacency(
        symbols: &Vec<char>,
        adjacency: &Vec<((char, char), usize)>,
        boundary: &Vec<(char, usize)>,
        k: usize,
    ) -> (r: Vec<char>)
        requires
            forall|i: int, j: int| 0 <= i < j < symbols@.len() ==> symbols@[i] != symbols@[j],
        ensures
            r@.len() == 0 || r@.len() == k as int,
            forall|i: int| 0 <= i < r@.len() ==> symbols@.contains(#[trigger] r@[i]),
            forall|i: int, j: int| 0 <= i < j < r@.len() ==> r@[i] != r@[j],
            r@.len() != 0 ==> combined_score(r@, adjacency@, boundary@) > 0,
            forall|ix: Seq<int>|
                #[trigger] is_index_selection(ix, 0, symbols@.len() as int) && ix.len() == k as int
                    ==> combined_score(symbols_at(symbols@, ix), adjacency@, boundary@) <= (if r@.len()
                    == 0 {
                    0int
                } else {
                    combined_score(r@, adjacency@, boundary@)
                }),
    {
        let combos = combos_from(symbols, 0, k);
        let mut best: Vec<char> = Vec::new();
        let mut best_score: usize = 0;
        let nc = combos.len();
        for ci in 0..nc
            invariant
                nc == combos@.len(),
                forall|c: int, i: int, j: int|
                    #![trigger combos@[c]@[i], combos@[c]@[j]]
                    0 <= c < combos@.len() && 0 <= i < j < combos@[c]@.len() ==> combos@[c]@[i]
                        != combos@[c]@[j],
                forall|c: int|
                    0 <= c < combos@.len() ==> (#[trigger] combos@[c])@.len() == k as int
                        && from_suffix(combos@[c]@, symbols@, 0),
                best@.len() == 0 || best@.len() == k as int,
                forall|i: int| 0 <= i < best@.len() ==> symbols@.contains(#[trigger] best@[i]),
                forall|i: int, j: int| 0 <= i < j < best@.len() ==> best@[i] != best@[j],
                (best@.len() == 0 && best_score == 0) || (best@.len() == k as int
                    && best_score as int == combined_score(best@, adjacency@, boundary@)
                    && best_score > 0),
                forall|c: int|
                    0 <= c < ci ==> combined_score((#[trigger] combos@[c])@, adjacency@, boundary@)
                        <= best_score as int,
        {
            let combo = &combos[ci];
            let total = score_of_combo(combo, adjacency, boundary);
            if total > best_score {
                best_score = total;
                best = copy_chars(combo);
                proof {
                    assert forall|i: int| 0 <= i < best@.len() implies symbols@.contains(
                        #[trigger] best@[i],
                    ) by {
                        assert(combo@.contains(combo@[i]));
                        let ix = choose|ix: int|
                            0 <= ix < symbols@.len() && symbols@[ix] == combo@[i];
                    }
                }
            }
        }
        proof {
            assert forall|ix: Seq<int>|
                #[trigger] is_index_selection(ix, 0, symbols@.len() as int) && ix.len()
                    == k as int implies combined_score(
                symbols_at(symbols@, ix),
                adjacency@,
                boundary@,
            ) <= (if best@.len() == 0 {
                0int
            } else {
                combined_score(best@, adjacency@, boundary@)
            }) by {
                assert(list_has_combo(combos@, symbols_at(symbols@, ix)));
                let c = choose|c: int|
                    0 <= c < combos@.len() && (#[trigger] combos@[c])@ == symbols_at(
                        symbols@,
                        ix,
                    );
                assert(combined_score(combos@[c]@, adjacency@, boundary@) <= best_score as int);
            }
        }
        best
    }

    /// Keeps only the listed piece symbols on a copy of the board: the cells
    /// of every other uppercase piece become empty, and every marker and
    /// blank cell stays as it was.
    pub fn create_hint_board(&self, keep_syms: &Vec<char>) -> (r: Board)
        requires
            self.wf(),
        ensures
            r.wf(),
            r@.width == self@.width,
            r@.height == self@.height,
            r@.blank == self@.blank,
            forall|x: int, y: int|
                self@.in_bounds(x, y) ==> #[trigger] r@.cell(x, y) == hint_cell(
                    self@,
                    keep_syms@,
                    x,
                    y,
                ),
    {
        let ghost m = self@;
        let mut grid: Vec<Vec<Option<char>>> = Vec::new();
        let height = self.height;
        let width = self.width;
        for y in 0..height
            invariant
                self.wf(),
                m == self@,
                height == m.height,
                width == m.width,
                grid@.len() == y,
                forall|y0: int|
                    0 <= y0 < y ==> (#[trigger] grid@[y0])@.len() == m.width,
                forall|x0: int, y0: int|
                    0 <= y0 < y && 0 <= x0 < m.width ==> (#[trigger] grid@[y0]@[x0]) == hint_cell(
                        m,
                        keep_syms@,
                        x0,
                        y0,
                    ),
        {
            let mut row: Vec<Option<char>> = Vec::new();
            for x in 0..width
                invariant
                    self.wf(),
                    m == self@,
                    height == m.height,
                    width == m.width,
                    y < height,
                    row@.len() == x,
                    forall|x0: int|
                        0 <= x0 < x ==> (#[trigger] row@[x0]) == hint_cell(
                            m,
                            keep_syms@,
                            x0,
                            y as int,
                        ),
            {
                proof {
                    assert(m.grid[y as int] == self.grid@[y as int]@);
                }
                let cellv = self.grid[y][x];
                let keep = match cellv {
                    Some(c) => {
                        let code = c as u32;
                        if code >= 65 && code <= 90 {
                            contains_char(keep_syms, c)
                        } else {
                            true
                        }
                    },
                    None => true,
                };
                if keep {
                    row.push(cellv);
                } else {
                    row.push(None);
                }
            }
            grid.push(row);
        }
        let r = Board { width: self.width, height: self.height, grid, blank: self.blank };
        proof {
            assert forall|x: int, y: int| m.in_bounds(x, y) implies #[trigger] r@.cell(x, y)
                == hint_cell(m, keep_syms@, x, y) by {
                assert(r@.grid[y] == r.grid@[y]@);
            }
            assert(r@.wf());
        }
        r
    }

    /// A hint board: the solved board reduced to `hint` pieces, chosen by
    /// the adjacency heuristic. Marker and blank cells are untouched, and a
    /// cell changes only from an uppercase piece symbol to empty.
    pub fn hint_pieces(&self, hint: usize) -> (r: Board)
        requires
            self.wf(),
        ensures
            r.wf(),
            r@.width == self@.width,
            r@.height == self@.height,
            r@.blank == self@.blank,
            forall|x: int, y: int|
                self@.in_bounds(x, y) ==> #[trigger] r@.cell(x, y) == self@.cell(x, y) || (
                #[trigger] r@.cell(x, y) is None && upper_cell(self@, x, y)),
            exists|kept: Seq<char>| kept.len() <= hint as int && kept_within(r@, kept),
    {
        let coords_map = self.collect_piece_coordinates();
        let adjacency = Board::build_piece_adjacency(&coords_map);
        let boundary = self.build_boundary_adjacency(&coords_map);
        let mut all_symbols: Vec<char> = Vec::new();
        let n = coords_map.len();
        for i in 0..n
            invariant
                n == coords_map@.len(),
                all_symbols@.len() == i,
                forall|j: int| 0 <= j < i ==> all_symbols@[j] == coords_map@[j].0,
                forall|i0: int, j0: int|
                    0 <= i0 < j0 < coords_map@.len() ==> coords_map@[i0].0 != coords_map@[j0].0,
        {
            all_symbols.push(coords_map[i].0);
        }
        let best_subset = Board::pick_subset_max_combined_adjacency(
            &all_symbols,
            &adjacency,
            &boundary,
            hint,
        );
        let r = self.create_hint_board(&best_subset);
        proof {
            assert forall|x: int, y: int| self@.in_bounds(x, y) implies #[trigger] r@.cell(x, y)
                == self@.cell(x, y) || (#[trigger] r@.cell(x, y) is None && upper_cell(
                self@,
                x,
                y,
            )) by {
                assert(r@.cell(x, y) == hint_cell(self@, best_subset@, x, y));
            }
            assert(kept_within(r@, best_subset@)) by {
                assert forall|x: int, y: int|
                    r@.in_bounds(x, y) implies match #[trigger] r@.cell(x, y) {
                    Some(c) => is_upper(c) ==> best_subset@.contains(c),
                    None => true,
                } by {
                    assert(r@.cell(x, y) == hint_cell(self@, best_subset@, x, y));
                }
            }
            assert(best_subset@.len() <= hint as int);
        }
        r
    }
}

/// Every uppercase symbol still on the board is one of the kept symbols, so
/// at most as many distinct pieces remain as the kept list holds.
pub open spec fn kept_within(m: BoardModel, kept: Seq<char>) -> bool {
    forall|x: int, y: int|
        m.in_bounds(x, y) ==> match #[trigger] m.cell(x, y) {
            Some(c) => is_upper(c) ==> kept.contains(c),
            None => true,
        }
}

/// What the hint board holds at each cell: uppercase piece cells whose
/// symbol is not kept become empty; everything else stays.
pub open spec fn hint_cell(m: BoardModel, keep: Seq<char>, x: int, y: int) -> Option<char> {
    match m.cell(x, y) {
        Some(c) => if is_upper(c) && !keep.contains(c) {
            None
        } else {
            Some(c)
        },
        None => None,
    }
}

/// Counts the touching cell pairs between two cell lists, saturating.
fn touch_cells(ca: &Vec<(usize, usize)>, cb: &Vec<(usize, usize)>) -> (r: usize)
    ensures
        r as int == touch_count_sat(ca@, cb@),
{
    let mut count: usize = 0;
    let n = ca.len();
    for k in 0..n
        invariant
            n == ca@.len(),
            count as int == touch_count_sat(ca@.take(k as int), cb@),
    {
        proof {
            assert(ca@.take(k + 1).drop_last() =~= ca@.take(k as int));
            assert(ca@.take(k + 1).last() == ca@[k as int]);
        }
        let (x, y) = ca[k];
        let mut touches: usize = 0;
        if x < usize::MAX && contains_coord(cb, (x + 1, y)) {
            touches = touches + 1;
        }
        if x > 0 && contains_coord(cb, (x - 1, y)) {
            touches = touches + 1;
        }
        if y < usize::MAX && contains_coord(cb, (x, y + 1)) {
            touches = touches + 1;
        }
        if y > 0 && contains_coord(cb, (x, y - 1)) {
            touches = touches + 1;
        }
        proof {
            assert(touches as int == cell_touch_count(cb@, ca@[k as int]));
        }
        count = count.saturating_add(touches);
    }
    proof {
        assert(ca@.take(n as int) =~= ca@);
    }
    count
}

/// True when the list holds the coordinate.
fn contains_coord(cs: &Vec<(usize, usize)>, c: (usize, usize)) -> (r: bool)
    ensures
        r <==> cs@.contains(c),
{
    let n = cs.len();
    for i in 0..n
        invariant
            n == cs@.len(),
            forall|j: int| 0 <= j < i ==> cs@[j] != c,
    {
        let (cx, cy) = cs[i];
        if cx == c.0 && cy == c.1 {
            proof {
                assert(cs@[i as int] == c);
            }
            return true;
        }
    }
    proof {
        if cs@.contains(c) {
            let j = choose|j: int| 0 <= j < cs@.len() && cs@[j] == c;
        }
    }
    false
}

/// True when the list holds the character.
fn contains_char(cs: &Vec<char>, c: char) -> (r: bool)
    ensures
        r <==> cs@.contains(c),
{
    let n = cs.len();
    for i in 0..n
        invariant
            n == cs@.len(),
            forall|j: int| 0 <= j < i ==> cs@[j] != c,
    {
        if cs[i] == c {
            proof {
                assert(cs@[i as int] == c);
            }
            return true;
        }
    }
    proof {
        if cs@.contains(c) {
            let j = choose|j: int| 0 <= j < cs@.len() && cs@[j] == c;
        }
    }
    false
}

/// The first boundary entry for the symbol at or after index `i`, or zero.
pub open spec fn boundary_of_from(boundary: Seq<(char, usize)>, c: char, i: int) -> int
    decreases boundary.len() - i,
{
    if i < 0 || i >= boundary.len() {
        0
    } else if boundary[i].0 == c {
        boundary[i].1 as int
    } else {
        boundary_of_from(boundary, c, i + 1)
    }
}

/// The boundary score recorded for a symbol, or zero where none is.
pub open spec fn boundary_of(boundary: Seq<(char, usize)>, c: char) -> int {
    boundary_of_from(boundary, c, 0)
}

/// The first adjacency entry for the key pair at or after index `i`, or
/// zero.
pub open spec fn adjacency_of_from(
    adjacency: Seq<((char, char), usize)>,
    a: char,
    b: char,
    i: int,
) -> int
    decreases adjacency.len() - i,
{
    if i < 0 || i >= adjacency.len() {
        0
    } else if adjacency[i].0.0 == a && adjacency[i].0.1 == b {
        adjacency[i].1 as int
    } else {
        adjacency_of_from(adjacency, a, b, i + 1)
    }
}

/// The adjacency count recorded for a pair of symbols, or zero where none
/// is.
pub open spec fn adjacency_of(adjacency: Seq<((char, char), usize)>, a: char, b: char) -> int {
    adjacency_of_from(adjacency, a, b, 0)
}

/// The sum of the boundary scores of the subset's first `t` symbols,
/// saturating.
pub open spec fn boundary_sum_upto(e: Seq<char>, boundary: Seq<(char, usize)>, t: int) -> int
    decreases t,
{
    if t <= 0 {
        0
    } else {
        usat(boundary_sum_upto(e, boundary, t - 1) + boundary_of(boundary, e[t - 1]))
    }
}

/// The sum of the adjacency counts over the subset's ordered pairs, taken in
/// the order the pair loops walk them, saturating; `acc` carries the sum so
/// far.
pub open spec fn pair_sum_from(
    e: Seq<char>,
    adjacency: Seq<((char, char), usize)>,
    acc: int,
    a: int,
    b: int,
) -> int
    decreases e.len() - a, e.len() - b + 1,
{
    if a < 0 || b <= a || a >= e.len() {
        acc
    } else if b >= e.len() {
        pair_sum_from(e, adjacency, acc, a + 1, a + 2)
    } else {
        pair_sum_from(e, adjacency, usat(acc + adjacency_of(adjacency, e[a], e[b])), a, b + 1)
    }
}

/// A recorded boundary score is never negative.
proof fn lemma_boundary_of_nonneg(boundary: Seq<(char, usize)>, c: char, i: int)
    ensures
        boundary_of_from(boundary, c, i) >= 0,
    decreases boundary.len() - i,
{
    if 0 <= i && i < boundary.len() && boundary[i].0 != c {
        lemma_boundary_of_nonneg(boundary, c, i + 1);
    }
}

/// A recorded adjacency count is never negative.
proof fn lemma_adjacency_of_nonneg(
    adjacency: Seq<((char, char), usize)>,
    a: char,
    b: char,
    i: int,
)
    ensures
        adjacency_of_from(adjacency, a, b, i) >= 0,
    decreases adjacency.len() - i,
{
    if 0 <= i && i < adjacency.len() && !(adjacency[i].0.0 == a && adjacency[i].0.1 == b) {
        lemma_adjacency_of_nonneg(adjacency, a, b, i + 1);
    }
}

/// A boundary sum is never negative.
proof fn lemma_boundary_sum_nonneg(e: Seq<char>, boundary: Seq<(char, usize)>, t: int)
    ensures
        boundary_sum_upto(e, boundary, t) >= 0,
    decreases t,
{
    if t > 0 {
        lemma_boundary_sum_nonneg(e, boundary, t - 1);
        lemma_boundary_of_nonneg(boundary, e[t - 1], 0);
    }
}

/// A pair sum never falls below what it starts from.
proof fn lemma_pair_sum_lower(
    e: Seq<char>,
    adjacency: Seq<((char, char), usize)>,
    acc: int,
    a: int,
    b: int,
)
    requires
        0 <= acc <= usize::MAX as int,
    ensures
        pair_sum_from(e, adjacency, acc, a, b) >= 0,
    decreases e.len() - a, e.len() - b + 1,
{
    if !(a < 0 || b <= a || a >= e.len()) {
        if b >= e.len() {
            lemma_pair_sum_lower(e, adjacency, acc, a + 1, a + 2);
        } else {
            lemma_adjacency_of_nonneg(adjacency, e[a], e[b], 0);
            lemma_pair_sum_lower(
                e,
                adjacency,
                usat(acc + adjacency_of(adjacency, e[a], e[b])),
                a,
                b + 1,
            );
        }
    }
}

/// A combined score is never negative: a board whose best subset scores
/// zero keeps no pieces, and then every subset scores exactly zero.
pub proof fn lemma_combined_score_nonneg(
    e: Seq<char>,
    adjacency: Seq<((char, char), usize)>,
    boundary: Seq<(char, usize)>,
)
    ensures
        combined_score(e, adjacency, boundary) >= 0,
{
    lemma_boundary_sum_nonneg(e, boundary, e.len() as int);
    lemma_pair_sum_lower(e, adjacency, 0, 0, 1);
}

/// The combined border and adjacency score of a subset, saturating.
pub open spec fn combined_score(
    e: Seq<char>,
    adjacency: Seq<((char, char), usize)>,
    boundary: Seq<(char, usize)>,
) -> int {
    usat(boundary_sum_upto(e, boundary, e.len() as int) + pair_sum_from(e, adjacency, 0, 0, 1))
}

/// The boundary score recorded for a symbol, or zero where none is.
fn lookup_boundary(boundary: &Vec<(char, usize)>, c: char) -> (r: usize)
    ensures
        r as int == boundary_of(boundary@, c),
{
    let n = boundary.len();
    for i in 0..n
        invariant
            n == boundary@.len(),
            boundary_of(boundary@, c) == boundary_of_from(boundary@, c, i as int),
    {
        if boundary[i].0 == c {
            return boundary[i].1;
        }
    }
    0
}

/// The adjacency count recorded for a pair of symbols, or zero where none
/// is.
fn lookup_adjacency(adjacency: &Vec<((char, char), usize)>, a: char, b: char) -> (r: usize)
    ensures
        r as int == adjacency_of(adjacency@, a, b),
{
    let n = adjacency.len();
    for i in 0..n
        invariant
            n == adjacency@.len(),
            adjacency_of(adjacency@, a, b) == adjacency_of_from(adjacency@, a, b, i as int),
    {
        if adjacency[i].0.0 == a && adjacency[i].0.1 == b {
            return adjacency[i].1;
        }
    }
    0
}

/// Computes the combined border and adjacency score of one subset.
fn score_of_combo(
    combo: &Vec<char>,
    adjacency: &Vec<((char, char), usize)>,
    boundary: &Vec<(char, usize)>,
) -> (r: usize)
    ensures
        r as int == combined_score(combo@, adjacency@, boundary@),
{
    let cl = combo.len();
    let mut bsum: usize = 0;
    for t in 0..cl
        invariant
            cl == combo@.len(),
            bsum as int == boundary_sum_upto(combo@, boundary@, t as int),
    {
        bsum = bsum.saturating_add(lookup_boundary(boundary, combo[t]));
    }
    let ghost total = pair_sum_from(combo@, adjacency@, 0, 0, 1);
    let mut psum: usize = 0;
    let mut ai: usize = 0;
    while ai < cl
        invariant
            cl == combo@.len(),
            ai <= cl,
            total == pair_sum_from(combo@, adjacency@, psum as int, ai as int, ai + 1),
        decreases cl - ai,
    {
        let mut bi = ai + 1;
        while bi < cl
            invariant
                cl == combo@.len(),
                ai < cl,
                ai < bi,
                total == pair_sum_from(combo@, adjacency@, psum as int, ai as int, bi as int),
            decreases cl - bi,
        {
            psum = psum.saturating_add(lookup_adjacency(adjacency, combo[ai], combo[bi]));
            bi = bi + 1;
        }
        ai = ai + 1;
    }
    proof {
        assert(total == psum as int);
    }
    bsum.saturating_add(psum)
}

/// Copies a character list.
fn copy_chars(cs: &Vec<char>) -> (r: Vec<char>)
    ensures
        r@ == cs@,
{
    let mut out: Vec<char> = Vec::new();
    let n = cs.len();
    for i in 0..n
        invariant
            n == cs@.len(),
            out@.len() == i,
            forall|j: int| 0 <= j < i ==> out@[j] == cs@[j],
    {
        out.push(cs[i]);
    }
    proof {
        assert(out@ =~= cs@);
    }
    out
}

/// A strictly ascending choice of symbol positions within `[lo, hi)`.
pub open spec fn is_index_selection(ix: Seq<int>, lo: int, hi: int) -> bool {
    &&& (forall|t: int| 0 <= t < ix.len() ==> lo <= #[trigger] ix[t] && ix[t] < hi)
    &&& (forall|t1: int, t2: int|
        #![trigger ix[t1], ix[t2]]
        0 <= t1 < t2 < ix.len() ==> ix[t1] < ix[t2])
}

/// The symbols at the chosen positions.
pub open spec fn symbols_at(symbols: Seq<char>, ix: Seq<int>) -> Seq<char> {
    ix.map_values(|t: int| symbols[t])
}

/// The list holds a combination with exactly these symbols.
pub open spec fn list_has_combo(r: Seq<Vec<char>>, e: Seq<char>) -> bool {
    exists|c: int| 0 <= c < r.len() && (#[trigger] r[c])@ == e
}

/// A grown list still holds every combination the shorter one held.
proof fn lemma_list_has_preserved(r0: Seq<Vec<char>>, r1: Seq<Vec<char>>)
    requires
        r1.len() >= r0.len(),
        forall|c: int| 0 <= c < r0.len() ==> r1[c] == r0[c],
    ensures
        forall|e: Seq<char>| #[trigger] list_has_combo(r0, e) ==> list_has_combo(r1, e),
{
    assert forall|e: Seq<char>| #[trigger] list_has_combo(r0, e) implies list_has_combo(
        r1,
        e,
    ) by {
        let c = choose|c: int| 0 <= c < r0.len() && (#[trigger] r0[c])@ == e;
        assert(r1[c]@ == e);
    }
}

/// All subsets of size `k` drawn from the symbols at or after `start`, each
/// listed in ascending index order: every ascending choice of `k` positions
/// appears.
fn combos_from(symbols: &Vec<char>, start: usize, k: usize) -> (r: Vec<Vec<char>>)
    requires
        forall|i: int, j: int| 0 <= i < j < symbols@.len() ==> symbols@[i] != symbols@[j],
        start <= symbols@.len(),
    ensures
        forall|c: int|
            0 <= c < r@.len() ==> (#[trigger] r@[c])@.len() == k as int && from_suffix(
                r@[c]@,
                symbols@,
                start as int,
            ),
        forall|c: int, i: int, j: int|
            #![trigger r@[c]@[i], r@[c]@[j]]
            0 <= c < r@.len() && 0 <= i < j < r@[c]@.len() ==> r@[c]@[i] != r@[c]@[j],
        forall|ix: Seq<int>|
            #[trigger] is_index_selection(ix, start as int, symbols@.len() as int) && ix.len()
                == k as int ==> list_has_combo(r@, symbols_at(symbols@, ix)),
    decreases k,
{
    let mut out: Vec<Vec<char>> = Vec::new();
    if k == 0 {
        let empty_combo: Vec<char> = Vec::new();
        out.push(empty_combo);
        proof {
            assert forall|ix: Seq<int>|
                #[trigger] is_index_selection(ix, start as int, symbols@.len() as int) && ix.len()
                    == 0 implies list_has_combo(out@, symbols_at(symbols@, ix)) by {
                assert(out@[0]@ =~= symbols_at(symbols@, ix));
            }
        }
        return out;
    }
    let n = symbols.len();
    let mut i = start;
    while i < n
        invariant
            n == symbols@.len(),
            start <= i,
            forall|i0: int, j0: int| 0 <= i0 < j0 < symbols@.len() ==> symbols@[i0] != symbols@[j0],
            forall|c: int|
                0 <= c < out@.len() ==> (#[trigger] out@[c])@.len() == k as int && from_suffix(
                    out@[c]@,
                    symbols@,
                    start as int,
                ),
            forall|c: int, i0: int, j0: int|
                #![trigger out@[c]@[i0], out@[c]@[j0]]
                0 <= c < out@.len() && 0 <= i0 < j0 < out@[c]@.len() ==> out@[c]@[i0]
                    != out@[c]@[j0],
            forall|ix: Seq<int>|
                #[trigger] is_index_selection(ix, start as int, n as int) && ix.len() == k as int
                    && ix[0] < i as int ==> list_has_combo(out@, symbols_at(symbols@, ix)),
            k >= 1,
        decreases n - i,
    {
        let mut subs = combos_from(symbols, i + 1, k - 1);
        let ghost subs0 = subs@;
        proof {
            assert(subs0.take(subs0.len() as int) =~= subs0);
        }
        while subs.len() > 0
            invariant
                n == symbols@.len(),
                start <= i < n,
                k >= 1,
                forall|i0: int, j0: int|
                    0 <= i0 < j0 < symbols@.len() ==> symbols@[i0] != symbols@[j0],
                forall|c: int|
                    0 <= c < subs@.len() ==> (#[trigger] subs@[c])@.len() == k - 1 && from_suffix(
                        subs@[c]@,
                        symbols@,
                        i + 1,
                    ),
                forall|c: int, i0: int, j0: int|
                    #![trigger subs@[c]@[i0], subs@[c]@[j0]]
                    0 <= c < subs@.len() && 0 <= i0 < j0 < subs@[c]@.len() ==> subs@[c]@[i0]
                        != subs@[c]@[j0],
                forall|c: int|
                    0 <= c < out@.len() ==> (#[trigger] out@[c])@.len() == k as int && from_suffix(
                        out@[c]@,
                        symbols@,
                        start as int,
                    ),
                forall|c: int, i0: int, j0: int|
                    #![trigger out@[c]@[i0], out@[c]@[j0]]
                    0 <= c < out@.len() && 0 <= i0 < j0 < out@[c]@.len() ==> out@[c]@[i0]
                        != out@[c]@[j0],
                subs@.len() <= subs0.len(),
                subs@ == subs0.take(subs@.len() as int),
                forall|ix: Seq<int>|
                    #[trigger] is_index_selection(ix, i + 1, n as int) && ix.len() == k - 1
                        ==> list_has_combo(subs0, symbols_at(symbols@, ix)),
                forall|j: int|
                    subs@.len() <= j < subs0.len() ==> list_has_combo(
                        out@,
                        seq![symbols@[i as int]] + (#[trigger] subs0[j])@,
                    ),
                forall|ix: Seq<int>|
                    #[trigger] is_index_selection(ix, start as int, n as int) && ix.len()
                        == k as int && ix[0] < i as int ==> list_has_combo(
                        out@,
                        symbols_at(symbols@, ix),
                    ),
            decreases subs@.len(),
        {
            let ghost out_before = out@;
            let ghost pre = subs@;
            let popped = subs.pop();
            let mut sub = match popped {
                Some(q) => q,
                None => unreached(),
            };
            proof {
                assert(pre == subs0.take(pre.len() as int));
                assert forall|m: int| 0 <= m < subs@.len() implies subs@[m] == subs0[m] by {
                    assert(pre[m] == subs0[m]);
                }
                assert(subs@ =~= subs0.take(subs@.len() as int));
                assert(sub == pre[pre.len() - 1]);
                assert(sub == subs0[subs@.len() as int]);
            }
            let ghost subv = sub@;
            let mut combo: Vec<char> = Vec::new();
            combo.push(symbols[i]);
            combo.append(&mut sub);
            proof {
                assert(combo@ =~= seq![symbols@[i as int]] + subv);
                assert forall|t: char| #[trigger] combo@.contains(t) implies exists|ix: int|
                    start <= ix < symbols@.len() && symbols@[ix] == t by {
                    let p = choose|p: int| 0 <= p < combo@.len() && combo@[p] == t;
                    if p == 0 {
                        assert(symbols@[i as int] == t);
                    } else {
                        assert(subv.contains(t)) by {
                            assert(subv[p - 1] == t);
                        }
                        let ix = choose|ix: int|
                            i + 1 <= ix < symbols@.len() && symbols@[ix] == t;
                    }
                }
                assert forall|i0: int, j0: int| 0 <= i0 < j0 < combo@.len() implies combo@[i0]
                    != combo@[j0] by {
                    if i0 == 0 {
                        assert(subv.contains(combo@[j0])) by {
                            assert(subv[j0 - 1] == combo@[j0]);
                        }
                        let ix = choose|ix: int|
                            i + 1 <= ix < symbols@.len() && symbols@[ix] == combo@[j0];
                        assert(symbols@[i as int] != symbols@[ix]);
                    }
                }
            }
            out.push(combo);
            proof {
                lemma_list_has_preserved(out_before, out@);
                assert forall|j: int|
                    subs@.len() <= j < subs0.len() implies list_has_combo(
                    out@,
                    seq![symbols@[i as int]] + (#[trigger] subs0[j])@,
                ) by {
                    if j == subs@.len() {
                        assert(out@[out@.len() - 1]@ == seq![symbols@[i as int]] + subs0[j]@);
                    } else {
                        assert(list_has_combo(
                            out_before,
                            seq![symbols@[i as int]] + subs0[j]@,
                        ));
                    }
                }
            }
        }
        proof {
            assert forall|ix: Seq<int>|
                #[trigger] is_index_selection(ix, start as int, n as int) && ix.len() == k as int
                    && ix[0] < i + 1 implies list_has_combo(out@, symbols_at(symbols@, ix)) by {
                if ix[0] < i as int {
                    assert(list_has_combo(out@, symbols_at(symbols@, ix)));
                } else {
                    assert(ix[0] == i as int);
                    let ixt = ix.drop_first();
                    assert(is_index_selection(ixt, i + 1, n as int)) by {
                        assert forall|t: int| 0 <= t < ixt.len() implies i + 1 <= #[trigger] ixt[t]
                            && ixt[t] < n as int by {
                            assert(ixt[t] == ix[t + 1]);
                            assert(ix[0] < ix[t + 1]);
                        }
                        assert forall|t1: int, t2: int|
                            #![trigger ixt[t1], ixt[t2]]
                            0 <= t1 < t2 < ixt.len() implies ixt[t1] < ixt[t2] by {
                            assert(ix[t1 + 1] < ix[t2 + 1]);
                        }
                    }
                    assert(ixt.len() == k - 1);
                    assert(list_has_combo(subs0, symbols_at(symbols@, ixt)));
                    let c0 = choose|c0: int|
                        0 <= c0 < subs0.len() && (#[trigger] subs0[c0])@ == symbols_at(
                            symbols@,
                            ixt,
                        );
                    assert(list_has_combo(out@, seq![symbols@[i as int]] + subs0[c0]@));
                    assert(seq![symbols@[i as int]] + subs0[c0]@ =~= symbols_at(symbols@, ix)) by {
                        assert forall|t: int|
                            0 <= t < ix.len() implies (seq![symbols@[i as int]] + subs0[c0]@)[t]
                            == symbols_at(symbols@, ix)[t] by {
                            if t > 0 {
                                assert(subs0[c0]@[t - 1] == symbols_at(symbols@, ixt)[t - 1]);
                                assert(symbols_at(symbols@, ixt)[t - 1] == symbols@[ixt[t - 1]]);
                                assert(ixt[t - 1] == ix[t]);
                            }
                        }
                    }
                    let cw = choose|cw: int|
                        0 <= cw < out@.len() && (#[trigger] out@[cw])@ == seq![
                            symbols@[i as int],
                        ] + subs0[c0]@;
                    assert(out@[cw]@ == symbols_at(symbols@, ix));
                }
            }
        }
        i = i + 1;
    }
    proof {
        assert forall|ix: Seq<int>|
            #[trigger] is_index_selection(ix, start as int, symbols@.len() as int) && ix.len()
                == k as int implies list_has_combo(out@, symbols_at(symbols@, ix)) by {
            assert(ix.len() >= 1);
            assert(start as int <= ix[0] && ix[0] < n as int);
        }
    }
    out
}

/// The index of the entry carrying the symbol, if one exists.
fn find_symbol(entries: &Vec<(char, Vec<(usize, usize)>)>, sym: char) -> (r: Option<usize>)
    ensures
        (match r {
            Some(i) => i < entries@.len() && entries@[i as int].0 == sym,
            None => forall|i: int| 0 <= i < entries@.len() ==> (#[trigger] entries@[i]).0 != sym,
        }),
{
    let n = entries.len();
    for i in 0..n
        invariant
            n == entries@.len(),
            forall|j: int| 0 <= j < i ==> (#[trigger] entries@[j]).0 != sym,
    {
        if entries[i].0 == sym {
            return Some(i);
        }
    }
    None
}

/// Appending one cell to the right entry preserves the collector's facts
/// and records the cell.
proof fn lemma_collect_step(
    m: BoardModel,
    out0: Seq<(char, Vec<(usize, usize)>)>,
    out1: Seq<(char, Vec<(usize, usize)>)>,
    idx: int,
    sym: char,
    x: int,
    y: int,
)
    requires
        0 <= idx < out0.len(),
        out0[idx].0 == sym,
        out1.len() == out0.len(),
        forall|i: int| 0 <= i < out0.len() && i != idx ==> out1[i] == out0[i],
        out1[idx].0 == sym,
        out1[idx].1@ == out0[idx].1@.push((x as usize, y as usize)),
        m.in_bounds(x, y),
        m.cell(x, y) == Some(sym),
        0 <= x,
        0 <= y,
    ensures
        forall|i: int, k: int|
            0 <= i < out1.len() && 0 <= k < out1[i].1@.len() ==> ((#[trigger] out1[i].1@[k]) == (
            (x as usize, y as usize)) && i == idx && k == out0[i].1@.len()) || (0 <= k
                < out0[i].1@.len() && out1[i].1@[k] == out0[i].1@[k]),
        out1[idx].1@.contains((x as usize, y as usize)),
        forall|i: int, c: (usize, usize)|
            0 <= i < out0.len() && #[trigger] out0[i].1@.contains(c) ==> #[trigger] out1[
                i].1@.contains(c),
{
    assert(out1[idx].1@[out0[idx].1@.len() as int] == ((x as usize, y as usize)));
    assert forall|i: int, c: (usize, usize)|
        0 <= i < out0.len() && #[trigger] out0[i].1@.contains(c) implies #[trigger] out1[
        i].1@.contains(c) by {
        let k = choose|k: int| 0 <= k < out0[i].1@.len() && out0[i].1@[k] == c;
        assert(out1[i].1@[k] == c);
    }
}

/// Appending a fresh entry preserves the collector's facts and records the
/// cell under its new symbol.
proof fn lemma_collect_new(
    m: BoardModel,
    out0: Seq<(char, Vec<(usize, usize)>)>,
    out1: Seq<(char, Vec<(usize, usize)>)>,
    sym: char,
    x: int,
    y: int,
)
    requires
        out1.len() == out0.len() + 1,
        forall|i: int| 0 <= i < out0.len() ==> out1[i] == out0[i],
        out1[out0.len() as int].0 == sym,
        out1[out0.len() as int].1@ == seq![(x as usize, y as usize)],
        0 <= x,
        0 <= y,
    ensures
        out1[out0.len() as int].1@.contains((x as usize, y as usize)),
        forall|i: int, c: (usize, usize)|
            0 <= i < out0.len() && #[trigger] out0[i].1@.contains(c) ==> #[trigger] out1[
                i].1@.contains(c),
{
    assert(out1[out0.len() as int].1@[0] == ((x as usize, y as usize)));
}

} // verus!
