//! Connected blank regions of a board: 4-directional reachability over empty
//! cells, the region of a cell, and the facts the flood-fill scan rests on.

use vstd::prelude::*;

use crate::board::BoardModel;

verus! {

/// True when the cell lies on the board and is empty.
pub open spec fn blank_at(m: BoardModel, c: (int, int)) -> bool {
    m.in_bounds(c.0, c.1) && !m.occupied(c.0, c.1)
}

/// True when the two cells share an edge (no diagonals).
pub open spec fn adjacent(a: (int, int), b: (int, int)) -> bool {
    ||| (a.0 == b.0 && (a.1 == b.1 + 1 || a.1 + 1 == b.1))
    ||| (a.1 == b.1 && (a.0 == b.0 + 1 || a.0 + 1 == b.0))
}

/// A nonempty walk over blank cells, each step to an edge neighbour.
pub open spec fn is_blank_path(m: BoardModel, p: Seq<(int, int)>) -> bool {
    &&& p.len() >= 1
    &&& (forall|i: int| 0 <= i < p.len() ==> blank_at(m, #[trigger] p[i]))
    &&& (forall|i: int| 0 <= i < p.len() - 1 ==> adjacent(#[trigger] p[i], p[i + 1]))
}

/// True when a walk over blank cells leads from `a` to `b`.
pub open spec fn reaches(m: BoardModel, a: (int, int), b: (int, int)) -> bool {
    exists|p: Seq<(int, int)>| is_blank_path(m, p) && p.first() == a && p.last() == b
}

/// The maximal connected blank region around a cell.
pub open spec fn region(m: BoardModel, c: (int, int)) -> Set<(int, int)> {
    Set::new(|d: (int, int)| reaches(m, c, d))
}

/// The number of cells in the region around a cell.
pub open spec fn region_size(m: BoardModel, c: (int, int)) -> nat {
    region(m, c).len()
}

/// All cells of the board.
pub open spec fn board_cells(m: BoardModel) -> Set<(int, int)> {
    Set::new(|c: (int, int)| m.in_bounds(c.0, c.1))
}

/// All blank cells of the board.
pub open spec fn blank_cells(m: BoardModel) -> Set<(int, int)> {
    Set::new(|c: (int, int)| blank_at(m, c))
}

/// The number of blank cells on the board.
pub open spec fn blank_count(m: BoardModel) -> nat {
    blank_cells(m).len()
}

/// Two disjoint finite sets unite into a finite set of summed size.
pub proof fn lemma_len_disjoint_union<A>(a: Set<A>, b: Set<A>)
    requires
        a.finite(),
        b.finite(),
        a.disjoint(b),
    ensures
        a.union(b).finite(),
        a.union(b).len() == a.len() + b.len(),
    decreases b.len(),
{
    if b.len() == 0 {
        b.lemma_len0_is_empty();
        assert(a.union(b) =~= a);
    } else {
        let x = b.choose();
        assert(b.contains(x));
        let b1 = b.remove(x);
        assert(a.disjoint(b1));
        lemma_len_disjoint_union(a, b1);
        assert(a.union(b) =~= a.union(b1).insert(x));
        assert(!a.union(b1).contains(x));
    }
}

/// A finite set with a member has at least one element.
pub proof fn lemma_member_means_nonempty<A>(s: Set<A>, x: A)
    requires
        s.finite(),
        s.contains(x),
    ensures
        s.len() >= 1,
{
    if s.len() == 0 {
        s.lemma_len0_is_empty();
    }
}

/// A set of cells no blank walk can leave: every blank neighbour of a member
/// is a member.
pub open spec fn closed_under_adjacency(m: BoardModel, s: Set<(int, int)>) -> bool {
    forall|c: (int, int), n: (int, int)|
        s.contains(c) && adjacent(c, n) && blank_at(m, n) ==> #[trigger] s.contains(n) || !(
        #[trigger] adjacent(c, n))
}

/// True when `n` is the size of some blank region of the board.
pub open spec fn is_region_size(m: BoardModel, n: nat) -> bool {
    exists|c: (int, int)| #[trigger] blank_at(m, c) && n == region_size(m, c)
}

/// The board has some blank region whose size is not a multiple of `d`.
pub open spec fn has_bad_region(m: BoardModel, d: int) -> bool {
    exists|c: (int, int)| #[trigger] blank_at(m, c) && region_size(m, c) as int % d != 0
}

/// The cells of all the listed tiles together.
pub open spec fn union_of(tiles: Seq<Set<(int, int)>>) -> Set<(int, int)>
    decreases tiles.len(),
{
    if tiles.len() == 0 {
        Set::empty()
    } else {
        union_of(tiles.drop_last()).union(tiles.last())
    }
}

/// A cell lies in the union exactly when some tile holds it.
pub proof fn lemma_union_of_members(tiles: Seq<Set<(int, int)>>, x: (int, int))
    ensures
        union_of(tiles).contains(x) <==> exists|i: int|
            0 <= i < tiles.len() && (#[trigger] tiles[i]).contains(x),
    decreases tiles.len(),
{
    if tiles.len() > 0 {
        lemma_union_of_members(tiles.drop_last(), x);
        if union_of(tiles).contains(x) {
            if tiles.last().contains(x) {
                assert(tiles[tiles.len() - 1].contains(x));
            } else {
                let i = choose|i: int|
                    0 <= i < tiles.drop_last().len() && (#[trigger] tiles.drop_last()[
                    i]).contains(x);
                assert(tiles[i].contains(x));
            }
        }
        if exists|i: int| 0 <= i < tiles.len() && (#[trigger] tiles[i]).contains(x) {
            let i = choose|i: int| 0 <= i < tiles.len() && (#[trigger] tiles[i]).contains(x);
            if i < tiles.len() - 1 {
                assert(tiles.drop_last()[i].contains(x));
            }
        }
    }
}

/// A set met by whole tiles only: counting the union inside it goes up in
/// steps of the tile size, so the part of the set the tiles cover has a
/// size the tile size divides.
proof fn lemma_tile_count(s: Set<(int, int)>, tiles: Seq<Set<(int, int)>>, d: int)
    requires
        d > 0,
        forall|i: int|
            0 <= i < tiles.len() ==> (#[trigger] tiles[i]).finite() && tiles[i].len() == d,
        forall|i: int, j: int| 0 <= i < j < tiles.len() ==> tiles[i].disjoint(tiles[j]),
        forall|i: int|
            0 <= i < tiles.len() ==> (#[trigger] tiles[i]).subset_of(s) || tiles[i].disjoint(s),
    ensures
        s.intersect(union_of(tiles)).finite(),
        s.intersect(union_of(tiles)).len() as int % d == 0,
    decreases tiles.len(),
{
    if tiles.len() == 0 {
        assert(s.intersect(union_of(tiles)) =~= Set::<(int, int)>::empty());
    } else {
        let init = tiles.drop_last();
        let last = tiles.last();
        assert(forall|i: int| 0 <= i < init.len() ==> init[i] == tiles[i]);
        lemma_tile_count(s, init, d);
        let a = s.intersect(union_of(init));
        let b = s.intersect(last);
        assert(s.intersect(union_of(tiles)) =~= a.union(b));
        assert(a.disjoint(b)) by {
            assert forall|x: (int, int)| a.contains(x) implies !b.contains(x) by {
                if b.contains(x) {
                    lemma_union_of_members(init, x);
                    let i = choose|i: int|
                        0 <= i < init.len() && (#[trigger] init[i]).contains(x);
                    assert(tiles[i].disjoint(tiles[tiles.len() - 1]));
                }
            }
        }
        if last.subset_of(s) {
            assert(b =~= tiles[tiles.len() - 1]);
            lemma_len_disjoint_union(a, b);
            assert((a.len() + d) % d == a.len() as int % d) by (nonlinear_arith)
                requires
                    d > 0,
                    a.len() >= 0,
            ;
        } else {
            assert(last.disjoint(s));
            assert(b =~= Set::<(int, int)>::empty());
            lemma_len_disjoint_union(a, b);
        }
    }
}

/// Pocket pruning is sound: a board whose blank cells admit an exact cover
/// by tiles of `d` cells each, the cells of each tile mutually reachable
/// over blank cells, has no blank region whose size `d` does not divide —
/// so the pruning predicate never discards such a board.
pub proof fn lemma_pocket_pruning_sound(m: BoardModel, d: int, tiles: Seq<Set<(int, int)>>)
    requires
        m.wf(),
        d > 0,
        forall|i: int|
            0 <= i < tiles.len() ==> (#[trigger] tiles[i]).finite() && tiles[i].len() == d,
        forall|i: int, j: int| 0 <= i < j < tiles.len() ==> tiles[i].disjoint(tiles[j]),
        forall|i: int, t: (int, int), u: (int, int)|
            #![trigger tiles[i].contains(t), tiles[i].contains(u)]
            0 <= i < tiles.len() && tiles[i].contains(t) && tiles[i].contains(u) ==> reaches(
                m,
                t,
                u,
            ),
        union_of(tiles) == blank_cells(m),
    ensures
        !has_bad_region(m, d),
{
    assert forall|c: (int, int)| #[trigger] blank_at(m, c) implies region_size(m, c) as int % d
        == 0 by {
        let r = region(m, c);
        assert forall|i: int|
            0 <= i < tiles.len() implies (#[trigger] tiles[i]).subset_of(r) || tiles[i].disjoint(
            r,
        ) by {
            if !tiles[i].disjoint(r) {
                let t = choose|t: (int, int)| tiles[i].contains(t) && r.contains(t);
                assert forall|u: (int, int)| tiles[i].contains(u) implies r.contains(u) by {
                    assert(reaches(m, t, u));
                    lemma_reaches_trans(m, c, t, u);
                }
            }
        }
        lemma_tile_count(r, tiles, d);
        assert(r.intersect(union_of(tiles)) =~= r) by {
            assert forall|x: (int, int)| r.contains(x) implies union_of(tiles).contains(x) by {
                lemma_reaches_blank(m, c, x);
                assert(blank_cells(m).contains(x));
            }
        }
    }
}

/// A blank cell reaches itself.
pub proof fn lemma_reaches_refl(m: BoardModel, c: (int, int))
    requires
        blank_at(m, c),
    ensures
        reaches(m, c, c),
{
    let p = seq![c];
    assert(is_blank_path(m, p) && p.first() == c && p.last() == c);
}

/// A walk extends by one step to a blank neighbour.
pub proof fn lemma_reaches_step(m: BoardModel, a: (int, int), b: (int, int), n: (int, int))
    requires
        reaches(m, a, b),
        adjacent(b, n),
        blank_at(m, n),
    ensures
        reaches(m, a, n),
{
    let p = choose|p: Seq<(int, int)>| is_blank_path(m, p) && p.first() == a && p.last() == b;
    let q = p.push(n);
    assert(q.last() == n);
    assert(q.first() == a);
    assert forall|i: int| 0 <= i < q.len() - 1 implies adjacent(#[trigger] q[i], q[i + 1]) by {
        if i < p.len() - 1 {
            assert(q[i] == p[i] && q[i + 1] == p[i + 1]);
        } else {
            assert(q[i] == p.last() && q[i + 1] == n);
        }
    }
    assert(is_blank_path(m, q));
}

/// Both ends of a walk are blank.
pub proof fn lemma_reaches_blank(m: BoardModel, a: (int, int), b: (int, int))
    requires
        reaches(m, a, b),
    ensures
        blank_at(m, a),
        blank_at(m, b),
{
    let p = choose|p: Seq<(int, int)>| is_blank_path(m, p) && p.first() == a && p.last() == b;
    assert(blank_at(m, p[0]));
    assert(blank_at(m, p[p.len() - 1]));
}

/// Reachability is symmetric: walks reverse.
pub proof fn lemma_reaches_symm(m: BoardModel, a: (int, int), b: (int, int))
    requires
        reaches(m, a, b),
    ensures
        reaches(m, b, a),
{
    let p = choose|p: Seq<(int, int)>| is_blank_path(m, p) && p.first() == a && p.last() == b;
    let n = p.len();
    let q = Seq::new(p.len(), |i: int| p[n - 1 - i]);
    assert(q.first() == b);
    assert(q.last() == a);
    assert forall|i: int| 0 <= i < q.len() - 1 implies adjacent(#[trigger] q[i], q[i + 1]) by {
        assert(adjacent(p[n - 2 - i], p[n - 1 - i]));
        assert(q[i] == p[n - 1 - i] && q[i + 1] == p[n - 2 - i]);
    }
    assert(is_blank_path(m, q));
}

/// Reachability is transitive: walks join.
pub proof fn lemma_reaches_trans(m: BoardModel, a: (int, int), b: (int, int), c: (int, int))
    requires
        reaches(m, a, b),
        reaches(m, b, c),
    ensures
        reaches(m, a, c),
{
    let p = choose|p: Seq<(int, int)>| is_blank_path(m, p) && p.first() == a && p.last() == b;
    let q = choose|q: Seq<(int, int)>| is_blank_path(m, q) && q.first() == b && q.last() == c;
    let r = p + q.drop_first();
    assert(r.first() == a);
    if q.len() == 1 {
        assert(r =~= p);
    } else {
        assert(r.last() == q.last());
        assert forall|i: int| 0 <= i < r.len() - 1 implies adjacent(#[trigger] r[i], r[i + 1]) by {
            if i < p.len() - 1 {
                assert(r[i] == p[i] && r[i + 1] == p[i + 1]);
            } else if i == p.len() - 1 {
                assert(r[i] == p.last() && r[i + 1] == q[1]);
                assert(adjacent(q[0], q[1]));
            } else {
                let j = i - p.len();
                assert(r[i] == q[j + 1] && r[i + 1] == q[j + 2]);
                assert(adjacent(q[j + 1], q[j + 2]));
            }
        }
        assert forall|i: int| 0 <= i < r.len() implies blank_at(m, #[trigger] r[i]) by {
            if i < p.len() {
                assert(r[i] == p[i]);
            } else {
                assert(r[i] == q[i - p.len() + 1]);
            }
        }
        assert(is_blank_path(m, r));
    }
}

/// Cells of one region have the same region.
pub proof fn lemma_region_same(m: BoardModel, a: (int, int), b: (int, int))
    requires
        reaches(m, a, b),
    ensures
        region(m, a) == region(m, b),
{
    assert forall|d: (int, int)| region(m, a).contains(d) implies region(m, b).contains(d) by {
        lemma_reaches_symm(m, a, b);
        lemma_reaches_trans(m, b, a, d);
    }
    assert forall|d: (int, int)| region(m, b).contains(d) implies region(m, a).contains(d) by {
        lemma_reaches_trans(m, a, b, d);
    }
    assert(region(m, a) =~= region(m, b));
}

/// A closed set holds the whole endpoint of any walk that starts inside it.
proof fn lemma_path_stays(m: BoardModel, s: Set<(int, int)>, p: Seq<(int, int)>)
    requires
        closed_under_adjacency(m, s),
        is_blank_path(m, p),
        s.contains(p.first()),
    ensures
        s.contains(p.last()),
    decreases p.len(),
{
    if p.len() > 1 {
        let q = p.drop_last();
        assert(is_blank_path(m, q));
        lemma_path_stays(m, s, q);
        assert(adjacent(p[p.len() - 2], p[p.len() - 1]));
        assert(blank_at(m, p.last()));
    }
}

/// A closed set that holds a cell holds the cell's whole region.
pub proof fn lemma_closed_contains_region(m: BoardModel, s: Set<(int, int)>, c: (int, int))
    requires
        closed_under_adjacency(m, s),
        s.contains(c),
    ensures
        region(m, c).subset_of(s),
{
    assert forall|d: (int, int)| region(m, c).contains(d) implies s.contains(d) by {
        let p = choose|p: Seq<(int, int)>| is_blank_path(m, p) && p.first() == c && p.last() == d;
        lemma_path_stays(m, s, p);
    }
}

/// A closed set that misses a blank cell misses the cell's whole region.
pub proof fn lemma_closed_misses_region(m: BoardModel, s: Set<(int, int)>, c: (int, int))
    requires
        closed_under_adjacency(m, s),
        !s.contains(c),
    ensures
        region(m, c).disjoint(s),
{
    assert forall|d: (int, int)| region(m, c).contains(d) implies !s.contains(d) by {
        if s.contains(d) {
            lemma_reaches_symm(m, c, d);
            let p = choose|p: Seq<(int, int)>|
                is_blank_path(m, p) && p.first() == d && p.last() == c;
            lemma_path_stays(m, s, p);
        }
    }
}

/// One row of cells is a finite set of at most `width` cells.
proof fn lemma_row_finite(width: int, y: int)
    requires
        width >= 0,
    ensures
        Set::new(|c: (int, int)| 0 <= c.0 < width && c.1 == y).finite(),
        Set::new(|c: (int, int)| 0 <= c.0 < width && c.1 == y).len() <= width,
    decreases width,
{
    let row = Set::new(|c: (int, int)| 0 <= c.0 < width && c.1 == y);
    if width == 0 {
        assert(row =~= Set::<(int, int)>::empty());
    } else {
        lemma_row_finite(width - 1, y);
        let prev = Set::new(|c: (int, int)| 0 <= c.0 < width - 1 && c.1 == y);
        assert(row =~= prev.insert((width - 1, y)));
    }
}

/// The cells of the first `h` rows form a finite set of at most `width * h`
/// cells.
proof fn lemma_rows_finite(width: int, h: int)
    requires
        width >= 0,
        h >= 0,
    ensures
        Set::new(|c: (int, int)| 0 <= c.0 < width && 0 <= c.1 < h).finite(),
        Set::new(|c: (int, int)| 0 <= c.0 < width && 0 <= c.1 < h).len() <= width * h,
    decreases h,
{
    let cells = Set::new(|c: (int, int)| 0 <= c.0 < width && 0 <= c.1 < h);
    if h == 0 {
        assert(cells =~= Set::<(int, int)>::empty());
    } else {
        lemma_rows_finite(width, h - 1);
        lemma_row_finite(width, h - 1);
        let prev = Set::new(|c: (int, int)| 0 <= c.0 < width && 0 <= c.1 < h - 1);
        let row = Set::new(|c: (int, int)| 0 <= c.0 < width && c.1 == h - 1);
        assert(cells =~= prev.union(row));
        vstd::set_lib::lemma_len_union::<(int, int)>(prev, row);
        assert(width * (h - 1) + width == width * h) by (nonlinear_arith);
    }
}

/// The board's cells form a finite set of at most `width * height` cells.
pub proof fn lemma_board_cells_finite(m: BoardModel)
    requires
        m.wf(),
    ensures
        board_cells(m).finite(),
        board_cells(m).len() <= m.width * m.height,
{
    lemma_rows_finite(m.width, m.height);
    assert(board_cells(m) =~= Set::new(
        |c: (int, int)| 0 <= c.0 < m.width && 0 <= c.1 < m.height,
    ));
}

/// A region is a finite set of at most `width * height` cells.
pub proof fn lemma_region_finite(m: BoardModel, c: (int, int))
    requires
        m.wf(),
    ensures
        region(m, c).finite(),
        region(m, c).len() <= m.width * m.height,
{
    lemma_board_cells_finite(m);
    assert forall|d: (int, int)| region(m, c).contains(d) implies board_cells(m).contains(d) by {
        lemma_reaches_blank(m, c, d);
    }
    vstd::set_lib::lemma_len_subset::<(int, int)>(region(m, c), board_cells(m));
}

} // verus!
