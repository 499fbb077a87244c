//! Piece geometry: rotation and mirror transforms, precomputed orientation
//! variants, and placement descriptors.

use vstd::prelude::*;

use crate::board::{anchor_on_board, fits, Board};

verus! {

/// Largest magnitude allowed for a shape offset. Shapes are tiny in practice;
/// the bound keeps every derived coordinate well inside `i32`.
pub const MAX_OFFSET: i32 = 1000000;

/// The four quarter-turn orientations of a piece.
#[derive(Debug, Clone, Copy, PartialEq, Eq, Structural)]
pub enum Rotation {
    Zero,
    Ninety,
    OneEighty,
    TwoSeventy,
}

/// An absolute or relative grid coordinate.
pub type Coordinates = (i32, i32);

/// One candidate orientation and anchor position for a piece.
#[derive(Debug, Clone, Copy, PartialEq, Eq, Structural)]
pub struct Placement {
    pub rotation: Rotation,
    pub flipped: bool,
    pub x: i32,
    pub y: i32,
}

impl Placement {
    /// Bundles an orientation and an anchor coordinate into a placement.
    pub fn new(rotation: Rotation, flipped: bool, coordinates: Coordinates) -> (r: Self)
        ensures
            r.rotation == rotation,
            r.flipped == flipped,
            r.x == coordinates.0,
            r.y == coordinates.1,
    {
        Placement { rotation, flipped, x: coordinates.0, y: coordinates.1 }
    }
}

/// One cell offset, rotated a quarter turn clockwise.
pub open spec fn rot_cw(c: (int, int)) -> (int, int) {
    (c.1, -c.0)
}

/// One cell offset, mirrored across the vertical axis.
pub open spec fn mirror(c: (int, int)) -> (int, int) {
    (-c.0, c.1)
}

/// A whole shape, rotated a quarter turn clockwise.
pub open spec fn rot_cw_seq(s: Seq<(int, int)>) -> Seq<(int, int)> {
    s.map_values(|c: (int, int)| rot_cw(c))
}

/// A whole shape, mirrored across the vertical axis.
pub open spec fn mirror_seq(s: Seq<(int, int)>) -> Seq<(int, int)> {
    s.map_values(|c: (int, int)| mirror(c))
}

/// The mathematical view of an executable offset list.
pub open spec fn view_coords(s: Seq<(i32, i32)>) -> Seq<(int, int)> {
    s.map_values(|c: (i32, i32)| (c.0 as int, c.1 as int))
}

/// A shape in the orientation selected by `rotation` and `flipped`:
/// the base shape rotated clockwise zero to three times, then mirrored
/// if `flipped` is set.
pub open spec fn oriented(s: Seq<(int, int)>, rotation: Rotation, flipped: bool) -> Seq<
    (int, int),
> {
    let rotated = match rotation {
        Rotation::Zero => s,
        Rotation::Ninety => rot_cw_seq(s),
        Rotation::OneEighty => rot_cw_seq(rot_cw_seq(s)),
        Rotation::TwoSeventy => rot_cw_seq(rot_cw_seq(rot_cw_seq(s))),
    };
    if flipped {
        mirror_seq(rotated)
    } else {
        rotated
    }
}

/// True when every coordinate of the offset stays within `MAX_OFFSET`.
pub open spec fn offset_bounded(c: (int, int)) -> bool {
    -(MAX_OFFSET as int) <= c.0 <= MAX_OFFSET as int && -(MAX_OFFSET as int) <= c.1
        <= MAX_OFFSET as int
}

/// True when every offset of the shape stays within `MAX_OFFSET`.
pub open spec fn shape_bounded(s: Seq<(int, int)>) -> bool {
    forall|i: int| 0 <= i < s.len() ==> offset_bounded(#[trigger] s[i])
}

/// A true color, used only for display.
#[derive(Debug, Clone, Copy, PartialEq, Eq, Structural)]
pub struct Rgb {
    pub r: u8,
    pub g: u8,
    pub b: u8,
}

/// A polyomino piece: an identity symbol, cosmetic display attributes, the
/// mirror permission, and the precomputed orientation variants of its shape.
#[derive(Debug, Clone)]
pub struct Piece {
    pub display_symbol: char,
    pub symbol: char,
    pub color: Rgb,
    pub bg: Rgb,
    pub flippable: bool,
    pub rotations: Vec<Vec<Coordinates>>,
    pub rotations_flipped: Option<Vec<Vec<Coordinates>>>,
    pub allowed_placements: Vec<Placement>,
}

impl Piece {
    /// The shape the piece was constructed from, as offsets.
    pub open spec fn base_shape(self) -> Seq<(int, int)> {
        view_coords(self.rotations[0]@)
    }

    /// The cached variant for the given orientation.
    pub open spec fn shape_at(self, rotation: Rotation, flipped: bool) -> Seq<(int, int)> {
        let idx = rot_index(rotation);
        if flipped {
            match self.rotations_flipped {
                Some(v) => view_coords(v[idx]@),
                None => Seq::empty(),
            }
        } else {
            view_coords(self.rotations[idx]@)
        }
    }

    /// The cached candidate placements (empty until they are precomputed).
    pub open spec fn allowed(self) -> Seq<Placement> {
        self.allowed_placements@
    }

    /// No cached placement mirrors a piece that may not be mirrored.
    pub open spec fn allowed_ok(self) -> bool {
        forall|j: int|
            0 <= j < self.allowed().len() ==> ((#[trigger] self.allowed()[j]).flipped
                ==> self.flippable)
    }

    /// Geometric well-formedness: the variant table holds exactly the four
    /// rotations of a nonempty bounded base shape, with the four mirrored
    /// rotations beside them iff the piece is flippable.
    pub open spec fn wf(self) -> bool {
        &&& self.rotations@.len() == 4
        &&& self.base_shape().len() >= 1
        &&& shape_bounded(self.base_shape())
        &&& (forall|r: Rotation|
            view_coords(self.rotations@[rot_index(r)]@) == oriented(self.base_shape(), r, false))
        &&& (self.rotations_flipped is Some <==> self.flippable)
        &&& (self.flippable ==> match self.rotations_flipped {
            Some(v) => v@.len() == 4 && forall|r: Rotation|
                view_coords(v@[rot_index(r)]@) == oriented(self.base_shape(), r, true),
            None => false,
        })
    }

    /// Every cached variant is the base shape in the chosen orientation.
    pub proof fn lemma_shape_at(self, rotation: Rotation, flipped: bool)
        requires
            self.wf(),
            flipped ==> self.flippable,
        ensures
            self.shape_at(rotation, flipped) == oriented(self.base_shape(), rotation, flipped),
    {
    }
}

impl Piece {
    /// Creates a new piece with all orientation variants precomputed.
    /// A shape must hold at least one cell; degenerate shapes are rejected
    /// before construction, so this constructor demands a nonempty list.
    pub fn new(
        symbol: char,
        shape: Vec<Coordinates>,
        color: (u8, u8, u8),
        bg: (u8, u8, u8),
        flippable: bool,
    ) -> (r: Piece)
        requires
            shape@.len() >= 1,
            shape_bounded(view_coords(shape@)),
        ensures
            r.wf(),
            r.symbol == symbol,
            r.display_symbol == symbol,
            r.color == (Rgb { r: color.0, g: color.1, b: color.2 }),
            r.bg == (Rgb { r: bg.0, g: bg.1, b: bg.2 }),
            r.flippable == flippable,
            r.base_shape() == view_coords(shape@),
            r.allowed() == Seq::<Placement>::empty(),
            r.allowed_ok(),
    {
        let ghost base = view_coords(shape@);
        let r1 = rotate_coords(&shape);
        let r2 = rotate_coords(&r1);
        let r3 = rotate_coords(&r2);
        let mut rotations: Vec<Vec<Coordinates>> = Vec::new();
        let rotations_flipped: Option<Vec<Vec<Coordinates>>> = if flippable {
            let mut fl: Vec<Vec<Coordinates>> = Vec::new();
            fl.push(mirror_coords(&shape));
            fl.push(mirror_coords(&r1));
            fl.push(mirror_coords(&r2));
            fl.push(mirror_coords(&r3));
            Some(fl)
        } else {
            None
        };
        rotations.push(shape);
        rotations.push(r1);
        rotations.push(r2);
        rotations.push(r3);
        let r = Piece {
            display_symbol: symbol,
            symbol,
            color: Rgb { r: color.0, g: color.1, b: color.2 },
            bg: Rgb { r: bg.0, g: bg.1, b: bg.2 },
            flippable,
            rotations,
            rotations_flipped,
            allowed_placements: Vec::new(),
        };
        proof {
            assert forall|rot: Rotation|
                view_coords(r.rotations@[rot_index(rot)]@) == oriented(base, rot, false) by {
                lemma_oriented_unfold(base, rot);
            }
            if flippable {
                assert forall|rot: Rotation|
                    view_coords(r.rotations_flipped.unwrap()@[rot_index(rot)]@) == oriented(
                        base,
                        rot,
                        true,
                    ) by {
                    lemma_oriented_unfold(base, rot);
                }
            }
        }
        r
    }

    /// Returns the cached shape variant for the given orientation.
    /// Asking for the mirrored variant of a piece that may not be mirrored
    /// is a caller error.
    pub fn get_shape(&self, rotation: Rotation, flipped: bool) -> (r: &Vec<Coordinates>)
        requires
            self.wf(),
            flipped ==> self.flippable,
        ensures
            view_coords(r@) == self.shape_at(rotation, flipped),
            view_coords(r@) == oriented(self.base_shape(), rotation, flipped),
    {
        proof {
            self.lemma_shape_at(rotation, flipped);
        }
        let index: usize = match rotation {
            Rotation::Zero => 0,
            Rotation::Ninety => 1,
            Rotation::OneEighty => 2,
            Rotation::TwoSeventy => 3,
        };
        if flipped {
            match &self.rotations_flipped {
                Some(v) => &v[index],
                None => unreached(),
            }
        } else {
            &self.rotations[index]
        }
    }

    /// Computes the bounding dimensions of a shape variant: one past the
    /// largest x and y offsets, or zero where no offset is positive.
    pub fn get_dimensions_of_shape(&self, rotation: Rotation, flipped: bool) -> (r: (i32, i32))
        requires
            self.wf(),
            flipped ==> self.flippable,
        ensures
            (r.0 as int, r.1 as int) == shape_dims(self.shape_at(rotation, flipped)),
    {
        proof {
            self.lemma_shape_at(rotation, flipped);
            lemma_oriented_bounded(self.base_shape(), rotation, flipped);
        }
        let shape = self.get_shape(rotation, flipped);
        let ghost sv = view_coords(shape@);
        let mut mx: i32 = 0;
        let mut my: i32 = 0;
        let n = shape.len();
        for i in 0..n
            invariant
                n == shape@.len(),
                sv == view_coords(shape@),
                shape_bounded(sv),
                (mx as int, my as int) == shape_dims(sv.take(i as int)),
                0 <= mx <= MAX_OFFSET as int + 1,
                0 <= my <= MAX_OFFSET as int + 1,
        {
            proof {
                assert(sv.take(i + 1).drop_last() =~= sv.take(i as int));
                assert(sv.take(i + 1).last() == sv[i as int]);
                assert(offset_bounded(sv[i as int]));
            }
            let (x, y) = shape[i];
            if x + 1 > mx {
                mx = x + 1;
            }
            if y + 1 > my {
                my = y + 1;
            }
        }
        proof {
            assert(sv.take(n as int) =~= sv);
        }
        (mx, my)
    }

    /// Changes the symbol shown for this piece without changing its identity.
    pub fn display_as(&mut self, symbol: char)
        ensures
            *final(self) == (Piece { display_symbol: symbol, ..*old(self) }),
    {
        self.display_symbol = symbol;
    }

    /// Precomputes and caches the candidate placements of this piece against
    /// the given board: every combination of rotation, permitted mirroring,
    /// and anchor on the board whose covered cells are free. The cache is a
    /// candidate list; the search revalidates against the current board.
    pub fn precompute_allowed_placements(&mut self, board: &Board)
        requires
            old(self).wf(),
            board.wf(),
        ensures
            final(self).wf(),
            *final(self) == (Piece {
                allowed_placements: final(self).allowed_placements,
                ..*old(self)
            }),
            forall|p: Placement|
                (#[trigger] final(self).allowed().contains(p)) <==> anchor_on_board(board@, p)
                    && fits(board@, *old(self), p),
            forall|j: int, k: int|
                0 <= j < k < final(self).allowed().len() ==> final(self).allowed()[j] != final(
                    self).allowed()[k],
            final(self).allowed_ok(),
    {
        let mut all: Vec<Placement> = Vec::new();
        for ri in 0..4usize
            invariant
                old(self).wf(),
                board.wf(),
                *self == *old(self),
                forall|j: int|
                    0 <= j < all@.len() ==> anchor_on_board(board@, #[trigger] all@[j]) && fits(
                        board@,
                        *old(self),
                        all@[j],
                    ) && rot_index(all@[j].rotation) < ri,
                forall|p: Placement|
                    (anchor_on_board(board@, p) && fits(board@, *old(self), p) && rot_index(
                        p.rotation,
                    ) < ri) ==> #[trigger] all@.contains(p),
                forall|j: int, k: int| 0 <= j < k < all@.len() ==> all@[j] != all@[k],
        {
            let rotation = if ri == 0 {
                Rotation::Zero
            } else if ri == 1 {
                Rotation::Ninety
            } else if ri == 2 {
                Rotation::OneEighty
            } else {
                Rotation::TwoSeventy
            };
            proof {
                assert(rot_index(rotation) == ri as int);
            }
            let ghost all0 = all@;
            let mut batch = anchors_for(self, board, rotation, false);
            let ghost b0 = batch@;
            all.append(&mut batch);
            proof {
                lemma_append_contains(all0, b0);
            }
            let ghost all1 = all@;
            let ghost mut b1 = Seq::<Placement>::empty();
            if self.flippable {
                let mut batch_f = anchors_for(self, board, rotation, true);
                proof {
                    b1 = batch_f@;
                }
                all.append(&mut batch_f);
                proof {
                    lemma_append_contains(all1, b1);
                }
            }
            proof {
                assert forall|p: Placement|
                    (anchor_on_board(board@, p) && fits(board@, *old(self), p) && rot_index(
                        p.rotation,
                    ) < ri + 1) implies #[trigger] all@.contains(p) by {
                    if rot_index(p.rotation) < ri as int {
                        assert(all0.contains(p));
                        let i = choose|i: int| 0 <= i < all0.len() && all0[i] == p;
                        assert(all@[i] == p);
                    } else {
                        assert(p.rotation == rotation);
                        if p.flipped {
                            assert(self.flippable);
                            assert(b1.contains(p));
                            assert(all@.contains(p));
                        } else {
                            assert(b0.contains(p));
                            let i = choose|i: int| 0 <= i < b0.len() && b0[i] == p;
                            assert(all1[all0.len() + i] == p);
                            if self.flippable {
                                assert(all@[all0.len() + i] == p);
                            }
                        }
                    }
                }
            }
        }
        proof {
            assert forall|p: Placement|
                anchor_on_board(board@, p) && fits(board@, *old(self), p) implies #[trigger] all@.contains(p) by {
                assert(rot_index(p.rotation) < 4);
            }
            assert forall|p: Placement| all@.contains(p) implies anchor_on_board(board@, p)
                && fits(board@, *old(self), p) by {
                let i = choose|i: int| 0 <= i < all@.len() && all@[i] == p;
            }
        }
        self.allowed_placements = all;
    }

    /// Returns the cached candidate placements.
    pub fn get_allowed_placements(&self) -> (r: &Vec<Placement>)
        ensures
            r@ == self.allowed(),
    {
        &self.allowed_placements
    }
}

/// The bounding dimensions of a shape: one past its largest x and y
/// offsets, at least zero.
pub open spec fn shape_dims(s: Seq<(int, int)>) -> (int, int)
    decreases s.len(),
{
    if s.len() == 0 {
        (0, 0)
    } else {
        let p = shape_dims(s.drop_last());
        let l = s.last();
        (
            if p.0 >= l.0 + 1 {
                p.0
            } else {
                l.0 + 1
            },
            if p.1 >= l.1 + 1 {
                p.1
            } else {
                l.1 + 1
            },
        )
    }
}

/// A quarter turn of a bounded shape is bounded.
proof fn lemma_rot_bounded(s: Seq<(int, int)>)
    requires
        shape_bounded(s),
    ensures
        shape_bounded(rot_cw_seq(s)),
{
    assert forall|i: int| 0 <= i < rot_cw_seq(s).len() implies offset_bounded(
        #[trigger] rot_cw_seq(s)[i],
    ) by {
        assert(offset_bounded(s[i]));
    }
}

/// A mirror image of a bounded shape is bounded.
proof fn lemma_mirror_bounded(s: Seq<(int, int)>)
    requires
        shape_bounded(s),
    ensures
        shape_bounded(mirror_seq(s)),
{
    assert forall|i: int| 0 <= i < mirror_seq(s).len() implies offset_bounded(
        #[trigger] mirror_seq(s)[i],
    ) by {
        assert(offset_bounded(s[i]));
    }
}

/// Every orientation of a bounded shape is bounded.
pub proof fn lemma_oriented_bounded(s: Seq<(int, int)>, rotation: Rotation, flipped: bool)
    requires
        shape_bounded(s),
    ensures
        shape_bounded(oriented(s, rotation, flipped)),
{
    lemma_rot_bounded(s);
    lemma_rot_bounded(rot_cw_seq(s));
    lemma_rot_bounded(rot_cw_seq(rot_cw_seq(s)));
    match rotation {
        Rotation::Zero => {
            if flipped {
                lemma_mirror_bounded(s);
            }
        },
        Rotation::Ninety => {
            if flipped {
                lemma_mirror_bounded(rot_cw_seq(s));
            }
        },
        Rotation::OneEighty => {
            if flipped {
                lemma_mirror_bounded(rot_cw_seq(rot_cw_seq(s)));
            }
        },
        Rotation::TwoSeventy => {
            if flipped {
                lemma_mirror_bounded(rot_cw_seq(rot_cw_seq(rot_cw_seq(s))));
            }
        },
    }
}

/// Pushing an element makes it a member and keeps every earlier member.
proof fn lemma_push_contains<T>(s: Seq<T>, e: T)
    ensures
        forall|p: T| #[trigger] s.push(e).contains(p) <==> s.contains(p) || p == e,
{
    assert forall|p: T| #[trigger] s.push(e).contains(p) <==> s.contains(p) || p == e by {
        if s.push(e).contains(p) {
            let i = choose|i: int| 0 <= i < s.push(e).len() && s.push(e)[i] == p;
            if i < s.len() {
                assert(s[i] == p);
            }
        }
        if s.contains(p) {
            let i = choose|i: int| 0 <= i < s.len() && s[i] == p;
            assert(s.push(e)[i] == p);
        }
        assert(s.push(e)[s.len() as int] == e);
    }
}

/// Membership in a concatenation is membership in either part.
proof fn lemma_append_contains<T>(a: Seq<T>, b: Seq<T>)
    ensures
        forall|p: T| #[trigger] (a + b).contains(p) <==> a.contains(p) || b.contains(p),
{
    assert forall|p: T| #[trigger] (a + b).contains(p) <==> a.contains(p) || b.contains(p) by {
        if (a + b).contains(p) {
            let i = choose|i: int| 0 <= i < (a + b).len() && (a + b)[i] == p;
            if i < a.len() {
                assert(a[i] == p);
            } else {
                assert(b[i - a.len()] == p);
            }
        }
        if a.contains(p) {
            let i = choose|i: int| 0 <= i < a.len() && a[i] == p;
            assert((a + b)[i] == p);
        }
        if b.contains(p) {
            let i = choose|i: int| 0 <= i < b.len() && b[i] == p;
            assert((a + b)[a.len() + i] == p);
        }
    }
}

/// Enumerates, in row-major anchor order, every placement of the piece with
/// the given orientation whose anchor lies on the board and whose cells are
/// free.
fn anchors_for(piece: &Piece, board: &Board, rotation: Rotation, flipped: bool) -> (r: Vec<
    Placement,
>)
    requires
        piece.wf(),
        board.wf(),
        flipped ==> piece.flippable,
    ensures
        forall|j: int|
            0 <= j < r@.len() ==> (#[trigger] r@[j]).rotation == rotation && r@[j].flipped
                == flipped && anchor_on_board(board@, r@[j]) && fits(board@, *piece, r@[j]),
        forall|p: Placement|
            (p.rotation == rotation && p.flipped == flipped && anchor_on_board(board@, p) && fits(
                board@,
                *piece,
                p,
            )) ==> #[trigger] r@.contains(p),
        forall|j: int, k: int| 0 <= j < k < r@.len() ==> r@[j] != r@[k],
{
    let mut out: Vec<Placement> = Vec::new();
    let h = board.height;
    let w = board.width;
    for yy in 0..h
        invariant
            piece.wf(),
            board.wf(),
            flipped ==> piece.flippable,
            h == board@.height,
            w == board@.width,
            forall|j: int|
                0 <= j < out@.len() ==> (#[trigger] out@[j]).rotation == rotation
                    && out@[j].flipped == flipped && anchor_on_board(board@, out@[j]) && fits(
                    board@,
                    *piece,
                    out@[j],
                ) && (out@[j].y as int) < yy,
            forall|p: Placement|
                (p.rotation == rotation && p.flipped == flipped && anchor_on_board(board@, p)
                    && fits(board@, *piece, p) && (p.y as int) < yy) ==> #[trigger] out@.contains(p),
            forall|j: int, k: int| 0 <= j < k < out@.len() ==> out@[j] != out@[k],
    {
        for xx in 0..w
            invariant
                piece.wf(),
                board.wf(),
                flipped ==> piece.flippable,
                h == board@.height,
                w == board@.width,
                yy < h,
                forall|j: int|
                    0 <= j < out@.len() ==> (#[trigger] out@[j]).rotation == rotation
                        && out@[j].flipped == flipped && anchor_on_board(board@, out@[j]) && fits(
                        board@,
                        *piece,
                        out@[j],
                    ) && ((out@[j].y as int) < yy || (out@[j].y as int == yy && (out@[j].x as int)
                        < xx)),
                forall|p: Placement|
                    (p.rotation == rotation && p.flipped == flipped && anchor_on_board(board@, p)
                        && fits(board@, *piece, p) && ((p.y as int) < yy || (p.y as int == yy && (
                    p.x as int) < xx))) ==> #[trigger] out@.contains(p),
                forall|j: int, k: int| 0 <= j < k < out@.len() ==> out@[j] != out@[k],
        {
            let pl = Placement {
                rotation,
                flipped,
                x: xx as i32,
                y: yy as i32,
            };
            let ghost out0 = out@;
            let legal = board.can_place_piece(piece, pl).is_ok();
            if legal {
                out.push(pl);
            }
            proof {
                lemma_push_contains(out0, pl);
                assert forall|p: Placement|
                    (p.rotation == rotation && p.flipped == flipped && anchor_on_board(board@, p)
                        && fits(board@, *piece, p) && ((p.y as int) < yy || (p.y as int == yy && (
                    p.x as int) < xx + 1))) implies #[trigger] out@.contains(p) by {
                    if p.y as int == yy && p.x as int == xx {
                        assert(p == pl);
                        assert(legal);
                    }
                }
            }
        }
    }
    out
}

/// A shape rotated a quarter turn clockwise, offset by offset.
fn rotate_coords(shape: &Vec<Coordinates>) -> (r: Vec<Coordinates>)
    requires
        shape_bounded(view_coords(shape@)),
    ensures
        view_coords(r@) == rot_cw_seq(view_coords(shape@)),
        shape_bounded(view_coords(r@)),
        r@.len() == shape@.len(),
{
    let mut out: Vec<Coordinates> = Vec::new();
    let n = shape.len();
    for i in 0..n
        invariant
            n == shape@.len(),
            shape_bounded(view_coords(shape@)),
            out@.len() == i,
            forall|j: int|
                0 <= j < i ==> (#[trigger] out@[j]).0 as int == shape@[j].1 as int && out@[j].1
                    as int == -(shape@[j].0 as int),
    {
        let (x, y) = shape[i];
        assert(offset_bounded(view_coords(shape@)[i as int]));
        out.push((y, -x));
    }
    proof {
        assert forall|j: int| 0 <= j < n implies view_coords(out@)[j] == rot_cw(
            view_coords(shape@)[j],
        ) by {}
        assert(view_coords(out@) =~= rot_cw_seq(view_coords(shape@)));
        assert forall|j: int| 0 <= j < n implies offset_bounded(
            #[trigger] view_coords(out@)[j],
        ) by {
            assert(offset_bounded(view_coords(shape@)[j]));
        }
    }
    out
}

/// A shape mirrored across the vertical axis, offset by offset.
fn mirror_coords(shape: &Vec<Coordinates>) -> (r: Vec<Coordinates>)
    requires
        shape_bounded(view_coords(shape@)),
    ensures
        view_coords(r@) == mirror_seq(view_coords(shape@)),
        shape_bounded(view_coords(r@)),
        r@.len() == shape@.len(),
{
    let mut out: Vec<Coordinates> = Vec::new();
    let n = shape.len();
    for i in 0..n
        invariant
            n == shape@.len(),
            shape_bounded(view_coords(shape@)),
            out@.len() == i,
            forall|j: int|
                0 <= j < i ==> (#[trigger] out@[j]).0 as int == -(shape@[j].0 as int) && out@[j].1
                    as int == shape@[j].1 as int,
    {
        let (x, y) = shape[i];
        assert(offset_bounded(view_coords(shape@)[i as int]));
        out.push((-x, y));
    }
    proof {
        assert forall|j: int| 0 <= j < n implies view_coords(out@)[j] == mirror(
            view_coords(shape@)[j],
        ) by {}
        assert(view_coords(out@) =~= mirror_seq(view_coords(shape@)));
        assert forall|j: int| 0 <= j < n implies offset_bounded(
            #[trigger] view_coords(out@)[j],
        ) by {
            assert(offset_bounded(view_coords(shape@)[j]));
        }
    }
    out
}

/// Spells out each orientation as iterated quarter turns, so that variant
/// tables built by repeated single turns match `oriented`.
proof fn lemma_oriented_unfold(s: Seq<(int, int)>, rotation: Rotation)
    ensures
        oriented(s, rotation, false) == match rotation {
            Rotation::Zero => s,
            Rotation::Ninety => rot_cw_seq(s),
            Rotation::OneEighty => rot_cw_seq(rot_cw_seq(s)),
            Rotation::TwoSeventy => rot_cw_seq(rot_cw_seq(rot_cw_seq(s))),
        },
        oriented(s, rotation, true) == mirror_seq(oriented(s, rotation, false)),
{
}

/// The row of the variant table that holds the given rotation.
pub open spec fn rot_index(rotation: Rotation) -> int {
    match rotation {
        Rotation::Zero => 0,
        Rotation::Ninety => 1,
        Rotation::OneEighty => 2,
        Rotation::TwoSeventy => 3,
    }
}

/// Rotating a shape four times by a quarter turn yields the original shape,
/// offset for offset.
pub proof fn lemma_rotation_closure(s: Seq<(int, int)>)
    ensures
        rot_cw_seq(rot_cw_seq(rot_cw_seq(rot_cw_seq(s)))) == s,
{
    let r4 = rot_cw_seq(rot_cw_seq(rot_cw_seq(rot_cw_seq(s))));
    assert forall|i: int| 0 <= i < s.len() implies r4[i] == s[i] by {
        assert(rot_cw(rot_cw(rot_cw(rot_cw(s[i])))) == s[i]);
    }
    assert(r4 =~= s);
}

/// Mirroring a shape and then rotating the mirrored shape four times
/// returns the mirrored shape itself.
pub proof fn lemma_mirror_rotation_closure(s: Seq<(int, int)>)
    ensures
        rot_cw_seq(rot_cw_seq(rot_cw_seq(rot_cw_seq(mirror_seq(s))))) == mirror_seq(s),
{
    lemma_rotation_closure(mirror_seq(s));
}

} // verus!
