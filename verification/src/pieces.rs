//! The fixed piece catalogue: the ten movable pieces of the calendar
//! puzzle and the four single-cell marker pieces.

use vstd::prelude::*;

use crate::board::{anchor_on_board, fits, Board};
use crate::piece::{shape_bounded, view_coords, Coordinates, Piece, Placement};

verus! {

/// The identity symbol of the movable piece at each catalogue position.
pub open spec fn default_symbol(k: int) -> char {
    if k == 0 {
        'F'
    } else if k == 1 {
        'T'
    } else if k == 2 {
        'U'
    } else if k == 3 {
        'Z'
    } else if k == 4 {
        'L'
    } else if k == 5 {
        'V'
    } else if k == 6 {
        'N'
    } else if k == 7 {
        'Y'
    } else if k == 8 {
        'P'
    } else {
        'I'
    }
}

/// The base shape of the movable piece at each catalogue position.
pub open spec fn default_shape(k: int) -> Seq<(int, int)> {
    if k == 0 {
        seq![(0, 0), (1, 0), (1, 1), (1, 2), (2, 1)]
    } else if k == 1 {
        seq![(0, 0), (1, 0), (2, 0), (1, 1), (1, 2)]
    } else if k == 2 {
        seq![(0, 0), (1, 0), (0, 1), (0, 2), (1, 2)]
    } else if k == 3 {
        seq![(0, 0), (1, 0), (1, 1), (1, 2), (2, 2)]
    } else if k == 4 {
        seq![(0, 0), (1, 0), (2, 0), (3, 0), (0, 1)]
    } else if k == 5 {
        seq![(0, 0), (0, 1), (0, 2), (1, 2), (2, 2)]
    } else if k == 6 {
        seq![(0, 0), (0, 1), (1, 1), (1, 2), (1, 3)]
    } else if k == 7 {
        seq![(0, 0), (1, 0), (2, 0), (3, 0), (1, 1)]
    } else if k == 8 {
        seq![(0, 0), (0, 1), (1, 1), (0, 2), (1, 2)]
    } else {
        seq![(0, 0), (1, 0), (2, 0), (3, 0), (4, 0)]
    }
}

/// The catalogue position of a movable piece symbol; meaningful only for
/// the ten movable symbols.
pub open spec fn movable_index(symbol: char) -> int {
    if symbol == 'F' {
        0
    } else if symbol == 'T' {
        1
    } else if symbol == 'U' {
        2
    } else if symbol == 'Z' {
        3
    } else if symbol == 'L' {
        4
    } else if symbol == 'V' {
        5
    } else if symbol == 'N' {
        6
    } else if symbol == 'Y' {
        7
    } else if symbol == 'P' {
        8
    } else {
        9
    }
}

/// What the catalogue hands out for a symbol: for a movable symbol, a
/// mirrorable piece with that catalogue position's shape; for a marker
/// symbol, the single-cell marker. The placement cache starts empty.
pub open spec fn catalog_piece(p: Piece, symbol: char) -> bool {
    &&& p.wf()
    &&& p.symbol == symbol
    &&& p.allowed() == Seq::<Placement>::empty()
    &&& (if symbol == 'm' || symbol == 'd' || symbol == 'w' || symbol == 'x' {
        marker_piece(p, symbol)
    } else {
        p.flippable && p.base_shape() == default_shape(movable_index(symbol))
    })
}

/// The symbols the catalogue knows: the ten movable pieces and the four
/// single-cell markers.
pub open spec fn is_catalog_symbol(c: char) -> bool {
    ||| c == 'F'
    ||| c == 'T'
    ||| c == 'U'
    ||| c == 'Z'
    ||| c == 'L'
    ||| c == 'V'
    ||| c == 'N'
    ||| c == 'Y'
    ||| c == 'P'
    ||| c == 'I'
    ||| c == 'm'
    ||| c == 'd'
    ||| c == 'w'
    ||| c == 'x'
}

/// The static piece catalogue.
pub struct Pieces;

impl Pieces {
    /// The ten movable pieces, shaped as the physical puzzle's set, each
    /// mirrorable, with candidate placements precomputed against the given
    /// board.
    pub fn get_defaults_for_board(board: &Board) -> (r: Vec<Piece>)
        requires
            board.wf(),
        ensures
            r@.len() == 10,
            forall|k: int|
                0 <= k < 10 ==> (#[trigger] r@[k]).wf() && r@[k].allowed_ok() && r@[k].flippable
                    && r@[k].symbol == default_symbol(k) && r@[k].base_shape() == default_shape(k),
            forall|k: int, p: Placement|
                0 <= k < 10 ==> ((#[trigger] r@[k].allowed().contains(p)) <==> anchor_on_board(
                    board@,
                    p,
                ) && fits(board@, r@[k], p)),
    {
        let mut out: Vec<Piece> = Vec::new();
        let p0 = make_movable('F', vec![(0, 0), (1, 0), (1, 1), (1, 2), (2, 1)], (0, 0, 0), (
        255, 204, 102), board);
        proof {
            assert(view_coords(seq![(0i32, 0i32), (1i32, 0i32), (1i32, 1i32), (1i32, 2i32), (
            2i32, 1i32)]) =~= default_shape(0));
        }
        out.push(p0);
        let p1 = make_movable('T', vec![(0, 0), (1, 0), (2, 0), (1, 1), (1, 2)], (0, 0, 0), (
        120, 81, 169), board);
        proof {
            assert(view_coords(seq![(0i32, 0i32), (1i32, 0i32), (2i32, 0i32), (1i32, 1i32), (
            1i32, 2i32)]) =~= default_shape(1));
        }
        out.push(p1);
        let p2 = make_movable('U', vec![(0, 0), (1, 0), (0, 1), (0, 2), (1, 2)], (0, 0, 0), (
        239, 235, 231), board);
        proof {
            assert(view_coords(seq![(0i32, 0i32), (1i32, 0i32), (0i32, 1i32), (0i32, 2i32), (
            1i32, 2i32)]) =~= default_shape(2));
        }
        out.push(p2);
        let p3 = make_movable('Z', vec![(0, 0), (1, 0), (1, 1), (1, 2), (2, 2)], (120, 60, 60), (
        255, 255, 255), board);
        proof {
            assert(view_coords(seq![(0i32, 0i32), (1i32, 0i32), (1i32, 1i32), (1i32, 2i32), (
            2i32, 2i32)]) =~= default_shape(3));
        }
        out.push(p3);
        let p4 = make_movable('L', vec![(0, 0), (1, 0), (2, 0), (3, 0), (0, 1)], (255, 255, 255),
            (0, 102, 204), board);
        proof {
            assert(view_coords(seq![(0i32, 0i32), (1i32, 0i32), (2i32, 0i32), (3i32, 0i32), (
            0i32, 1i32)]) =~= default_shape(4));
        }
        out.push(p4);
        let p5 = make_movable('V', vec![(0, 0), (0, 1), (0, 2), (1, 2), (2, 2)], (255, 255, 255),
            (88, 28, 71), board);
        proof {
            assert(view_coords(seq![(0i32, 0i32), (0i32, 1i32), (0i32, 2i32), (1i32, 2i32), (
            2i32, 2i32)]) =~= default_shape(5));
        }
        out.push(p5);
        let p6 = make_movable('N', vec![(0, 0), (0, 1), (1, 1), (1, 2), (1, 3)], (255, 255, 255),
            (102, 204, 153), board);
        proof {
            assert(view_coords(seq![(0i32, 0i32), (0i32, 1i32), (1i32, 1i32), (1i32, 2i32), (
            1i32, 3i32)]) =~= default_shape(6));
        }
        out.push(p6);
        let p7 = make_movable('Y', vec![(0, 0), (1, 0), (2, 0), (3, 0), (1, 1)], (255, 255, 255),
            (204, 102, 255), board);
        proof {
            assert(view_coords(seq![(0i32, 0i32), (1i32, 0i32), (2i32, 0i32), (3i32, 0i32), (
            1i32, 1i32)]) =~= default_shape(7));
        }
        out.push(p7);
        let p8 = make_movable('P', vec![(0, 0), (0, 1), (1, 1), (0, 2), (1, 2)], (255, 255, 255),
            (204, 102, 0), board);
        proof {
            assert(view_coords(seq![(0i32, 0i32), (0i32, 1i32), (1i32, 1i32), (0i32, 2i32), (
            1i32, 2i32)]) =~= default_shape(8));
        }
        out.push(p8);
        let p9 = make_movable('I', vec![(0, 0), (1, 0), (2, 0), (3, 0), (4, 0)], (255, 255, 255),
            (64, 140, 86), board);
        proof {
            assert(view_coords(seq![(0i32, 0i32), (1i32, 0i32), (2i32, 0i32), (3i32, 0i32), (
            4i32, 0i32)]) =~= default_shape(9));
        }
        out.push(p9);
        out
    }

    /// The single-cell marker that blocks the month's cell.
    pub fn get_month() -> (r: Piece)
        ensures
            marker_piece(r, 'm'),
            r.allowed() == Seq::<Placement>::empty(),
    {
        make_marker('m')
    }

    /// The single-cell marker that blocks the day-of-month's cell.
    pub fn get_day() -> (r: Piece)
        ensures
            marker_piece(r, 'd'),
            r.allowed() == Seq::<Placement>::empty(),
    {
        make_marker('d')
    }

    /// The single-cell marker that blocks the weekday's cell.
    pub fn get_weekday() -> (r: Piece)
        ensures
            marker_piece(r, 'w'),
            r.allowed() == Seq::<Placement>::empty(),
    {
        make_marker('w')
    }

    /// The single-cell marker that blocks the board's missing corner.
    pub fn get_corner() -> (r: Piece)
        ensures
            marker_piece(r, 'x'),
            r.allowed() == Seq::<Placement>::empty(),
    {
        make_marker('x')
    }

    /// The catalogue piece with the given identity symbol, if the catalogue
    /// knows it, without precomputed placements.
    pub fn by_symbol(symbol: char) -> (r: Option<Piece>)
        ensures
            (r is Some) <==> is_catalog_symbol(symbol),
            (match r {
                Some(p) => catalog_piece(p, symbol),
                None => true,
            }),
    {
        match symbol {
            'F' => {
                let p = Piece::new(symbol, vec![(0, 0), (1, 0), (1, 1), (1, 2), (2, 1)], (0, 0, 0), (255, 204, 102), true);
                proof {
                    assert(p.base_shape() =~= default_shape(0));
                }
                Some(p)
            },
            'T' => {
                let p = Piece::new(symbol, vec![(0, 0), (1, 0), (2, 0), (1, 1), (1, 2)], (0, 0, 0), (120, 81, 169), true);
                proof {
                    assert(p.base_shape() =~= default_shape(1));
                }
                Some(p)
            },
            'U' => {
                let p = Piece::new(symbol, vec![(0, 0), (1, 0), (0, 1), (0, 2), (1, 2)], (0, 0, 0), (239, 235, 231), true);
                proof {
                    assert(p.base_shape() =~= default_shape(2));
                }
                Some(p)
            },
            'Z' => {
                let p = Piece::new(symbol, vec![(0, 0), (1, 0), (1, 1), (1, 2), (2, 2)], (120, 60, 60), (255, 255, 255), true);
                proof {
                    assert(p.base_shape() =~= default_shape(3));
                }
                Some(p)
            },
            'L' => {
                let p = Piece::new(symbol, vec![(0, 0), (1, 0), (2, 0), (3, 0), (0, 1)], (255, 255, 255), (0, 102, 204), true);
                proof {
                    assert(p.base_shape() =~= default_shape(4));
                }
                Some(p)
            },
            'V' => {
                let p = Piece::new(symbol, vec![(0, 0), (0, 1), (0, 2), (1, 2), (2, 2)], (255, 255, 255), (88, 28, 71), true);
                proof {
                    assert(p.base_shape() =~= default_shape(5));
                }
                Some(p)
            },
            'N' => {
                let p = Piece::new(symbol, vec![(0, 0), (0, 1), (1, 1), (1, 2), (1, 3)], (255, 255, 255), (102, 204, 153), true);
                proof {
                    assert(p.base_shape() =~= default_shape(6));
                }
                Some(p)
            },
            'Y' => {
                let p = Piece::new(symbol, vec![(0, 0), (1, 0), (2, 0), (3, 0), (1, 1)], (255, 255, 255), (204, 102, 255), true);
                proof {
                    assert(p.base_shape() =~= default_shape(7));
                }
                Some(p)
            },
            'P' => {
                let p = Piece::new(symbol, vec![(0, 0), (0, 1), (1, 1), (0, 2), (1, 2)], (255, 255, 255), (204, 102, 0), true);
                proof {
                    assert(p.base_shape() =~= default_shape(8));
                }
                Some(p)
            },
            'I' => {
                let p = Piece::new(symbol, vec![(0, 0), (1, 0), (2, 0), (3, 0), (4, 0)], (255, 255, 255), (64, 140, 86), true);
                proof {
                    assert(p.base_shape() =~= default_shape(9));
                }
                Some(p)
            },
            'm' => Some(Pieces::get_month()),
            'd' => Some(Pieces::get_day()),
            'w' => Some(Pieces::get_weekday()),
            'x' => Some(Pieces::get_corner()),
            _ => None,
        }
    }
}

/// What every single-cell marker piece looks like: one cell at the origin,
/// not mirrorable, carrying its identity symbol.
pub open spec fn marker_piece(p: Piece, symbol: char) -> bool {
    &&& p.wf()
    &&& p.allowed_ok()
    &&& p.symbol == symbol
    &&& p.base_shape() == seq![(0int, 0int)]
    &&& !p.flippable
}

/// Builds one movable catalogue piece and precomputes its placements.
fn make_movable(
    symbol: char,
    shape: Vec<Coordinates>,
    color: (u8, u8, u8),
    bg: (u8, u8, u8),
    board: &Board,
) -> (r: Piece)
    requires
        board.wf(),
        shape@.len() >= 1,
        shape_bounded(view_coords(shape@)),
    ensures
        r.wf(),
        r.allowed_ok(),
        r.flippable,
        r.symbol == symbol,
        r.display_symbol == symbol,
        r.base_shape() == view_coords(shape@),
        forall|p: Placement|
            (#[trigger] r.allowed().contains(p)) <==> anchor_on_board(board@, p) && fits(
                board@,
                r,
                p,
            ),
{
    let mut pc = Piece::new(symbol, shape, color, bg, true);
    let ghost before = pc;
    pc.precompute_allowed_placements(board);
    proof {
        assert forall|p: Placement|
            (#[trigger] pc.allowed().contains(p)) <==> anchor_on_board(board@, p) && fits(
                board@,
                pc,
                p,
            ) by {
            assert(pc.shape_at(p.rotation, p.flipped) == before.shape_at(p.rotation, p.flipped));
            assert(fits(board@, pc, p) == fits(board@, before, p));
            assert(pc.allowed().contains(p) <==> anchor_on_board(board@, p) && fits(
                board@,
                before,
                p,
            ));
        }
    }
    pc
}

/// Builds one single-cell marker piece; the display symbol is left at the
/// identity symbol, and a renderer may swap it for a decorated glyph.
fn make_marker(symbol: char) -> (r: Piece)
    ensures
        marker_piece(r, symbol),
        r.display_symbol == symbol,
        r.allowed() == Seq::<Placement>::empty(),
{
    let shape: Vec<Coordinates> = vec![(0, 0)];
    proof {
        assert(view_coords(shape@) =~= seq![(0int, 0int)]);
    }
    Piece::new(symbol, shape, (255, 255, 255), (0, 0, 0), false)
}

} // verus!
