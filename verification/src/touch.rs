//! Rules in which a block moves or grows toward a marker cell.

use crate::example::{outcome, Example, Pair};
use crate::grid::{
    blank, gen_field, gen_field_color, lemma_painted_valid, painted, solid, write_block, Side,
    COLORS,
};
use crate::random::{draw_below, draw_through, permute_color_not_black};
use rand::rngs::StdRng;
use vstd::prelude::*;

verus! {

/// A solid block and a marker cell on one field.
#[derive(Clone, Copy, Debug, PartialEq, Eq)]
pub struct Placement {
    /// The color of the marker cell.
    pub dot_color: u8,
    /// The cell of the marker.
    pub dot_pos: usize,
    /// The color of the block.
    pub block_color: u8,
    /// The number of cells of the block.
    pub block_size: usize,
    /// The side of the marker on which the block lies.
    pub side: Side,
    /// The first cell of the block.
    pub block_pos: usize,
}

impl Placement {
    /// The block lies inside a field of `size` cells, wholly on its side of
    /// the marker, and the marker lies inside the field.
    pub open spec fn fits(self, size: nat) -> bool {
        &&& self.dot_pos < size
        &&& match self.side {
            Side::Left => self.block_pos + self.block_size <= self.dot_pos,
            Side::Right => self.dot_pos < self.block_pos && self.block_pos + self.block_size
                <= size,
        }
    }

    /// What the rules of this family draw: a block that fits, of at least
    /// one cell, in a color other than the marker's and the background.
    pub open spec fn drawn(self, size: nat, dot_color: u8) -> bool {
        &&& self.fits(size)
        &&& self.dot_color == dot_color
        &&& 1 <= self.block_size < size
        &&& 1 <= self.block_color <= COLORS
        &&& self.block_color != dot_color
    }

    /// What is drawn for a placement beside a marker of `dot_color`: first
    /// the color of the block, which is `color` unless it came out as the
    /// background; then the length of the block and the cell of the marker;
    /// and where the block has room on one side of the marker at least, the
    /// side and the place of the block on it.
    pub open spec fn attempted(self, size: nat, dot_color: u8, color: Option<u8>) -> bool {
        &&& self.dot_color == dot_color
        &&& color matches Some(c) ==> {
            &&& self.block_color == c
            &&& 1 <= c <= COLORS
            &&& c != dot_color
            &&& 1 <= self.block_size < size
            &&& self.dot_pos < size
            &&& has_room(size, self.block_size as nat, self.dot_pos as nat) ==> self.fits(size)
        }
    }

    /// The first cell of the block once it touches the marker.
    pub open spec fn touching_pos(self) -> int {
        match self.side {
            Side::Left => self.dot_pos - self.block_size,
            Side::Right => self.dot_pos + 1,
        }
    }

    /// How many cells lie between the block and the marker.
    pub open spec fn distance(self) -> int {
        match self.side {
            Side::Left => self.dot_pos - self.block_size - self.block_pos,
            Side::Right => self.block_pos - self.dot_pos - 1,
        }
    }

    /// The first cell of the block after it has moved toward the marker by
    /// `move_pix` cells, or as far as the marker lets it.
    pub open spec fn moved_pos(self, move_pix: nat) -> int {
        let step = if self.distance() <= move_pix {
            self.distance()
        } else {
            move_pix as int
        };
        match self.side {
            Side::Left => self.block_pos + step,
            Side::Right => self.block_pos - step,
        }
    }

    /// A field of `size` cells with a block of the placement's color and
    /// length at `block_pos`, and the marker.
    pub open spec fn drawing(self, size: nat, block_pos: int) -> Seq<u8> {
        painted(blank(size), block_pos, solid(self.block_size as nat, self.block_color)).update(
            self.dot_pos as int,
            self.dot_color,
        )
    }

    /// A field of `size` cells with the block stretched from its far end up
    /// to the marker, and the marker.
    pub open spec fn scaled(self, size: nat) -> Seq<u8> {
        match self.side {
            Side::Left => painted(
                blank(size),
                self.block_pos as int,
                solid((self.dot_pos - self.block_pos) as nat, self.block_color),
            ).update(self.dot_pos as int, self.dot_color),
            Side::Right => painted(
                blank(size),
                self.dot_pos as int,
                solid((self.block_pos + self.block_size - self.dot_pos) as nat, self.block_color),
            ).update(self.dot_pos as int, self.dot_color),
        }
    }

    /// The field with the block at `block_pos` and the marker.
    fn draw(&self, size: usize, block_pos: usize) -> (field: Vec<u8>)
        requires
            self.dot_pos < size,
            block_pos + self.block_size <= size,
        ensures
            field@ == self.drawing(size as nat, block_pos as int),
    {
        let block = gen_field_color(self.block_size, self.block_color);
        let mut field = write_block(block_pos, block.as_slice(), gen_field(size));
        field.set(self.dot_pos, self.dot_color);
        field
    }
}

/// The block and the marker, and the block moved up to the marker.
pub open spec fn block_touch_dot_pair(size: nat, p: Placement) -> Pair {
    Pair { input: p.drawing(size, p.block_pos as int), output: p.drawing(size, p.touching_pos()) }
}

/// The example in which the block of `p` moves until it touches the marker.
pub fn block_touch_dot_from(size: usize, p: &Placement) -> (e: Example)
    requires
        p.fits(size as nat),
    ensures
        e@ == block_touch_dot_pair(size as nat, *p),
{
    let target = match p.side {
        Side::Left => p.dot_pos - p.block_size,
        Side::Right => p.dot_pos + 1,
    };
    Example { input: p.draw(size, p.block_pos), output: p.draw(size, target) }
}

/// The block and the marker, and the block moved toward the marker by
/// `move_pix` cells, or less where it touches the marker before.
pub open spec fn block_touch_dot_n_pix_pair(size: nat, move_pix: nat, p: Placement) -> Pair {
    Pair {
        input: p.drawing(size, p.block_pos as int),
        output: p.drawing(size, p.moved_pos(move_pix)),
    }
}

/// The example in which the block of `p` moves `move_pix` cells toward the
/// marker, or up to it where that is less.
pub fn block_touch_dot_n_pix_from(size: usize, move_pix: usize, p: &Placement) -> (e: Example)
    requires
        p.fits(size as nat),
    ensures
        e@ == block_touch_dot_n_pix_pair(size as nat, move_pix as nat, *p),
{
    let target = match p.side {
        Side::Left => {
            let distance = p.dot_pos - p.block_size - p.block_pos;
            if distance <= move_pix {
                p.block_pos + distance
            } else {
                p.block_pos + move_pix
            }
        },
        Side::Right => {
            let distance = p.block_pos - p.dot_pos - 1;
            if distance <= move_pix {
                p.block_pos - distance
            } else {
                p.block_pos - move_pix
            }
        },
    };
    Example { input: p.draw(size, p.block_pos), output: p.draw(size, target) }
}

/// The block and the marker, and the block stretched up to the marker
/// while its far end stays where it is.
pub open spec fn block_scale_to_dot_pair(size: nat, p: Placement) -> Pair {
    Pair { input: p.drawing(size, p.block_pos as int), output: p.scaled(size) }
}

/// The example in which the block of `p` grows until it touches the marker.
pub fn block_scale_to_dot_from(size: usize, p: &Placement) -> (e: Example)
    requires
        p.fits(size as nat),
    ensures
        e@ == block_scale_to_dot_pair(size as nat, *p),
{
    let (start, length) = match p.side {
        Side::Left => (p.block_pos, p.dot_pos - p.block_pos),
        Side::Right => (p.dot_pos, p.block_pos + p.block_size - p.dot_pos),
    };
    let block = gen_field_color(length, p.block_color);
    let mut answer = write_block(start, block.as_slice(), gen_field(size));
    answer.set(p.dot_pos, p.dot_color);
    Example { input: p.draw(size, p.block_pos), output: answer }
}

/// Whether a block of `block_size` cells has room on the left or on the
/// right of the marker at `dot_pos`.
pub open spec fn has_room(size: nat, block_size: nat, dot_pos: nat) -> bool {
    dot_pos >= block_size || dot_pos + block_size < size
}

/// The placement that comes of the draws `color` and `p`: none where the
/// color came out as the background, and none where the block has room on
/// neither side of the marker.
pub open spec fn placed(size: nat, color: Option<u8>, p: Placement) -> Option<Placement> {
    if color is Some && has_room(size, p.block_size as nat, p.dot_pos as nat) {
        Some(p)
    } else {
        None
    }
}

/// The sides of the marker at `dot_pos` on which a block of `block_size`
/// cells has room: the left one first.
pub fn free_sides(size: usize, block_size: usize, dot_pos: usize) -> (sides: Vec<Side>)
    requires
        dot_pos < size,
        block_size <= size,
    ensures
        sides@ == (if dot_pos >= block_size {
            seq![Side::Left]
        } else {
            Seq::<Side>::empty()
        }) + (if dot_pos + block_size < size {
            seq![Side::Right]
        } else {
            Seq::<Side>::empty()
        }),
{
    let mut sides: Vec<Side> = Vec::new();
    if dot_pos >= block_size {
        sides.push(Side::Left);
    }
    if dot_pos < size - block_size {
        sides.push(Side::Right);
    }
    assert(sides@ =~= (if dot_pos >= block_size {
        seq![Side::Left]
    } else {
        Seq::<Side>::empty()
    }) + (if dot_pos + block_size < size {
        seq![Side::Right]
    } else {
        Seq::<Side>::empty()
    }));
    sides
}

/// Draws a block and a marker of `dot_color` for a field of `size` cells:
/// the color and the length of the block, the cell of the marker, the side
/// of the marker on which the block lies, and the place of the block on
/// that side. Infeasible where the color came out as the background, and
/// where the block has room on neither side of the marker.
pub fn draw_placement(size: usize, dot_color: u8, rng: &mut StdRng) -> (r: Option<Placement>)
    requires
        size >= 2,
        1 <= dot_color <= COLORS,
    ensures
        exists|color: Option<u8>, p: Placement|
            p.attempted(size as nat, dot_color, color) && r == #[trigger] placed(
                size as nat,
                color,
                p,
            ),
        r matches Some(p) ==> p.drawn(size as nat, dot_color),
{
    let block_color = match permute_color_not_black(dot_color, rng) {
        Some(c) => c,
        None => {
            proof {
                let p = Placement {
                    dot_color,
                    dot_pos: 0,
                    block_color: 0,
                    block_size: 0,
                    side: Side::Left,
                    block_pos: 0,
                };
                assert(p.attempted(size as nat, dot_color, None) && placed(size as nat, None, p)
                    is None);
            }
            return None;
        },
    };
    let block_size = draw_below(rng, 1, size);
    let dot_pos = draw_below(rng, 0, size);
    let sides = free_sides(size, block_size, dot_pos);
    if sides.len() == 0 {
        proof {
            let p = Placement {
                dot_color,
                dot_pos,
                block_color,
                block_size,
                side: Side::Left,
                block_pos: 0,
            };
            assert(p.attempted(size as nat, dot_color, Some(block_color)) && placed(
                size as nat,
                Some(block_color),
                p,
            ) is None);
        }
        return None;
    }
    let side = sides[draw_below(rng, 0, sides.len())];
    let block_pos = match side {
        Side::Left => draw_through(rng, 0, dot_pos - block_size),
        Side::Right => draw_through(rng, dot_pos + 1, size - block_size),
    };
    let p = Placement { dot_color, dot_pos, block_color, block_size, side, block_pos };
    proof {
        assert(p.attempted(size as nat, dot_color, Some(block_color)) && placed(
            size as nat,
            Some(block_color),
            p,
        ) == Some(p));
    }
    Some(p)
}

/// What [`task_block_touch_dot`] can give on a field of `size` cells: the
/// example of the placement that comes of some draws, and nothing where
/// none comes of them.
pub open spec fn block_touch_dot_outcome(size: nat, r: Option<Pair>) -> bool {
    &&& exists|color: Option<u8>, p: Placement|
        p.attempted(size, 1, color) && r == (match #[trigger] placed(size, color, p) {
            Some(q) => Some(block_touch_dot_pair(size, q)),
            None => None,
        })
    &&& r matches Some(made) ==> made.fits(size)
}

/// A solid block and a marker cell of the first color somewhere beside it;
/// the block moves until it touches the marker.
pub fn task_block_touch_dot(size: usize, rng: &mut StdRng) -> (r: Option<Example>)
    requires
        size >= 2,
    ensures
        block_touch_dot_outcome(size as nat, outcome(r)),
{
    let drawn = draw_placement(size, 1, rng);
    proof {
        let (color, p) = choose|color: Option<u8>, p: Placement|
            p.attempted(size as nat, 1, color) && drawn == #[trigger] placed(
                size as nat,
                color,
                p,
            );
        assert(drawn == placed(size as nat, color, p));
    }
    match drawn {
        Some(p) => {
            let e = block_touch_dot_from(size, &p);
            proof {
                lemma_drawing_valid(size as nat, p, p.block_pos as int);
                lemma_drawing_valid(size as nat, p, p.touching_pos());
            }
            Some(e)
        },
        None => None,
    }
}

/// What [`task_block_touch_dot_n_pix`] can give on a field of `size`
/// cells: the example of the placement that comes of some draws, and nothing
/// where none comes of them.
pub open spec fn block_touch_dot_n_pix_outcome(size: nat, move_pix: nat, r: Option<Pair>) -> bool {
    &&& exists|color: Option<u8>, p: Placement|
        p.attempted(size, 2, color) && r == (match #[trigger] placed(size, color, p) {
            Some(q) => Some(block_touch_dot_n_pix_pair(size, move_pix, q)),
            None => None,
        })
    &&& r matches Some(made) ==> made.fits(size)
}

/// A solid block and a marker cell of the second color somewhere beside
/// it; the block moves `move_pix` cells toward the marker, or up to it
/// where that is less.
pub fn task_block_touch_dot_n_pix(size: usize, move_pix: usize, rng: &mut StdRng) -> (r: Option<
    Example,
>)
    requires
        size >= 2,
    ensures
        block_touch_dot_n_pix_outcome(size as nat, move_pix as nat, outcome(r)),
{
    let drawn = draw_placement(size, 2, rng);
    proof {
        let (color, p) = choose|color: Option<u8>, p: Placement|
            p.attempted(size as nat, 2, color) && drawn == #[trigger] placed(
                size as nat,
                color,
                p,
            );
        assert(drawn == placed(size as nat, color, p));
    }
    match drawn {
        Some(p) => {
            let e = block_touch_dot_n_pix_from(size, move_pix, &p);
            proof {
                lemma_drawing_valid(size as nat, p, p.block_pos as int);
                lemma_drawing_valid(size as nat, p, p.moved_pos(move_pix as nat));
            }
            Some(e)
        },
        None => None,
    }
}

/// What [`task_block_scale_to_dot`] can give on a field of `size` cells:
/// the example of the placement that comes of some draws, and nothing where
/// none comes of them.
pub open spec fn block_scale_to_dot_outcome(size: nat, r: Option<Pair>) -> bool {
    &&& exists|color: Option<u8>, p: Placement|
        p.attempted(size, 2, color) && r == (match #[trigger] placed(size, color, p) {
            Some(q) => Some(block_scale_to_dot_pair(size, q)),
            None => None,
        })
    &&& r matches Some(made) ==> made.fits(size)
}

/// A solid block and a marker cell of the second color somewhere beside
/// it; the block grows until it touches the marker, its far end staying in
/// place.
pub fn task_block_scale_to_dot(size: usize, rng: &mut StdRng) -> (r: Option<Example>)
    requires
        size >= 2,
    ensures
        block_scale_to_dot_outcome(size as nat, outcome(r)),
{
    let drawn = draw_placement(size, 2, rng);
    proof {
        let (color, p) = choose|color: Option<u8>, p: Placement|
            p.attempted(size as nat, 2, color) && drawn == #[trigger] placed(
                size as nat,
                color,
                p,
            );
        assert(drawn == placed(size as nat, color, p));
    }
    match drawn {
        Some(p) => {
            let e = block_scale_to_dot_from(size, &p);
            proof {
                lemma_drawing_valid(size as nat, p, p.block_pos as int);
                lemma_painted_valid(
                    blank(size as nat),
                    p.block_pos as int,
                    solid((p.dot_pos - p.block_pos) as nat, p.block_color),
                );
                lemma_painted_valid(
                    blank(size as nat),
                    p.dot_pos as int,
                    solid((p.block_pos + p.block_size - p.dot_pos) as nat, p.block_color),
                );
            }
            Some(e)
        },
        None => None,
    }
}

/// A block and a marker in colors of the alphabet make a grid of `size`
/// cells of the alphabet.
proof fn lemma_drawing_valid(size: nat, p: Placement, block_pos: int)
    requires
        p.dot_pos < size,
        p.block_color <= COLORS,
        p.dot_color <= COLORS,
    ensures
        crate::grid::valid_grid(p.drawing(size, block_pos)),
        p.drawing(size, block_pos).len() == size,
{
    lemma_painted_valid(blank(size), block_pos, solid(p.block_size as nat, p.block_color));
}

} // verus!
