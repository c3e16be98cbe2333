//! The piece catalog and the intent alphabet.

use rand::Rng;
use vstd::prelude::*;

verus! {

/// Relies on rand::rng and rand::Rng::random_range: draws a value uniformly
/// from the half-open range `0..n`. random_range panics only when the range
/// is empty, so `n` must be positive.
#[verifier::external_body]
pub(crate) fn random_below(n: usize) -> (r: usize)
    requires
        n > 0,
    ensures
        r < n,
{
    rand::rng().random_range(0..n)
}

/// One intent flowing from a producer (keyboard or timer) to the game loop.
pub enum Action {
    MoveLeft,
    MoveRight,
    MoveDown,
    UserQuit,
}

/// One of the seven fixed piece shapes.
#[derive(Debug, PartialEq, Eq)]
pub enum Block {
    L,
    O,
    T,
    I,
    S,
    Z,
    J,
}

/// The fixed occupancy matrix of a shape: 1 marks a piece cell, 0 an empty
/// cell. Matrices vary in size, from 2 by 2 up to 4 by 1.
pub open spec fn block_matrix(b: Block) -> Seq<Seq<u8>> {
    match b {
        Block::L => seq![seq![1u8, 0u8, 0u8], seq![1u8, 1u8, 1u8]],
        Block::O => seq![seq![1u8, 1u8], seq![1u8, 1u8]],
        Block::T => seq![seq![0u8, 1u8, 0u8], seq![1u8, 1u8, 1u8]],
        Block::I => seq![seq![1u8], seq![1u8], seq![1u8], seq![1u8]],
        Block::S => seq![seq![0u8, 1u8, 1u8], seq![1u8, 1u8, 0u8]],
        Block::Z => seq![seq![1u8, 1u8, 0u8], seq![0u8, 1u8, 1u8]],
        Block::J => seq![seq![0u8, 0u8, 1u8], seq![1u8, 1u8, 1u8]],
    }
}

fn row1(a: u8) -> (r: Vec<u8>)
    ensures
        r@ == seq![a],
{
    let mut r: Vec<u8> = Vec::new();
    r.push(a);
    proof {
        assert(r@ =~= seq![a]);
    }
    r
}

fn row2(a: u8, b: u8) -> (r: Vec<u8>)
    ensures
        r@ == seq![a, b],
{
    let mut r: Vec<u8> = Vec::new();
    r.push(a);
    r.push(b);
    proof {
        assert(r@ =~= seq![a, b]);
    }
    r
}

fn row3(a: u8, b: u8, c: u8) -> (r: Vec<u8>)
    ensures
        r@ == seq![a, b, c],
{
    let mut r: Vec<u8> = Vec::new();
    r.push(a);
    r.push(b);
    r.push(c);
    proof {
        assert(r@ =~= seq![a, b, c]);
    }
    r
}

/// The shape a uniform draw selects: the `d`-th of the seven variants.
pub open spec fn shape_from(d: int) -> Block {
    if d == 0 {
        Block::L
    } else if d == 1 {
        Block::O
    } else if d == 2 {
        Block::T
    } else if d == 3 {
        Block::I
    } else if d == 4 {
        Block::S
    } else if d == 5 {
        Block::Z
    } else {
        Block::J
    }
}

/// The shape selected by one drawn value.
pub fn shape_from_draw(d: usize) -> (b: Block)
    requires
        d < 7,
    ensures
        b == shape_from(d as int),
{
    match d {
        0 => Block::L,
        1 => Block::O,
        2 => Block::T,
        3 => Block::I,
        4 => Block::S,
        5 => Block::Z,
        _ => Block::J,
    }
}

impl Block {
    /// A shape drawn at random: the variant that the uniform draw over the
    /// seven selects.
    pub fn random() -> (b: Block)
        ensures
            exists|d: int| 0 <= d < 7 && b == shape_from(d),
    {
        let d = random_below(7);
        let b = shape_from_draw(d);
        proof {
            assert(0 <= d && d < 7 && b == shape_from(d as int));
        }
        b
    }

    /// The cells of the shape in a matrix representation.
    pub fn get_matrix(&self) -> (m: Vec<Vec<u8>>)
        ensures
            m@.len() == block_matrix(*self).len(),
            forall|i: int| 0 <= i < m@.len() ==> #[trigger] m@[i]@ == block_matrix(*self)[i],
    {
        let mut m: Vec<Vec<u8>> = Vec::new();
        match self {
            Block::L => {
                m.push(row3(1, 0, 0));
                m.push(row3(1, 1, 1));
            },
            Block::O => {
                m.push(row2(1, 1));
                m.push(row2(1, 1));
            },
            Block::T => {
                m.push(row3(0, 1, 0));
                m.push(row3(1, 1, 1));
            },
            Block::I => {
                m.push(row1(1));
                m.push(row1(1));
                m.push(row1(1));
                m.push(row1(1));
            },
            Block::S => {
                m.push(row3(0, 1, 1));
                m.push(row3(1, 1, 0));
            },
            Block::Z => {
                m.push(row3(1, 1, 0));
                m.push(row3(0, 1, 1));
            },
            Block::J => {
                m.push(row3(0, 0, 1));
                m.push(row3(1, 1, 1));
            },
        }
        m
    }
}

} // verus!
