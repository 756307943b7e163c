use vstd::prelude::*;

use crate::num::F;

verus! {

#[derive(Debug)]
struct Vec2D {
    x: F,
    y: F,
}

/// An acceleration in world coordinates.
#[derive(Debug)]
pub struct Acc(Vec2D);

/// A velocity in world coordinates.
#[derive(Debug)]
pub struct Vel(Vec2D);

/// A position in world coordinates.
#[derive(Debug)]
pub struct Pos(Vec2D);

} // verus!
