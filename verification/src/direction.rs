//! Cardinal movement directions for the carving walk, and the randomly
//! ordered permutations of them that drive each carving decision.

use vstd::prelude::*;

verus! {

/// The four movement directions of a 2D maze walk.
#[derive(Clone, Copy, PartialEq, Eq, Structural, Debug)]
pub enum Direction2D {
    Up,
    Down,
    Left,
    Right,
}

/// The six movement directions of a 3D maze walk.
#[derive(Clone, Copy, PartialEq, Eq, Structural, Debug)]
pub enum Direction3D {
    Up,
    Down,
    Left,
    Right,
    In,
    Out,
}

impl Direction2D {
    /// All four directions, each exactly once, in a uniformly random order.
    ///
    /// Relies on fastrand::shuffle: the result is a permutation of the
    /// input slice; which permutation depends on the thread-local generator.
    #[verifier::external_body]
    pub fn random_order() -> (r: [Direction2D; 4])
        ensures
            r@.len() == 4,
            r@.no_duplicates(),
            forall|d: Direction2D| r@.contains(d),
    {
        let mut directions = [
            Direction2D::Up,
            Direction2D::Down,
            Direction2D::Left,
            Direction2D::Right,
        ];
        fastrand::shuffle(&mut directions);
        directions
    }
}

impl Direction3D {
    /// All six directions, each exactly once, in a uniformly random order.
    ///
    /// Relies on fastrand::shuffle: the result is a permutation of the
    /// input slice; which permutation depends on the thread-local generator.
    #[verifier::external_body]
    pub fn random_order() -> (r: [Direction3D; 6])
        ensures
            r@.len() == 6,
            r@.no_duplicates(),
            forall|d: Direction3D| r@.contains(d),
    {
        let mut directions = [
            Direction3D::Up,
            Direction3D::Down,
            Direction3D::Left,
            Direction3D::Right,
            Direction3D::In,
            Direction3D::Out,
        ];
        fastrand::shuffle(&mut directions);
        directions
    }
}

} // verus!
