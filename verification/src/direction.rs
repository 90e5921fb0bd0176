use vstd::prelude::*;

verus! {

/// The direction in which a tile slides into the empty slot.
///
/// `Up` moves the tile below the empty slot upwards, so the empty slot
/// itself travels one row down; the other directions are alike. `NoMove`
/// marks a node that no move led to.
#[derive(Copy, Clone, Debug, PartialEq, Eq, Structural)]
pub enum MoveDirection {
    NoMove,
    Up,
    Down,
    Left,
    Right,
}

impl MoveDirection {
    /// The direction that undoes `self`.
    pub open spec fn spec_reverse(self) -> MoveDirection {
        match self {
            MoveDirection::NoMove => MoveDirection::NoMove,
            MoveDirection::Up => MoveDirection::Down,
            MoveDirection::Down => MoveDirection::Up,
            MoveDirection::Left => MoveDirection::Right,
            MoveDirection::Right => MoveDirection::Left,
        }
    }

    /// The direction that undoes `self`.
    #[verifier::when_used_as_spec(spec_reverse)]
    pub fn reverse(self) -> (r: MoveDirection)
        ensures
            r == self.spec_reverse(),
    {
        match self {
            MoveDirection::NoMove => MoveDirection::NoMove,
            MoveDirection::Up => MoveDirection::Down,
            MoveDirection::Down => MoveDirection::Up,
            MoveDirection::Left => MoveDirection::Right,
            MoveDirection::Right => MoveDirection::Left,
        }
    }
}

} // verus!
