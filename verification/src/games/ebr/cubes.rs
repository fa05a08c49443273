use vstd::prelude::*;


verus! {

/// What a player can choose to do with an action cube.
#[derive(Debug, Clone, Copy, Hash, PartialEq, Eq, Structural, PartialOrd, Ord)]
pub enum ChoosableAction {
    BuildTrack,
    AuctionShare,
    TakeResources,
    IssueBond,
    Merge,
    PayDividend,
}

/// The spaces for the action cubes: three to build track, two to auction a
/// share, three to take resources, and one each to issue a bond, to merge
/// and to pay a dividend.
pub open spec fn cube_spaces() -> Seq<ChoosableAction> {
    seq![
        ChoosableAction::BuildTrack,
        ChoosableAction::BuildTrack,
        ChoosableAction::BuildTrack,
        ChoosableAction::AuctionShare,
        ChoosableAction::AuctionShare,
        ChoosableAction::TakeResources,
        ChoosableAction::TakeResources,
        ChoosableAction::TakeResources,
        ChoosableAction::IssueBond,
        ChoosableAction::Merge,
        ChoosableAction::PayDividend,
    ]
}

/// The action of a space for an action cube.
pub fn cube_space(index: usize) -> (action: ChoosableAction)
    requires
        index < 11,
    ensures
        action == cube_spaces()[index as int],
{
    if index < 3 {
        ChoosableAction::BuildTrack
    } else if index < 5 {
        ChoosableAction::AuctionShare
    } else if index < 8 {
        ChoosableAction::TakeResources
    } else if index == 8 {
        ChoosableAction::IssueBond
    } else if index == 9 {
        ChoosableAction::Merge
    } else {
        ChoosableAction::PayDividend
    }
}

/// Where the action cubes lie when the game starts: on the spaces to take
/// resources and to pay a dividend.
pub fn initial_cubes() -> (cubes: [bool; 11])
    ensures
        forall|i: int| 0 <= i < 11 ==> #[trigger] cubes@[i] == (5 <= i < 8 || i == 10),
{
    [false, false, false, false, false, true, true, true, false, false, true]
}

/// The first space at or after `from` for `action` that holds a cube, if
/// `filled`, or that holds none, if not; 11 if there is none.
pub open spec fn first_space(cubes: Seq<bool>, action: ChoosableAction, filled: bool, from: int) -> int
    decreases 11 - from,
{
    if from < 0 || from >= 11 {
        11
    } else if cubes[from] == filled && cube_spaces()[from] == action {
        from
    } else {
        first_space(cubes, action, filled, from + 1)
    }
}

/// The first space for `action` that holds a cube, if `filled`, or that
/// holds none, if not.
pub fn find_space(cubes: &[bool; 11], action: ChoosableAction, filled: bool) -> (space: Option<usize>)
    ensures
        space matches Some(index) ==> index < 11 && index == first_space(cubes@, action, filled, 0),
        space is None ==> first_space(cubes@, action, filled, 0) == 11,
{
    let mut i: usize = 0;
    while i < 11
        invariant
            i <= 11,
            first_space(cubes@, action, filled, 0) == first_space(cubes@, action, filled, i as int),
        decreases 11 - i,
    {
        if cubes[i] == filled && cube_space(i) == action {
            return Some(i);
        }
        i += 1;
    }
    None
}

/// The cubes after one is moved from the first filled space for `from` to
/// the first empty space for `to`.
pub open spec fn cubes_moved(cubes: Seq<bool>, from: ChoosableAction, to: ChoosableAction) -> Seq<bool> {
    cubes.update(first_space(cubes, from, true, 0), false).update(
        first_space(cubes.update(first_space(cubes, from, true, 0), false), to, false, 0),
        true,
    )
}

/// Moves an action cube from a space for one action to a space for another,
/// if a space for the first holds a cube and, once that cube is taken up, a
/// space for the second is empty. The cube is taken up before it is put
/// down: it can come to lie on the space that it was taken from.
pub fn move_cube(cubes: [bool; 11], from: ChoosableAction, to: ChoosableAction) -> (moved: Option<[bool; 11]>)
    ensures
        moved is Some == (first_space(cubes@, from, true, 0) < 11 && first_space(
            cubes@.update(first_space(cubes@, from, true, 0), false),
            to,
            false,
            0,
        ) < 11),
        moved matches Some(after) ==> after@ == cubes_moved(cubes@, from, to),
{
    let remove_idx = match find_space(&cubes, from, true) {
        Some(index) => index,
        None => {
            return None;
        },
    };
    let mut after = cubes;
    after[remove_idx] = false;
    match find_space(&after, to, false) {
        Some(add_idx) => {
            after[add_idx] = true;
            Some(after)
        },
        None => None,
    }
}

} // verus!
