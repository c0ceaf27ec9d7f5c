use vstd::prelude::*;

verus! {

/// What a unit that follows a path does in a frame.
#[derive(Clone, Copy, Debug, PartialEq, Eq, Structural)]
pub enum UnitAction {
    /// The path is used up: the unit drops its move command.
    Finish,
    /// The unit steers towards the node of the path at this position, the
    /// last one.
    SteerTowards(usize),
}

/// The decision at the start of a frame: a unit whose path is empty is done;
/// otherwise it steers towards the last node of its path.
pub fn plan_unit_move<T>(path: &Vec<T>) -> (action: UnitAction)
    ensures
        path@.len() == 0 <==> action == UnitAction::Finish,
        path@.len() > 0 ==> action == UnitAction::SteerTowards((path@.len() - 1) as usize),
{
    let n = path.len();
    if n == 0 {
        UnitAction::Finish
    } else {
        UnitAction::SteerTowards(n - 1)
    }
}

/// The decision after steering: a node that was reached is taken off the
/// end of the path; otherwise the path stays as it is.
pub fn complete_unit_move<T>(path: &mut Vec<T>, target_reached: bool)
    ensures
        target_reached && old(path)@.len() > 0 ==> final(path)@ == old(path)@.drop_last(),
        !(target_reached && old(path)@.len() > 0) ==> final(path)@ == old(path)@,
{
    if target_reached && path.len() > 0 {
        path.pop();
    }
}

} // verus!
