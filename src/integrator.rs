use vstd::prelude::*;

verus! {

/// What became of one ray sent into the scene.
#[derive(Clone, Copy, Debug, PartialEq, Eq, Structural)]
pub enum Bounce {
    /// The ray hit nothing: it sees the sky.
    Miss,
    /// The ray hit a surface whose material absorbed it.
    Absorbed,
    /// The ray hit a surface and its material scattered it into a new ray.
    Scattered,
}

/// How a path's radiance is closed off.
#[derive(Clone, Copy, Debug, PartialEq, Eq, Structural)]
pub enum Ending {
    /// The path contributes no light: absorbed, or out of bounces.
    Black,
    /// The path escaped: its throughput times the sky gradient along the last ray.
    Sky,
}

/// The integrator's next move.
#[derive(Clone, Copy, Debug, PartialEq, Eq, Structural)]
pub enum PathStep {
    /// Send the current ray into the scene; `remaining` bounces are left after it.
    Trace { remaining: i32 },
    /// Stop with the given ending.
    Finish { ending: Ending },
}

/// The move for a ray with a budget of `depth` bounces: none is traced once
/// the budget is spent.
pub open spec fn start_step(depth: int) -> PathStep {
    if depth <= 0 {
        PathStep::Finish { ending: Ending::Black }
    } else {
        PathStep::Trace { remaining: (depth - 1) as i32 }
    }
}

/// The move after a traced ray came back as `bounce`, with `remaining`
/// bounces left for a scattered ray.
pub open spec fn next_step(remaining: int, bounce: Bounce) -> PathStep {
    match bounce {
        Bounce::Miss => PathStep::Finish { ending: Ending::Sky },
        Bounce::Absorbed => PathStep::Finish { ending: Ending::Black },
        Bounce::Scattered => start_step(remaining),
    }
}

/// Where the moves lead from `step` when the rays traced come back as
/// `bounces`, in order: the ending, with the number of rays traced. `None`
/// while the path still wants to trace a ray that `bounces` does not cover.
pub open spec fn run_path(step: PathStep, bounces: Seq<Bounce>) -> Option<(Ending, nat)>
    decreases bounces.len(),
{
    match step {
        PathStep::Finish { ending } => Some((ending, 0)),
        PathStep::Trace { remaining } => {
            if bounces.len() == 0 {
                None
            } else {
                match run_path(next_step(remaining as int, bounces[0]), bounces.drop_first()) {
                    Some((ending, traced)) => Some((ending, traced + 1)),
                    None => None,
                }
            }
        },
    }
}

/// How a path that starts with a budget of `depth` bounces ends, and how many
/// rays it traces, when those rays come back as `bounces`.
pub open spec fn path_ending(depth: int, bounces: Seq<Bounce>) -> Option<(Ending, nat)> {
    run_path(start_step(depth), bounces)
}

/// The first move for a ray given a budget of `depth` bounces.
pub fn start_path(depth: i32) -> (step: PathStep)
    ensures
        step == start_step(depth as int),
{
    if depth <= 0 {
        PathStep::Finish { ending: Ending::Black }
    } else {
        PathStep::Trace { remaining: depth - 1 }
    }
}

/// The move after a traced ray came back as `bounce`.
pub fn after_bounce(remaining: i32, bounce: Bounce) -> (step: PathStep)
    ensures
        step == next_step(remaining as int, bounce),
{
    match bounce {
        Bounce::Miss => PathStep::Finish { ending: Ending::Sky },
        Bounce::Absorbed => PathStep::Finish { ending: Ending::Black },
        Bounce::Scattered => start_path(remaining),
    }
}

/// A path whose bounce budget is spent is black, and traces no ray, whatever
/// the scene would have done with it.
pub proof fn lemma_spent_budget_is_black(depth: int, bounces: Seq<Bounce>)
    requires
        depth <= 0,
    ensures
        path_ending(depth, bounces) == Some((Ending::Black, 0nat)),
{
}

/// A path never traces more rays than its budget of bounces.
pub proof fn lemma_traces_at_most_depth(depth: int, bounces: Seq<Bounce>)
    requires
        depth <= i32::MAX,
    ensures
        path_ending(depth, bounces) matches Some((_, traced)) ==> traced == 0 || traced <= depth,
    decreases bounces.len(),
{
    if depth > 0 && bounces.len() > 0 {
        let rest = bounces.drop_first();
        lemma_traces_at_most_depth(depth - 1, rest);
        let next = next_step(depth - 1, bounces[0]);
        if let PathStep::Finish { ending } = next {
            assert(run_path(next, rest) == Some((ending, 0nat)));
        } else {
            assert(next == start_step(depth - 1));
        }
    }
}

/// A path with bounces left that misses the scene on its first ray ends in
/// the sky after that one ray.
pub proof fn lemma_first_miss_is_sky(depth: int, bounces: Seq<Bounce>)
    requires
        0 < depth <= i32::MAX,
        bounces.len() > 0,
        bounces[0] == Bounce::Miss,
    ensures
        path_ending(depth, bounces) == Some((Ending::Sky, 1nat)),
{
    let sky = PathStep::Finish { ending: Ending::Sky };
    assert(run_path(sky, bounces.drop_first()) == Some((Ending::Sky, 0nat)));
}

} // verus!
