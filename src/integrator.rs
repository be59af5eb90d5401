use vstd::prelude::*;

verus! {

/// Largest recursion depth at which a scattered ray is still followed.
pub const MAX_DEPTH: u32 = 50;

/// What tracing one ray against the scene produced.
#[derive(Clone, Copy, Debug, PartialEq, Eq, Structural)]
pub enum Trace {
    /// The ray escaped: nothing in the scene was hit.
    Miss,
    /// A surface was hit and its material absorbed the ray.
    Absorbed,
    /// A surface was hit and its material produced a scattered ray.
    Scattered,
}

/// What the integrator does next with a traced ray.
#[derive(Clone, Copy, Debug, PartialEq, Eq, Structural)]
pub enum Step {
    /// Follow the scattered ray one level deeper, weighting by the attenuation.
    Bounce,
    /// The path contributes no light.
    Black,
    /// The path ends in the background gradient.
    Sky,
}

/// The step taken for a ray traced at `depth` that produced `trace`.
pub open spec fn step_spec(depth: nat, trace: Trace) -> Step {
    match trace {
        Trace::Miss => Step::Sky,
        Trace::Absorbed => Step::Black,
        Trace::Scattered => if depth < MAX_DEPTH { Step::Bounce } else { Step::Black },
    }
}

/// Decides how the radiance integrator continues after tracing a ray at `depth`.
pub fn next_step(depth: u32, trace: Trace) -> (r: Step)
    ensures
        r == step_spec(depth as nat, trace),
{
    match trace {
        Trace::Miss => Step::Sky,
        Trace::Absorbed => Step::Black,
        Trace::Scattered => if depth < MAX_DEPTH { Step::Bounce } else { Step::Black },
    }
}

/// How many scattered rays the integrator follows when the rays it traces,
/// starting at `depth`, produce `traces` in turn.
pub open spec fn bounces(depth: nat, traces: Seq<Trace>) -> nat
    decreases traces.len(),
{
    if traces.len() == 0 {
        0
    } else if step_spec(depth, traces[0]) == Step::Bounce {
        1 + bounces(depth + 1, traces.drop_first())
    } else {
        0
    }
}

/// Whatever the scene does to a path, the integrator follows at most
/// `MAX_DEPTH - depth` scattered rays from a ray traced at `depth`: light
/// trapped between surfaces cannot make the recursion run on.
pub proof fn lemma_bounces_capped(depth: nat, traces: Seq<Trace>)
    requires
        depth <= MAX_DEPTH,
    ensures
        bounces(depth, traces) <= MAX_DEPTH - depth,
    decreases traces.len(),
{
    if traces.len() > 0 && step_spec(depth, traces[0]) == Step::Bounce {
        lemma_bounces_capped(depth + 1, traces.drop_first());
    }
}

} // verus!
