//! Which model the inference engine should hold for a governor state.
use vstd::prelude::*;
use crate::config::{MODEL_GOD, MODEL_SIDEKICK};
use crate::governor::GovernorState;
use crate::text::same_text;

verus! {

/// What the engine must do to serve a governor state.
#[derive(Debug, Clone, PartialEq, Eq)]
pub enum ModelPlan {
    /// Drop the loaded model.
    Unload,
    /// The right model is already loaded.
    Keep,
    /// Load the named model, on the GPU or not.
    Load { model: String, use_gpu: bool },
}

/// The model file and GPU use for a state; none for `PotatoMode`.
pub open spec fn model_for(state: GovernorState) -> Option<(Seq<char>, bool)> {
    match state {
        GovernorState::GodMode => Some((MODEL_GOD@, true)),
        GovernorState::Conscientious => Some((MODEL_SIDEKICK@, false)),
        GovernorState::SidekickMode => Some((MODEL_SIDEKICK@, false)),
        GovernorState::PotatoMode => None,
    }
}

/// The plan for moving from the model named `current_model` to what `state`
/// calls for.
pub fn plan_for_state(state: GovernorState, current_model: &str) -> (r: ModelPlan)
    ensures
        match model_for(state) {
            None => r is Unload,
            Some((m, gpu)) => if current_model@ == m {
                r is Keep
            } else {
                r matches ModelPlan::Load { model, use_gpu } && model@ == m && use_gpu == gpu
            },
        },
{
    let (target, use_gpu) = match state {
        GovernorState::GodMode => (MODEL_GOD, true),
        GovernorState::Conscientious => (MODEL_SIDEKICK, false),
        GovernorState::SidekickMode => (MODEL_SIDEKICK, false),
        GovernorState::PotatoMode => {
            return ModelPlan::Unload;
        },
    };
    if same_text(current_model, target) {
        ModelPlan::Keep
    } else {
        ModelPlan::Load { model: String::from_str(target), use_gpu }
    }
}

} // verus!
