//! What the console shows: chat messages, status lines, and replies.
use vstd::prelude::*;
use crate::governor::GovernorState;
use crate::lobotomy::AppCategory;
use crate::text::{contains_text, text_contains};

verus! {

/// One line of the chat history.
#[derive(Debug, Clone)]
pub struct ChatMessage {
    pub sender: String,
    pub content: String,
    pub timestamp: String,
}

/// The events the console reacts to.
#[derive(Debug, Clone)]
pub enum Message {
    Tick,
    ToggleOverride,
    InputChanged(String),
    SendChat,
}

/// What a task reported by the model is doing.
#[derive(Debug, Clone, Copy, PartialEq, Eq, Structural)]
pub enum TaskStatus {
    Active,
    Complete,
    Blocked,
    ClarificationNeeded,
}

/// The status line for a context.
pub open spec fn status_text(c: AppCategory) -> Seq<char> {
    match c {
        AppCategory::Game => "CONTEXT: GAMING"@,
        AppCategory::Production => "CONTEXT: CREATIVE"@,
        AppCategory::Development => "CONTEXT: DEV"@,
        _ => "CONTEXT: GENERAL"@,
    }
}

/// The context and status line of a tick; the debug override simulates a
/// game.
pub fn tick_status(context: AppCategory, debug_override: bool) -> (r: (AppCategory, String))
    ensures
        debug_override ==> r.0 == AppCategory::Game && r.1@ == "SIMULATION: GAMING"@,
        !debug_override ==> r.0 == context && r.1@ == status_text(context),
{
    if debug_override {
        return (AppCategory::Game, String::from_str("SIMULATION: GAMING"));
    }
    let s = match context {
        AppCategory::Game => "CONTEXT: GAMING",
        AppCategory::Production => "CONTEXT: CREATIVE",
        AppCategory::Development => "CONTEXT: DEV",
        _ => "CONTEXT: GENERAL",
    };
    (context, String::from_str(s))
}

/// The name shown for a governor state.
pub open spec fn state_label(s: GovernorState) -> Seq<char> {
    match s {
        GovernorState::GodMode => "GOD MODE"@,
        GovernorState::Conscientious => "CONSCIENTIOUS"@,
        GovernorState::SidekickMode => "SIDEKICK"@,
        GovernorState::PotatoMode => "POTATO"@,
    }
}

/// The brain line: the state's name and the model in brackets.
pub fn brain_state(state: GovernorState, model: &str) -> (r: String)
    ensures
        r@ == state_label(state) + " ["@ + model@ + "]"@,
{
    let label = match state {
        GovernorState::GodMode => "GOD MODE",
        GovernorState::Conscientious => "CONSCIENTIOUS",
        GovernorState::SidekickMode => "SIDEKICK",
        GovernorState::PotatoMode => "POTATO",
    };
    String::from_str(label).concat(" [").concat(model).concat("]")
}

/// The reply to a chat message, given the name of the loaded model.
pub open spec fn reply_text(user_msg: Seq<char>, model: Seq<char>) -> Seq<char> {
    if text_contains(model, "MISSING"@) {
        "Error: Neural weights not found in /usr/share/cartesian/models/"@
    } else {
        "I received: '"@ + user_msg + "'. (Inference Engine Stub)"@
    }
}

/// The reply to a chat message, given the name of the loaded model.
pub fn chat_reply(user_msg: &str, current_model: &str) -> (r: String)
    ensures
        r@ == reply_text(user_msg@, current_model@),
{
    if contains_text(current_model, "MISSING") {
        String::from_str("Error: Neural weights not found in /usr/share/cartesian/models/")
    } else {
        String::from_str("I received: '").concat(user_msg).concat("'. (Inference Engine Stub)")
    }
}

} // verus!
