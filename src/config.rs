//! Paths, model names and heuristics shared across the system.
use vstd::prelude::*;

verus! {

/// The file in which the process registry is kept.
pub const REGISTRY_PATH: &'static str = "process_registry.json";

/// The large model, for when the machine is free.
pub const MODEL_GOD: &'static str = "gemma-9b-it.gguf";

/// The small model, for when the machine is busy.
pub const MODEL_SIDEKICK: &'static str = "gemma-2b-it.gguf";

/// The embedding model.
pub const MODEL_EMBEDDING: &'static str = "all-MiniLM-L6-v2.safetensors";

/// Time between ticks of the main loop, in milliseconds.
pub const TICK_RATE_MS: u64 = 500;

/// Relies on `std::path::MAIN_SEPARATOR`: the separator of path components
/// on the platform the program was built for, `\` on Windows.
#[verifier::external_body]
fn main_separator() -> (r: char)
    ensures
        r == '\\' || r == '/',
{
    std::path::MAIN_SEPARATOR
}

/// The model directory for a platform: next to the executable on Windows,
/// the system share directory elsewhere.
pub open spec fn model_dir_for(windows: bool) -> Seq<char> {
    if windows {
        ".\\models\\"@
    } else {
        "/usr/share/cartesian/models/"@
    }
}

/// The model directory for a platform whose path separator is `sep`: the
/// Windows directory where it is `\`, the Unix one otherwise.
pub fn model_dir_for_separator(sep: char) -> (r: String)
    ensures
        r@ == model_dir_for(sep == '\\'),
{
    if sep == '\\' {
        String::from_str(".\\models\\")
    } else {
        String::from_str("/usr/share/cartesian/models/")
    }
}

/// Where model files are looked for on this platform (see
/// `model_dir_for_separator`).
pub fn get_model_dir() -> (r: String)
    ensures
        r@ == model_dir_for(true) || r@ == model_dir_for(false),
{
    model_dir_for_separator(main_separator())
}

} // verus!
