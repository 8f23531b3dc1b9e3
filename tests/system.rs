use cartesian_core::config::{get_model_dir, model_dir_for_separator};
use cartesian_core::console::{brain_state, chat_reply, tick_status, TaskStatus};
use cartesian_core::engine::{plan_for_state, ModelPlan};
use cartesian_core::governor::{Governor, GovernorState};
use cartesian_core::lobotomy::{categorize, default_registry, lookup, system_context, AppCategory};
use cartesian_core::witness::parse_frame;

#[test]
fn model_dir_on_this_platform() {
    let dir = get_model_dir();
    if std::path::MAIN_SEPARATOR == '\\' {
        assert_eq!(dir, ".\\models\\");
    } else {
        assert_eq!(dir, "/usr/share/cartesian/models/");
    }
    assert_eq!(get_model_dir(), dir);
    assert_eq!(model_dir_for_separator('/'), "/usr/share/cartesian/models/");
    assert_eq!(model_dir_for_separator('\\'), ".\\models\\");
}

#[test]
fn governor_ranks() {
    let g = Governor::new();
    assert_eq!(g.current_state(), GovernorState::GodMode);
    assert_eq!(g.rank(&GovernorState::GodMode), 0);
    assert_eq!(g.rank(&GovernorState::Conscientious), 1);
    assert_eq!(g.rank(&GovernorState::SidekickMode), 2);
    assert_eq!(g.rank(&GovernorState::PotatoMode), 3);
}

#[test]
fn governor_escalates_at_once_and_relaxes_after_hysteresis() {
    let mut g = Governor::new();
    assert_eq!(g.decide_state(8 << 30, true, false, 1_000), GovernorState::SidekickMode);
    // Relaxing needs the state to have held for more than 30 s.
    assert_eq!(g.decide_state(8 << 30, false, false, 20_000), GovernorState::SidekickMode);
    assert_eq!(g.decide_state(8 << 30, false, false, 31_000), GovernorState::SidekickMode);
    assert_eq!(g.decide_state(8 << 30, false, false, 31_001), GovernorState::GodMode);
    // Low memory wins over everything.
    assert_eq!(g.decide_state((2 << 30) - 1, true, true, 31_002), GovernorState::PotatoMode);
    assert_eq!(g.decide_state(2 << 30, false, true, 40_000), GovernorState::PotatoMode);
    assert_eq!(g.transition_checked(GovernorState::Conscientious, 61_003), GovernorState::Conscientious);
}

#[test]
fn plans_follow_the_state() {
    assert_eq!(plan_for_state(GovernorState::PotatoMode, "gemma-2b-it.gguf"), ModelPlan::Unload);
    assert_eq!(plan_for_state(GovernorState::GodMode, "gemma-9b-it.gguf"), ModelPlan::Keep);
    assert_eq!(
        plan_for_state(GovernorState::GodMode, "None"),
        ModelPlan::Load { model: "gemma-9b-it.gguf".to_string(), use_gpu: true }
    );
    assert_eq!(
        plan_for_state(GovernorState::Conscientious, ""),
        ModelPlan::Load { model: "gemma-2b-it.gguf".to_string(), use_gpu: false }
    );
    assert_eq!(plan_for_state(GovernorState::SidekickMode, "gemma-2b-it.gguf"), ModelPlan::Keep);
}

fn frame(status: u8, w: u32, h: u32, id: u64, pixels: usize) -> Vec<u8> {
    let mut b = vec![0u8; 24];
    b[0] = status;
    b[4..8].copy_from_slice(&w.to_le_bytes());
    b[8..12].copy_from_slice(&h.to_le_bytes());
    b[16..24].copy_from_slice(&id.to_le_bytes());
    for i in 0..pixels {
        b.push(i as u8);
    }
    b
}

#[test]
fn parses_a_new_frame() {
    let b = frame(1, 2, 3, 7, 30);
    let (id, f) = parse_frame(&b, 6).unwrap();
    assert_eq!(id, 7);
    assert_eq!((f.width, f.height), (2, 3));
    assert_eq!(f.data, (0..24u8).collect::<Vec<u8>>());
}

#[test]
fn skips_busy_old_or_short_frames() {
    assert!(parse_frame(&frame(0, 2, 3, 7, 24), 6).is_none());
    assert!(parse_frame(&frame(1, 2, 3, 7, 24), 7).is_none());
    assert!(parse_frame(&frame(1, 2, 3, 7, 23), 6).is_none());
    assert!(parse_frame(&[1u8; 10], 0).is_none());
    assert!(parse_frame(&frame(1, u32::MAX, u32::MAX, 9, 4), 0).is_none());
    let (_, f) = parse_frame(&frame(1, 0x0102, 0, 0x0102030405060708, 0), 0).unwrap();
    assert_eq!(f.width, 258);
    assert!(f.data.is_empty());
}

#[test]
fn categorizes_processes() {
    let reg = default_registry();
    assert_eq!(categorize("steam", &reg), Some(AppCategory::Game));
    assert_eq!(categorize("steamwebhelper", &reg), Some(AppCategory::Game));
    assert_eq!(categorize("blender", &reg), Some(AppCategory::Production));
    assert_eq!(categorize("nvim", &reg), Some(AppCategory::Development));
    assert_eq!(categorize("firefox", &reg), Some(AppCategory::Web));
    assert_eq!(categorize("firefox-bin", &reg), None);
    assert_eq!(categorize("bash", &reg), None);
    assert_eq!(lookup(&reg, "firefox"), Some(AppCategory::Web));
}

#[test]
fn dominant_category_and_unknown_apps() {
    let mut reg = default_registry();
    reg.push(("spotify".to_string(), AppCategory::Media));
    let procs = vec![
        ("bash".to_string(), 1_000),
        ("bigtool".to_string(), 60_000_000),
        ("code".to_string(), 90_000_000),
        ("spotify".to_string(), 90_000_000),
        ("gimp".to_string(), 10),
    ];
    let (cat, unknown) = system_context(&procs, &reg);
    assert_eq!(cat, AppCategory::Production);
    assert_eq!(unknown, vec!["bigtool".to_string()]);
    let (cat, unknown) = system_context(&vec![("firefox".to_string(), 1)], &reg);
    assert_eq!(cat, AppCategory::System);
    assert!(unknown.is_empty());
    let (cat, _) = system_context(&vec![("cs2".to_string(), 1), ("gimp".to_string(), 1)], &reg);
    assert_eq!(cat, AppCategory::Game);
}

#[test]
fn console_lines() {
    assert_eq!(tick_status(AppCategory::Game, false), (AppCategory::Game, "CONTEXT: GAMING".to_string()));
    assert_eq!(tick_status(AppCategory::Development, false).1, "CONTEXT: DEV");
    assert_eq!(tick_status(AppCategory::Web, false).1, "CONTEXT: GENERAL");
    assert_eq!(tick_status(AppCategory::Web, true), (AppCategory::Game, "SIMULATION: GAMING".to_string()));
    assert_eq!(brain_state(GovernorState::GodMode, "gemma-9b-it.gguf"), "GOD MODE [gemma-9b-it.gguf]");
    assert_eq!(brain_state(GovernorState::PotatoMode, "None"), "POTATO [None]");
    assert_eq!(chat_reply("hi", "gemma-2b-it.gguf"), "I received: 'hi'. (Inference Engine Stub)");
    assert_eq!(
        chat_reply("hi", "ERROR_MISSING_FILE"),
        "Error: Neural weights not found in /usr/share/cartesian/models/"
    );
    assert_ne!(TaskStatus::Active, TaskStatus::Blocked);
}
