//! Classification of running processes into application categories, and
//! the category that dominates the machine.
use vstd::prelude::*;
use crate::text::{contains_text, same_text, text_contains};

verus! {

/// What kind of application a process belongs to.
#[derive(Debug, Clone, Copy, PartialEq, Eq, Hash, Structural)]
pub enum AppCategory {
    Game,
    Production,
    Development,
    Web,
    Media,
    System,
    Unknown,
}

/// A process not otherwise known is reported once it uses more memory than
/// this many bytes.
pub const UNKNOWN_APP_MIN_MEMORY: u64 = 50_000_000;

/// Name fragments of game launchers and games.
pub open spec fn game_words() -> Seq<Seq<char>> {
    seq![
        "steam"@,
        "lutris"@,
        "heroic"@,
        "wineserver"@,
        "gamescope"@,
        "yuzu"@,
        "ryujinx"@,
        "dota2"@,
        "cs2"@,
        "factorio"@,
    ]
}

/// Name fragments of creative tools.
pub open spec fn creative_words() -> Seq<Seq<char>> {
    seq!["blender"@, "resolve"@, "obs"@, "gimp"@, "krita"@, "godot"@, "unity"@]
}

/// Name fragments of development tools.
pub open spec fn dev_words() -> Seq<Seq<char>> {
    seq!["code"@, "zed"@, "nvim"@, "alacritty"@, "cargo"@, "powershell"@, "cmd"@]
}

/// Whether the name contains one of the fragments.
pub open spec fn matches_any(name: Seq<char>, words: Seq<Seq<char>>) -> bool {
    exists|i: int| 0 <= i < words.len() && text_contains(name, #[trigger] words[i])
}

/// The category the registry gives a process name (its last entry for it).
pub open spec fn registry_lookup(reg: Seq<(String, AppCategory)>, name: Seq<char>) -> Option<AppCategory>
    decreases reg.len(),
{
    if reg.len() == 0 {
        None
    } else if reg.last().0@ == name {
        Some(reg.last().1)
    } else {
        registry_lookup(reg.drop_last(), name)
    }
}

/// The category of a process by its lower-case name: the built-in fragment
/// lists first (games, creative tools, development tools), then the registry.
pub open spec fn category_of(name: Seq<char>, reg: Seq<(String, AppCategory)>) -> Option<AppCategory> {
    if matches_any(name, game_words()) {
        Some(AppCategory::Game)
    } else if matches_any(name, creative_words()) {
        Some(AppCategory::Production)
    } else if matches_any(name, dev_words()) {
        Some(AppCategory::Development)
    } else {
        registry_lookup(reg, name)
    }
}

/// Whether some process falls in category `c`.
pub open spec fn any_in(procs: Seq<(String, u64)>, reg: Seq<(String, AppCategory)>, c: AppCategory) -> bool {
    exists|i: int| 0 <= i < procs.len() && category_of((#[trigger] procs[i]).0@, reg) == Some(c)
}

/// The dominant category: games over creative tools over development tools;
/// `System` where none of them runs.
pub open spec fn dominant_of(procs: Seq<(String, u64)>, reg: Seq<(String, AppCategory)>) -> AppCategory {
    if any_in(procs, reg, AppCategory::Game) {
        AppCategory::Game
    } else if any_in(procs, reg, AppCategory::Production) {
        AppCategory::Production
    } else if any_in(procs, reg, AppCategory::Development) {
        AppCategory::Development
    } else {
        AppCategory::System
    }
}

/// The names of the processes without a category that use more than
/// `UNKNOWN_APP_MIN_MEMORY` bytes, in order.
pub open spec fn unknown_apps(procs: Seq<(String, u64)>, reg: Seq<(String, AppCategory)>) -> Seq<Seq<char>>
    decreases procs.len(),
{
    if procs.len() == 0 {
        Seq::empty()
    } else {
        let prev = unknown_apps(procs.drop_last(), reg);
        let p = procs.last();
        if category_of(p.0@, reg) is None && p.1 > UNKNOWN_APP_MIN_MEMORY {
            prev.push(p.0@)
        } else {
            prev
        }
    }
}

fn word_list(which: u8) -> (r: Vec<&'static str>)
    ensures
        which == 0 ==> r@.map_values(|s: &str| s@) == game_words(),
        which == 1 ==> r@.map_values(|s: &str| s@) == creative_words(),
        which != 0 && which != 1 ==> r@.map_values(|s: &str| s@) == dev_words(),
{
    let mut v: Vec<&'static str> = Vec::new();
    if which == 0 {
        v.push("steam");
        v.push("lutris");
        v.push("heroic");
        v.push("wineserver");
        v.push("gamescope");
        v.push("yuzu");
        v.push("ryujinx");
        v.push("dota2");
        v.push("cs2");
        v.push("factorio");
        assert(v@.map_values(|s: &str| s@) =~= game_words());
    } else if which == 1 {
        v.push("blender");
        v.push("resolve");
        v.push("obs");
        v.push("gimp");
        v.push("krita");
        v.push("godot");
        v.push("unity");
        assert(v@.map_values(|s: &str| s@) =~= creative_words());
    } else {
        v.push("code");
        v.push("zed");
        v.push("nvim");
        v.push("alacritty");
        v.push("cargo");
        v.push("powershell");
        v.push("cmd");
        assert(v@.map_values(|s: &str| s@) =~= dev_words());
    }
    v
}

fn contains_any(name: &str, words: &Vec<&'static str>) -> (r: bool)
    ensures
        r == matches_any(name@, words@.map_values(|s: &str| s@)),
{
    let ghost ws = words@.map_values(|s: &str| s@);
    let mut i: usize = 0;
    while i < words.len()
        invariant
            ws == words@.map_values(|s: &str| s@),
            i <= words@.len(),
            forall|j: int| 0 <= j < i ==> !text_contains(name@, #[trigger] ws[j]),
        decreases words@.len() - i,
    {
        if contains_text(name, words[i]) {
            assert(text_contains(name@, ws[i as int]));
            return true;
        }
        i = i + 1;
    }
    false
}

/// The category the registry gives `name`.
pub fn lookup(registry: &Vec<(String, AppCategory)>, name: &str) -> (r: Option<AppCategory>)
    ensures
        r == registry_lookup(registry@, name@),
{
    let mut i = registry.len();
    assert(registry@.subrange(0, i as int) =~= registry@);
    while i > 0
        invariant
            i <= registry@.len(),
            registry_lookup(registry@, name@) == registry_lookup(
                registry@.subrange(0, i as int),
                name@,
            ),
        decreases i,
    {
        if same_text(registry[i - 1].0.as_str(), name) {
            return Some(registry[i - 1].1);
        }
        assert(registry@.subrange(0, i as int).drop_last() =~= registry@.subrange(0, i - 1));
        i = i - 1;
    }
    None
}

/// The category of a process by its lower-case name (see `category_of`).
pub fn categorize(name: &str, registry: &Vec<(String, AppCategory)>) -> (r: Option<AppCategory>)
    ensures
        r == category_of(name@, registry@),
{
    if contains_any(name, &word_list(0)) {
        Some(AppCategory::Game)
    } else if contains_any(name, &word_list(1)) {
        Some(AppCategory::Production)
    } else if contains_any(name, &word_list(2)) {
        Some(AppCategory::Development)
    } else {
        lookup(registry, name)
    }
}

/// The registry used where none can be loaded: Firefox is a web browser.
pub fn default_registry() -> (r: Vec<(String, AppCategory)>)
    ensures
        r@.len() == 1,
        r@[0].0@ == "firefox"@,
        r@[0].1 == AppCategory::Web,
{
    let mut r: Vec<(String, AppCategory)> = Vec::new();
    r.push((String::from_str("firefox"), AppCategory::Web));
    r
}

/// The dominant category of the running processes, given as lower-case name
/// and memory in bytes, and the names of the large processes nothing
/// classifies.
pub fn system_context(processes: &Vec<(String, u64)>, registry: &Vec<(String, AppCategory)>) -> (r: (
    AppCategory,
    Vec<String>,
))
    ensures
        r.0 == dominant_of(processes@, registry@),
        r.1@.map_values(|s: String| s@) == unknown_apps(processes@, registry@),
{
    let mut game = false;
    let mut production = false;
    let mut development = false;
    let mut unknown: Vec<String> = Vec::new();
    let mut i: usize = 0;
    assert(unknown@.map_values(|s: String| s@) =~= unknown_apps(processes@.subrange(0, 0), registry@));
    while i < processes.len()
        invariant
            i <= processes@.len(),
            game == any_in(processes@.subrange(0, i as int), registry@, AppCategory::Game),
            production == any_in(processes@.subrange(0, i as int), registry@, AppCategory::Production),
            development == any_in(processes@.subrange(0, i as int), registry@, AppCategory::Development),
            unknown@.map_values(|s: String| s@) == unknown_apps(processes@.subrange(0, i as int), registry@),
        decreases processes@.len() - i,
    {
        let ghost pre = processes@.subrange(0, i as int);
        let ghost post = processes@.subrange(0, i + 1);
        assert(post.drop_last() =~= pre);
        assert(post.last() == processes@[i as int]);
        let p = &processes[i];
        let c = categorize(p.0.as_str(), registry);
        let ghost before = unknown@;
        match c {
            Some(AppCategory::Game) => {
                game = true;
            },
            Some(AppCategory::Production) => {
                production = true;
            },
            Some(AppCategory::Development) => {
                development = true;
            },
            Some(_) => {},
            None => {
                if p.1 > UNKNOWN_APP_MIN_MEMORY {
                    unknown.push(String::from_str(p.0.as_str()));
                    assert(unknown@.map_values(|s: String| s@) =~= before.map_values(
                        |s: String| s@,
                    ).push(p.0@));
                }
            },
        }
        proof {
            assert forall|cat: AppCategory| #[trigger] any_in(post, registry@, cat) == (any_in(
                pre,
                registry@,
                cat,
            ) || category_of(p.0@, registry@) == Some(cat)) by {
                if any_in(pre, registry@, cat) {
                    let j = choose|j: int| 0 <= j < pre.len() && category_of((#[trigger] pre[j]).0@, registry@) == Some(cat);
                    assert(post[j] == pre[j]);
                }
                if any_in(post, registry@, cat) {
                    let j = choose|j: int| 0 <= j < post.len() && category_of((#[trigger] post[j]).0@, registry@) == Some(cat);
                    if j < pre.len() {
                        assert(post[j] == pre[j]);
                    }
                }
                if category_of(p.0@, registry@) == Some(cat) {
                    assert(post[i as int] == processes@[i as int]);
                }
            }
        }
        i = i + 1;
    }
    assert(processes@.subrange(0, i as int) =~= processes@);
    let dominant = if game {
        AppCategory::Game
    } else if production {
        AppCategory::Production
    } else if development {
        AppCategory::Development
    } else {
        AppCategory::System
    };
    (dominant, unknown)
}

} // verus!
