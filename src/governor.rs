//! The governor: a state machine choosing the inference tier from system
//! pressure, with hysteresis on downgrades of pressure.
use vstd::prelude::*;

verus! {

/// The inference tier, from the richest to the most frugal.
#[derive(Debug, Clone, Copy, PartialEq, Eq, Structural)]
pub enum GovernorState {
    GodMode,
    Conscientious,
    SidekickMode,
    PotatoMode,
}

/// How long a state must hold before the governor may relax to a lower rank
/// (30 s), in milliseconds.
pub const GOVERNOR_HYSTERESIS_MS: u64 = 30_000;

/// Below this much free memory (2 GiB) the governor drops to `PotatoMode`.
pub const LOW_MEMORY_BYTES: u64 = 2_147_483_648;

pub open spec fn rank_of(s: GovernorState) -> int {
    match s {
        GovernorState::GodMode => 0,
        GovernorState::Conscientious => 1,
        GovernorState::SidekickMode => 2,
        GovernorState::PotatoMode => 3,
    }
}

/// The state that the readings call for.
pub open spec fn target_state(free_ram_bytes: u64, is_gaming: bool, vram_pressure: bool) -> GovernorState {
    if free_ram_bytes < LOW_MEMORY_BYTES {
        GovernorState::PotatoMode
    } else if is_gaming {
        GovernorState::SidekickMode
    } else if vram_pressure {
        GovernorState::Conscientious
    } else {
        GovernorState::GodMode
    }
}

/// The governor: its state, and when (in milliseconds on the caller's
/// monotonic clock) that state was entered.
pub struct Governor {
    current_state: GovernorState,
    last_state_change_ms: u64,
}

impl Governor {
    pub closed spec fn state(&self) -> GovernorState {
        self.current_state
    }

    pub closed spec fn changed_at(&self) -> u64 {
        self.last_state_change_ms
    }

    /// A governor in `GodMode`, entered at time 0 of the caller's clock.
    pub fn new() -> (r: Self)
        ensures
            r.state() == GovernorState::GodMode,
            r.changed_at() == 0,
    {
        Governor { current_state: GovernorState::GodMode, last_state_change_ms: 0 }
    }

    /// The current state.
    pub fn current_state(&self) -> (r: GovernorState)
        ensures
            r == self.state(),
    {
        self.current_state
    }

    /// The rank of a state: 0 for `GodMode` up to 3 for `PotatoMode`.
    pub fn rank(&self, state: &GovernorState) -> (r: u8)
        ensures
            r == rank_of(*state),
    {
        match state {
            GovernorState::GodMode => 0,
            GovernorState::Conscientious => 1,
            GovernorState::SidekickMode => 2,
            GovernorState::PotatoMode => 3,
        }
    }

    fn commit_transition(&mut self, new_state: GovernorState, now_ms: u64) -> (r: GovernorState)
        ensures
            r == new_state,
            final(self).state() == new_state,
            final(self).changed_at() == now_ms,
    {
        self.current_state = new_state;
        self.last_state_change_ms = now_ms;
        new_state
    }

    /// Moves toward `target` at time `now_ms`: at once to a higher rank;
    /// to a lower rank only once the current state has held for longer than
    /// `GOVERNOR_HYSTERESIS_MS`. Returns the state after the call.
    pub fn transition_checked(&mut self, target: GovernorState, now_ms: u64) -> (r: GovernorState)
        ensures
            r == final(self).state(),
            ({
                let moves = target != old(self).state() && (rank_of(target) > rank_of(
                    old(self).state(),
                ) || now_ms - old(self).changed_at() > GOVERNOR_HYSTERESIS_MS);
                if moves {
                    final(self).state() == target && final(self).changed_at() == now_ms
                } else {
                    final(self).state() == old(self).state() && final(self).changed_at() == old(
                        self,
                    ).changed_at()
                }
            }),
    {
        if target == self.current_state {
            return self.current_state;
        }
        let current_rank = self.rank(&self.current_state);
        let target_rank = self.rank(&target);
        if target_rank > current_rank {
            return self.commit_transition(target, now_ms);
        }
        let elapsed: u64 = if now_ms >= self.last_state_change_ms {
            now_ms - self.last_state_change_ms
        } else {
            0
        };
        if now_ms >= self.last_state_change_ms && elapsed > GOVERNOR_HYSTERESIS_MS {
            return self.commit_transition(target, now_ms);
        }
        self.current_state
    }

    /// Chooses the state for the readings (see `target_state`) and moves
    /// toward it as `transition_checked` does.
    pub fn decide_state(
        &mut self,
        free_ram_bytes: u64,
        is_gaming: bool,
        vram_pressure: bool,
        now_ms: u64,
    ) -> (r: GovernorState)
        ensures
            r == final(self).state(),
            ({
                let target = target_state(free_ram_bytes, is_gaming, vram_pressure);
                let moves = target != old(self).state() && (rank_of(target) > rank_of(
                    old(self).state(),
                ) || now_ms - old(self).changed_at() > GOVERNOR_HYSTERESIS_MS);
                if moves {
                    final(self).state() == target && final(self).changed_at() == now_ms
                } else {
                    final(self).state() == old(self).state() && final(self).changed_at() == old(
                        self,
                    ).changed_at()
                }
            }),
    {
        if free_ram_bytes < LOW_MEMORY_BYTES {
            return self.transition_checked(GovernorState::PotatoMode, now_ms);
        }
        if is_gaming {
            return self.transition_checked(GovernorState::SidekickMode, now_ms);
        }
        if vram_pressure {
            return self.transition_checked(GovernorState::Conscientious, now_ms);
        }
        self.transition_checked(GovernorState::GodMode, now_ms)
    }
}

} // verus!
