//! The viewer's key-command layer: the keys a front end binds, the actions
//! they trigger, and the pure state changes each action makes to the view's
//! center, scale and step size. The front end owns the event loop; these
//! functions only compute the next view state.

use vstd::prelude::*;

verus! {

/// How many cells a single pan moves the view, per unit of scale.
pub const MOVEMENT_FACTOR: u64 = 4;

/// The smallest zoom-out factor.
pub const MIN_SCALE: u64 = 1;

/// The largest zoom-out factor.
pub const MAX_SCALE: u64 = 0x1_0000_0000_0000;

/// A key a front end can bind.
#[derive(Clone, Copy, Debug, PartialEq, Eq, Structural)]
pub enum Key {
    Char(char),
    Up,
    Down,
    Left,
    Right,
}

/// What a key does.
#[derive(Clone, Copy, Debug, PartialEq, Eq, Structural)]
pub enum Action {
    PanLeft,
    PanRight,
    PanUp,
    PanDown,
    IncreaseStep,
    DecreaseStep,
    IncreaseScale,
    DecreaseScale,
    ToggleSimulation,
    Quit,
}

/// One binding: the keys that trigger an action, and a label for help
/// text.
pub struct KeyCommand {
    pub keys: Vec<Key>,
    pub action: Action,
    pub description: &'static str,
}

/// The standard key bindings, in the order a help screen lists them.
pub fn key_commands() -> (r: Vec<KeyCommand>)
    ensures
        r@.len() == 10,
        r@[0].action == Action::PanUp,
        r@[1].action == Action::PanDown,
        r@[2].action == Action::PanLeft,
        r@[3].action == Action::PanRight,
        r@[4].action == Action::ToggleSimulation,
        r@[5].action == Action::IncreaseStep,
        r@[6].action == Action::DecreaseStep,
        r@[7].action == Action::IncreaseScale,
        r@[8].action == Action::DecreaseScale,
        r@[9].action == Action::Quit,
{
    let mut out: Vec<KeyCommand> = Vec::new();
    let mut keys: Vec<Key> = Vec::new();
    keys.push(Key::Up);
    keys.push(Key::Char('k'));
    out.push(KeyCommand { keys, action: Action::PanUp, description: "pan up" });
    let mut keys: Vec<Key> = Vec::new();
    keys.push(Key::Down);
    keys.push(Key::Char('j'));
    out.push(KeyCommand { keys, action: Action::PanDown, description: "pan down" });
    let mut keys: Vec<Key> = Vec::new();
    keys.push(Key::Left);
    keys.push(Key::Char('h'));
    out.push(KeyCommand { keys, action: Action::PanLeft, description: "pan left" });
    let mut keys: Vec<Key> = Vec::new();
    keys.push(Key::Right);
    keys.push(Key::Char('l'));
    out.push(KeyCommand { keys, action: Action::PanRight, description: "pan right" });
    let mut keys: Vec<Key> = Vec::new();
    keys.push(Key::Char(' '));
    out.push(
        KeyCommand {
            keys,
            action: Action::ToggleSimulation,
            description: "start/stop simulation",
        },
    );
    let mut keys: Vec<Key> = Vec::new();
    keys.push(Key::Char('='));
    keys.push(Key::Char('+'));
    out.push(
        KeyCommand {
            keys,
            action: Action::IncreaseStep,
            description: "increase step size by a factor of 2",
        },
    );
    let mut keys: Vec<Key> = Vec::new();
    keys.push(Key::Char('-'));
    keys.push(Key::Char('_'));
    out.push(
        KeyCommand {
            keys,
            action: Action::DecreaseStep,
            description: "decrease step size by a factor of 2",
        },
    );
    let mut keys: Vec<Key> = Vec::new();
    keys.push(Key::Char('['));
    out.push(KeyCommand { keys, action: Action::IncreaseScale, description: "zoom out" });
    let mut keys: Vec<Key> = Vec::new();
    keys.push(Key::Char(']'));
    out.push(KeyCommand { keys, action: Action::DecreaseScale, description: "zoom in" });
    let mut keys: Vec<Key> = Vec::new();
    keys.push(Key::Char('q'));
    out.push(KeyCommand { keys, action: Action::Quit, description: "quit" });
    out
}

/// Pans the view center south by one movement of the current scale.
pub fn pan_down(center: &mut (i64, i64), scale: u64)
    requires
        scale <= MAX_SCALE,
        old(center).1 + MOVEMENT_FACTOR * scale <= i64::MAX,
    ensures
        final(center).0 == old(center).0,
        final(center).1 == old(center).1 + MOVEMENT_FACTOR * scale,
{
    *center = (center.0, center.1 + (MOVEMENT_FACTOR * scale) as i64);
}

/// Pans the view center north by one movement of the current scale.
pub fn pan_up(center: &mut (i64, i64), scale: u64)
    requires
        scale <= MAX_SCALE,
        i64::MIN <= old(center).1 - MOVEMENT_FACTOR * scale,
    ensures
        final(center).0 == old(center).0,
        final(center).1 == old(center).1 - MOVEMENT_FACTOR * scale,
{
    *center = (center.0, center.1 - (MOVEMENT_FACTOR * scale) as i64);
}

/// Pans the view center west by one movement of the current scale.
pub fn pan_left(center: &mut (i64, i64), scale: u64)
    requires
        scale <= MAX_SCALE,
        i64::MIN <= old(center).0 - MOVEMENT_FACTOR * scale,
    ensures
        final(center).0 == old(center).0 - MOVEMENT_FACTOR * scale,
        final(center).1 == old(center).1,
{
    *center = (center.0 - (MOVEMENT_FACTOR * scale) as i64, center.1);
}

/// Pans the view center east by one movement of the current scale.
pub fn pan_right(center: &mut (i64, i64), scale: u64)
    requires
        scale <= MAX_SCALE,
        old(center).0 + MOVEMENT_FACTOR * scale <= i64::MAX,
    ensures
        final(center).0 == old(center).0 + MOVEMENT_FACTOR * scale,
        final(center).1 == old(center).1,
{
    *center = (center.0 + (MOVEMENT_FACTOR * scale) as i64, center.1);
}

/// Starts the simulation when stopped, and stops it when running.
pub fn toggle_simulation(is_running: &mut bool)
    ensures
        *final(is_running) == !*old(is_running),
{
    *is_running = !*is_running;
}

/// Doubles the zoom-out factor, saturating at the largest scale.
pub fn increase_scale(scale: &mut u64)
    ensures
        *final(scale) as int == (if *old(scale) < MAX_SCALE {
            *old(scale) * 2
        } else {
            *old(scale) as int
        }),
{
    if *scale < MAX_SCALE {
        *scale = *scale << 1u64;
        proof {
            vstd::arithmetic::power2::lemma2_to64();
            vstd::bits::lemma_u64_shl_is_mul(*old(scale), 1u64);
        }
    }
}

/// Halves the zoom-out factor, saturating at the smallest scale.
pub fn decrease_scale(scale: &mut u64)
    ensures
        *final(scale) == (if *old(scale) > MIN_SCALE {
            *old(scale) / 2
        } else {
            *old(scale)
        }),
{
    if *scale > MIN_SCALE {
        *scale = *scale >> 1u64;
        proof {
            vstd::arithmetic::power2::lemma2_to64();
            vstd::bits::lemma_u64_shr_is_div(*old(scale), 1u64);
        }
    }
}

/// Doubles the step size, saturating below 2^63 so that it always fits.
pub fn increase_step(step: &mut u64)
    ensures
        *final(step) as int == (if *old(step) < (1u64 << 63u64) {
            *old(step) * 2
        } else {
            *old(step) as int
        }),
{
    proof {
        vstd::arithmetic::power2::lemma2_to64_rest();
        vstd::bits::lemma_u64_pow2_no_overflow(63);
        vstd::bits::lemma_u64_shl_is_mul(1u64, 63u64);
    }
    if *step < (1u64 << 63u64) {
        *step = *step << 1u64;
        proof {
            vstd::arithmetic::power2::lemma2_to64();
            vstd::bits::lemma_u64_shl_is_mul(*old(step), 1u64);
        }
    }
}

/// Halves the step size, saturating at one generation per step.
pub fn decrease_step(step: &mut u64)
    ensures
        *final(step) == (if *old(step) > 1 {
            *old(step) / 2
        } else {
            *old(step)
        }),
{
    if *step > 1 {
        *step = *step >> 1u64;
        proof {
            vstd::arithmetic::power2::lemma2_to64();
            vstd::bits::lemma_u64_shr_is_div(*old(step), 1u64);
        }
    }
}

} // verus!
