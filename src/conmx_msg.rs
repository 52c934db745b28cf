//! The messages of the controller's user interface, and what they do to the
//! universes.
use vstd::prelude::*;

use crate::dmx::DMX;

verus! {

#[derive(Debug, Clone, Copy, PartialEq, Eq, Structural)]
pub enum ViewMain {
    Fixtures,
    Direct,
}

#[derive(Debug, Clone, Copy, PartialEq, Eq, Structural)]
pub enum ConMXMsg {
    Grid,
    SwitchTab(ViewMain),
    ButtonPressed,
    /// A fader moved: universe id, channel index, new value.
    SliderChange(usize, usize, u32),
    RandomChange,
}

/// Applies `msg` to the universes. A fader change sets the base value of
/// the channel in the universe it names; it returns `false`, and changes
/// nothing, when no universe has that id. Every other message leaves the
/// universes as they are and returns `true`.
pub fn update_dmx(dmx: &mut DMX, msg: ConMXMsg) -> (r: bool)
    ensures
        match msg {
            ConMXMsg::SliderChange(u, c, v) => {
                &&& r == old(dmx)@.contains_key(u)
                &&& final(dmx)@ == if r {
                    old(dmx)@.insert(u, old(dmx)@[u].set_value_at(c as int, v))
                } else {
                    old(dmx)@
                }
            },
            _ => r && final(dmx)@ == old(dmx)@,
        },
{
    match msg {
        ConMXMsg::SliderChange(universe, channel, value) => match dmx.get_universe(universe) {
            Some(u) => {
                u.set_channel(channel, value);
                true
            },
            None => false,
        },
        _ => true,
    }
}

} // verus!
