//! A universe: exactly 512 channels under one id.
use vstd::prelude::*;

use crate::dmx_channel::{ChannelModel, DMXChannel};

verus! {

/// The number of channels in every universe.
pub const UNIVERSE_SIZE: usize = 512;

/// The abstract state of a universe.
pub struct UniverseModel {
    pub id: usize,
    pub channels: Seq<ChannelModel>,
}

impl UniverseModel {
    /// The universe after `set_channel(i, v)`: the base value of channel `i`
    /// becomes `v`, and an index outside the universe changes nothing.
    pub open spec fn set_value_at(self, i: int, v: u32) -> UniverseModel {
        if 0 <= i < self.channels.len() {
            UniverseModel { channels: self.channels.update(i, self.channels[i].with_value(v)), ..self }
        } else {
            self
        }
    }

    /// The universe after `set_override_channel(i, v)`.
    pub open spec fn set_override_at(self, i: int, v: u32) -> UniverseModel {
        if 0 <= i < self.channels.len() {
            UniverseModel { channels: self.channels.update(i, self.channels[i].with_override(v)), ..self }
        } else {
            self
        }
    }
}

#[derive(Debug)]
pub struct DMXUniverse {
    id: usize,
    channels: Vec<DMXChannel>,
}

impl View for DMXUniverse {
    type V = UniverseModel;

    closed spec fn view(&self) -> UniverseModel {
        UniverseModel { id: self.id, channels: self.channels@.map_values(|c: DMXChannel| c@) }
    }
}

impl DMXUniverse {
    #[verifier::type_invariant]
    spec fn full_size(self) -> bool {
        self.channels.len() == UNIVERSE_SIZE
    }

    /// A universe with the given id and 512 fresh channels.
    pub fn new(id: usize) -> (r: Self)
        ensures
            r@.id == id,
            r@.channels.len() == UNIVERSE_SIZE,
            forall|i: int| 0 <= i < UNIVERSE_SIZE ==> #[trigger] r@.channels[i] == ChannelModel::fresh(),
    {
        let mut channels: Vec<DMXChannel> = Vec::with_capacity(UNIVERSE_SIZE);
        let mut i: usize = 0;
        while i < UNIVERSE_SIZE
            invariant
                i <= UNIVERSE_SIZE,
                channels@.len() == i,
                forall|j: int| 0 <= j < i ==> (#[trigger] channels@[j])@ == ChannelModel::fresh(),
            decreases UNIVERSE_SIZE - i,
        {
            channels.push(DMXChannel::new());
            i = i + 1;
        }
        DMXUniverse { id, channels }
    }

    /// Sets the base value of channel `id`; an index outside the universe
    /// changes nothing.
    pub fn set_channel(&mut self, id: usize, val: u32) -> (r: &Self)
        ensures
            final(self)@ == old(self)@.set_value_at(id as int, val),
            final(self)@.channels.len() == UNIVERSE_SIZE,
            *r == *final(self),
    {
        proof {
            use_type_invariant(&*self);
        }
        if id < self.channels.len() {
            self.channels[id].set_val(val);
            assert(self@.channels =~= old(self)@.set_value_at(id as int, val).channels);
        } else {
            assert(self@.channels =~= old(self)@.channels);
        }
        self
    }

    /// Activates the override of channel `id` with `val`; an index outside
    /// the universe changes nothing.
    pub fn set_override_channel(&mut self, id: usize, val: u32) -> (r: &Self)
        ensures
            final(self)@ == old(self)@.set_override_at(id as int, val),
            final(self)@.channels.len() == UNIVERSE_SIZE,
            *r == *final(self),
    {
        proof {
            use_type_invariant(&*self);
        }
        if id < self.channels.len() {
            self.channels[id].override_val(val);
            assert(self@.channels =~= old(self)@.set_override_at(id as int, val).channels);
        } else {
            assert(self@.channels =~= old(self)@.channels);
        }
        self
    }

    /// The channel at `id`, or `None` outside the universe.
    pub fn get_channel(&self, id: usize) -> (r: Option<&DMXChannel>)
        ensures
            self@.channels.len() == UNIVERSE_SIZE,
            r.is_some() <==> id < UNIVERSE_SIZE,
            r.is_some() ==> r.unwrap()@ == self@.channels[id as int],
    {
        proof {
            use_type_invariant(self);
        }
        if id < self.channels.len() {
            Some(&self.channels[id])
        } else {
            None
        }
    }

    pub fn get_id(&self) -> (r: usize)
        ensures
            r == self@.id,
    {
        self.id
    }
}

impl Clone for DMXUniverse {
    fn clone(&self) -> (r: Self)
        ensures
            r@ == self@,
    {
        proof {
            use_type_invariant(self);
        }
        let r = DMXUniverse { id: self.id, channels: self.channels.clone() };
        assert(r@.channels =~= self@.channels);
        r
    }
}

/// Two universes are equal when their ids are, whatever their channels hold.
impl PartialEq for DMXUniverse {
    fn eq(&self, other: &DMXUniverse) -> (r: bool)
        ensures
            r == (self@.id == other@.id),
    {
        self.id == other.id
    }
}

impl vstd::std_specs::cmp::PartialEqSpecImpl for DMXUniverse {
    open spec fn obeys_eq_spec() -> bool {
        true
    }

    open spec fn eq_spec(&self, other: &DMXUniverse) -> bool {
        self@.id == other@.id
    }
}

/// In a universe of 512 channels, a value written to any channel in range
/// without an active override is the value read back from it.
pub proof fn lemma_set_channel_then_read(u: UniverseModel, i: int, v: u32)
    requires
        u.channels.len() == UNIVERSE_SIZE,
        0 <= i < UNIVERSE_SIZE,
        !u.channels[i].override_active,
    ensures
        u.set_value_at(i, v).channels[i].effective() == v,
        u.set_value_at(i, v).channels.len() == UNIVERSE_SIZE,
{
}

/// A write to an index at or past 512 changes nothing, and the universe
/// keeps its 512 channels.
pub proof fn lemma_set_channel_out_of_range(u: UniverseModel, i: int, v: u32)
    requires
        u.channels.len() == UNIVERSE_SIZE,
        i >= UNIVERSE_SIZE,
    ensures
        u.set_value_at(i, v) == u,
        u.set_override_at(i, v) == u,
        u.set_value_at(i, v).channels.len() == UNIVERSE_SIZE,
{
}

} // verus!
