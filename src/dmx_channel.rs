//! A single addressable DMX value with an override layer on top of it.
use vstd::prelude::*;

verus! {

/// The abstract state of a channel.
pub struct ChannelModel {
    pub value: u32,
    pub override_value: u32,
    pub override_active: bool,
}

impl ChannelModel {
    /// What a reader of the channel sees: the override while it is active,
    /// the base value otherwise.
    pub open spec fn effective(self) -> u32 {
        if self.override_active {
            self.override_value
        } else {
            self.value
        }
    }

    /// The channel after its base value is set to `v`.
    pub open spec fn with_value(self, v: u32) -> ChannelModel {
        ChannelModel { value: v, ..self }
    }

    /// The channel after an override with `v` is activated.
    pub open spec fn with_override(self, v: u32) -> ChannelModel {
        ChannelModel { override_value: v, override_active: true, ..self }
    }

    /// The channel after its override is deactivated.
    pub open spec fn reverted(self) -> ChannelModel {
        ChannelModel { override_active: false, ..self }
    }

    /// A channel as it is created: base value 0, no override.
    pub open spec fn fresh() -> ChannelModel {
        ChannelModel { value: 0, override_value: 0, override_active: false }
    }
}

#[derive(Debug, Clone, Copy, PartialEq, Eq, Structural)]
pub struct DMXChannel {
    value: u32,
    or_value: u32,
    or: bool,
}

impl View for DMXChannel {
    type V = ChannelModel;

    closed spec fn view(&self) -> ChannelModel {
        ChannelModel { value: self.value, override_value: self.or_value, override_active: self.or }
    }
}

impl DMXChannel {
    pub fn new() -> (r: Self)
        ensures
            r@ == ChannelModel::fresh(),
    {
        DMXChannel { value: 0, or_value: 0, or: false }
    }

    /// Activates the override layer with `value`; the base value is kept.
    pub fn override_val(&mut self, value: u32) -> (r: &mut Self)
        ensures
            (*r)@ == old(self)@.with_override(value),
            *final(self) == *final(r),
        no_unwind
    {
        self.or = true;
        self.or_value = value;
        self
    }

    /// Deactivates the override layer; the base value becomes visible again.
    pub fn revert_override(&mut self) -> (r: &mut Self)
        ensures
            (*r)@ == old(self)@.reverted(),
            *final(self) == *final(r),
    {
        self.or = false;
        self
    }

    /// Sets the base value; an active override keeps shadowing it.
    pub fn set_val(&mut self, val: u32) -> (r: &mut Self)
        ensures
            (*r)@ == old(self)@.with_value(val),
            *final(self) == *final(r),
        no_unwind
    {
        self.value = val;
        self
    }

    /// The effective value of the channel.
    pub fn get_val(&self) -> (r: u32)
        ensures
            r == self@.effective(),
    {
        if self.or {
            self.or_value
        } else {
            self.value
        }
    }
}

impl Default for DMXChannel {
    fn default() -> (r: Self)
        ensures
            r@ == ChannelModel::fresh(),
    {
        DMXChannel::new()
    }
}

/// Setting the base value of a channel without an active override makes
/// that value the one that is read.
pub proof fn lemma_set_then_get(c: ChannelModel, v: u32)
    requires
        !c.override_active,
    ensures
        c.with_value(v).effective() == v,
{
}

/// The channel after an override with each of `os` in turn.
pub open spec fn overridden(c: ChannelModel, os: Seq<u32>) -> ChannelModel
    decreases os.len(),
{
    if os.len() == 0 {
        c
    } else {
        overridden(c, os.drop_last()).with_override(os.last())
    }
}

/// After one or more overrides, the last one is what is read, whatever the
/// base value; the base value is untouched, and once the override is
/// reverted it is read again.
pub proof fn lemma_override_then_revert(c: ChannelModel, os: Seq<u32>)
    requires
        os.len() > 0,
    ensures
        overridden(c, os).effective() == os.last(),
        overridden(c, os).value == c.value,
        overridden(c, os).reverted().effective() == c.value,
    decreases os.len(),
{
    if os.len() > 1 {
        lemma_override_then_revert(c, os.drop_last());
    } else {
        assert(overridden(c, os.drop_last()) == c);
    }
}

} // verus!
