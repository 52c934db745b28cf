//! Addresses of node ports, and the set of connections of one port.
use vstd::prelude::*;

verus! {

pub type PortID = usize;

pub type NodeID = usize;

#[derive(Debug, Clone, Copy, PartialEq, Eq, Structural)]
pub enum PortType {
    Input(u32),
    Output(u32),
}

/// A port of a node: the node's id and the port's id within it.
#[derive(Debug, Clone, Copy, PartialEq, Eq, Structural)]
pub struct Addr {
    pub node: NodeID,
    pub port: PortID,
}

/// `s` with every occurrence of `a` taken out, the rest in order.
pub open spec fn without(s: Seq<Addr>, a: Addr) -> Seq<Addr>
    decreases s.len(),
{
    if s.len() == 0 {
        Seq::empty()
    } else if s.last() == a {
        without(s.drop_last(), a)
    } else {
        without(s.drop_last(), a).push(s.last())
    }
}

/// The abstract state of [`Edges`].
pub struct EdgesModel {
    pub input: Option<Addr>,
    pub outputs: Seq<Addr>,
}

/// The connections of a port: at most one input, and any number of outputs
/// in the order they were added.
#[derive(Debug, Clone)]
pub struct Edges {
    inp: Option<Addr>,
    outp: Vec<Addr>,
}

impl View for Edges {
    type V = EdgesModel;

    closed spec fn view(&self) -> EdgesModel {
        EdgesModel { input: self.inp, outputs: self.outp@ }
    }
}

impl Edges {
    pub fn new() -> (r: Self)
        ensures
            r@.input.is_none(),
            r@.outputs.len() == 0,
    {
        Self { inp: None, outp: Vec::new() }
    }

    /// Sets the input, replacing any earlier one.
    pub fn set_input(&mut self, inp: Addr)
        ensures
            final(self)@ == (EdgesModel { input: Some(inp), ..old(self)@ }),
    {
        self.inp = Some(inp);
    }

    pub fn get_input(&self) -> (r: Option<Addr>)
        ensures
            r == self@.input,
    {
        self.inp
    }

    /// Appends an output.
    pub fn add_out(&mut self, outp: Addr)
        ensures
            final(self)@ == (EdgesModel { outputs: old(self)@.outputs.push(outp), ..old(self)@ }),
    {
        self.outp.push(outp);
    }

    /// Removes every output equal to `outp`; the others keep their order.
    pub fn remove_out(&mut self, outp: Addr)
        ensures
            final(self)@ == (EdgesModel { outputs: without(old(self)@.outputs, outp), ..old(self)@ }),
    {
        let mut kept: Vec<Addr> = Vec::new();
        let mut i: usize = 0;
        while i < self.outp.len()
            invariant
                i <= self.outp@.len(),
                kept@ == without(self.outp@.take(i as int), outp),
            decreases self.outp@.len() - i,
        {
            proof {
                assert(self.outp@.take(i + 1).drop_last() =~= self.outp@.take(i as int));
            }
            let a = self.outp[i];
            if a != outp {
                kept.push(a);
            }
            i = i + 1;
        }
        proof {
            assert(self.outp@.take(i as int) =~= self.outp@);
        }
        self.outp = kept;
    }

    pub fn get_outputs(&self) -> (r: Vec<Addr>)
        ensures
            r@ == self@.outputs,
    {
        let r = self.outp.clone();
        assert(r@ =~= self.outp@);
        r
    }
}

} // verus!
