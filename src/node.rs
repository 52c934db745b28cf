//! Nodes of the editor: named input and output ports, a position and a list
//! of driver functions, put together by a builder. The types of the port
//! values, the position and the drivers are parameters; the node only keeps
//! them in order.
use vstd::prelude::*;

use crate::graph::GraphNode;
use crate::node_err::NodeCreationErr;

verus! {

/// A named input of a node.
#[derive(Debug, Clone)]
pub struct InputPort<P> {
    pub disp_name: String,
    pub port: P,
}

impl<P> InputPort<P> {
    pub fn new(disp_name: String, port: P) -> (r: Self)
        ensures
            r.disp_name == disp_name,
            r.port == port,
    {
        InputPort { disp_name, port }
    }
}

/// A named output of a node, with a flag that says whether its value is
/// new. A port is created with the flag set.
#[derive(Debug, Clone)]
pub struct OutputPort<P> {
    pub disp_name: String,
    pub port: P,
    pub updated: bool,
}

impl<P> OutputPort<P> {
    pub fn new(disp_name: String, port: P) -> (r: Self)
        ensures
            r.disp_name == disp_name,
            r.port == port,
            r.updated,
    {
        OutputPort { disp_name, port, updated: true }
    }

    pub fn get_updated(&self) -> (r: bool)
        ensures
            r == self.updated,
    {
        self.updated
    }
}

/// A node: its position, its ports in order, and its drivers.
#[derive(Debug, Clone)]
pub struct Node<P, Pos, D> {
    pub position: Pos,
    pub inputs: Vec<InputPort<P>>,
    pub outputs: Vec<OutputPort<P>>,
    pub drivers: Vec<D>,
}

impl<P, Pos, D> GraphNode for Node<P, Pos, D> {
}

impl<P, Pos, D> Node<P, Pos, D> {
    /// A builder for a node that starts at `starting_pos`.
    pub fn new(starting_pos: Pos) -> (r: NodeBuilder<P, Pos, D>)
        ensures
            r.starting_pos == starting_pos,
            r.inputs@.len() == 0,
            r.outputs@.len() == 0,
            r.drivers@.len() == 0,
    {
        NodeBuilder::new(starting_pos)
    }

    /// Whether output `id` holds a new value; `false` for an index past the
    /// outputs.
    pub fn is_updated(&self, id: usize) -> (r: bool)
        ensures
            r == (id < self.outputs@.len() && self.outputs@[id as int].updated),
    {
        if id < self.outputs.len() {
            self.outputs[id].get_updated()
        } else {
            false
        }
    }

    pub fn set_pos(&mut self, new_pos: Pos)
        ensures
            final(self).position == new_pos,
            final(self).inputs == old(self).inputs,
            final(self).outputs == old(self).outputs,
            final(self).drivers == old(self).drivers,
    {
        self.position = new_pos;
    }
}

/// Collects the ports and drivers of a node before it is built.
pub struct NodeBuilder<P, Pos, D> {
    pub starting_pos: Pos,
    pub inputs: Vec<InputPort<P>>,
    pub outputs: Vec<InputPort<P>>,
    pub drivers: Vec<D>,
}

impl<P, Pos, D> NodeBuilder<P, Pos, D> {
    pub fn new(starting_pos: Pos) -> (r: Self)
        ensures
            r.starting_pos == starting_pos,
            r.inputs@.len() == 0,
            r.outputs@.len() == 0,
            r.drivers@.len() == 0,
    {
        Self {
            starting_pos,
            inputs: Vec::with_capacity(20),
            outputs: Vec::with_capacity(10),
            drivers: Vec::with_capacity(10),
        }
    }

    pub fn with_starting_pos(self, pos: Pos) -> (r: Self)
        ensures
            r.starting_pos == pos,
            r.inputs == self.inputs,
            r.outputs == self.outputs,
            r.drivers == self.drivers,
    {
        let mut b = self;
        b.starting_pos = pos;
        b
    }

    /// Appends an input port.
    pub fn with_in(self, name: String, port: P) -> (r: Self)
        ensures
            r.starting_pos == self.starting_pos,
            r.inputs@ == self.inputs@.push(InputPort { disp_name: name, port }),
            r.outputs == self.outputs,
            r.drivers == self.drivers,
    {
        let mut b = self;
        b.inputs.push(InputPort::new(name, port));
        b
    }

    /// Appends an output port.
    pub fn with_out(self, name: String, port: P) -> (r: Self)
        ensures
            r.starting_pos == self.starting_pos,
            r.inputs == self.inputs,
            r.outputs@ == self.outputs@.push(InputPort { disp_name: name, port }),
            r.drivers == self.drivers,
    {
        let mut b = self;
        b.outputs.push(InputPort::new(name, port));
        b
    }

    /// Appends a driver.
    pub fn with_driver(self, new_driver: D) -> (r: Self)
        ensures
            r.starting_pos == self.starting_pos,
            r.inputs == self.inputs,
            r.outputs == self.outputs,
            r.drivers@ == self.drivers@.push(new_driver),
    {
        let mut b = self;
        b.drivers.push(new_driver);
        b
    }

    /// The node: the collected inputs and drivers as they are, and each
    /// collected output as an output port with the same name and value and
    /// its flag set. No check of the drivers against the ports is made, so
    /// building always succeeds.
    pub fn build(self) -> (r: Result<Node<P, Pos, D>, NodeCreationErr>)
        ensures
            r.is_ok(),
            r->Ok_0.position == self.starting_pos,
            r->Ok_0.inputs@ == self.inputs@,
            r->Ok_0.drivers@ == self.drivers@,
            r->Ok_0.outputs@.len() == self.outputs@.len(),
            forall|i: int| 0 <= i < self.outputs@.len() ==> {
                &&& (#[trigger] r->Ok_0.outputs@[i]).disp_name == self.outputs@[i].disp_name
                &&& r->Ok_0.outputs@[i].port == self.outputs@[i].port
                &&& r->Ok_0.outputs@[i].updated
            },
    {
        let ghost given = self.outputs@;
        let NodeBuilder { starting_pos, inputs, outputs, drivers } = self;
        let mut rest = outputs;
        let mut built: Vec<OutputPort<P>> = Vec::new();
        while rest.len() > 0
            invariant
                built@.len() + rest@.len() == given.len(),
                rest@ == given.skip(built@.len() as int),
                forall|i: int| 0 <= i < built@.len() ==> {
                    &&& (#[trigger] built@[i]).disp_name == given[i].disp_name
                    &&& built@[i].port == given[i].port
                    &&& built@[i].updated
                },
            decreases rest@.len(),
        {
            let ghost k = built@.len() as int;
            let InputPort { disp_name, port } = rest.remove(0);
            built.push(OutputPort::new(disp_name, port));
            proof {
                assert(rest@ =~= given.skip(k + 1));
            }
        }
        Ok(Node { position: starting_pos, inputs, outputs: built, drivers })
    }
}

} // verus!
