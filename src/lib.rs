//! In-memory model of a lighting controller: override-capable DMX channels
//! grouped into universes, and a slot-recycling graph arena that hosts the
//! node editor's payloads.
pub mod conmx_msg;
pub mod connections;
pub mod dmx;
pub mod dmx_channel;
pub mod dmx_universe;
pub mod err;
pub mod graph;
pub mod localization;
pub mod node;
pub mod node_err;

pub use conmx_msg::{update_dmx, ConMXMsg, ViewMain};
pub use connections::{Addr, Edges, EdgesModel, NodeID, PortID, PortType};
pub use dmx::DMX;
pub use dmx_channel::{ChannelModel, DMXChannel};
pub use dmx_universe::{DMXUniverse, UniverseModel, UNIVERSE_SIZE};
pub use err::ConmxErr;
pub use graph::{Edge, Graph, GraphError, GraphModel, GraphNode, NodeIndex};
pub use localization::{conv_cat, conv_cats, locale_from_file, localized, LocaleCategories, LocaleStringMap, Localization, StringVal};
pub use node::{InputPort, Node, NodeBuilder, OutputPort};
pub use node_err::{NodeCreationErr, NodeExecutionErr};
