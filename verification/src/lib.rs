//! A graph over externally owned nodes whose connected components are kept
//! up to date tick by tick: requests connect and disconnect pairs of nodes,
//! and after each batch only the components that the batch touched are
//! recomputed, by traversal, with their identities reused where possible.

pub mod connected_components;
pub mod connections;
pub mod graph;
pub mod laws;
pub mod messages;
pub mod partition;
pub mod plugin;

pub use crate::connected_components::{ConnectedComponent, InConnectedComponent, MembershipIndex};
pub use crate::connections::{AdjacencyStore, ConnectionUpdateEvent, Connections};
pub use crate::messages::{ConnectMessage, DisconnectMessage};
pub use crate::plugin::{
    ConnectedComponentPlugin, ConnectionsPlugin, EntityGraph, EntityGraphPlugin,
    EntityGraphSystem, TickReport,
};
