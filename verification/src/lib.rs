//! Verified core of a hexagonal signal-propagation simulator.

pub mod ring_network;
pub mod packet;
pub mod mesh_network;
pub mod lattice;
pub mod timeline;
pub mod order;
