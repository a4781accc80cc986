//! A model of the Minivac 601 relay computer: its ports, the links that
//! its switches, relays and patch cords close, and the nets they form.
pub mod graph;
mod outside;
pub mod ports;
pub mod simulation;
pub mod electrical;
pub mod patching;
pub mod wiring;
pub mod laws;
pub mod panel_laws;
