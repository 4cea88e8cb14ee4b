//! The orchestration core of a small Wayland-style compositor: a surface
//! arena with double-buffered state, the frame pass that draws it and
//! releases frame callbacks, the toplevel configure handshake, the input
//! focus policy, the client registry, and the order of one loop iteration.
//! Protocol marshalling, rendering and the windowing backend stay outside;
//! this crate decides what is drawn, when clients are signalled and who
//! receives input.
pub mod clients;
pub mod compositor;
pub mod seat;
pub mod shell;
pub mod surface_tree;
