//! A retained-mode scene engine for animated user interfaces: the scene
//! tree kept in an arena, the scheduling of property changes and their
//! animations, change callbacks, and pointer hover and event bubbling.
pub mod flags;
pub mod node;
pub mod arena;
pub mod tree;
pub mod forest;
pub mod scene;
pub mod storage;
pub mod transactions;
pub mod callbacks;
pub mod animations;
pub mod pointer;
pub mod values;
pub mod commands;
pub mod engine;
