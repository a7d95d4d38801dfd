//! Verified core of a service framework for a game engine (service state,
//! lifecycle and dependency graph), together with the screen state logic,
//! terrain mesh index generation and small text and state utilities.
pub mod collections;
pub mod graph;
pub mod service;
pub mod topsort;
pub mod scc;
pub mod cycles;
pub mod digits;
pub mod dag;
pub mod lifecycle;
pub mod screen;
pub mod mesh;
pub mod grid;
pub mod terrain;
pub mod chunk;
pub mod boolish;
pub mod text;
pub mod simple_service;
pub mod player;
