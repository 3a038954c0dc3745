//! A game engine runtime core: entity identity, the platform command and event
//! contract, the application loop policy, and the workspace boundary checks.
pub mod app;
pub mod command;
pub mod driver;
pub mod entity;
pub mod error;
pub mod event;
pub mod graph;
pub mod metadata;
pub mod rules;
pub mod text;
pub mod time;
pub mod window;
pub mod world;
