//! A vocabulary trainer: word pairs kept in a store file, a color theme kept in a
//! settings file, and the decisions of the training window.
pub mod entity;
pub mod functions;
pub mod text;
pub mod trainer;
