//! Resolution core of a multi-tenant document server.
//!
//! Projects are registered under a language name and a project name together
//! with a base directory. Readers address a project through a host of the form
//! `<language>.docs` and a project name, and ask for a path below it; the
//! library turns that request into a file path that provably stays inside the
//! registered directory.
pub mod error;
pub mod language;
pub mod path;
pub mod registry;
pub mod service;
pub mod table;
