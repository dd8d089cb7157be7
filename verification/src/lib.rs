//! Syntax highlighting through grammar plugins that run in isolation.
//!
//! A host loads one plugin for each language. A plugin wraps a compiled grammar
//! and serves sessions: a session holds a text, and a parse of it gives the
//! highlighted spans of the text and the ranges that belong to other
//! languages. The host resolves those ranges with the plugins of the other
//! languages, as deep as they nest, and recomposes everything into one ordered
//! stream.
//!
//! The modules, from the leaves up:
//!
//! - [`wire`]: the messages between host and plugin, and their version.
//! - [`offsets`]: from byte offsets to the UTF-16 offsets of the messages.
//! - [`text`], [`names`]: searching in bytes, and lists of names.
//! - [`grammar`]: what a compiled grammar hands to the engine.
//! - [`roles`]: how the names in a grammar's queries are read.
//! - [`layers`]: a text cut into segments, each under a stack of capture names.
//! - [`locals`]: which references are local variables.
//! - [`query`]: from the capture matches of a grammar to a layering.
//! - [`injection`]: which embedded ranges are taken, and how their
//!   highlighting is set into that of the surrounding text.
//! - [`spans`], [`events`]: a layering read flat, and as a stream of events.
//! - [`boundary`]: a layering as a message of the wire protocol.
//! - [`engine`]: one language over one text.
//! - [`runtime`]: the sessions of one plugin.
//! - [`resolver`]: what highlighting a text with its embedded ranges comes to.
//! - [`highlighter`]: the loaded plugins and the resolver.
//! - [`processor`]: the decisions of the tool that highlights generated
//!   documentation.

pub mod boundary;
pub mod engine;
pub mod events;
pub mod grammar;
pub mod highlighter;
pub mod injection;
pub mod layers;
pub mod locals;
pub mod names;
pub mod offsets;
pub mod processor;
pub mod query;
pub mod resolver;
pub mod roles;
pub mod runtime;
pub mod spans;
pub mod text;
pub mod wire;
