//! Composes dotrain documents to rainlang.
//!
//! A dotrain document mixes front matter and prose with expression blocks.
//! Composing it means: read the document ([`document`]), select the blocks
//! that were asked for ([`entrypoint`]), find the metadata that the document
//! depends on ([`resolver`], by the sources that a configuration names,
//! [`config`], into a [`store`]), and put the selected blocks together with
//! the metadata in place of the references to it ([`composer`]).
//! [`pipeline`] runs these stages in turn, and [`cli`] says what a command
//! line asks for.
//!
//! The library reads no file and asks no endpoint. What it needs from
//! outside it names as a request, and it takes the answers as values, so
//! every result is a function of the values handed in.

pub mod cli;
pub mod composer;
pub mod config;
pub mod document;
pub mod entrypoint;
pub mod pipeline;
pub mod resolver;
pub mod store;
pub mod text;
