//! A suspense-aware rendering engine.
//!
//! A view tree may contain nodes whose content depends on asynchronous
//! computations ("resources").  A suspense boundary shows a fallback while
//! resources beneath it are pending and its real content once all of them
//! have settled.  The engine tracks, per boundary, how many resources are
//! still pending, mints deterministic structural identifiers so that
//! server-rendered markup can be continued from on the client, and renders
//! the tree in four modes: client-interactive, single-pass server string,
//! out-of-order streaming and in-order streaming.

pub mod hydration;
pub mod reactive;
pub mod tree;
pub mod runtime;
pub mod registration;
pub mod render;
pub mod suspense_component;
pub mod laws;
