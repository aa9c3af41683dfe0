//! Rewrites HTML pages for a site served or generated with declarative
//! shadow DOM components: `<template component>` definitions are inlined
//! into every use as a `<template shadowrootmode>` shadow root, and local
//! assets get a `cachebust` query parameter holding a digest of their file.
use vstd::prelude::*;

pub mod cachebuster;
pub mod cli;
pub mod css;
pub mod dom;
pub mod facet;
pub mod html;
pub mod server;
pub mod ssg;
pub mod text;

verus! {

} // verus!
