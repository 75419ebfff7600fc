//! Rendering of MULTI sign messages into pages, honouring the limits of one
//! sign: its matrix geometry, its defaults and the tags that it supports.
pub mod layout;
pub mod multi;
pub mod raster;
pub mod render;
