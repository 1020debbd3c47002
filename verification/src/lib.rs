//! Core of a live markup editor: a debounce/cancellation scheduler built on
//! generation tokens, a resource assembler that normalizes source text,
//! bibliography and encoded images into one compilation unit, a syntax
//! highlighter that renders a parsed tree as escaped nested markup, and an
//! output formatter that joins rendered pages into one fragment.

pub mod assemble;
pub mod compiler;
pub mod highlight;
pub mod images;
pub mod scheduler;
