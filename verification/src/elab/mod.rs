//! The elaborator: renaming binders apart, resolving definitions, checking
//! linearity and collecting usage levels, and emitting the net.
pub mod alpha;
pub mod pass1;
pub mod pass0;
pub mod pass2;
