//! Core engine for a board-clearing dice game: a linear board of togglable
//! cells, dice that produce uniformly random faces, and the rule variants
//! that turn a multi-die roll into the cell indices to mark.

pub mod dice;
pub mod game;
pub mod laws;
