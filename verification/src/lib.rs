//! The rules behind a lecture-hall show of Conway's game of life: reading
//! pattern files, stepping the field on a torus, and the decisions of the
//! show's phases, the lecturer's walk and the audience's run to their seats.
pub mod field;
pub mod flow;
pub mod life;
pub mod menu;
pub mod pattern;
pub mod rle;
pub mod text;
pub mod walk;
