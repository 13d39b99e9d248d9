//! Inline graphics for a terminal grid.
//!
//! Images arrive as pixel buffers anchored to a row and a column of the grid.
//! The crate keeps track of which texture covers which band of rows, decides
//! how a new image is split between the textures it overlaps, and turns each
//! decision into a command for the display to execute once the grid is no
//! longer locked.
//!
//! - [`graphics`], [`geometry`] and [`command`] hold the data: graphics, sizes
//!   of cells and viewport, commands.
//! - [`attachments`] and [`store`] hold the graphics of a grid, ordered by
//!   their rows.
//! - [`attach`] states what attaching a graphic to a grid gives, and
//!   [`prepare`] does it, for one graphic and for all those that wait.
//! - [`resize`] brings a graphic to the size that it asks for, and [`osc1337`]
//!   reads a graphic from the parameters of an escape sequence. Both use the
//!   functions of other crates that [`codec`] declares.
//! - [`renderer`] keeps track of the textures of the display, and checks each
//!   command against them.
//! - [`laws`] and [`replay`] prove what holds of every graphic, grid and
//!   display.

pub mod geometry;
pub mod graphics;
pub mod command;
pub mod attachments;
pub mod store;
pub mod attach;
pub mod prepare;
pub mod codec;
pub mod resize;
pub mod osc1337;
pub mod renderer;
pub mod laws;
pub mod replay;
