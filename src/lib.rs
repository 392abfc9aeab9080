//! Small text-driven puzzle solvers, with the almanac mapping pipeline at
//! their core: seeds are pushed through ordered range-mapping tables.
pub mod almanac;
pub mod calibration;
pub mod canonical;
pub mod cube_game;
pub mod schematic;
pub mod scratchcard;
pub mod text;
