//! Splits a nationwide GTFS feed into one feed per federal state.
//!
//! Every agency is sent to one folder: the railway's own folder, the folder of the single state
//! in which all its stops lie, or a common folder for the rest.  The rows of the feed's tables
//! then follow the agencies, so that what a row of a folder refers to stands in that folder too,
//! if the nationwide feed has a row for it.

pub mod agencies;
pub mod boundary;
pub mod coordinate;
pub mod feed;
pub mod geometry;
pub mod names;
pub mod order;
pub mod plan;
pub mod progress;
pub mod rows;
pub mod split;
pub mod stops;
pub mod survey;
pub mod text;
