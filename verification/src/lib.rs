//! Importing delimited text into class-labelled data sets, and the
//! population bookkeeping of class training.

pub mod error;
pub mod importer;
pub mod order;
pub mod outcome;
pub mod text;
pub mod training;
