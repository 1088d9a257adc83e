//! Evolutionary search for nurse routing plans under time windows and capacity.
//!
//! A genome orders every patient of an instance and separates the nurses' routes by
//! depot markers. The library scores genomes by simulating their routes, recombines and
//! mutates them, selects parents and survivors, and runs the decisions of one island
//! worker; the caller moves migrants between workers.
pub mod crossover;
pub mod encoding;
pub mod environment;
pub mod genalg;
pub mod laws;
pub mod mutation;
pub mod selection;
pub mod worker;
pub mod wrappers;

pub use crate::environment::{EnvPruned, PatientPruned};
pub use crate::genalg::{calculate_and_set_travel_time, Genotype, NurseStop};
pub use crate::mutation::MetaGenes;
