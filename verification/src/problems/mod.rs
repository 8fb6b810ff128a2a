pub mod model;
pub mod fingerprint;
pub mod index;
pub mod provenance;
pub mod facts;
pub mod classifier;
pub mod scan;
pub mod normalization;
pub mod eventlog;
pub mod process_instance;
pub mod budget;
pub mod correlation;
pub mod delta;
pub mod recognized;
pub mod pairing;
