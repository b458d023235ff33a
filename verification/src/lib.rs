//! Anonymity checks (k-anonymity, l-diversity, t-closeness) over the output
//! of an object-centric binding box.

pub mod activation;
pub mod assoc;
pub mod binding;
pub mod ocel;
pub mod fingerprint;
pub mod fraction;
pub mod info;
pub mod laws;
pub mod order;
pub mod partition;
pub mod policy;
pub mod properties;
pub mod report;
pub mod sorting;
pub mod tally;
pub mod text;
pub mod value;
