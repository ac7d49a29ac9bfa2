//! What holds of the connectome across its operations.

pub mod bonds;
pub mod draws;
pub mod encodings;
pub mod ends;
pub mod history;
pub mod lists;
pub mod numbers;
pub mod outcome;
pub mod readout;
pub mod rows;
pub mod sight;
pub mod start;
pub mod steps;
pub mod stimuli;
pub mod teams;
pub mod walks;
pub mod whole;
