//! What the operations are for: relations between their inputs and their results that hold
//! however the operations are carried out.

pub mod changing;
pub mod clauses;
pub mod codes;
pub mod context;
pub mod finishing;
pub mod fusion;
pub mod groups;
pub mod keeping;
pub mod listing;
pub mod numbers;
pub mod opening;
pub mod ordering;
pub mod pooling;
pub mod ranking;
pub mod reading;
pub mod refusing;
pub mod reranking;
pub mod searching;
pub mod serving;
pub mod spread;
pub mod texts;
pub mod totals;
pub mod values;
pub mod walking;
pub mod words;
pub mod writing;
