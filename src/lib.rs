//! Attribute-based access control: policy evaluation and compilation of
//! per-destination source requirements into fixed-width bit keys.

pub mod abac_lab;
pub mod classifier;
pub mod decision_tree;
pub mod encoder;
pub mod entity;
pub mod error;
pub mod json;
pub mod loader;
pub mod requirements;
pub mod rule;
pub mod text;
