//! The signature maker.

pub mod alignment;
pub mod aob;
pub mod blends;
pub mod bytepath;
pub mod cache;
pub mod callers;
pub mod calls;
pub mod candidates;
pub mod chain;
pub mod channels;
pub mod constants;
pub mod cuts;
pub mod decode;
pub mod dispatch;
pub mod encoding;
pub mod ensemble;
pub mod entropy;
pub mod features;
pub mod generate;
pub mod graph;
pub mod identity;
pub mod imports;
pub mod insights;
pub mod inspect;
pub mod judgements;
pub mod landing;
pub mod limits;
pub mod model;
pub mod moves;
pub mod partial;
pub mod places;
pub mod promises;
pub mod reach;
pub mod relocate;
pub mod reports;
pub mod rivals;
pub mod scoring;
pub mod similarity;
pub mod sites;
pub mod slots;
pub mod spans;
pub mod strands;
pub mod stream;
pub mod strings;
pub mod sweeps;
pub mod tables;
pub mod tallies;
pub mod tells;
pub mod types;
pub mod uses;
pub mod validate;
pub mod vtable;
pub mod window;
