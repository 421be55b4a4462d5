//! Priority-queue projections, their command log, the relational statement layer that mirrors them,
//! and the evidence rules of a release, each function stated by contract and proved.

pub mod answers;
pub mod apply;
pub mod attestation;
pub mod bounded;
pub mod checked;
pub mod choices;
pub mod claims;
pub mod consistency;
pub mod counts;
pub mod digest;
pub mod effects;
pub mod eligibility;
pub mod encoding;
pub mod evidence_io;
pub mod groups;
pub mod history;
pub mod image;
pub mod indexing;
pub mod item;
pub mod json;
pub mod lifetime;
pub mod log;
pub mod lookup;
pub mod meanings;
pub mod model;
pub mod mutation;
pub mod order;
pub mod path;
pub mod pending;
pub mod places;
pub mod planning;
pub mod plans;
pub mod predicate;
pub mod projection;
pub mod queries;
pub mod reads;
pub mod rebuild;
pub mod relational;
pub mod room;
pub mod scan;
pub mod scopes;
pub mod shared;
pub mod source_boundary;
pub mod sql;
pub mod stores;
pub mod sweep;
pub mod terminal;
pub mod text;
pub mod transaction;
pub mod typed;
pub mod types;
pub mod uniqueness;
