//! Annotation of Japanese text with dictionary glosses: fragment extraction,
//! rule-driven deinflection and a multi-keyed dictionary index.
pub mod deinflect;
pub mod edict;
pub mod error;
pub mod fragments;
pub mod ruby;
pub mod subedict;
pub mod text;

pub use deinflect::{Candidate, Deinflector, Iter, Rule};
pub use edict::{Edict, EdictEntry};
pub use error::Error;
pub use fragments::iter_fragments;
pub use ruby::remove_ruby;
pub use subedict::{SubEdictCreator, SubEnamdictCreator};
