pub mod constants;
pub mod eval;
pub mod fitness;
pub mod ga;
pub mod genome;
pub mod grapher;
pub mod ingest;
pub mod layout;
pub mod model;
pub mod models;
pub mod path;
pub mod text;
pub mod types;

use std::path::PathBuf;
use vstd::prelude::*;

verus! {

#[verifier::external_type_specification]
#[verifier::external_body]
pub struct ExPathBuf(PathBuf);

/// Where the model, the data and the layouts come from.
#[derive(Debug)]
pub struct Args {
    /// Config file describing the model.
    pub model_path: PathBuf,
    /// Config file describing seed layouts.
    pub seed_path: Option<PathBuf>,
    /// Data file describing unigrams.
    pub unigrams_path: PathBuf,
    /// Data file describing bigrams.
    pub bigrams_path: PathBuf,
    /// Data file describing trigrams.
    pub trigrams_path: PathBuf,
    /// A layout to evaluate instead of evolving one.
    pub eval_layout: Option<PathBuf>,
}

} // verus!
