//! A Naive Bayes disease classifier with exact arithmetic.
//!
//! The classifier learns, from labeled (disease, symptom) rows, per-disease
//! priors and Laplace-smoothed per-symptom likelihoods, and then assigns to
//! each query row the maximum-a-posteriori disease label. All probabilities
//! are rationals with machine-integer counts as numerators and denominators,
//! so scores are compared exactly instead of through floating point.
pub mod bignat;
pub mod laws;
pub mod model;
pub mod render;

pub use model::NaiveBayesClassifier;
pub use model::PredictError;
pub use model::TrainError;
