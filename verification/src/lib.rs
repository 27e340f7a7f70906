//! A small text-classification library: a tokenizer that grows an
//! integer-indexed vocabulary, two Naive Bayes classifier variants
//! (Bernoulli and Multinomial) over token counts, and a confusion-matrix
//! based evaluation of predictions.

pub mod bayes;
pub mod metrics;
pub mod tally;
pub mod text;
pub mod tokenizer;
