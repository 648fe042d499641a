//! Verified text, dataset and scheduling logic for training a small
//! transformer-based chat-message classifier.

pub mod architecture;
pub mod dataset;
pub mod embeddings;
pub mod partition;
pub mod text;
pub mod training;
