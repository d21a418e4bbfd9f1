//! Fraud scoring by nearest neighbours over quantized transaction vectors.
pub mod exact;
pub mod index;
pub mod ivf;
pub mod ivf_build;
pub mod knn;
pub mod layout;
pub mod response;
pub mod search;
pub mod vectorize;
