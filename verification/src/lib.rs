//! Text vectorization: vocabulary building, document-term matrices,
//! top-N column reduction and exact TF-IDF ratios.

pub mod counts;
pub mod dictionary;
pub mod model;
pub mod order;
pub mod preprocess;
pub mod reduce;
pub mod structs;
pub mod tf_idf;
pub mod vocabulary;
