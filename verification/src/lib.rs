pub mod matrix;
pub mod layout;
pub mod swaps;
pub mod ngrams;
pub mod optimizer;
pub mod dsl;
pub mod serialization;
pub mod text;
pub mod corpus;
pub mod report;
