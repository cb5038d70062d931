//! A question-answering library: free-text queries are matched against a
//! fixed catalog of question/answer pairs by TF-IDF weighting and cosine
//! similarity.
//!
//! All arithmetic is exact: IDF values are fixed-point integers (scale
//! [`lnfix::SCALE`]), and similarity scores are compared as exact rationals,
//! so the ranking and the 0.5 confidence threshold are decided without
//! floating point and without rounding surprises.

pub mod fraccmp;
pub mod lnfix;
pub mod matcher;
pub mod text;
pub mod index;
pub mod vector;
