pub mod compose;
pub mod compose_laws;
pub mod document;
pub mod document_laws;
pub mod grid;
pub mod ir;
pub mod laws;
pub mod number;
pub mod number_laws;
pub mod parallel;
pub mod path;
pub mod path_laws;
pub mod progress;
pub mod reading;
pub mod reading_laws;
pub mod replay;
pub mod rounding;
pub mod scalar;
pub mod svg;
