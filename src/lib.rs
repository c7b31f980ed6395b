pub mod bounds;
pub mod license;
pub mod ngram;
pub mod preproc;

pub use license::{LicenseType, TextData, TextDataError};
pub use ngram::{NgramSet, Score};
