pub mod cleaner;
pub mod dom;
pub mod error;
pub mod extractor;
pub mod preprocess;
pub mod scorer;

pub use dom::{Attr, Dom, Node, NodeKind};
pub use error::Error;
pub use extractor::{check_status, extract_document, Extraction, Product};
