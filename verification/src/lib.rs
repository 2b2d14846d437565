//! Annotation digests for reMarkable PDFs.

pub mod annotate;
pub mod config;
pub mod deploy;
pub mod deploy_laws;
pub mod digest_doc;
pub mod digest_laws;
pub mod extract;
pub mod find_laws;
pub mod ingest;
pub mod ink;
pub mod laws;
pub mod layer_laws;
pub mod linked_doc;
pub mod markup;
pub mod outcomes;
pub mod page_laws;
pub mod page_outcomes;
pub mod pdf;
pub mod placement;
pub mod reading;
pub mod reading_laws;
pub mod state;
pub mod text;
pub mod text_laws;
pub mod textlayer;
pub mod theme;
