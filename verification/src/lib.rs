//! Tipitaka XML parser.
//!
//! Splits Tipitaka XML files into fragments (header and sutta fragments) that
//! keep their exact source text and position, derives the CST metadata of each
//! sutta fragment from the XML hierarchy, and links it to SuttaCentral codes.

pub mod text;
pub mod types;
pub mod boundaries;
pub mod xml_events;
pub mod nikaya;
pub mod hierarchy;
pub mod cst;
pub mod content;
pub mod parser;
pub mod mula;
pub mod tika;
pub mod sc;
pub mod fill;
pub mod tsv;
pub mod tsv_diff;
pub mod sutta_code;
pub mod html;
pub mod integration;
pub mod regenerate;
pub mod logger;
pub mod encoding;
pub mod tsv_export;
pub mod corrections;
pub mod fragment_edit;
