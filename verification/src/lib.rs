//! Audits Brazilian electronic fiscal documents: scans transport-document
//! ("CTe") XML text for embedded 44-digit fiscal keys, validates the
//! document-type code each key carries, and aggregates, across many
//! documents, a mapping from each transport key to the invoice ("NFe") keys
//! it references together with the structural markers they were found under.

pub mod aggregate;
pub mod chars;
pub mod config;
pub mod error;
pub mod extract;
pub mod matcher;
pub mod report;
pub mod validate;

pub use aggregate::{AggMap, CteEntry, NfeEntry, PerDocResult};
pub use aggregate::{combine, fold_results, merge_maps};
pub use chars::str_lt;
pub use config::Config;
pub use error::MyError;
pub use error::MyResult;
pub use extract::{extract_info_from_xml, fold_reduce, Document};
pub use matcher::{Pats, NfeMatch, scan_cte_x, scan_nfe_x, strip_spaces};
pub use report::{format_report, usize_to_string, Report};
pub use validate::verify_key_code;
