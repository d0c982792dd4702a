//! A validator for a small dialect of XML: element tags, one leading prolog,
//! comments and the five predefined escapes; no attributes, self-closing tags,
//! DTDs, namespaces or CDATA.
pub mod model;
pub mod scanner;
pub mod laws;
