//! Convert an XML element tree into a JSON value tree.
//!
//! The converter classifies each element by its shape (children, text or
//! CDATA, attributes), infers JSON scalars from raw text (number, then
//! boolean, then string), folds attributes into object fields, and groups
//! same-named sibling elements into arrays. Elements that mix text with
//! child elements are unsupported and contribute nothing to their parent
//! (or `Null` at the root).

pub mod convert;
pub mod json;
pub mod laws;
pub mod names;
pub mod scalar;
pub mod xml;

pub use convert::convert_node_aux;
pub use convert::node2object;
pub use convert::parse_text_contents;
pub use json::JsonValue;
pub use scalar::parse_text;
pub use xml::Element;
pub use xml::XMLNodeType;
pub use xml::scan_xml_node;
