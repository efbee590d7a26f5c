//! YANG data models: their text, their SIDs, the schema they make, and the
//! conversion of data under that schema.
pub mod again_laws;
pub mod base64;
pub mod bits;
pub mod bits_laws;
pub mod bodies;
pub mod body_laws;
pub mod build_laws;
pub mod builder;
pub mod choices;
pub mod codec;
pub mod data_tree_laws;
pub mod decimal_laws;
pub mod describe_laws;
pub mod index_laws;
pub mod item_laws;
pub mod json_schema;
pub mod lenient_laws;
pub mod list_laws;
pub mod meaning;
pub mod model_laws;
pub mod module_laws;
pub mod node_schema_laws;
pub mod notices;
pub mod parser;
pub mod parser_laws;
pub mod path_laws;
pub mod range_laws;
pub mod readings;
pub mod reference_laws;
pub mod refusal_laws;
pub mod report_laws;
pub mod resolved_laws;
pub mod scalar_laws;
pub mod scalars;
pub mod schema;
pub mod selector_laws;
pub mod sequence_laws;
pub mod sid;
pub mod sid_laws;
pub mod tree_laws;
pub mod type_laws;
pub mod union_laws;
pub mod value_laws;
pub mod value_schema_laws;
pub mod values;
pub mod warning_laws;
pub mod warnings;
