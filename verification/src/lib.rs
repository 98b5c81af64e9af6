//! A minimalistic Mustache-like template library with a single tag form,
//! `{{name}}`, whose operations are specified and proved with Verus.
//!
//! - [`Template`]: a sequence of [`Token`]s, read from text by [`from_text`].
//! - [`Context`]: the variables that fill a template's tags.
//! - [`process()`]: renders a template with a context.

pub mod types;
pub mod text;
pub mod variables;
pub mod parser;
pub mod template;
pub mod context;
pub mod process;
pub mod laws;

pub use types::{Context, ProcessResult, SpecToken, Template, Token};
pub use variables::Variables;
pub use parser::{from_text, is_literal, is_tag};
pub use context::{
    clear_values, delete_variables, from_list, from_tags_list, from_template, init_context,
    is_set, join, set_variables, unset_context, variables_of,
};
pub use template::{
    add_tag, compress, insert_many_templates, insert_template, is_final, tags_of, tags_rename,
    to_final_text, to_text,
};
pub use process::{partial_process, partial_process_result, process, process_with_default};
