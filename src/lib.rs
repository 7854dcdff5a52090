//! A small HTML template preprocessor. `@include "file"` lines are replaced
//! by the rendered file, and `{{ name }}` placeholders by the values that
//! `@variables "file"` lines load.
pub mod directive;
pub mod render;
pub mod subst;
pub mod table;
pub mod text;
pub mod vars;

pub use render::{
    RenderError, html_cleanup, html_find_includes, html_find_variables, html_insert_includes,
    html_insert_variables, html_render_final_html, load_variables_from_files,
};
pub use table::Table;
pub use vars::load_variables;
