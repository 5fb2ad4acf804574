pub mod text;
pub mod expr;
pub mod print;
pub mod parser;
pub mod substituer;
pub mod scoping;
pub mod normal_form;
pub mod subst_laws;
pub mod parse_laws;
