//! Filling in text templates: finding the placeholder markers `{{name}}` of a text, and replacing
//! them, in one pass, by values given for their names.
pub mod extract;
pub mod marker;
pub mod replacements;
pub mod substitute;
pub mod text;
