//! Objectify-HTML: substitution of `<include object="..."/>` tags in HTML
//! text by object definitions (`<begin object="...">...</begin>`) taken from
//! `.ohtml` files, with the scanning and editing logic verified.

pub mod text;
pub mod scan;
pub mod edit;
pub mod objects;
pub mod inline;
