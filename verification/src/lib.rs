//! Templating helpers for html fragments: a small MicroXML event reader,
//! decoding of the five mandatory html entities, and the table of named
//! template functions.

pub mod fncallermod;
pub mod htmlentitiesmod;
pub mod microxmlparser;
pub mod routermod;
pub mod text;

use vstd::prelude::*;

verus! {

/// All the data of the application: the html template of the current page,
/// the `#` local route that selected it, and some data the templates read.
#[derive(Debug, Clone)]
pub struct RootRenderingComponent {
    /// the html template for this page
    pub html_template: String,
    /// the # local route for this page
    pub local_route: String,
    /// some test data. All the data must be in this struct.
    pub test1: String,
}

} // verus!
