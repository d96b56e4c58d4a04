//! The structure of a static site and the plan of its build.
//!
//! A [`site::Site`] holds the pages and sections of a site. It finds out which pages and subsections
//! belong to each section, files the pages under their tags and categories, and says what is
//! rendered ([`render`]) and what is then done to the file system ([`stages`], [`plan`]). Reading
//! files, running templates and performing the plans is left to the program around it.
//!
//! What holds of a site whatever is in it is stated and proved in [`content_laws`], [`site_laws`],
//! [`request_laws`], [`plan_laws`] and [`output_laws`].

pub mod content;
pub mod content_laws;
pub mod links;
pub mod order;
pub mod output_laws;
pub mod path;
pub mod plan;
pub mod plan_laws;
pub mod render;
pub mod request_laws;
pub mod site;
pub mod site_laws;
pub mod stages;
pub mod taxonomy;
pub mod template;
pub mod text;
