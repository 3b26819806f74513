//! Versioned policy API.
//!
//! Each API version lives in its own module: the label and file schema that a version accepts is
//! given by that module's types. Only [`v1alpha1`] exists today.
pub mod v1alpha1;
