//! Authentication and access rules from a JSON document.
pub mod acl;
pub mod json;
pub mod password;
pub mod value;
