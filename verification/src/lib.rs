pub mod text;
pub mod objects;
pub mod comparison;
pub mod models;
pub mod remediation;
pub mod ldap;
pub mod schema;
pub mod ordering;
pub mod snapshot;
pub mod config;
pub mod hooks;
pub mod results;
pub mod context;
pub mod cleanup;
pub mod commands;
pub mod remediation_laws;
pub mod hash_laws;
