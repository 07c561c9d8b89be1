pub mod policy;
