pub mod naming;
