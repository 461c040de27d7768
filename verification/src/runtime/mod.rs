//! The pinp runtime: what compiled pinp programs call into.

pub mod string;
