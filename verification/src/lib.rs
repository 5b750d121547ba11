#![allow(non_snake_case)]

pub mod text;
pub mod xml;
pub mod dp;
pub mod dates;
pub mod table;
pub mod config;
pub mod files;
