//! Dynamic-array, text and array-reshaping functions of a spreadsheet
//! engine, with their contracts.

pub mod number;
pub mod strings;
pub mod values;
pub mod model;
pub mod compare;
pub mod dynamic_arrays;
pub mod textutil;
pub mod text;
pub mod wildcard;
pub mod text_bytes;
pub mod lambda_helpers;
pub mod array_manipulation;
pub mod matrix;
pub mod commands;
pub mod laws;
pub mod grouping;
