//! Control-flow graphs for arithmetic-circuit programs.
//!
//! A definition (a template or a function) is given as an abstract syntax
//! tree. Its local variables are first made unique, the body is then lowered
//! into basic blocks of intermediate-representation statements with explicit
//! edges, and a dominator tree and a declaration map are computed over the
//! result.

pub mod ast;
pub mod basic_block;
pub mod cfg;
pub mod cfg_impl;
pub mod cfg_model;
pub mod declaration_map;
pub mod dominance;
pub mod dominator_tree;
pub mod environment;
pub mod errors;
pub mod field_element;
pub mod file_definition;
pub mod gather_information;
pub mod ir;
pub mod lowering;
pub mod parameter_data;
pub mod program_archive;
pub mod report;
pub mod unique_vars;
pub mod value_meta;
pub mod value_propagation;
