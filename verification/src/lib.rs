pub mod adder;
pub mod ast;
pub mod boolean_eval;
pub mod conjuctive_normal_form;
pub mod gray_code;
pub mod multiplier;
pub mod negation_normal_form;
pub mod truth_table;
