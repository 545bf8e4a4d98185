pub mod text;
pub mod util;
pub mod regex_util;
pub mod sed_regex;
pub mod types;
pub mod scan;
pub mod parser;
pub mod engine;
pub mod labels;
pub mod options;
pub mod cli;
pub mod laws;
