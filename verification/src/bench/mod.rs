//! The benchmark harness's logic: classifying solver runs, the results-file
//! and manifest formats, and the report's arithmetic.
pub mod archive;
pub mod cli;
pub mod corpus;
pub mod instance;
pub mod json;
pub mod json_write;
pub mod oracle;
pub mod process;
pub mod report;
pub mod results;
pub mod runner;
pub mod verdict;
