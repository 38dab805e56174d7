//! Compact output for `golangci-lint`.
//!
//! The library decides how `golangci-lint` is called and what is shown of its outcome:
//! [`command`] tells which call the user asked for, [`version`] which version is installed,
//! [`run`] plans the call and makes the conclusion, and [`report`] writes the report on the
//! issues, with the help of [`ranking`] and [`path`]; [`layout`] proves what it looks like and
//! [`invariance`] what has no influence on it. [`text`], [`search`], [`number`] and [`decode`] hold
//! the operations on text that these rest on.

pub mod command;
pub mod decode;
pub mod invariance;
pub mod layout;
pub mod number;
pub mod path;
pub mod ranking;
pub mod report;
pub mod run;
pub mod search;
pub mod text;
pub mod version;
