//! Background responses: creation, execution and supervision.

pub mod answer_laws;
pub mod create;
pub mod driver;
pub mod http;
pub mod json;
pub mod snapshot;
pub mod supervisor;
pub mod worker;
