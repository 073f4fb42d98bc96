//! Planning and control logic for a stream-processing platform: topic
//! administration rules, partition placement, rescaling, query-plan
//! optimizers, complex-event matching, queue statements in SQL and PRQL
//! extensions.

pub mod text;
pub mod strmap;
pub mod scaling;
pub mod rescaling;
pub mod charclass;
pub mod prql_syntax;
pub mod prql;
pub mod clock;
pub mod migrate;
pub mod permission;
pub mod topic_ddl;
pub mod operators;
pub mod logical_plan;
pub mod optimizers;
pub mod cep;
pub mod decimal;
pub mod sink;
pub mod partition;
pub mod alert;
pub mod quota;
pub mod health;
pub mod topic_admin;
pub mod source;
pub mod queue_dml;
