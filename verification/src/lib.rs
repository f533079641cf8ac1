//! Reporting builds to a Build Event Service, retrying remote calls, and caching the
//! results of local actions.
//!
//! Reports:
//!
//! * [`buck_event`] holds the events that a build command produces.
//! * [`bep`] holds the messages that a Build Event Service takes.
//! * [`reporting`] says what is reported of a command, and [`convert`] computes it.
//! * [`graph`], [`order`] and [`outcomes`] prove what holds of every report: that its
//!   events form a graph in which each event is announced, in which order they come, and
//!   what they tell of actions and tests.
//! * [`inputs`] reads off the events of a command what they say, and [`content`] and
//!   [`closing`] prove what each of them adds to the report.
//! * [`publish`] numbers the events of a report, and says when each may be sent.
//! * [`headers`] prepares the headers of requests, and [`sink`] holds the configuration.
//!
//! Calls:
//!
//! * [`retry`] says which calls are tried again, and when.
//!
//! Cached actions:
//!
//! * [`cache_table`] is the table of a SQLite database that holds the cache.
//! * [`action_cache`] records results in it and reads them back.
//! * [`cache_check`] decides whether outputs on disk can be used again.

pub mod action_cache;
pub mod bep;
pub mod buck_event;
pub mod cache_check;
pub mod cache_table;
pub mod closing;
pub mod content;
pub mod convert;
pub mod duration;
pub mod graph;
pub mod headers;
pub mod inputs;
pub mod order;
pub mod outcomes;
pub mod publish;
pub mod reporting;
pub mod retry;
pub mod sink;
pub mod text;
