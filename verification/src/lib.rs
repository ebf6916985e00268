//! Point-in-time resource-usage snapshots: the text format of a day's log,
//! its parser, ranking of process rows, display truncation, retention and
//! closest-timestamp retrieval.
//!
//! Text is modelled as `Seq<char>`; every executable function states its
//! result over spec functions on such sequences.
//!
//! - `text`: characters, whitespace, lines.
//! - `capture`: the collector's side: the process table, the block of a snapshot.
//! - `rank`: metric fields and the ranking of rows.
//! - `snapshot`: snapshot blocks and the parser of a log.
//! - `roundtrip`: what is written is what is parsed.
//! - `display`: capping the sections of a snapshot, and rendering it.
//! - `redisplay`: rendering what has been rendered.
//! - `closest`: the snapshot nearest to a time of day.
//! - `retention`: names of day logs, and when a log is evicted.
//! - `dates`: the days that have a log, in order.
//! - `cli`: the retriever's command line.
//! - `query`: what the retriever shows.

pub mod capture;
pub mod cli;
pub mod closest;
pub mod dates;
pub mod display;
pub mod query;
pub mod rank;
pub mod redisplay;
pub mod retention;
pub mod roundtrip;
pub mod snapshot;
pub mod text;
