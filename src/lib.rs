//! A resumable, budget-bounded engine for scoring paraphrased
//! instruction/answer pairs with a remote grader.
//!
//! - `tokens`: the word-based token estimate.
//! - `packer`: first-fit greedy packing of variants into chunks under a token
//!   budget and an optional count cap.
//! - `prompt`: the scoring prompt, the variant blocks and answer cleaning.
//! - `response`: finding the JSON object in a grader's reply.
//! - `retry`: exponential backoff and the per-chunk retry decisions.
//! - `config`: the effective budget and the known models' limits.
//! - `run`: the run coordinator, a state machine that hands out chunks,
//!   records attempts, and reports results, issues and what is left.
//! - `stats`: aggregates of score vectors.

pub mod config;
pub mod packer;
pub mod prompt;
pub mod response;
pub mod retry;
pub mod run;
pub mod stats;
pub mod tokens;
