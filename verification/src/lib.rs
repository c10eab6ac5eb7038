//! Match engine for competitive-programming practice.
//!
//! The engine pairs the participants of a chat for timed matches on the
//! problems of a judge: a *duel* on one shared problem, which the first
//! solver wins, and a *lockout* on a ladder of problems, each worth points to
//! the player who solves it first.
//!
//! The engine decides and keeps the books; it reads no chat, asks no judge
//! and writes no file. Whoever runs it reports what happened — a message, the
//! submissions that the judge returned, the end of a match's time — and is
//! told what to do next.
//!
//! * [`problem`], [`catalog`], [`select`]: the problems of the judge, which
//!   of them a participant may be given, and which one is given.
//! * [`negotiate`]: from a command and the answers to it to the roster of a
//!   match.
//! * [`registry`], [`ledger`], [`accounts`], [`audit`]: the participants and
//!   the active matches, the changes they go through, and what holds of them
//!   at every moment.
//! * [`state`], [`duel`], [`lockout`]: the life of a match, step by step.
//! * [`ladder`], [`scoring`], [`tally`]: the ratings and point values of a
//!   lockout, its leaderboard, and when it is decided.
//! * [`challenge`]: registration and the untimed challenge.
//! * [`status`]: the texts in which a problem and a lockout are shown.
//! * [`order`], [`text`], [`equality`], [`math`], [`error`]: stable ordering,
//!   text and numbers, equality, the calculator's operations, and the
//!   failures that the engine reports.

pub mod accounts;
pub mod audit;
pub mod catalog;
pub mod challenge;
pub mod duel;
pub mod equality;
pub mod error;
pub mod ladder;
pub mod ledger;
pub mod lockout;
pub mod math;
pub mod negotiate;
pub mod order;
pub mod problem;
pub mod registry;
pub mod scoring;
pub mod select;
pub mod state;
pub mod status;
pub mod tally;
pub mod text;
