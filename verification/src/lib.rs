pub mod attested;
pub mod barrier;
pub mod bundle;
pub mod canon;
pub mod cas;
pub mod certificate;
pub mod command;
pub mod compared;
pub mod config;
pub mod coverage;
pub mod declared;
pub mod demo;
pub mod determined;
pub mod divergence;
pub mod enacted;
pub mod event;
pub mod explore;
pub mod faithful;
pub mod fault;
pub mod gathered;
pub mod hash;
pub mod injected;
pub mod invariants;
pub mod json;
pub mod judged;
pub mod layout;
pub mod ledger;
pub mod model;
pub mod offscript;
pub mod oracle;
pub mod orderings;
pub mod proxy;
pub mod record;
pub mod relayed;
pub mod remedy;
pub mod repeats;
pub mod replay;
pub mod replayer;
pub mod report;
pub mod rng;
pub mod shown;
pub mod shrink;
pub mod spaces;
pub mod spelled;
pub mod testkit;
pub mod text;
pub mod timeline;
pub mod trace;
pub mod ui;
pub mod verdicts;
pub mod volatile;
pub mod worked;
pub mod written;
