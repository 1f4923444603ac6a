//! Signal path and client sessions of a browser-based radio receiver.
pub mod clients;
pub mod connection;
pub mod controller;
pub mod demod;
pub mod iter;
pub mod payload;
pub mod radio;
pub mod report;
pub mod run;
pub mod session;
pub mod worker;

