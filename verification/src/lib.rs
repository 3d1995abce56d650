//! Typed actors: the rules behind supervision, mailboxes, death watch, hosting, event sourcing and
//! clustered remoting, as plain data and decisions. Everything here is a function of its arguments;
//! the tasks, sockets and clocks which drive it live outside.

pub mod actor;
pub mod addr;
pub mod backoff;
pub mod book;
pub mod cluster;
pub mod host;
pub mod ids;
pub mod mailbox;
pub mod persistence;
pub mod request_response;
pub mod seqs;
pub mod sort;
pub mod supervision;
pub mod table;
pub mod watch;
pub mod wire;
