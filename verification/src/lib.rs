//! Guest-side QoS reporting for paravirtual scheduling.
//!
//! A guest tells its host how much pressure there is on each of its vCPUs, through a page of
//! memory that both share. This crate holds the rules of that report:
//!
//! - [`args`] and [`daemon`]: what the command line asks for, and how the watchdog keeps a worker
//!   running;
//! - [`text`], [`decimal`], [`path`] and [`cpuset`]: the text formats involved;
//! - [`pressure`] and [`ratio`]: pressure ratios as doubles, by integer arithmetic on their bits;
//! - [`source`] and [`psi`]: where pressure comes from;
//! - [`shared_mem`]: the page, and what is written to it;
//! - [`timer`]: when it is written;
//! - [`qos`]: the collector, which ties these together.
//!
//! Reading files and clocks, mapping the page and spawning processes are left to the caller.

pub mod args;
pub mod cpuset;
pub mod daemon;
pub mod decimal;
pub mod error;
pub mod path;
pub mod pressure;
pub mod psi;
pub mod qos;
pub mod ratio;
pub mod shared_mem;
pub mod source;
pub mod text;
pub mod timer;
