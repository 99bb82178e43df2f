//! Simulator for an operating system's virtual-memory manager.
//!
//! The library tracks processes, allocates page frames in a two-tier memory
//! hierarchy (real memory plus swap space), translates virtual addresses,
//! handles page faults and eviction under a pluggable replacement policy
//! (FIFO, LRU or random), and accounts the simulated time that every
//! operation costs.

mod algorithm;
mod config;
mod instruction;
mod process;
mod report;
mod system;
mod time;
mod util;

pub use algorithm::PageReplacementAlgorithm;
pub use config::SizeArgument;
pub use instruction::Instruction;
pub use process::PID;
pub use process::Process;
pub use process::ProcessPage;
pub use process::sat_inc;
pub use report::Outcome;
pub use system::ACCESS_PAGE_TIME;
pub use system::FREE_PAGE_TIME;
pub use system::Frame;
pub use system::LOAD_PAGE_TIME;
pub use system::MAX_FRAMES;
pub use system::MODIFY_PAGE_TIME;
pub use system::Memory;
pub use system::SWAP_PAGE_TIME;
pub use system::System;
pub use system::access_post;
pub use system::access_registry_post;
pub use system::alloc_post;
pub use system::free_post;
pub use system::fresh_page_stamped;
pub use system::lemma_locate_idempotent;
pub use system::lemma_page_in_one_slot;
pub use system::model;
pub use system::page_index_of;
pub use system::summary_post;
pub use system::validate;
pub use report::ProcessReport;
pub use report::Summary;
pub use report::SystemError;
pub use time::Time;
pub use time::TimeError;
pub use time::sat_add;
pub use util::FrameRange;
pub use util::add_index_to_vec_of_ranges;
pub use util::ceil_div;
pub use util::ceil_div_spec;
pub use util::range_seq;
pub use util::ranges_flat;
pub use util::ranges_wf;

