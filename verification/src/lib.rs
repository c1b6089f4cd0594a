//! A verified model of a small multitasking kernel for a single-core machine:
//! task control blocks and their lifecycle (fork, exec, spawn, exit, wait),
//! a FIFO scheduler, and the address-space layer that backs every user-memory
//! access performed on behalf of a syscall.

pub mod config;
pub mod addrspace;
pub mod task;
pub mod kernel;
pub mod syscall;
pub mod laws;
