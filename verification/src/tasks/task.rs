//! A task: its saved registers, where it starts, its futexes and its thread-local storage.
use vstd::prelude::*;
use crate::tasks::futex::Futexes;
use crate::tasks::tls::TLS;

verus! {

/// RFLAGS of a fresh task: bit 1 (must be one) and IF (bit 9, interrupts enabled).
pub const BASIC_RFLAGS: u64 = 0x202;

/// Registers saved for a task that is not running.
#[derive(Clone, Copy)]
pub struct SavedState {
    pub rflags: u64,
    pub rax: u64,
    pub rbx: u64,
    pub rcx: u64,
    pub rdx: u64,
    pub rsi: u64,
    pub rdi: u64,
    pub rbp: u64,
    pub r8: u64,
    pub r9: u64,
    pub r10: u64,
    pub r11: u64,
    pub r12: u64,
    pub r13: u64,
    pub r14: u64,
    pub r15: u64,
}

impl SavedState {
    /// The saved state of a fresh task: basic flags, every register zero.
    pub open spec fn spec_new() -> SavedState {
        SavedState {
            rflags: BASIC_RFLAGS,
            rax: 0,
            rbx: 0,
            rcx: 0,
            rdx: 0,
            rsi: 0,
            rdi: 0,
            rbp: 0,
            r8: 0,
            r9: 0,
            r10: 0,
            r11: 0,
            r12: 0,
            r13: 0,
            r14: 0,
            r15: 0,
        }
    }

    /// The saved state of a fresh task: basic flags, every register zero.
    pub fn new() -> (r: SavedState)
        ensures
            r == SavedState::spec_new(),
    {
        SavedState {
            rflags: BASIC_RFLAGS,
            rax: 0,
            rbx: 0,
            rcx: 0,
            rdx: 0,
            rsi: 0,
            rdi: 0,
            rbp: 0,
            r8: 0,
            r9: 0,
            r10: 0,
            r11: 0,
            r12: 0,
            r13: 0,
            r14: 0,
            r15: 0,
        }
    }
}

/// A task.
pub struct Task {
    pub state: SavedState,
    pub rip: u64,
    pub rsp: u64,
    pub futexes: Futexes,
    pub tls: TLS,
}

impl Task {
    /// `t` is a fresh task: fresh saved state, null pointers, no futexes, no TLS keys.
    pub open spec fn is_fresh(t: Task) -> bool {
        &&& t.state == SavedState::spec_new()
        &&& t.rip == 0
        &&& t.rsp == 0
        &&& t.futexes.wf()
        &&& t.futexes@.dom().is_empty()
        &&& t.tls@.len() == 0
    }

    /// A fresh task.
    pub fn new() -> (r: Task)
        ensures
            Task::is_fresh(r),
    {
        Task { state: SavedState::new(), rip: 0, rsp: 0, futexes: Futexes::new(), tls: TLS::new() }
    }
}

} // verus!
