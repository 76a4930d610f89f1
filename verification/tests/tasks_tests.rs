use daisogen::collections::{NameMap, PageMap, PidSet, UsizeMap};
use daisogen::mem::HH;
use daisogen::pd::PointerDirectory;
use daisogen::tasks::futex::{Futex, Futexes};
use daisogen::tasks::scheduler::SchedulerState;
use daisogen::tasks::task::{SavedState, Task, BASIC_RFLAGS};
use daisogen::tasks::tls::TLS;
use daisogen::tasks::{base_to_pid, pid_to_base, Tasks};

#[test]
fn test_pid_to_base() {
    assert_eq!(pid_to_base(0), HH);
    assert_eq!(pid_to_base(1), HH + 0x8000_0000);
    assert_eq!(pid_to_base(3), 0xFFFF_8001_8000_0000);
}

#[test]
fn test_base_to_pid_inverts_pid_to_base() {
    for pid in [0usize, 1, 2, 7, 100, 0xFFFE] {
        assert_eq!(base_to_pid(pid_to_base(pid)), pid);
        assert_eq!(base_to_pid(pid_to_base(pid) + 0x7FFF_FFFF), pid);
    }
    assert_eq!(base_to_pid(HH + 0x1_0000_0000), 2);
}

#[test]
fn test_alloc_pid_hands_out_new_pids() {
    let mut t = Tasks::new();
    assert_eq!(t.alloc_pid(), 1);
    assert_eq!(t.alloc_pid(), 2);
    assert_eq!(t.alloc_pid(), 3);
    let task = t.get_task(2);
    assert_eq!((task.rip, task.rsp), (0, 0));
    // The null task sits at PID 0.
    assert_eq!(t.get_task(0).rip, 0);
}

#[test]
fn test_set_entry() {
    let mut t = Tasks::new();
    let pid = t.alloc_pid();
    t.set_entry(pid, 0x1234, 0x5678);
    assert_eq!(t.get_task(pid).rip, 0x1234);
    assert_eq!(t.get_task(pid).rsp, 0x5678);
    assert_eq!(t.get_task(0).rip, 0);
}

#[test]
fn test_fresh_task_state() {
    let s = SavedState::new();
    assert_eq!(s.rflags, BASIC_RFLAGS);
    assert_eq!(BASIC_RFLAGS, 0x202);
    assert_eq!((s.rax, s.rbx, s.rcx, s.rdx, s.rsi, s.rdi, s.rbp), (0, 0, 0, 0, 0, 0, 0));
    assert_eq!((s.r8, s.r9, s.r10, s.r11, s.r12, s.r13, s.r14, s.r15), (0, 0, 0, 0, 0, 0, 0, 0));
    let t = Task::new();
    assert_eq!((t.rip, t.rsp), (0, 0));
}

#[test]
fn test_scheduler_round_robin() {
    let mut s = SchedulerState::new(2);
    assert_eq!(s.core_running(0), 0);
    assert_eq!(s.core_running(1), 0);
    s.add(1);
    s.add(2);
    s.add(1);
    s.add(3);
    assert_eq!(s.schedule(0), Some(1));
    assert_eq!(s.core_running(0), 1);
    assert_eq!(s.schedule(1), Some(2));
    assert_eq!(s.core_running(1), 2);
    s.add(1);
    assert_eq!(s.schedule(0), Some(3));
    assert_eq!(s.schedule(0), Some(1));
    assert_eq!(s.schedule(0), None);
    assert_eq!(s.core_running(0), 0);
    assert_eq!(s.core_running(1), 2);
}

#[test]
fn test_scheduler_readd_after_schedule() {
    let mut s = SchedulerState::new(1);
    s.add(5);
    assert_eq!(s.schedule(0), Some(5));
    s.add(5);
    assert_eq!(s.schedule(0), Some(5));
    assert_eq!(s.schedule(0), None);
}

#[test]
fn test_tls_keys() {
    let mut tls = TLS::new();
    assert_eq!(tls.create(), 0);
    assert_eq!(tls.create(), 1);
    assert_eq!(tls.get(0), 0);
    tls.set(1, 42);
    tls.set(0, 7);
    assert_eq!(tls.get(1), 42);
    assert_eq!(tls.get(0), 7);
    tls.destroy(1);
    assert_eq!(tls.get(1), 42);
    assert_eq!(tls.create(), 2);
}

#[test]
fn test_futex_wait_parks_only_on_match() {
    let mut f = Futex::new(0x1000);
    assert_eq!(f.var, 0x1000);
    assert!(!f.wait(1, 2, 5));
    assert!(f.wait(2, 2, 5));
    assert!(f.wait(2, 2, 6));
    let mut s = SchedulerState::new(1);
    assert_eq!(f.wake_one(&mut s), Some(5));
    assert_eq!(f.wake_one(&mut s), Some(6));
    assert_eq!(f.wake_one(&mut s), None);
    assert_eq!(s.schedule(0), Some(5));
    assert_eq!(s.schedule(0), Some(6));
}

#[test]
fn test_futexes_per_variable() {
    let mut fs = Futexes::new();
    let mut s = SchedulerState::new(1);
    assert!(fs.wait(0x10, 0, 0, 3));
    assert!(fs.wait(0x20, 9, 9, 4));
    assert!(!fs.wait(0x10, 1, 0, 8));
    assert!(fs.wait(0x10, 0, 0, 7));
    assert_eq!(fs.wake_one(0x20, &mut s), Some(4));
    assert_eq!(fs.wake_one(0x20, &mut s), None);
    assert_eq!(fs.wake_one(0x30, &mut s), None);
    assert_eq!(fs.wake_one(0x10, &mut s), Some(3));
    assert_eq!(fs.wake_one(0x10, &mut s), Some(7));
    assert_eq!(s.schedule(0), Some(4));
    assert_eq!(s.schedule(0), Some(3));
    assert_eq!(s.schedule(0), Some(7));
}

#[test]
fn test_pointer_directory() {
    let mut pd = PointerDirectory::new();
    assert_eq!(pd.get(b"exit"), 0);
    pd.set(b"exit", 0x1000);
    pd.set(b"print", 0x2000);
    assert_eq!(pd.get(b"exit"), 0x1000);
    assert_eq!(pd.get(b"print"), 0x2000);
    pd.set(b"exit", 0x3000);
    assert_eq!(pd.get(b"exit"), 0x3000);
    pd.set3("yield", 0x4000);
    assert_eq!(pd.get2(&String::from("yield")), 0x4000);
    pd.set2(&String::from("yield"), 0x5000);
    assert_eq!(pd.get(b"yield"), 0x5000);
    assert_eq!(pd.get2(&String::from("nothing")), 0);
}

#[test]
fn test_pointer_directory_ignores_non_utf8() {
    let mut pd = PointerDirectory::new();
    pd.set(&[0xFF, 0xFE], 0x1000);
    assert_eq!(pd.get(&[0xFF, 0xFE]), 0);
}

#[test]
fn test_hash_collections() {
    let mut s = PidSet::new();
    assert!(!s.contains(3));
    assert!(s.insert(3));
    assert!(!s.insert(3));
    assert!(s.contains(3));
    assert!(s.remove(3));
    assert!(!s.remove(3));

    let mut m = UsizeMap::new();
    assert_eq!(m.insert(1, 10), None);
    assert_eq!(m.insert(1, 11), Some(10));
    assert!(m.contains_key(1));
    assert_eq!(m.get(1), Some(11));
    assert_eq!(m.get(2), None);

    let mut n = NameMap::new();
    assert_eq!(n.insert(String::from("a"), 1), None);
    assert_eq!(n.get(&String::from("a")), Some(1));
    assert_eq!(n.get(&String::from("b")), None);

    let mut p = PageMap::new();
    assert_eq!(p.insert(0x1000, 0xA000), None);
    assert_eq!(p.insert(0x2000, 0xB000), None);
    assert!(p.contains_key(0x2000));
    assert_eq!(p.get(0x1000), Some(0xA000));
    let mut es = p.entries();
    es.sort();
    assert_eq!(es, vec![(0x1000, 0xA000), (0x2000, 0xB000)]);
}

#[test]
fn test_tls_len_counts_keys() {
    let mut tls = TLS::new();
    assert_eq!(tls.len(), 0);
    tls.create();
    tls.create();
    assert_eq!(tls.len(), 2);
}

#[test]
fn test_replace_task_swaps_one_entry() {
    let mut tasks = Tasks::new();
    let pid = tasks.alloc_pid();
    assert_eq!(tasks.len(), 2);
    let mut t = Task::new();
    t.rip = 0x1234;
    let old = tasks.replace_task(pid, t);
    assert_eq!(old.rip, 0);
    assert_eq!(tasks.get_task(pid).rip, 0x1234);
    assert_eq!(tasks.get_task(0).rip, 0);
    let back = tasks.replace_task(pid, Task::new());
    assert_eq!(back.rip, 0x1234);
}
