use memsim::Frame;
use memsim::FrameRange;
use memsim::Instruction;
use memsim::Memory;
use memsim::Outcome;
use memsim::PageReplacementAlgorithm;
use memsim::Process;
use memsim::Summary;
use memsim::System;
use memsim::SystemError;
use memsim::Time;

fn fifo_system(page: usize, real: usize, swap: usize) -> System {
    System::new(PageReplacementAlgorithm::FIFO, page, real, swap)
}

fn entry(sys: &System, pid: u16) -> Process {
    for p in sys.alive_processes.iter() {
        if p.pid == pid {
            return *p;
        }
    }
    panic!("process {} is not alive", pid);
}

#[test]
fn a_new_system_is_empty() {
    let sys = fifo_system(16, 2048, 4096);
    assert_eq!(sys.real_memory.len(), 128);
    assert_eq!(sys.swap_space.len(), 256);
    assert_eq!(sys.calc_free_space(), 6144);
    assert_eq!(sys.time, Time::new());
    assert!(sys.alive_processes.is_empty());
    assert!(sys.dead_processes.is_empty());
}

#[test]
fn frame_counts_round_up() {
    let sys = fifo_system(16, 40, 17);
    assert_eq!(sys.real_memory.len(), 3);
    assert_eq!(sys.swap_space.len(), 2);
}

#[test]
fn allocation_loads_every_page() {
    let mut sys = fifo_system(16, 2048, 4096);
    let r = sys.process_instruction(&Instruction::Process { pid: 1, size: 40 });
    assert_eq!(r, Ok(Outcome::Allocated { pid: 1, pages: 3, elapsed: Time::from_miliseconds(3000) }));
    assert_eq!(sys.time, Time::from_miliseconds(3000));
    for i in 0..3 {
        let page = sys.real_memory[i].expect("page should be resident");
        assert_eq!(page.pid, 1);
        assert_eq!(page.index, i);
    }
    assert!(sys.real_memory[3].is_none());
    assert_eq!(entry(&sys, 1).life_start, Time::from_miliseconds(3000));
    assert_eq!(entry(&sys, 1).life_end, Time::max());
}

#[test]
fn allocation_larger_than_real_memory_is_rejected() {
    // Three pages would be needed but real memory holds only two frames,
    // so the process could never be fully resident: the request fails
    // outright and nothing changes, even though the hierarchy as a whole
    // has room.
    let mut sys = fifo_system(16, 32, 64);
    let real_before = sys.real_memory.clone();
    let swap_before = sys.swap_space.clone();
    let r = sys.process_instruction(&Instruction::Process { pid: 1, size: 40 });
    assert_eq!(r, Err(SystemError::ProcessExceedsRealMemory));
    assert_eq!(sys.time, Time::new());
    assert_eq!(sys.real_memory, real_before);
    assert_eq!(sys.swap_space, swap_before);
}

#[test]
fn allocation_evicts_when_real_memory_is_short() {
    // One page is resident; the next process needs both frames, so one
    // eviction happens during the allocation itself: two loads and one
    // swap-out, 3000 ms in all.
    let mut sys = fifo_system(16, 32, 64);
    let first = sys.process_instruction(&Instruction::Process { pid: 1, size: 16 });
    assert_eq!(first, Ok(Outcome::Allocated { pid: 1, pages: 1, elapsed: Time::from_miliseconds(1000) }));
    let second = sys.process_instruction(&Instruction::Process { pid: 2, size: 32 });
    assert_eq!(second, Ok(Outcome::Allocated { pid: 2, pages: 2, elapsed: Time::from_miliseconds(3000) }));
    assert_eq!(sys.time, Time::from_miliseconds(4000));
    // the old page moved to swap space and the swap-out was counted
    let moved = sys.swap_space[0].expect("evicted page should sit in swap space");
    assert_eq!((moved.pid, moved.index), (1, 0));
    assert_eq!(entry(&sys, 1).swap_outs, 1);
    // both frames now belong to the new process
    for i in 0..2 {
        let page = sys.real_memory[i].expect("frame should be occupied");
        assert_eq!((page.pid, page.index), (2, i));
    }
}

#[test]
fn access_in_real_memory_costs_one_access() {
    let mut sys = fifo_system(16, 2048, 4096);
    sys.process_instruction(&Instruction::Process { pid: 1, size: 40 }).unwrap();
    let r = sys.process_instruction(&Instruction::Access { address: 17, modifies: false, pid: 1 });
    assert_eq!(
        r,
        Ok(Outcome::Accessed {
            pid: 1,
            frame_index: 1,
            real_address: 17,
            page_fault: false,
            elapsed: Time::from_miliseconds(100),
        })
    );
    assert_eq!(sys.time, Time::from_miliseconds(3100));
    // the page's access time moved to the new clock
    let page = sys.real_memory[1].unwrap();
    assert_eq!(page.accessed, Time::from_miliseconds(3100));
    assert_eq!(page.created, Time::from_miliseconds(1000));
    assert_eq!(entry(&sys, 1).page_faults, 0);
}

#[test]
fn access_to_a_swapped_page_counts_the_fault_and_both_swaps() {
    // One real frame only: the second allocation evicts the first
    // process's page, and touching that page afterwards faults it back
    // in, evicting the second process's page in turn.
    let mut sys = fifo_system(16, 16, 64);
    sys.process_instruction(&Instruction::Process { pid: 1, size: 16 }).unwrap();
    sys.process_instruction(&Instruction::Process { pid: 2, size: 16 }).unwrap();
    assert_eq!(entry(&sys, 1).swap_outs, 1);
    let r = sys.process_instruction(&Instruction::Access { address: 0, modifies: false, pid: 1 });
    assert_eq!(
        r,
        Ok(Outcome::Accessed {
            pid: 1,
            frame_index: 0,
            real_address: 0,
            page_fault: true,
            elapsed: Time::from_miliseconds(1100),
        })
    );
    assert_eq!(sys.time, Time::from_miliseconds(4100));
    let one = entry(&sys, 1);
    assert_eq!(one.page_faults, 1);
    assert_eq!(one.swap_ins, 1);
    assert_eq!(one.swap_outs, 1);
    let two = entry(&sys, 2);
    assert_eq!(two.page_faults, 0);
    assert_eq!(two.swap_ins, 0);
    assert_eq!(two.swap_outs, 1);
    // the pages traded places
    let back = sys.real_memory[0].unwrap();
    assert_eq!((back.pid, back.index), (1, 0));
    let out = sys.swap_space[0].unwrap();
    assert_eq!((out.pid, out.index), (2, 0));
}

#[test]
fn releasing_an_unknown_pid_changes_nothing() {
    let mut sys = fifo_system(16, 2048, 4096);
    sys.process_instruction(&Instruction::Process { pid: 1, size: 40 }).unwrap();
    let real_before = sys.real_memory.clone();
    let swap_before = sys.swap_space.clone();
    let clock_before = sys.time;
    let r = sys.process_instruction(&Instruction::Free { pid: 9 });
    assert_eq!(r, Err(SystemError::UnknownProcess));
    assert_eq!(sys.time, clock_before);
    assert_eq!(sys.real_memory, real_before);
    assert_eq!(sys.swap_space, swap_before);
    assert!(sys.alive_processes.len() == 1);
    assert!(sys.dead_processes.is_empty());
}

#[test]
fn end_of_run_with_no_finished_process_has_no_average() {
    let mut sys = fifo_system(16, 2048, 4096);
    let r = sys.process_instruction(&Instruction::End());
    match r {
        Ok(Outcome::Report(summary)) => {
            assert!(summary.per_process.is_empty());
            assert_eq!(summary.average_turnaround, None);
        },
        other => panic!("unexpected outcome: {:?}", other),
    }
    assert_eq!(sys.time, Time::new());
}

#[test]
fn end_of_run_reports_turnaround_and_counters() {
    let mut sys = fifo_system(16, 2048, 4096);
    sys.process_instruction(&Instruction::Process { pid: 1, size: 16 }).unwrap();
    sys.process_instruction(&Instruction::Access { address: 3, modifies: true, pid: 1 }).unwrap();
    let freed = sys.process_instruction(&Instruction::Free { pid: 1 });
    assert_eq!(
        freed,
        Ok(Outcome::Freed {
            pid: 1,
            real_ranges: vec![FrameRange { start: 0, end: 0 }],
            swap_ranges: vec![],
            freed_frames: 1,
            elapsed: Time::from_miliseconds(100),
        })
    );
    assert_eq!(sys.time, Time::from_miliseconds(1200));
    let r = sys.process_instruction(&Instruction::End());
    let expected = Summary {
        per_process: vec![memsim::ProcessReport {
            pid: 1,
            turnaround: Time::from_miliseconds(200),
            page_faults: 0,
            swap_ins: 0,
            swap_outs: 0,
        }],
        average_turnaround: Some(Time::from_miliseconds(200)),
    };
    assert_eq!(r, Ok(Outcome::Report(expected)));
}

#[test]
fn releasing_frees_every_frame_of_the_process() {
    let mut sys = fifo_system(16, 2048, 4096);
    sys.process_instruction(&Instruction::Process { pid: 1, size: 40 }).unwrap();
    sys.process_instruction(&Instruction::Process { pid: 2, size: 16 }).unwrap();
    let r = sys.process_instruction(&Instruction::Free { pid: 1 });
    assert_eq!(
        r,
        Ok(Outcome::Freed {
            pid: 1,
            real_ranges: vec![FrameRange { start: 0, end: 2 }],
            swap_ranges: vec![],
            freed_frames: 3,
            elapsed: Time::from_miliseconds(300),
        })
    );
    for i in 0..3 {
        assert!(sys.real_memory[i].is_none());
    }
    let kept = sys.real_memory[3].unwrap();
    assert_eq!(kept.pid, 2);
    assert_eq!(sys.dead_processes.len(), 1);
    assert_eq!(sys.dead_processes[0].pid, 1);
    assert_eq!(sys.dead_processes[0].life_end, sys.time);
}

#[test]
fn duplicate_pid_is_rejected() {
    let mut sys = fifo_system(16, 2048, 4096);
    sys.process_instruction(&Instruction::Process { pid: 1, size: 16 }).unwrap();
    let clock_before = sys.time;
    let r = sys.process_instruction(&Instruction::Process { pid: 1, size: 16 });
    assert_eq!(r, Err(SystemError::DuplicateProcess));
    assert_eq!(sys.time, clock_before);
}

#[test]
fn allocation_beyond_all_free_space_is_rejected() {
    let mut sys = fifo_system(16, 32, 64);
    let r = sys.process_instruction(&Instruction::Process { pid: 1, size: 100 });
    assert_eq!(r, Err(SystemError::InsufficientTotalMemory));
    assert_eq!(sys.time, Time::new());
}

#[test]
fn access_outside_the_process_size_is_rejected() {
    let mut sys = fifo_system(16, 2048, 4096);
    sys.process_instruction(&Instruction::Process { pid: 1, size: 16 }).unwrap();
    let r = sys.process_instruction(&Instruction::Access { address: 16, modifies: false, pid: 1 });
    assert_eq!(r, Err(SystemError::AddressOutOfRange));
}

#[test]
fn access_to_an_unknown_pid_is_rejected() {
    let mut sys = fifo_system(16, 2048, 4096);
    let r = sys.process_instruction(&Instruction::Access { address: 0, modifies: false, pid: 5 });
    assert_eq!(r, Err(SystemError::UnknownProcess));
}

#[test]
fn comments_and_exit_do_nothing() {
    let mut sys = fifo_system(16, 2048, 4096);
    let c = sys.process_instruction(&Instruction::Comment(String::from("a remark")));
    assert_eq!(c, Ok(Outcome::Noop));
    let e = sys.process_instruction(&Instruction::Exit());
    assert_eq!(e, Ok(Outcome::Noop));
    assert_eq!(sys.time, Time::new());
}

#[test]
fn fifo_selects_the_oldest_page() {
    let mut sys = fifo_system(16, 32, 64);
    sys.process_instruction(&Instruction::Process { pid: 1, size: 16 }).unwrap();
    sys.process_instruction(&Instruction::Process { pid: 2, size: 16 }).unwrap();
    // slot 0 was created at 0, slot 1 at 1000
    assert_eq!(sys.fifo_find_page_to_replace(), 0);
    // a later access does not change FIFO's choice
    sys.process_instruction(&Instruction::Access { address: 0, modifies: false, pid: 1 }).unwrap();
    assert_eq!(sys.fifo_find_page_to_replace(), 0);
}

#[test]
fn lru_selects_the_least_recently_used_page_and_follows_accesses() {
    let mut sys = System::new(PageReplacementAlgorithm::LRU, 16, 32, 64);
    sys.process_instruction(&Instruction::Process { pid: 1, size: 16 }).unwrap();
    sys.process_instruction(&Instruction::Process { pid: 2, size: 16 }).unwrap();
    // slot 0 was last touched at 0, slot 1 at 1000
    assert_eq!(sys.lru_find_page_to_replace(), 0);
    // touching slot 0 makes slot 1 the least recently used
    sys.process_instruction(&Instruction::Access { address: 0, modifies: false, pid: 1 }).unwrap();
    assert_eq!(sys.lru_find_page_to_replace(), 1);
}

#[test]
fn fifo_n_way_selection_returns_the_oldest_in_slot_order() {
    let mut sys = fifo_system(16, 48, 64);
    sys.process_instruction(&Instruction::Process { pid: 1, size: 16 }).unwrap();
    sys.process_instruction(&Instruction::Process { pid: 2, size: 16 }).unwrap();
    sys.process_instruction(&Instruction::Process { pid: 3, size: 16 }).unwrap();
    let victims = sys.fifo_find_n_pages_to_replace(2);
    assert_eq!(victims, vec![0, 1]);
}

#[test]
fn locate_finds_the_same_frame_twice() {
    let mut sys = fifo_system(16, 32, 64);
    sys.process_instruction(&Instruction::Process { pid: 1, size: 32 }).unwrap();
    let first = sys.find_page(1, 1);
    let second = sys.find_page(1, 1);
    assert_eq!(first, second);
    assert_eq!(first, Frame(Memory::Real, 1));
}

#[test]
fn random_policy_keeps_the_books_straight() {
    let mut sys = System::new(PageReplacementAlgorithm::Random, 16, 32, 64);
    sys.process_instruction(&Instruction::Process { pid: 1, size: 32 }).unwrap();
    let r = sys.process_instruction(&Instruction::Process { pid: 2, size: 16 });
    // one eviction, whichever page it hit: one load and one swap
    assert_eq!(r, Ok(Outcome::Allocated { pid: 2, pages: 1, elapsed: Time::from_miliseconds(2000) }));
    assert_eq!(entry(&sys, 1).swap_outs, 1);
    // exactly one page of the first process sits in swap space
    let mut in_swap = None;
    for slot in sys.swap_space.iter() {
        if let Some(page) = slot {
            assert_eq!(page.pid, 1);
            assert!(in_swap.is_none());
            in_swap = Some(page.index);
        }
    }
    let swapped_index = in_swap.expect("one page should have been evicted");
    // faulting that page back in evicts a random victim and counts it
    let r2 = sys.process_instruction(&Instruction::Access {
        address: swapped_index * 16,
        modifies: false,
        pid: 1,
    });
    match r2 {
        Ok(Outcome::Accessed { pid, page_fault, elapsed, .. }) => {
            assert_eq!(pid, 1);
            assert!(page_fault);
            assert_eq!(elapsed, Time::from_miliseconds(1100));
        },
        other => panic!("unexpected outcome: {:?}", other),
    }
    let one = entry(&sys, 1);
    assert_eq!(one.page_faults, 1);
    assert_eq!(one.swap_ins, 1);
}

#[test]
fn an_exact_multiple_of_the_page_size_needs_no_extra_page() {
    let mut sys = fifo_system(16, 2048, 4096);
    let r = sys.process_instruction(&Instruction::Process { pid: 1, size: 32 });
    assert_eq!(r, Ok(Outcome::Allocated { pid: 1, pages: 2, elapsed: Time::from_miliseconds(2000) }));
}

#[test]
fn a_process_of_zero_bytes_has_no_pages_and_no_addresses() {
    let mut sys = fifo_system(16, 2048, 4096);
    let r = sys.process_instruction(&Instruction::Process { pid: 1, size: 0 });
    assert_eq!(r, Ok(Outcome::Allocated { pid: 1, pages: 0, elapsed: Time::new() }));
    assert_eq!(sys.time, Time::new());
    let a = sys.process_instruction(&Instruction::Access { address: 0, modifies: false, pid: 1 });
    assert_eq!(a, Err(SystemError::AddressOutOfRange));
    let f = sys.process_instruction(&Instruction::Free { pid: 1 });
    assert_eq!(
        f,
        Ok(Outcome::Freed {
            pid: 1,
            real_ranges: vec![],
            swap_ranges: vec![],
            freed_frames: 0,
            elapsed: Time::new(),
        })
    );
}

#[test]
fn allocation_fills_the_lowest_empty_slots_first() {
    let mut sys = fifo_system(16, 48, 64);
    sys.process_instruction(&Instruction::Process { pid: 1, size: 16 }).unwrap();
    sys.process_instruction(&Instruction::Process { pid: 2, size: 16 }).unwrap();
    // releasing the first process opens a hole at slot 0 below slot 2
    sys.process_instruction(&Instruction::Free { pid: 1 }).unwrap();
    sys.process_instruction(&Instruction::Process { pid: 3, size: 32 }).unwrap();
    let first = sys.real_memory[0].expect("slot 0 should be refilled first");
    assert_eq!((first.pid, first.index), (3, 0));
    let second = sys.real_memory[2].expect("slot 2 is the next empty one");
    assert_eq!((second.pid, second.index), (3, 1));
    let kept = sys.real_memory[1].unwrap();
    assert_eq!(kept.pid, 2);
}

#[test]
fn fault_with_a_free_frame_uses_the_first_empty_slot() {
    let mut sys = fifo_system(16, 32, 64);
    sys.process_instruction(&Instruction::Process { pid: 1, size: 32 }).unwrap();
    // displace the older page of the first process, then release the
    // second process to leave slot 0 empty
    sys.process_instruction(&Instruction::Process { pid: 2, size: 16 }).unwrap();
    sys.process_instruction(&Instruction::Free { pid: 2 }).unwrap();
    // faulting the swapped page back in takes slot 0, with no eviction
    let r = sys.process_instruction(&Instruction::Access { address: 0, modifies: false, pid: 1 });
    assert_eq!(
        r,
        Ok(Outcome::Accessed {
            pid: 1,
            frame_index: 0,
            real_address: 0,
            page_fault: true,
            elapsed: Time::from_miliseconds(100),
        })
    );
    assert_eq!(entry(&sys, 1).swap_ins, 1);
}

#[test]
fn fifo_allocation_evicts_the_oldest_pages_and_keeps_the_newest() {
    let mut sys = fifo_system(16, 48, 96);
    sys.process_instruction(&Instruction::Process { pid: 1, size: 16 }).unwrap();
    sys.process_instruction(&Instruction::Process { pid: 2, size: 16 }).unwrap();
    sys.process_instruction(&Instruction::Process { pid: 3, size: 16 }).unwrap();
    // two frames are needed: the two oldest pages (of pids 1 and 2) go out
    sys.process_instruction(&Instruction::Process { pid: 4, size: 32 }).unwrap();
    assert_eq!(entry(&sys, 1).swap_outs, 1);
    assert_eq!(entry(&sys, 2).swap_outs, 1);
    assert_eq!(entry(&sys, 3).swap_outs, 0);
    let kept = sys.real_memory[2].expect("the newest page stays resident");
    assert_eq!(kept.pid, 3);
    for i in 0..2 {
        let page = sys.real_memory[i].expect("frame should hold the new process");
        assert_eq!((page.pid, page.index), (4, i));
    }
}

#[test]
fn allocation_succeeds_exactly_up_to_the_free_space() {
    let mut sys = fifo_system(16, 64, 64);
    sys.process_instruction(&Instruction::Process { pid: 1, size: 64 }).unwrap();
    // the second process displaces the first one entirely
    let r = sys.process_instruction(&Instruction::Process { pid: 2, size: 64 });
    assert_eq!(r, Ok(Outcome::Allocated { pid: 2, pages: 4, elapsed: Time::from_miliseconds(8000) }));
    assert_eq!(sys.calc_free_space(), 0);
    // with nothing free, any nonzero request fails and a zero-byte one
    // still succeeds
    let full = sys.process_instruction(&Instruction::Process { pid: 3, size: 16 });
    assert_eq!(full, Err(SystemError::InsufficientTotalMemory));
    let empty = sys.process_instruction(&Instruction::Process { pid: 4, size: 0 });
    assert_eq!(empty, Ok(Outcome::Allocated { pid: 4, pages: 0, elapsed: Time::new() }));
}

#[test]
fn free_space_tracks_occupancy() {
    let mut sys = fifo_system(16, 32, 64);
    assert_eq!(sys.calc_free_space(), 96);
    sys.process_instruction(&Instruction::Process { pid: 1, size: 16 }).unwrap();
    assert_eq!(sys.calc_free_space(), 80);
    sys.process_instruction(&Instruction::Process { pid: 2, size: 32 }).unwrap();
    // both real frames and one swap frame are now occupied
    assert_eq!(sys.calc_free_space(), 48);
    sys.process_instruction(&Instruction::Free { pid: 1 }).unwrap();
    assert_eq!(sys.calc_free_space(), 64);
    sys.process_instruction(&Instruction::Free { pid: 2 }).unwrap();
    assert_eq!(sys.calc_free_space(), 96);
}
