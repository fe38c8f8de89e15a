use monitor_app::processes::{io_delta, top_by_memory, IoBaselines, IoCounters, IoRate, IoSample};

#[test]
fn rates_need_a_baseline_and_monotone_counters() {
    let cur = IoCounters { read: 100, write: 50 };
    assert!(io_delta(None, cur).is_none());
    let d = io_delta(Some(IoCounters { read: 40, write: 50 }), cur).unwrap();
    assert_eq!((d.read, d.write), (60, 0));
    assert!(io_delta(Some(IoCounters { read: 101, write: 0 }), cur).is_none());
}

#[test]
fn top_by_memory_is_a_stable_descending_prefix() {
    let mems = vec![5, 9, 5, 1, 9, 7];
    assert_eq!(top_by_memory(&mems, 50), vec![1, 4, 5, 0, 2, 3]);
    assert_eq!(top_by_memory(&mems, 3), vec![1, 4, 5]);
    assert_eq!(top_by_memory(&mems, 0), Vec::<usize>::new());
    assert_eq!(top_by_memory(&Vec::new(), 50), Vec::<usize>::new());
    // Same order as a stable sort by memory, descending, then truncation.
    let mut idx: Vec<usize> = (0..mems.len()).collect();
    idx.sort_by(|a, b| mems[*b].cmp(&mems[*a]));
    idx.truncate(4);
    assert_eq!(top_by_memory(&mems, 4), idx);
}

fn sample(pid: u32, start: u64, read: u64, write: u64) -> IoSample {
    IoSample { pid, start_marker: start, counters: IoCounters { read, write } }
}

#[test]
fn rate_requires_baseline() {
    let mut b = IoBaselines::new();
    let first = b.advance(&vec![sample(10, 1, 100, 50), sample(11, 1, 0, 0)], 1_000);
    assert!(first.iter().all(|r| r.is_none()));
    let second = b.advance(&vec![sample(10, 1, 400, 50), sample(11, 2, 5, 5)], 3_000);
    // Same instance: a rate over the elapsed time.
    assert!(second[0] == Some(IoRate { read_bytes: 300, write_bytes: 0, elapsed_nanos: 2_000 }));
    // Pid 11 was reused by a new process (new start marker): no rate.
    assert!(second[1].is_none());
}

#[test]
fn vanished_processes_and_backwards_counters_have_no_rate() {
    let mut b = IoBaselines::new();
    b.advance(&vec![sample(1, 1, 10, 10), sample(2, 1, 10, 10)], 100);
    b.advance(&vec![sample(1, 1, 20, 20)], 200);
    // Pid 2 vanished in the second scan, so its baseline is gone.
    let r = b.advance(&vec![sample(2, 1, 30, 30), sample(1, 1, 5, 30)], 300);
    assert!(r[0].is_none());
    // Counter went backwards: no rate rather than a wrapped spike.
    assert!(r[1].is_none());
    // No time passed: no rate.
    let r = b.advance(&vec![sample(2, 1, 40, 40)], 300);
    assert!(r[0].is_none());
}
