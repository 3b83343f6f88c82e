use re_utilities::thread_suspender::{ThreadRecord, ThreadSuspender, ThreadTable};

const PID: u32 = 100;
const CURRENT: u32 = 1;

fn sample_table() -> ThreadTable {
    ThreadTable::new(vec![
        ThreadRecord { thread_id: 1, owner_process_id: PID, suspend_count: 0 },
        ThreadRecord { thread_id: 2, owner_process_id: PID, suspend_count: 0 },
        ThreadRecord { thread_id: 3, owner_process_id: 999, suspend_count: 0 },
        ThreadRecord { thread_id: 4, owner_process_id: PID, suspend_count: 0 },
    ])
}

fn counts(table: &ThreadTable) -> Vec<u32> {
    let mut out = Vec::new();
    let mut i = 0;
    while i < table.len() {
        out.push(table.get(i).suspend_count);
        i += 1;
    }
    out
}

#[test]
fn suspends_every_other_thread_of_the_process() {
    let mut table = sample_table();
    let guard = ThreadSuspender::new(&mut table, PID, CURRENT);
    // the calling thread and the foreign-process thread keep running
    assert_eq!(counts(&table), vec![0, 1, 0, 1]);
    guard.release(&mut table);
    assert_eq!(counts(&table), vec![0, 0, 0, 0]);
}

#[test]
fn release_restores_nested_counts() {
    let mut table = ThreadTable::new(vec![
        ThreadRecord { thread_id: 1, owner_process_id: PID, suspend_count: 0 },
        ThreadRecord { thread_id: 2, owner_process_id: PID, suspend_count: 3 },
    ]);
    let guard = ThreadSuspender::new(&mut table, PID, CURRENT);
    assert_eq!(counts(&table), vec![0, 4]);
    guard.release(&mut table);
    assert_eq!(counts(&table), vec![0, 3]);
}

#[test]
fn for_block_runs_the_work_while_others_are_paused() {
    let mut table = sample_table();
    let (ctx, result): (u64, Result<u64, u32>) =
        ThreadSuspender::for_block(&mut table, PID, CURRENT, 41, |c| (c + 1, Ok(c * 2)));
    assert_eq!(ctx, 42);
    assert_eq!(result, Ok(82));
    // every thread resumed on the way out
    assert_eq!(counts(&table), vec![0, 0, 0, 0]);
}

#[test]
fn for_block_resumes_on_the_error_path_too() {
    let mut table = sample_table();
    let (_ctx, result): (u32, Result<u32, String>) =
        ThreadSuspender::for_block(&mut table, PID, CURRENT, 0, |c| {
            (c, Err(String::from("step failed")))
        });
    assert!(result.is_err());
    assert_eq!(counts(&table), vec![0, 0, 0, 0]);
}
