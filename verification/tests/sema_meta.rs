use shm_ipc::meta::{sample_msg_meta, ProcReadStat};
use shm_ipc::sema::{call_succeeded, wait_outcome, WaitOutcome, WAIT_OBJECT_0};

#[test]
fn wait_outcomes() {
    assert_eq!(wait_outcome(WAIT_OBJECT_0), WaitOutcome::Acquired);
    assert_eq!(wait_outcome(0x102), WaitOutcome::Failed);
    assert_eq!(wait_outcome(0x80), WaitOutcome::Failed);
    assert_eq!(wait_outcome(0xFFFF_FFFF), WaitOutcome::Failed);
}

#[test]
fn bool_results() {
    assert!(call_succeeded(1));
    assert!(call_succeeded(-1));
    assert!(!call_succeeded(0));
}

#[test]
fn sample_meta_fields() {
    let m = sample_msg_meta();
    assert_eq!(m.msg_id, 0);
    assert_eq!(m.slot_id, 1);
    assert_eq!(m.prev_slot, 10);
    assert_eq!(m.next_slot, 11);
    assert_eq!(
        m.stat_list,
        vec![ProcReadStat { stat: true, pid: 100 }, ProcReadStat { stat: false, pid: 101 }]
    );
}
