//! Metadata of a message: its place in the ring of slots and which processes
//! have read it.
use vstd::prelude::*;

verus! {

/// Whether the process `pid` has read a message.
#[derive(Debug, Clone, Copy, PartialEq, Eq, Structural)]
pub struct ProcReadStat {
    pub stat: bool,
    pub pid: u32,
}

/// A message's identity, its slot, its neighbours in the ring of slots, and
/// the read state of each process.
#[derive(Debug)]
pub struct MsgMeta {
    pub msg_id: u32,
    pub slot_id: u32,
    pub prev_slot: u32,
    pub next_slot: u32,
    pub stat_list: Vec<ProcReadStat>,
}

/// The sample metadata that is serialised for inspection: message 0 in slot
/// 1, between slots 10 and 11, read by process 100 and not yet by 101.
pub fn sample_msg_meta() -> (m: MsgMeta)
    ensures
        m.msg_id == 0,
        m.slot_id == 1,
        m.prev_slot == 10,
        m.next_slot == 11,
        m.stat_list@ == seq![
            ProcReadStat { stat: true, pid: 100 },
            ProcReadStat { stat: false, pid: 101 },
        ],
{
    let mut stat_list: Vec<ProcReadStat> = Vec::new();
    stat_list.push(ProcReadStat { stat: true, pid: 100 });
    stat_list.push(ProcReadStat { stat: false, pid: 101 });
    MsgMeta { msg_id: 0, slot_id: 1, prev_slot: 10, next_slot: 11, stat_list }
}

} // verus!
