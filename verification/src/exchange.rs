//! Writing a message into a cell of the shared region, reading a cell back,
//! and assembling the report of everything a worker's peers left for it.
use crate::builder::{builder_append, builder_bytes, builder_new, builder_string};
use crate::layout::{
    cell_offset, lemma_cell_in_region, lemma_cells_disjoint, MSG_CELL_SIZE, read_offset, spec_read_offset, spec_shm_size, spec_write_offset,
    write_offset, MAX_MSG_LEN,
};
use vstd::prelude::*;
use vstd::string::StringSliceAdditionalSpecFns;
use vstd::utf8::*;

verus! {

/// The region `mem` after `data` is written at `off`.
pub open spec fn spec_write(mem: Seq<u8>, off: int, data: Seq<u8>) -> Seq<u8> {
    mem.take(off) + data + mem.skip(off + data.len())
}

/// The bytes a read of the cell at `off` gives: one message length of them.
pub open spec fn spec_read_cell(mem: Seq<u8>, off: int) -> Seq<u8> {
    mem.subrange(off, off + MAX_MSG_LEN)
}

/// The part of the report of `worker_index` that comes from the first `k`
/// workers: for each peer among them, in order, its cell and a comma.
pub open spec fn report_body(mem: Seq<u8>, worker_index: nat, n: nat, k: nat) -> Seq<u8>
    decreases k,
{
    if k == 0 {
        Seq::empty()
    } else if k - 1 == worker_index {
        report_body(mem, worker_index, n, (k - 1) as nat)
    } else {
        report_body(mem, worker_index, n, (k - 1) as nat) + spec_read_cell(
            mem,
            spec_read_offset(worker_index, (k - 1) as nat, n) as int,
        ) + seq![44u8]
    }
}

/// The bytes of the report of `worker_index`: `[`, then the cell each peer
/// wrote for it followed by `,`, then `]`.
pub open spec fn report_bytes(mem: Seq<u8>, worker_index: nat, n: nat) -> Seq<u8> {
    seq![91u8] + report_body(mem, worker_index, n, n) + seq![93u8]
}

/// Why a report could not be made.
#[derive(Debug, PartialEq, Eq, Structural)]
pub enum ReportError {
    /// The bytes read from the cells are not valid UTF-8.
    InvalidUtf8,
}

/// Writes `message` at the start of the cell in which `worker_index` leaves
/// messages for `peer`.
pub fn write_message(
    mem: &mut [u8],
    worker_index: u32,
    peer: u32,
    worker_num: u32,
    message: &str,
)
    requires
        worker_index < worker_num,
        peer < worker_num,
        spec_shm_size(worker_num as nat) <= u32::MAX,
        spec_write_offset(worker_index as nat, peer as nat, worker_num as nat)
            + message.spec_bytes().len() <= old(mem)@.len(),
    ensures
        final(mem)@ == spec_write(
            old(mem)@,
            spec_write_offset(worker_index as nat, peer as nat, worker_num as nat) as int,
            message.spec_bytes(),
        ),
        final(mem)@.len() == old(mem)@.len(),
        forall|a: int|
            0 <= a < old(mem)@.len() ==> #[trigger] final(mem)@[a] == {
                let off = (worker_index * worker_num + peer) * MSG_CELL_SIZE;
                if off <= a < off + message.spec_bytes().len() {
                    message.spec_bytes()[a - off]
                } else {
                    old(mem)@[a]
                }
            },
{
    let off = write_offset(worker_index, peer, worker_num) as usize;
    let bytes = message.as_bytes();
    let ghost before = mem@;
    let mlen = mem.len();
    let mut k: usize = 0;
    while k < bytes.len()
        invariant
            mlen == mem@.len(),
            off + bytes@.len() <= mem@.len(),
            mem@.len() == before.len(),
            k <= bytes@.len(),
            forall|a: int| 0 <= a < off ==> #[trigger] mem@[a] == before[a],
            forall|a: int| off + bytes@.len() <= a < mem@.len() ==> #[trigger] mem@[a] == before[a],
            forall|a: int| 0 <= a < k ==> #[trigger] mem@[off + a] == bytes@[a],
            forall|a: int| k <= a < bytes@.len() ==> #[trigger] mem@[off + a] == before[off + a],
        decreases bytes@.len() - k,
    {
        mem[off + k] = bytes[k];
        k = k + 1;
    }
    let ghost w = spec_write(before, off as int, bytes@);
    assert forall|a: int| 0 <= a < mem@.len() implies #[trigger] mem@[a] == w[a] by {
        if a < off {
        } else if a < off + bytes@.len() {
            assert(mem@[off + (a - off)] == bytes@[a - off]);
        } else {
        }
    }
    assert(mem@ =~= w);
}

/// The cell that `peer` wrote for `worker_index`, one message length of bytes.
pub fn read_message(mem: &[u8], worker_index: u32, peer: u32, worker_num: u32) -> (r: Vec<u8>)
    requires
        worker_index < worker_num,
        peer < worker_num,
        spec_shm_size(worker_num as nat) <= u32::MAX,
        spec_shm_size(worker_num as nat) <= mem@.len(),
    ensures
        r@ == spec_read_cell(
            mem@,
            spec_read_offset(worker_index as nat, peer as nat, worker_num as nat) as int,
        ),
        r@ == mem@.subrange(
            (peer * worker_num + worker_index) * MSG_CELL_SIZE,
            (peer * worker_num + worker_index) * MSG_CELL_SIZE + MAX_MSG_LEN,
        ),
{
    proof {
        lemma_cell_in_region(peer as nat, worker_index as nat, worker_num as nat);
    }
    let off = read_offset(worker_index, peer, worker_num) as usize;
    let len = MAX_MSG_LEN as usize;
    let mlen = mem.len();
    let mut r: Vec<u8> = Vec::new();
    let mut k: usize = 0;
    while k < len
        invariant
            mlen == mem@.len(),
            len == MAX_MSG_LEN,
            off + len <= mem@.len(),
            k <= len,
            r@ =~= mem@.subrange(off as int, off + k),
        decreases len - k,
    {
        r.push(mem[off + k]);
        k = k + 1;
    }
    r
}

/// The report of `worker_index`: `[`, then, for each peer in increasing
/// order, the cell it wrote for this worker and `,`, then `]`, as a string.
/// With no workers it is `[]`.
pub fn read_report(mem: &[u8], worker_index: u32, worker_num: u32) -> (r: Result<
    String,
    ReportError,
>)
    requires
        worker_index < worker_num || worker_num == 0,
        spec_shm_size(worker_num as nat) <= u32::MAX,
        spec_shm_size(worker_num as nat) <= mem@.len(),
    ensures
        r is Ok <==> valid_utf8(report_bytes(mem@, worker_index as nat, worker_num as nat)),
        r matches Ok(s) ==> s@ == decode_utf8(
            report_bytes(mem@, worker_index as nat, worker_num as nat),
        ),
        r matches Err(e) ==> e == ReportError::InvalidUtf8,
{
    let open: Vec<u8> = vec![91u8];
    let comma: Vec<u8> = vec![44u8];
    let close: Vec<u8> = vec![93u8];
    let mut builder = builder_new();
    builder_append(&mut builder, open.as_slice());
    let mut j: u32 = 0;
    while j < worker_num
        invariant
            worker_index < worker_num || worker_num == 0,
            spec_shm_size(worker_num as nat) <= u32::MAX,
            spec_shm_size(worker_num as nat) <= mem@.len(),
            j <= worker_num,
            comma@ == seq![44u8],
            builder_bytes(builder) == seq![91u8] + report_body(
                mem@,
                worker_index as nat,
                worker_num as nat,
                j as nat,
            ),
        decreases worker_num - j,
    {
        if j != worker_index {
            let data = read_message(mem, worker_index, j, worker_num);
            builder_append(&mut builder, data.as_slice());
            builder_append(&mut builder, comma.as_slice());
            assert(builder_bytes(builder) =~= seq![91u8] + report_body(
                mem@,
                worker_index as nat,
                worker_num as nat,
                (j + 1) as nat,
            ));
        }
        j = j + 1;
    }
    builder_append(&mut builder, close.as_slice());
    assert(builder_bytes(builder) =~= report_bytes(mem@, worker_index as nat, worker_num as nat));
    match builder_string(builder) {
        Ok(s) => Ok(s),
        Err(_) => Err(ReportError::InvalidUtf8),
    }
}

/// A reader that reads the cell of a writer right after the writer wrote a
/// message of at most one message length for it gets that message back, then
/// the bytes that followed in the cell before.
pub proof fn lemma_read_after_write(mem: Seq<u8>, writer: nat, reader: nat, n: nat, msg: Seq<u8>)
    requires
        writer < n,
        reader < n,
        spec_shm_size(n) <= mem.len(),
        msg.len() <= MAX_MSG_LEN,
    ensures
        ({
            let after = spec_write(mem, spec_write_offset(writer, reader, n) as int, msg);
            let got = spec_read_cell(after, spec_read_offset(reader, writer, n) as int);
            let off = cell_offset(writer, reader, n) as int;
            &&& got.take(msg.len() as int) == msg
            &&& got.skip(msg.len() as int) == mem.subrange(off + msg.len(), off + MAX_MSG_LEN)
        }),
{
    lemma_cell_in_region(writer, reader, n);
    let off = cell_offset(writer, reader, n) as int;
    let after = spec_write(mem, off, msg);
    let got = spec_read_cell(after, off);
    assert(got.take(msg.len() as int) =~= msg);
    assert(got.skip(msg.len() as int) =~= mem.subrange(off + msg.len(), off + MAX_MSG_LEN));
}

/// A write of at most one cell's size into the cell of one pair of workers
/// leaves what a read of any other pair's cell gives unchanged.
pub proof fn lemma_write_keeps_other_cells(
    mem: Seq<u8>,
    writer: nat,
    reader: nat,
    other_writer: nat,
    other_reader: nat,
    n: nat,
    msg: Seq<u8>,
)
    requires
        writer < n,
        reader < n,
        other_writer < n,
        other_reader < n,
        writer != other_writer || reader != other_reader,
        spec_shm_size(n) <= mem.len(),
        msg.len() <= MSG_CELL_SIZE,
    ensures
        spec_read_cell(
            spec_write(mem, spec_write_offset(other_writer, other_reader, n) as int, msg),
            spec_read_offset(reader, writer, n) as int,
        ) == spec_read_cell(mem, spec_read_offset(reader, writer, n) as int),
{
    lemma_cell_in_region(writer, reader, n);
    lemma_cell_in_region(other_writer, other_reader, n);
    lemma_cells_disjoint(writer, reader, other_writer, other_reader, n);
    let off = cell_offset(writer, reader, n) as int;
    let woff = cell_offset(other_writer, other_reader, n) as int;
    let after = spec_write(mem, woff, msg);
    assert(spec_read_cell(after, off) =~= spec_read_cell(mem, off));
}

/// The peer of `worker_index` at position `idx` of the increasing peer list.
pub open spec fn peer_at(worker_index: nat, idx: int) -> nat {
    if idx < worker_index {
        idx as nat
    } else {
        (idx + 1) as nat
    }
}

/// The report of worker `w` among `n` is `[`, then, for each position `idx`
/// of the increasing list of its peers, the 200 bytes at the start of the
/// cell that peer wrote for `w`, unchanged, and a comma, then `]`.
pub proof fn lemma_report_pieces(mem: Seq<u8>, w: nat, n: nat)
    requires
        w < n,
        n * n * MSG_CELL_SIZE <= mem.len(),
    ensures
        ({
            let rb = report_bytes(mem, w, n);
            &&& rb.len() == 2 + (n - 1) * 201
            &&& rb[0] == 91u8
            &&& rb[rb.len() - 1] == 93u8
            &&& forall|idx: int|
                0 <= idx < n - 1 ==> {
                    let p: int = if idx < w { idx } else { idx + 1 };
                    let off: int = (p * n + w) * MSG_CELL_SIZE;
                    &&& #[trigger] rb.subrange(1 + idx * 201, 1 + idx * 201 + 200)
                        == mem.subrange(off, off + 200)
                    &&& rb[1 + idx * 201 + 200] == 44u8
                }
        }),
{
    lemma_report_body_pieces(mem, w, n, n);
    let body = report_body(mem, w, n, n);
    let rb = report_bytes(mem, w, n);
    assert(rb.len() == 2 + (n - 1) * 201);
    assert forall|idx: int| 0 <= idx < n - 1 implies {
        let p: int = if idx < w { idx } else { idx + 1 };
        let off: int = (p * n + w) * MSG_CELL_SIZE;
        &&& #[trigger] rb.subrange(1 + idx * 201, 1 + idx * 201 + 200) == mem.subrange(
            off,
            off + 200,
        )
        &&& rb[1 + idx * 201 + 200] == 44u8
    } by {
        assert(idx * 201 + 201 <= (n - 1) * 201) by (nonlinear_arith)
            requires 0 <= idx < n - 1;
        assert(body.subrange(idx * 201, idx * 201 + 200) == spec_read_cell(
            mem,
            spec_read_offset(w, peer_at(w, idx), n) as int,
        ));
        assert(rb.subrange(1 + idx * 201, 1 + idx * 201 + 200) =~= body.subrange(
            idx * 201,
            idx * 201 + 200,
        ));
        assert(rb[1 + idx * 201 + 200] == body[idx * 201 + 200]);
    }
}

proof fn lemma_report_body_pieces(mem: Seq<u8>, w: nat, n: nat, k: nat)
    requires
        w < n,
        k <= n,
        n * n * MSG_CELL_SIZE <= mem.len(),
    ensures
        ({
            let body = report_body(mem, w, n, k);
            let cnt: int = if k <= w { k as int } else { k - 1 };
            &&& body.len() == cnt * 201
            &&& forall|idx: int|
                0 <= idx < cnt ==> {
                    &&& #[trigger] body.subrange(idx * 201, idx * 201 + 200) == spec_read_cell(
                        mem,
                        spec_read_offset(w, peer_at(w, idx), n) as int,
                    )
                    &&& body[idx * 201 + 200] == 44u8
                }
        }),
    decreases k,
{
    if k > 0 {
        let km: nat = (k - 1) as nat;
        lemma_report_body_pieces(mem, w, n, km);
        if km == w {
            assert(report_body(mem, w, n, k) == report_body(mem, w, n, km));
        } else {
            lemma_cell_in_region(km, w, n);
            let prev = report_body(mem, w, n, km);
            let cell = spec_read_cell(mem, spec_read_offset(w, km, n) as int);
            let body = report_body(mem, w, n, k);
            let pc: int = if km <= w { km as int } else { km - 1 };
            assert(cell.len() == 200);
            assert(body == prev + cell + seq![44u8]);
            assert((pc + 1) * 201 == pc * 201 + 201) by (nonlinear_arith);
            assert(body.len() == (pc + 1) * 201);
            assert(peer_at(w, pc) == km);
            assert forall|idx: int| 0 <= idx < pc + 1 implies {
                &&& #[trigger] body.subrange(idx * 201, idx * 201 + 200) == spec_read_cell(
                    mem,
                    spec_read_offset(w, peer_at(w, idx), n) as int,
                )
                &&& body[idx * 201 + 200] == 44u8
            } by {
                if idx < pc {
                    assert(idx * 201 + 201 <= pc * 201) by (nonlinear_arith)
                        requires 0 <= idx < pc;
                    assert(body.subrange(idx * 201, idx * 201 + 200) =~= prev.subrange(
                        idx * 201,
                        idx * 201 + 200,
                    ));
                    assert(body[idx * 201 + 200] == prev[idx * 201 + 200]);
                } else {
                    assert(idx == pc);
                    assert(body.subrange(idx * 201, idx * 201 + 200) =~= cell);
                }
            }
        }
    }
}

/// A message of at most one message length that worker `w` writes for `r`
/// shows in `r`'s report, from its first byte, in the piece of `w`: the
/// position of `w` in the increasing list of `r`'s peers.
pub proof fn lemma_report_shows_write(mem: Seq<u8>, w: nat, r: nat, n: nat, msg: Seq<u8>)
    requires
        w < n,
        r < n,
        w != r,
        n * n * MSG_CELL_SIZE <= mem.len(),
        msg.len() <= MAX_MSG_LEN,
    ensures
        ({
            let after = spec_write(mem, (w * n + r) * MSG_CELL_SIZE, msg);
            let idx: int = if w < r { w as int } else { w - 1 };
            report_bytes(after, r, n).subrange(1 + idx * 201, 1 + idx * 201 + msg.len()) == msg
        }),
{
    let off: int = (w * n + r) * MSG_CELL_SIZE;
    let after = spec_write(mem, off, msg);
    let idx: int = if w < r { w as int } else { w - 1 };
    lemma_cell_in_region(w, r, n);
    assert(after.len() == mem.len());
    lemma_report_pieces(after, r, n);
    lemma_read_after_write(mem, w, r, n, msg);
    let rb = report_bytes(after, r, n);
    assert(rb.subrange(1 + idx * 201, 1 + idx * 201 + 200) == after.subrange(off, off + 200));
    assert(rb.subrange(1 + idx * 201, 1 + idx * 201 + msg.len()) =~= rb.subrange(
        1 + idx * 201,
        1 + idx * 201 + 200,
    ).take(msg.len() as int));
}

/// The report of a worker among `n` has one message length of bytes and a
/// comma for each of its `n - 1` peers, between the two brackets.
pub proof fn lemma_report_length(mem: Seq<u8>, worker_index: nat, n: nat)
    requires
        worker_index < n,
        spec_shm_size(n) <= mem.len(),
    ensures
        report_bytes(mem, worker_index, n).len() == 2 + (n - 1) * (MAX_MSG_LEN + 1),
{
    lemma_report_body_length(mem, worker_index, n, n);
}

proof fn lemma_report_body_length(mem: Seq<u8>, worker_index: nat, n: nat, k: nat)
    requires
        worker_index < n,
        k <= n,
        spec_shm_size(n) <= mem.len(),
    ensures
        report_body(mem, worker_index, n, k).len() == (if k <= worker_index {
            k as int
        } else {
            k - 1
        }) * (MAX_MSG_LEN + 1),
    decreases k,
{
    if k > 0 {
        lemma_report_body_length(mem, worker_index, n, (k - 1) as nat);
        if k - 1 != worker_index {
            lemma_cell_in_region((k - 1) as nat, worker_index, n);
        }
        let m: int = if (k - 1) as nat <= worker_index { k - 1 } else { k - 2 };
        assert((m + 1) * (MAX_MSG_LEN + 1) == m * (MAX_MSG_LEN + 1) + (MAX_MSG_LEN + 1)) by (nonlinear_arith);
    }
}

} // verus!
