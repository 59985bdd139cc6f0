use vstd::prelude::*;

verus! {

/// Number of messages a cell is sized for.
pub const MAX_MSG_CNT_PER_CELL: u32 = 100;

/// Number of bytes of one message.
pub const MAX_MSG_LEN: u32 = 200;

/// Bytes at the start of a cell for its head and tail indices.
pub const MSG_CELL_META_SIZE: u32 = 8;

/// Bytes of one message cell.
pub const MSG_CELL_SIZE: u32 = MSG_CELL_META_SIZE + MAX_MSG_CNT_PER_CELL * MAX_MSG_LEN;

/// Size of the shared region for `n` workers: one cell per ordered pair.
pub open spec fn spec_shm_size(n: nat) -> nat {
    n * n * (MSG_CELL_SIZE as nat)
}

/// Offset of the cell in which `writer` leaves messages for `reader`.
pub open spec fn cell_offset(writer: nat, reader: nat, n: nat) -> nat {
    (writer * n + reader) * (MSG_CELL_SIZE as nat)
}

/// Where worker `worker_index` writes for `peer`: the cell of the pair (worker_index, peer).
pub open spec fn spec_write_offset(worker_index: nat, peer: nat, n: nat) -> nat {
    cell_offset(worker_index, peer, n)
}

/// Where worker `worker_index` reads what `peer` wrote: the cell of the pair (peer, worker_index).
pub open spec fn spec_read_offset(worker_index: nat, peer: nat, n: nat) -> nat {
    cell_offset(peer, worker_index, n)
}

/// Size in bytes of the shared region for `worker_num` workers, or `None`
/// where it does not fit in a `u32`.
pub fn shm_size(worker_num: u32) -> (r: Option<u32>)
    ensures
        r is None <==> spec_shm_size(worker_num as nat) > u32::MAX,
        r matches Some(s) ==> s == spec_shm_size(worker_num as nat),
        r is None <==> worker_num * worker_num * MSG_CELL_SIZE > u32::MAX,
        r matches Some(s) ==> s == worker_num * worker_num * MSG_CELL_SIZE,
{
    match worker_num.checked_mul(worker_num) {
        None => {
            proof {
                lemma_mul_mono(
                    worker_num as nat * worker_num as nat,
                    0x1_0000_0000nat,
                    MSG_CELL_SIZE as nat,
                );
            }
            None
        },
        Some(sq) => sq.checked_mul(MSG_CELL_SIZE),
    }
}

/// Offset at which worker `worker_index` writes its messages for `peer`.
pub fn write_offset(worker_index: u32, peer: u32, worker_num: u32) -> (r: u32)
    requires
        worker_index < worker_num,
        peer < worker_num,
        spec_shm_size(worker_num as nat) <= u32::MAX,
    ensures
        r == spec_write_offset(worker_index as nat, peer as nat, worker_num as nat),
        r == (worker_index * worker_num + peer) * MSG_CELL_SIZE,
{
    pair_cell_offset(worker_index, peer, worker_num)
}

/// Offset at which worker `worker_index` reads the messages that `peer` left for it.
pub fn read_offset(worker_index: u32, peer: u32, worker_num: u32) -> (r: u32)
    requires
        worker_index < worker_num,
        peer < worker_num,
        spec_shm_size(worker_num as nat) <= u32::MAX,
    ensures
        r == spec_read_offset(worker_index as nat, peer as nat, worker_num as nat),
        r == (peer * worker_num + worker_index) * MSG_CELL_SIZE,
{
    pair_cell_offset(peer, worker_index, worker_num)
}

fn pair_cell_offset(writer: u32, reader: u32, n: u32) -> (r: u32)
    requires
        writer < n,
        reader < n,
        spec_shm_size(n as nat) <= u32::MAX,
    ensures
        r == cell_offset(writer as nat, reader as nat, n as nat),
{
    proof {
        lemma_cell_in_region(writer as nat, reader as nat, n as nat);
        lemma_cell_index_bound(writer as nat, reader as nat, n as nat);
    }
    let k = writer * n + reader;
    k * MSG_CELL_SIZE
}

proof fn lemma_cell_index_bound(w: nat, r: nat, n: nat)
    requires
        w < n,
        r < n,
    ensures
        w * n + r < n * n,
        w * n <= n * n,
        n * n <= spec_shm_size(n),
{
    assert(n * n <= n * n * (MSG_CELL_SIZE as nat)) by (nonlinear_arith);
    assert(w * n + r < n * n) by (nonlinear_arith)
        requires w < n, r < n;
    assert(w * n <= n * n) by (nonlinear_arith)
        requires w < n;
}

/// Every cell of a pair of workers lies inside the region.
pub proof fn lemma_cell_in_region(writer: nat, reader: nat, n: nat)
    requires
        writer < n,
        reader < n,
    ensures
        cell_offset(writer, reader, n) + MSG_CELL_SIZE <= spec_shm_size(n),
{
    let c = MSG_CELL_SIZE as nat;
    lemma_cell_index_bound(writer, reader, n);
    let k = writer * n + reader;
    assert((k + 1) * c <= (n * n) * c) by (nonlinear_arith)
        requires k + 1 <= n * n;
    assert((k + 1) * c == k * c + c) by (nonlinear_arith);
    assert(n * n * c == (n * n) * c);
}

/// The region is exactly as large as its cells need: for `n > 0` workers it
/// ends where the cell of the last pair, (n - 1, n - 1), ends, and it holds
/// `n * n` cells of `MSG_CELL_SIZE` bytes.
pub proof fn lemma_region_is_tight(n: nat)
    requires
        n > 0,
    ensures
        spec_shm_size(n) == cell_offset((n - 1) as nat, (n - 1) as nat, n) + MSG_CELL_SIZE,
        spec_shm_size(n) == ((n - 1) * n + (n - 1) + 1) * MSG_CELL_SIZE,
        spec_shm_size(n) == n * n * MSG_CELL_SIZE,
{
    let c = MSG_CELL_SIZE as nat;
    let m = (n - 1) as nat;
    assert(m * n + m + 1 == n * n) by (nonlinear_arith)
        requires m + 1 == n;
    assert((m * n + m) * c + c == (m * n + m + 1) * c) by (nonlinear_arith);
}

/// The cell a worker writes for a peer is the cell that peer reads from it.
pub proof fn lemma_read_meets_write(writer: nat, reader: nat, n: nat)
    ensures
        spec_write_offset(writer, reader, n) == spec_read_offset(reader, writer, n),
{
}

/// The cells of two different ordered pairs of workers do not overlap.
pub proof fn lemma_cells_disjoint(w1: nat, r1: nat, w2: nat, r2: nat, n: nat)
    requires
        w1 < n,
        r1 < n,
        w2 < n,
        r2 < n,
        w1 != w2 || r1 != r2,
    ensures
        cell_offset(w1, r1, n) + MSG_CELL_SIZE <= cell_offset(w2, r2, n) || cell_offset(w2, r2, n)
            + MSG_CELL_SIZE <= cell_offset(w1, r1, n),
{
    let c = MSG_CELL_SIZE as nat;
    let k1 = w1 * n + r1;
    let k2 = w2 * n + r2;
    if w1 == w2 {
        assert(k1 != k2);
    } else if w1 < w2 {
        assert(k1 < k2) by (nonlinear_arith)
            requires w1 < w2, r1 < n, k1 == w1 * n + r1, k2 == w2 * n + r2;
    } else {
        assert(k2 < k1) by (nonlinear_arith)
            requires w2 < w1, r2 < n, k1 == w1 * n + r1, k2 == w2 * n + r2;
    }
    if k1 < k2 {
        assert(k1 * c + c <= k2 * c) by (nonlinear_arith)
            requires k1 < k2;
    } else {
        assert(k2 * c + c <= k1 * c) by (nonlinear_arith)
            requires k2 < k1;
    }
}

/// `s` lists the workers below `worker_index`, then those above it up to
/// `n`, each in increasing order.
pub open spec fn is_peer_list(worker_index: nat, n: nat, s: Seq<u32>) -> bool {
    &&& s.len() == n - 1
    &&& forall|p: int|
        0 <= p < s.len() ==> #[trigger] s[p] == (if p < worker_index { p } else { p + 1 })
}

/// The peers of `worker_index` among `worker_num` workers, in increasing
/// order: every worker but itself.
pub fn peers(worker_index: u32, worker_num: u32) -> (r: Vec<u32>)
    requires
        worker_index < worker_num,
    ensures
        is_peer_list(worker_index as nat, worker_num as nat, r@),
{
    let mut r: Vec<u32> = Vec::new();
    let mut j: u32 = 0;
    while j < worker_num
        invariant
            worker_index < worker_num,
            j <= worker_num,
            r@.len() == (if j <= worker_index { j as int } else { j - 1 }),
            forall|p: int|
                0 <= p < r@.len() ==> #[trigger] r@[p] == (if p < worker_index { p } else { p + 1 }),
        decreases worker_num - j,
    {
        if j != worker_index {
            r.push(j);
        }
        j = j + 1;
    }
    r
}

/// The peers of a worker are exactly the other workers, each once, in
/// increasing order.
pub proof fn lemma_peers_are_the_others(worker_index: nat, n: nat, peers: Seq<u32>)
    requires
        worker_index < n,
        is_peer_list(worker_index, n, peers),
    ensures
        forall|p: int| 0 <= p < peers.len() ==> #[trigger] peers[p] != worker_index && peers[p] < n,
        forall|j: nat| j < n && j != worker_index ==> #[trigger] peers.contains(j as u32),
        forall|p: int, q: int| 0 <= p < q < peers.len() ==> peers[p] < peers[q],
{
    assert forall|j: nat| j < n && j != worker_index implies #[trigger] peers.contains(j as u32) by {
        let p: int = if j < worker_index { j as int } else { j - 1 };
        assert(peers[p] == j);
    }
}

proof fn lemma_mul_mono(a: nat, b: nat, c: nat)
    requires
        a >= b,
    ensures
        a * c >= b * c,
{
    assert(a * c >= b * c) by (nonlinear_arith)
        requires a >= b;
}

} // verus!
