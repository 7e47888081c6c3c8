//! What holds of the disks: a write that succeeds is on the disk, a read that
//! succeeds gives what is on it, and a request that fails says so.

use vstd::prelude::*;
use crate::bytes::{le_bytes, le_value, lemma_byte_spans, lemma_le_bytes_len, lemma_le_round_trip};
use crate::dma::Memory;
use crate::virtio::{
    answered, block_run, block_serviced, body_of, external_serviced, gathered, published, released,
    span_of, BackendView, BlockRequestKind, BlockRun, Descriptor, DeviceView, PendingView, Serviced,
};

verus! {

/// Bytes in the buffers of `chain` from the second up to the `k`-th: how far into
/// the data of a request its `k`-th descriptor starts.
pub open spec fn data_before(chain: Seq<Descriptor>, k: int) -> int
    decreases k,
{
    if k <= 1 {
        0
    } else {
        data_before(chain, k - 1) + chain[k - 1].len
    }
}

/// Where a guest-physical address lies in RAM.
pub open spec fn at(base: u64, addr: u64) -> int {
    addr - base
}

/// Whether a buffer lies in RAM.
pub open spec fn is_mapped(len: nat, base: u64, d: Descriptor) -> bool {
    base <= d.addr && d.addr - base + d.len <= len
}

/// Whether a chain is a request of this type at this sector: a header of sixteen
/// bytes, data, and a status byte, the first and the last of them in RAM.
pub open spec fn is_request(
    ram: Seq<u8>,
    base: u64,
    chain: Seq<Descriptor>,
    request_type: nat,
    sector: nat,
) -> bool {
    let h = at(base, chain[0].addr);
    &&& chain.len() >= 2
    &&& 0 <= h && h + 16 <= ram.len()
    &&& le_value(ram.subrange(h, h + 4)) == request_type
    &&& le_value(ram.subrange(h + 8, h + 16)) == sector
    &&& 0 <= at(base, chain.last().addr) < ram.len()
}

/// The status that a request left for the guest.
pub open spec fn status(s: Serviced, base: u64, chain: Seq<Descriptor>) -> u8 {
    s.mem.ram[at(base, chain.last().addr)]
}

/// Bytes in the first `k` buffers of `body`.
spec fn ahead(body: Seq<Descriptor>, k: int) -> int
    decreases k,
{
    if k <= 0 {
        0
    } else {
        ahead(body, k - 1) + body[k - 1].len
    }
}

proof fn lemma_ahead_grows(body: Seq<Descriptor>, m: int, k: int)
    requires
        0 <= m <= k <= body.len(),
    ensures
        0 <= ahead(body, m) <= ahead(body, k),
    decreases k,
{
    if k > 0 {
        if m < k {
            lemma_ahead_grows(body, m, k - 1);
        } else {
            lemma_ahead_grows(body, m - 1, k - 1);
        }
    }
}

proof fn lemma_ahead_prefix(body: Seq<Descriptor>, k: int)
    requires
        0 <= k <= body.len(),
    ensures
        k < body.len() ==> ahead(body.drop_last(), k) == ahead(body, k),
    decreases k,
{
    if 0 < k < body.len() {
        lemma_ahead_prefix(body, k - 1);
    }
}

proof fn lemma_body(chain: Seq<Descriptor>, k: int)
    requires
        chain.len() >= 2,
        1 <= k < chain.len(),
    ensures
        data_before(chain, k) == ahead(body_of(chain), k - 1),
    decreases k,
{
    if k > 1 {
        lemma_body(chain, k - 1);
    }
}


/// Whether the `k`-th buffer of a run that starts at byte `pos` can be served:
/// it has the right direction, lies in RAM, and its bytes lie on the disk.
spec fn servable(
    disk_len: nat,
    ram_len: nat,
    base: u64,
    pos: int,
    body: Seq<Descriptor>,
    k: int,
    writable: bool,
) -> bool {
    &&& body[k].writable == writable
    &&& is_mapped(ram_len, base, body[k])
    &&& pos + ahead(body, k) + body[k].len <= disk_len
}

proof fn lemma_run_servable(r: BlockRun, base: u64, body: Seq<Descriptor>, writable: bool)
    requires
        r.pos >= 0,
    ensures
        ({
            let e = block_run(
                r,
                base,
                if writable {
                    0
                } else {
                    1
                },
                body,
            );
            &&& e.mem.ram.len() == r.mem.ram.len()
            &&& e.disk.len() == r.disk.len()
            &&& e.pos == r.pos + ahead(body, body.len() as int)
            &&& (e.ok <==> r.ok && forall|k: int|
                0 <= k < body.len() ==> #[trigger] servable(
                    r.disk.len(),
                    r.mem.ram.len(),
                    base,
                    r.pos,
                    body,
                    k,
                    writable,
                ))
            &&& (writable ==> e.disk == r.disk)
            &&& (!writable ==> e.mem == r.mem && e.moved == r.moved)
            &&& (e.ok && writable ==> e.moved == r.moved + ahead(body, body.len() as int))
        }),
    decreases body.len(),
{
    if body.len() > 0 {
        let most = body.drop_last();
        let n = most.len() as int;
        let kind: nat = if writable {
            0
        } else {
            1
        };
        lemma_run_servable(r, base, most, writable);
        let m = block_run(r, base, kind, most);
        let e = block_run(r, base, kind, body);
        lemma_ahead_grows(body, n, n);
        assert(ahead(most, n) == ahead(body, n)) by {
            lemma_ahead_prefix(body, n);
        }
        assert(body.last() == body[n]);
        assert forall|k: int| 0 <= k < n implies #[trigger] servable(
            r.disk.len(),
            r.mem.ram.len(),
            base,
            r.pos,
            body,
            k,
            writable,
        ) == servable(r.disk.len(), r.mem.ram.len(), base, r.pos, most, k, writable) by {
            lemma_ahead_prefix(body, k);
            assert(most[k] == body[k]);
        }
        let last = servable(r.disk.len(), r.mem.ram.len(), base, r.pos, body, n, writable);
        assert(e.ok <==> m.ok && last);
        if r.ok && (forall|k: int|
            0 <= k < body.len() ==> #[trigger] servable(
                r.disk.len(),
                r.mem.ram.len(),
                base,
                r.pos,
                body,
                k,
                writable,
            )) {
            assert(last);
            assert forall|k: int| 0 <= k < most.len() implies #[trigger] servable(
                r.disk.len(),
                r.mem.ram.len(),
                base,
                r.pos,
                most,
                k,
                writable,
            ) by {
                assert(servable(r.disk.len(), r.mem.ram.len(), base, r.pos, body, k, writable));
            }
        }
    }
}

proof fn lemma_written_at(r: BlockRun, base: u64, body: Seq<Descriptor>, i: int)
    requires
        r.pos >= 0,
        0 <= i < r.disk.len(),
    ensures
        ({
            let e = block_run(r, base, 1, body);
            !(r.pos <= i < r.pos + ahead(body, body.len() as int)) ==> e.disk[i] == r.disk[i]
        }),
    decreases body.len(),
{
    if body.len() > 0 {
        let n = body.len() - 1;
        lemma_written_at(r, base, body.drop_last(), i);
        lemma_run_servable(r, base, body.drop_last(), false);
        lemma_ahead_prefix(body, n);
        lemma_ahead_grows(body, n, n);
    }
}

proof fn lemma_written_byte(r: BlockRun, base: u64, body: Seq<Descriptor>, k: int, j: int)
    requires
        r.pos >= 0,
        0 <= k < body.len(),
        0 <= j < body[k].len,
        block_run(r, base, 1, body).ok,
    ensures
        r.pos + ahead(body, k) + j < r.disk.len(),
        block_run(r, base, 1, body).disk[r.pos + ahead(body, k) + j] == r.mem.ram[at(
            base,
            body[k].addr,
        ) + j],
    decreases body.len(),
{
    let n = body.len() - 1;
    let most = body.drop_last();
    lemma_run_servable(r, base, body, false);
    lemma_run_servable(r, base, most, false);
    assert(servable(r.disk.len(), r.mem.ram.len(), base, r.pos, body, k, false));
    lemma_ahead_prefix(body, n);
    lemma_ahead_prefix(body, k);
    lemma_ahead_grows(body, k, k);
    if k < n {
        assert(most[k] == body[k]);
        assert(block_run(r, base, 1, most).ok);
        lemma_written_byte(r, base, most, k, j);
        lemma_ahead_grows(body, k + 1, n);
    }
}

proof fn lemma_read_byte(r: BlockRun, base: u64, body: Seq<Descriptor>, k: int, j: int)
    requires
        r.pos >= 0,
        0 <= k < body.len(),
        0 <= j < body[k].len,
        block_run(r, base, 0, body).ok,
        forall|l: int|
            k < l < body.len() ==> !(body[l].addr <= body[k].addr + j < (#[trigger] body[l]).addr
                + body[l].len),
    ensures
        r.pos + ahead(body, k) + j < r.disk.len(),
        block_run(r, base, 0, body).mem.ram[at(base, body[k].addr) + j] == r.disk[r.pos + ahead(
            body,
            k,
        ) + j],
    decreases body.len(),
{
    let n = body.len() - 1;
    let most = body.drop_last();
    lemma_run_servable(r, base, body, true);
    lemma_run_servable(r, base, most, true);
    assert(servable(r.disk.len(), r.mem.ram.len(), base, r.pos, body, k, true));
    lemma_ahead_prefix(body, n);
    lemma_ahead_prefix(body, k);
    lemma_ahead_grows(body, k, k);
    if k < n {
        assert(most[k] == body[k]);
        assert(block_run(r, base, 0, most).ok);
        assert forall|l: int| k < l < most.len() implies !(most[l].addr <= most[k].addr + j < (
        #[trigger] most[l]).addr + most[l].len) by {
            assert(most[l] == body[l]);
        }
        lemma_read_byte(r, base, most, k, j);
        assert(!(body[n].addr <= body[k].addr + j < body[n].addr + body[n].len));
    }
    let m = block_run(r, base, 0, most);
    let e = block_run(r, base, 0, body);
    lemma_ahead_grows(body, n, n);
    assert(servable(r.disk.len(), r.mem.ram.len(), base, r.pos, body, n, true));
    assert(body.last() == body[n]);
    assert(e == crate::virtio::block_step(m, base, 0, body[n]));
    assert(e.mem == m.mem.written(
        base,
        body[n].addr as int,
        r.disk.subrange(m.pos, m.pos + body[n].len),
    ));
}

proof fn lemma_read_elsewhere(r: BlockRun, base: u64, body: Seq<Descriptor>, i: int)
    requires
        r.pos >= 0,
        0 <= i < r.mem.ram.len(),
        forall|l: int|
            0 <= l < body.len() ==> !(body[l].addr <= base + i < (#[trigger] body[l]).addr
                + body[l].len),
    ensures
        block_run(r, base, 0, body).mem.ram[i] == r.mem.ram[i],
    decreases body.len(),
{
    if body.len() > 0 {
        let most = body.drop_last();
        lemma_run_servable(r, base, most, true);
        assert forall|l: int| 0 <= l < most.len() implies !(most[l].addr <= base + i < (
        #[trigger] most[l]).addr + most[l].len) by {
            assert(most[l] == body[l]);
        }
        lemma_read_elsewhere(r, base, most, i);
        let d = body[body.len() - 1];
        lemma_ahead_grows(most, most.len() as int, most.len() as int);
        assert(!(d.addr <= base + i < d.addr + d.len));
        assert(block_run(r, base, 0, body) == crate::virtio::block_step(
            block_run(r, base, 0, most),
            base,
            0,
            d,
        ));
    }
}

spec fn start_of(disk: Seq<u8>, mem: Memory, sector: nat) -> BlockRun {
    BlockRun { disk, mem, pos: sector as int * 512, moved: 0, ok: true }
}

proof fn lemma_request(
    disk: Seq<u8>,
    mem: Memory,
    next_id: u64,
    base: u64,
    chain: Seq<Descriptor>,
    request_type: nat,
    sector: nat,
)
    requires
        is_request(mem.ram, base, chain, request_type, sector),
    ensures
        ({
            let s = block_serviced(disk, mem, next_id, base, chain);
            let e = block_run(start_of(disk, mem, sector), base, request_type, body_of(chain));
            &&& s.backend == BackendView::Block { disk: e.disk }
            &&& e.mem.ram.len() == mem.ram.len()
            &&& s.mem.ram.len() == mem.ram.len()
            &&& (status(s, base, chain) == 0 <==> e.ok)
            &&& (status(s, base, chain) == 1 <==> !e.ok)
            &&& s.written == Some(((e.moved + 1) % 0x1_0000_0000) as u32)
            &&& forall|i: int|
                0 <= i < mem.ram.len() && i != at(base, chain.last().addr)
                    ==> #[trigger] s.mem.ram[i] == e.mem.ram[i]
        }),
{
    let h = at(base, chain[0].addr);
    let header = crate::dma::guest_bytes(mem.ram, base, chain[0].addr as int, 16);
    assert(header.subrange(0, 4) =~= mem.ram.subrange(h, h + 4));
    assert(header.subrange(8, 16) =~= mem.ram.subrange(h + 8, h + 16));
    crate::virtio::lemma_block_run_len(
        start_of(disk, mem, sector),
        base,
        request_type,
        body_of(chain),
    );
}

/// A write that is reported as done is on the disk: every byte of every data
/// buffer stands at its place from the sector on, no other byte of the disk and
/// none of the guest's memory but the status is touched.
pub proof fn law_write_is_on_the_disk(
    disk: Seq<u8>,
    mem: Memory,
    next_id: u64,
    base: u64,
    chain: Seq<Descriptor>,
    sector: nat,
    k: int,
    j: int,
    i: int,
)
    requires
        is_request(mem.ram, base, chain, 1, sector),
        status(block_serviced(disk, mem, next_id, base, chain), base, chain) == 0,
        1 <= k < chain.len() - 1,
        0 <= j < chain[k].len,
    ensures
        block_serviced(disk, mem, next_id, base, chain).backend matches BackendView::Block {
            disk: now,
        } && {
            let p = sector * 512 + data_before(chain, k) + j;
            &&& now.len() == disk.len()
            &&& 0 <= p < disk.len()
            &&& now[p] == mem.ram[at(base, chain[k].addr) + j]
            &&& 0 <= i < disk.len() && !(sector * 512 <= i < sector * 512 + data_before(
                chain,
                chain.len() - 1,
            )) ==> now[i] == disk[i]
        },
        0 <= i < mem.ram.len() && i != at(base, chain.last().addr) ==> block_serviced(
            disk,
            mem,
            next_id,
            base,
            chain,
        ).mem.ram[i] == mem.ram[i],
{
    let body = body_of(chain);
    let r = start_of(disk, mem, sector);
    lemma_request(disk, mem, next_id, base, chain, 1, sector);
    lemma_run_servable(r, base, body, false);
    assert(body[k - 1] == chain[k]);
    lemma_written_byte(r, base, body, k - 1, j);
    lemma_body(chain, k);
    lemma_body(chain, chain.len() - 1);
    lemma_ahead_grows(body, 0, k - 1);
    if 0 <= i < disk.len() {
        lemma_written_at(r, base, body, i);
    }
}

/// A read that is reported as done gives what is on the disk: every byte of every
/// data buffer is the one at its place from the sector on, unless a later buffer
/// or the status covers it. The disk stays as it is, and so does memory outside
/// the buffers.
pub proof fn law_read_gives_the_disk(
    disk: Seq<u8>,
    mem: Memory,
    next_id: u64,
    base: u64,
    chain: Seq<Descriptor>,
    sector: nat,
    k: int,
    j: int,
)
    requires
        is_request(mem.ram, base, chain, 0, sector),
        status(block_serviced(disk, mem, next_id, base, chain), base, chain) == 0,
        1 <= k < chain.len() - 1,
        0 <= j < chain[k].len,
        chain[k].addr + j != chain.last().addr,
        forall|l: int|
            k < l < chain.len() - 1 ==> !(chain[l].addr <= chain[k].addr + j < (
            #[trigger] chain[l]).addr + chain[l].len),
    ensures
        ({
            let s = block_serviced(disk, mem, next_id, base, chain);
            let p = sector * 512 + data_before(chain, k) + j;
            &&& s.backend == BackendView::Block { disk }
            &&& 0 <= p < disk.len()
            &&& s.mem.ram[at(base, chain[k].addr) + j] == disk[p]
            &&& s.written == Some(((data_before(chain, chain.len() - 1) + 1) % 0x1_0000_0000) as u32)
        }),
{
    let body = body_of(chain);
    let r = start_of(disk, mem, sector);
    lemma_request(disk, mem, next_id, base, chain, 0, sector);
    lemma_run_servable(r, base, body, true);
    assert(body[k - 1] == chain[k]);
    assert(servable(disk.len(), mem.ram.len(), base, r.pos, body, k - 1, true));
    assert forall|l: int| k - 1 < l < body.len() implies !(body[l].addr <= body[k - 1].addr + j < (
    #[trigger] body[l]).addr + body[l].len) by {
        assert(body[l] == chain[l + 1]);
    }
    lemma_read_byte(r, base, body, k - 1, j);
    lemma_body(chain, k);
    lemma_body(chain, chain.len() - 1);
    lemma_ahead_grows(body, 0, k - 1);
}

/// A read touches no memory outside its buffers and its status.
pub proof fn law_read_touches_its_buffers_only(
    disk: Seq<u8>,
    mem: Memory,
    next_id: u64,
    base: u64,
    chain: Seq<Descriptor>,
    sector: nat,
    i: int,
)
    requires
        is_request(mem.ram, base, chain, 0, sector),
        0 <= i < mem.ram.len(),
        i != at(base, chain.last().addr),
        forall|l: int|
            1 <= l < chain.len() - 1 ==> !(chain[l].addr <= base + i < (#[trigger] chain[l]).addr
                + chain[l].len),
    ensures
        block_serviced(disk, mem, next_id, base, chain).mem.ram[i] == mem.ram[i],
        block_serviced(disk, mem, next_id, base, chain).backend == (BackendView::Block { disk }),
{
    let body = body_of(chain);
    let r = start_of(disk, mem, sector);
    lemma_request(disk, mem, next_id, base, chain, 0, sector);
    lemma_run_servable(r, base, body, true);
    assert forall|l: int| 0 <= l < body.len() implies !(body[l].addr <= base + i < (
    #[trigger] body[l]).addr + body[l].len) by {
        assert(body[l] == chain[l + 1]);
    }
    lemma_read_elsewhere(r, base, body, i);
}

/// A read of sectors that were written gives back what was written, however the
/// two requests cut it into buffers and wherever these lie.
pub proof fn law_read_gives_back_the_write(
    disk: Seq<u8>,
    mem: Memory,
    later: Memory,
    next_id: u64,
    base: u64,
    write: Seq<Descriptor>,
    read: Seq<Descriptor>,
    sector: nat,
    k: int,
    j: int,
    l: int,
    m: int,
)
    requires
        is_request(mem.ram, base, write, 1, sector),
        status(block_serviced(disk, mem, next_id, base, write), base, write) == 0,
        1 <= k < write.len() - 1,
        0 <= j < write[k].len,
        is_request(later.ram, base, read, 0, sector),
        1 <= l < read.len() - 1,
        0 <= m < read[l].len,
        data_before(write, k) + j == data_before(read, l) + m,
        read[l].addr + m != read.last().addr,
        forall|x: int|
            l < x < read.len() - 1 ==> !(read[x].addr <= read[l].addr + m < (
            #[trigger] read[x]).addr + read[x].len),
    ensures
        block_serviced(disk, mem, next_id, base, write).backend matches BackendView::Block {
            disk: now,
        } && {
            let s = block_serviced(now, later, next_id, base, read);
            status(s, base, read) == 0 ==> s.mem.ram[at(base, read[l].addr) + m] == mem.ram[at(
                base,
                write[k].addr,
            ) + j]
        },
{
    law_write_is_on_the_disk(disk, mem, next_id, base, write, sector, k, j, 0);
    let now = block_serviced(disk, mem, next_id, base, write).backend->Block_disk;
    let s = block_serviced(now, later, next_id, base, read);
    if status(s, base, read) == 0 {
        law_read_gives_the_disk(now, later, next_id, base, read, sector, l, m);
    }
}

/// A read or a write is done exactly if all its data buffers lie in RAM, have
/// the right direction, and its data lies on the disk; else it fails. Any other
/// request fails if it has data. The status is 0 or 1.
pub proof fn law_requests_succeed_where_they_can(
    disk: Seq<u8>,
    mem: Memory,
    next_id: u64,
    base: u64,
    chain: Seq<Descriptor>,
    request_type: nat,
    sector: nat,
)
    requires
        is_request(mem.ram, base, chain, request_type, sector),
    ensures
        ({
            let s = block_serviced(disk, mem, next_id, base, chain);
            &&& (status(s, base, chain) == 0 || status(s, base, chain) == 1)
            &&& s.written is Some
            &&& (request_type == 0 || request_type == 1 ==> (status(s, base, chain) == 0
                <==> forall|k: int|
                1 <= k < chain.len() - 1 ==> {
                    &&& (#[trigger] chain[k]).writable == (request_type == 0)
                    &&& is_mapped(mem.ram.len(), base, chain[k])
                    &&& sector * 512 + data_before(chain, k) + chain[k].len <= disk.len()
                }))
            &&& (chain.len() == 2 ==> status(s, base, chain) == 0)
            &&& (request_type > 1 && chain.len() > 2 ==> status(s, base, chain) == 1 && s.backend
                == (BackendView::Block { disk }))
        }),
{
    let body = body_of(chain);
    let r = start_of(disk, mem, sector);
    let s = block_serviced(disk, mem, next_id, base, chain);
    lemma_request(disk, mem, next_id, base, chain, request_type, sector);
    if request_type <= 1 {
        let reading = request_type == 0;
        lemma_run_servable(r, base, body, reading);
        if status(s, base, chain) == 0 {
            assert forall|k: int| 1 <= k < chain.len() - 1 implies {
                &&& (#[trigger] chain[k]).writable == reading
                &&& is_mapped(mem.ram.len(), base, chain[k])
                &&& sector * 512 + data_before(chain, k) + chain[k].len <= disk.len()
            } by {
                assert(body[k - 1] == chain[k]);
                assert(servable(disk.len(), mem.ram.len(), base, r.pos, body, k - 1, reading));
                lemma_body(chain, k);
            }
        }
        if forall|k: int|
            1 <= k < chain.len() - 1 ==> {
                &&& (#[trigger] chain[k]).writable == reading
                &&& is_mapped(mem.ram.len(), base, chain[k])
                &&& sector * 512 + data_before(chain, k) + chain[k].len <= disk.len()
            } {
            assert forall|k: int| 0 <= k < body.len() implies #[trigger] servable(
                disk.len(),
                mem.ram.len(),
                base,
                r.pos,
                body,
                k,
                reading,
            ) by {
                assert(body[k] == chain[k + 1]);
                lemma_body(chain, k + 1);
            }
        }
    } else {
        lemma_unknown(r, base, request_type, body);
    }
}

proof fn lemma_unknown(r: BlockRun, base: u64, request_type: nat, body: Seq<Descriptor>)
    requires
        request_type > 1,
    ensures
        block_run(r, base, request_type, body).disk == r.disk,
        body.len() > 0 ==> !block_run(r, base, request_type, body).ok,
    decreases body.len(),
{
    if body.len() > 0 {
        lemma_unknown(r, base, request_type, body.drop_last());
    }
}


// ---- disks that the host keeps -------------------------------------------

proof fn lemma_spans(chain: Seq<Descriptor>, k: int)
    requires
        chain.len() >= 2,
        1 <= k < chain.len(),
    ensures
        span_of(body_of(chain), k - 1) == data_before(chain, k),
    decreases k,
{
    if k > 1 {
        lemma_spans(chain, k - 1);
    }
}

proof fn lemma_span_grows(body: Seq<Descriptor>, n: int)
    ensures
        span_of(body, n) >= 0,
    decreases n,
{
    if n > 0 {
        lemma_span_grows(body, n - 1);
    }
}

proof fn lemma_gathered_byte(ram: Seq<u8>, base: u64, body: Seq<Descriptor>, n: int, k: int, j: int)
    requires
        0 <= k < n <= body.len(),
        0 <= j < body[k].len,
        forall|i: int| 0 <= i < n ==> is_mapped(ram.len(), base, #[trigger] body[i]),
    ensures
        gathered(ram, base, body, n).len() == span_of(body, n),
        0 <= span_of(body, k) <= span_of(body, n) - j - 1,
        gathered(ram, base, body, n)[span_of(body, k) + j] == ram[at(base, body[k].addr) + j],
    decreases n,
{
    lemma_gathered_len(ram, base, body, n - 1);
    assert(is_mapped(ram.len(), base, body[n - 1]));
    if k < n - 1 {
        lemma_gathered_byte(ram, base, body, n - 1, k, j);
    }
}

proof fn lemma_gathered_len(ram: Seq<u8>, base: u64, body: Seq<Descriptor>, n: int)
    requires
        0 <= n <= body.len(),
        forall|i: int| 0 <= i < n ==> is_mapped(ram.len(), base, #[trigger] body[i]),
    ensures
        gathered(ram, base, body, n).len() == span_of(body, n),
        span_of(body, n) >= 0,
    decreases n,
{
    if n > 0 {
        lemma_gathered_len(ram, base, body, n - 1);
        assert(is_mapped(ram.len(), base, body[n - 1]));
    }
}

/// What the host is asked for is what the guest asked for: a read, a write or a
/// flush from the sector on, as many bytes as the data buffers hold, and for a
/// write the bytes in them, in order.
pub proof fn law_host_is_asked_for_what_the_guest_asked(
    size: u64,
    mem: Memory,
    next_id: u64,
    base: u64,
    chain: Seq<Descriptor>,
    request_type: nat,
    sector: nat,
    k: int,
    j: int,
)
    requires
        is_request(mem.ram, base, chain, request_type, sector),
        external_serviced(size, None, mem, next_id, base, 0, chain).backend
            matches BackendView::ExternalBlock { size: _, pending } && pending is Some,
        1 <= k < chain.len() - 1,
        0 <= j < chain[k].len,
    ensures
        ({
            let s = external_serviced(size, None, mem, next_id, base, 0, chain);
            let q = s.backend->ExternalBlock_pending->0;
            &&& s.backend->ExternalBlock_size == size
            &&& s.mem == mem
            &&& s.written is None
            &&& q.id == next_id
            &&& s.next_id != next_id
            &&& (q.kind is Read <==> request_type == 0)
            &&& (q.kind is Write <==> request_type == 1)
            &&& (q.kind is Flush <==> request_type == 4)
            &&& q.offset == sector * 512
            &&& q.length == data_before(chain, chain.len() - 1)
            &&& q.offset + q.length <= size
            &&& q.status_addr == chain.last().addr
            &&& (request_type == 0 ==> q.read_buffers.len() == chain.len() - 2
                && q.read_buffers[k - 1] == (chain[k].addr, chain[k].len) && q.data.len() == 0)
            &&& (request_type == 1 ==> q.data.len() == q.length && 0 <= data_before(chain, k) + j
                < q.data.len() && q.data[data_before(chain, k) + j] == mem.ram[at(
                base,
                chain[k].addr,
            ) + j] && q.read_buffers.len() == 0)
        }),
{
    let body = body_of(chain);
    let n = body.len() as int;
    let h = at(base, chain[0].addr);
    let header = crate::dma::guest_bytes(mem.ram, base, chain[0].addr as int, 16);
    assert(header.subrange(0, 4) =~= mem.ram.subrange(h, h + 4));
    assert(header.subrange(8, 16) =~= mem.ram.subrange(h + 8, h + 16));
    lemma_spans(chain, chain.len() - 1);
    lemma_spans(chain, k);
    lemma_span_grows(body, n);
    assert(body[k - 1] == chain[k]);
    if request_type == 1 {
        assert forall|i: int| 0 <= i < n implies is_mapped(
            mem.ram.len(),
            base,
            #[trigger] body[i],
        ) by {
            assert(crate::virtio::buffer_suits(
                mem.ram.len(),
                base,
                crate::virtio::BlockRequestKind::Write,
                body[i],
            ));
        }
        lemma_gathered_byte(mem.ram, base, body, n, k - 1, j);
    }
}

/// A request that the host cannot be asked for is answered at once with an
/// error; one that it can be asked for waits.
pub proof fn law_refused_request_is_answered(
    size: u64,
    mem: Memory,
    next_id: u64,
    base: u64,
    chain: Seq<Descriptor>,
    request_type: nat,
    sector: nat,
)
    requires
        is_request(mem.ram, base, chain, request_type, sector),
        chain.last().writable,
        chain.last().len >= 1,
        chain[0].len >= 16,
        !chain[0].writable,
    ensures
        ({
            let s = external_serviced(size, None, mem, next_id, base, 0, chain);
            let length = data_before(chain, chain.len() - 1);
            let granted = {
                &&& request_type == 0 || request_type == 1
                &&& 0 < length <= 65536
                &&& sector * 512 + length <= size
                &&& forall|k: int|
                    1 <= k < chain.len() - 1 ==> (#[trigger] chain[k]).writable == (request_type
                        == 0) && is_mapped(mem.ram.len(), base, chain[k])
            } || request_type == 4 && chain.len() == 2 && sector * 512 <= u64::MAX;
            &&& (granted ==> s.written is None && s.mem == mem && (s.backend
                matches BackendView::ExternalBlock { size: _, pending } && pending is Some))
            &&& (!granted ==> s.written == Some(1u32) && status(s, base, chain) == 1 && s.backend
                == (BackendView::ExternalBlock { size, pending: None }) && s.next_id == next_id)
        }),
{
    let body = body_of(chain);
    let h = at(base, chain[0].addr);
    let header = crate::dma::guest_bytes(mem.ram, base, chain[0].addr as int, 16);
    assert(header.subrange(0, 4) =~= mem.ram.subrange(h, h + 4));
    assert(header.subrange(8, 16) =~= mem.ram.subrange(h + 8, h + 16));
    lemma_spans(chain, chain.len() - 1);
    lemma_span_grows(body, body.len() as int);
    assert forall|k: int| 1 <= k < chain.len() - 1 implies #[trigger] chain[k] == body[k - 1] by {}
    assert forall|k: int| 0 <= k < body.len() implies #[trigger] body[k] == chain[k + 1] by {}
    let kind = if request_type == 0 {
        BlockRequestKind::Read
    } else {
        BlockRequestKind::Write
    };
    if request_type <= 1 {
        assert((forall|k: int|
            1 <= k < chain.len() - 1 ==> (#[trigger] chain[k]).writable == (request_type == 0)
                && is_mapped(mem.ram.len(), base, chain[k])) <==> !(exists|i: int|
            0 <= i < body.len() && !crate::virtio::buffer_suits(
                mem.ram.len(),
                base,
                kind,
                #[trigger] body[i],
            ))) by {
            if forall|k: int|
                1 <= k < chain.len() - 1 ==> (#[trigger] chain[k]).writable == (request_type == 0)
                    && is_mapped(mem.ram.len(), base, chain[k]) {
                assert forall|i: int| 0 <= i < body.len() implies crate::virtio::buffer_suits(
                    mem.ram.len(),
                    base,
                    kind,
                    #[trigger] body[i],
                ) by {
                    assert(body[i] == chain[i + 1]);
                }
            }
            if !(exists|i: int|
                0 <= i < body.len() && !crate::virtio::buffer_suits(
                    mem.ram.len(),
                    base,
                    kind,
                    #[trigger] body[i],
                )) {
                assert forall|k: int| 1 <= k < chain.len() - 1 implies (
                #[trigger] chain[k]).writable == (request_type == 0) && is_mapped(
                    mem.ram.len(),
                    base,
                    chain[k],
                ) by {
                    assert(crate::virtio::buffer_suits(mem.ram.len(), base, kind, body[k - 1]));
                }
            }
        }
    }
}

/// The guest is told that its request was done exactly if the host did it: it
/// did not fail, and brought as many bytes as a read asked for, or none.
pub proof fn law_status_is_the_hosts_answer(
    mem: Memory,
    base: u64,
    request: PendingView,
    data: Seq<u8>,
    ok: bool,
)
    requires
        base <= request.status_addr,
        request.status_addr - base < mem.ram.len(),
        !(request.used_entry <= request.status_addr < request.used_entry + 8),
        !(request.used_index_addr <= request.status_addr < request.used_index_addr + 2),
    ensures
        ({
            let done = ok && data.len() == if request.kind is Read {
                request.length as nat
            } else {
                0
            };
            answered(mem, base, request, data, ok).ram[at(base, request.status_addr)] == if done {
                0u8
            } else {
                1u8
            }
        }),
{
    crate::virtio::lemma_read_filled_len(
        mem,
        base,
        request,
        data,
        request.read_buffers.len() as int,
    );
    crate::bytes::lemma_le_bytes_len(request.head as nat, 4);
    crate::bytes::lemma_le_bytes_len((request.length + 1) as u32 as nat, 4);
    crate::bytes::lemma_le_bytes_len(1, 4);
    crate::bytes::lemma_le_bytes_len(
        vstd::wrapping::u16_specs::wrapping_add(request.used_idx, 1) as nat,
        2,
    );
}

// ---- the used ring -------------------------------------------------------

/// An answer stands in the used ring: the head of its chain and the number of
/// bytes written in its entry, the least significant byte first, and an index that
/// has moved on by one. The driver reads it there.
#[verifier::spinoff_prover]
pub proof fn law_answer_stands_in_the_used_ring(
    mem: Memory,
    base: u64,
    entry: u64,
    head: u16,
    written: u32,
    index: u64,
    idx: u16,
)
    requires
        base <= entry,
        entry - base + 8 <= mem.ram.len(),
        base <= index,
        index - base + 2 <= mem.ram.len(),
        entry + 8 <= u64::MAX,
        index + 2 <= entry || entry + 8 <= index,
    ensures
        ({
            let ram = published(mem, base, entry, head, written, index, idx).ram;
            let e = entry - base;
            let x = index - base;
            &&& ram.len() == mem.ram.len()
            &&& le_value(ram.subrange(e, e + 4)) == head
            &&& le_value(ram.subrange(e + 4, e + 8)) == written
            &&& le_value(ram.subrange(x, x + 2)) == (idx + 1) % 0x1_0000
            &&& forall|i: int|
                0 <= i < ram.len() && !(e <= i < e + 8) && !(x <= i < x + 2) ==> #[trigger] ram[i]
                    == mem.ram[i]
        }),
{
    let next = vstd::wrapping::u16_specs::wrapping_add(idx, 1);
    let a = le_bytes(head as nat, 4);
    let b = le_bytes(written as nat, 4);
    let c = le_bytes(next as nat, 2);
    lemma_byte_spans();
    lemma_le_bytes_len(head as nat, 4);
    lemma_le_bytes_len(written as nat, 4);
    lemma_le_bytes_len(next as nat, 2);
    lemma_le_round_trip(head as nat, 4);
    lemma_le_round_trip(written as nat, 4);
    lemma_le_round_trip(next as nat, 2);
    let ram = published(mem, base, entry, head, written, index, idx).ram;
    let e = entry - base;
    let x = index - base;
    assert(ram.subrange(e, e + 4) =~= a);
    assert(ram.subrange(e + 4, e + 8) =~= b);
    assert(ram.subrange(x, x + 2) =~= c);
}

/// A disk that the host answered waits no longer, has moved on in its ring, and
/// interrupts.
pub proof fn law_answered_disk_goes_on(dev: DeviceView, request: PendingView, size: u64)
    requires
        dev.backend == (BackendView::ExternalBlock { size, pending: Some(request) }),
        0 <= request.queue_index < dev.queues.len(),
    ensures
        ({
            let after = released(dev, request);
            let qi = request.queue_index as int;
            &&& after.backend == (BackendView::ExternalBlock { size, pending: None })
            &&& after.queues[qi].last_avail_idx == (dev.queues[qi].last_avail_idx + 1) % 0x1_0000
            &&& after.int_status != 0
        }),
{
    let s = dev.int_status;
    assert(s | 1 != 0) by (bit_vector);
}

} // verus!
