//! What virtio devices promise over whole queues and over runs of calls.

use vstd::prelude::*;
use crate::bytes::{le_bytes, le_value};
use crate::dma::{
    guest_bytes, guest_value, in_ram, law_writes_are_observed, lemma_observed_on, Memory,
};
use crate::ram::RAM_BASE;
use crate::virtio::{
    answerable, answered, block_run, block_serviced, block_step, body_of, chain_at, drained,
    frame_in, next_work, notified, published, read_filled, released, scatter_step, scattered,
    serviced, turn, BackendView, BlockRun, Descriptor, DeviceView, PendingView, Queue, MAX_QUEUES,
    NET_MAX_FRAME, NET_QUEUE_LIMIT,
};

verus! {

// ---- compiled code -------------------------------------------------------

proof fn lemma_block_observed(r: BlockRun, kind: nat, body: Seq<Descriptor>)
    requires
        r.mem.is_tracked(),
    ensures
        r.mem.observed_in(block_run(r, RAM_BASE, kind, body).mem),
        block_run(r, RAM_BASE, kind, body).mem.is_tracked(),
    decreases body.len(),
{
    if body.len() > 0 {
        lemma_block_observed(r, kind, body.drop_last());
        let before = block_run(r, RAM_BASE, kind, body.drop_last());
        let d = body.last();
        let after = block_step(before, RAM_BASE, kind, d);
        if after.mem != before.mem {
            law_writes_are_observed(
                before.mem,
                d.addr as int,
                before.disk.subrange(before.pos, before.pos + d.len),
            );
        }
        lemma_observed_on(r.mem, before.mem, after.mem);
    }
}

proof fn lemma_scatter_observed(mem: Memory, src: Seq<u8>, chain: Seq<Descriptor>, n: int)
    requires
        mem.is_tracked(),
    ensures
        mem.observed_in(scattered(mem, RAM_BASE, src, chain, n).mem),
        scattered(mem, RAM_BASE, src, chain, n).mem.is_tracked(),
    decreases n,
{
    if n > 0 {
        lemma_scatter_observed(mem, src, chain, n - 1);
        let before = scattered(mem, RAM_BASE, src, chain, n - 1);
        let d = chain[n - 1];
        let after = scatter_step(before, RAM_BASE, src, d);
        let room = crate::virtio::lesser(src.len() - before.written, d.len as int);
        if after.mem != before.mem {
            law_writes_are_observed(
                before.mem,
                d.addr as int,
                src.subrange(before.written, before.written + room),
            );
        }
        lemma_observed_on(mem, before.mem, after.mem);
    }
}

proof fn lemma_published_observed(
    mem: Memory,
    used_entry: u64,
    head: u16,
    written: u32,
    used_index_addr: u64,
    used_idx: u16,
)
    requires
        mem.is_tracked(),
    ensures
        ({
            let after = published(
                mem,
                RAM_BASE,
                used_entry,
                head,
                written,
                used_index_addr,
                used_idx,
            );
            mem.observed_in(after) && after.is_tracked()
        }),
{
    let one = le_bytes(head as nat, 4);
    let two = le_bytes(written as nat, 4);
    let three = le_bytes(vstd::wrapping::u16_specs::wrapping_add(used_idx, 1) as nat, 2);
    let a = mem.written(RAM_BASE, used_entry as int, one);
    let b = a.written(RAM_BASE, used_entry + 4, two);
    let c = b.written(RAM_BASE, used_index_addr as int, three);
    law_writes_are_observed(mem, used_entry as int, one);
    law_writes_are_observed(a, used_entry + 4, two);
    law_writes_are_observed(b, used_index_addr as int, three);
    lemma_observed_on(mem, a, b);
    lemma_observed_on(mem, b, c);
}

proof fn lemma_serviced_observed(
    backend: BackendView,
    mem: Memory,
    next_id: u64,
    qi: int,
    chain: Seq<Descriptor>,
)
    requires
        mem.is_tracked(),
    ensures
        mem.observed_in(serviced(backend, mem, next_id, RAM_BASE, qi, chain).mem),
        serviced(backend, mem, next_id, RAM_BASE, qi, chain).mem.is_tracked(),
{
    let after = serviced(backend, mem, next_id, RAM_BASE, qi, chain).mem;
    match backend {
        BackendView::Block { disk } => {
            let header = guest_bytes(mem.ram, RAM_BASE, chain[0].addr as int, 16);
            let start = BlockRun {
                disk,
                mem,
                pos: le_value(header.subrange(8, 16)) as int * 512,
                moved: 0,
                ok: true,
            };
            let kind = le_value(header.subrange(0, 4));
            let end = block_run(start, RAM_BASE, kind, body_of(chain));
            lemma_block_observed(start, kind, body_of(chain));
            let status = seq![
                if end.ok {
                    0u8
                } else {
                    1u8
                },
            ];
            law_writes_are_observed(end.mem, chain.last().addr as int, status);
            lemma_observed_on(
                mem,
                end.mem,
                end.mem.written(RAM_BASE, chain.last().addr as int, status),
            );
        },
        BackendView::ExternalBlock { size, pending } => {
            law_writes_are_observed(mem, chain.last().addr as int, seq![1u8]);
        },
        BackendView::Net { mac, inbox, outbox } => {
            if inbox.len() > 0 {
                lemma_scatter_observed(
                    mem,
                    crate::virtio::rx_header() + inbox[0],
                    chain,
                    chain.len() as int,
                );
            }
        },
    }
}

proof fn lemma_drained_observed(dev: DeviceView, mem: Memory, qi: int, fuel: nat)
    requires
        mem.is_tracked(),
    ensures
        mem.observed_in(drained(dev, mem, RAM_BASE, qi, fuel).1),
    decreases fuel,
{
    if fuel > 0 {
        let t = turn(dev, mem, RAM_BASE, qi);
        if let Some(work) = next_work(mem.ram, RAM_BASE, dev.queues[qi]) {
            lemma_serviced_observed(dev.backend, mem, dev.next_id, qi, work.chain);
            let s = serviced(dev.backend, mem, dev.next_id, RAM_BASE, qi, work.chain);
            if let Some(written) = s.written {
                lemma_published_observed(
                    s.mem,
                    work.used_entry,
                    work.head,
                    written,
                    work.used_index_addr,
                    work.used_idx,
                );
                lemma_observed_on(mem, s.mem, t.mem);
            }
        }
        if t.more {
            lemma_drained_observed(t.dev, t.mem, qi, (fuel - 1) as nat);
            lemma_observed_on(mem, t.mem, drained(dev, mem, RAM_BASE, qi, fuel).1);
        }
    }
}

/// No device write to a page of compiled code goes unobserved, whatever the guest
/// put on a queue: when the device has processed it, every marked page of which
/// a byte changed is dirty, and the marks are those that were there.
pub proof fn law_processing_is_observed(dev: DeviceView, mem: Memory, qi: int)
    requires
        mem.is_tracked(),
    ensures
        mem.observed_in(notified(dev, mem, RAM_BASE, qi).1),
{
    lemma_drained_observed(dev, mem, qi, u32::MAX as nat);
}

proof fn lemma_filled_observed(mem: Memory, request: PendingView, data: Seq<u8>, n: int)
    requires
        mem.is_tracked(),
    ensures
        mem.observed_in(read_filled(mem, RAM_BASE, request, data, n)),
        read_filled(mem, RAM_BASE, request, data, n).is_tracked(),
    decreases n,
{
    if n > 0 {
        lemma_filled_observed(mem, request, data, n - 1);
        let before = read_filled(mem, RAM_BASE, request, data, n - 1);
        let after = read_filled(mem, RAM_BASE, request, data, n);
        law_writes_are_observed(
            before,
            request.read_buffers[n - 1].0 as int,
            data.subrange(
                crate::virtio::buffered(request.read_buffers, n - 1),
                crate::virtio::buffered(request.read_buffers, n),
            ),
        );
        lemma_observed_on(mem, before, after);
    }
}

/// The same holds of what the host's answer to a request writes.
pub proof fn law_answers_are_observed(mem: Memory, request: PendingView, data: Seq<u8>, ok: bool)
    requires
        mem.is_tracked(),
    ensures
        mem.observed_in(answered(mem, RAM_BASE, request, data, ok)),
{
    let carried = crate::virtio::answer_carries(request, data, ok);
    let reading = carried && request.kind is Read;
    let filled = if reading {
        read_filled(mem, RAM_BASE, request, data, request.read_buffers.len() as int)
    } else {
        mem
    };
    lemma_filled_observed(mem, request, data, request.read_buffers.len() as int);
    let status = seq![
        if carried {
            0u8
        } else {
            1u8
        },
    ];
    let marked = filled.written(RAM_BASE, request.status_addr as int, status);
    law_writes_are_observed(filled, request.status_addr as int, status);
    lemma_observed_on(mem, filled, marked);
    let written: u32 = if reading {
        (request.length + 1) as u32
    } else {
        1
    };
    lemma_published_observed(
        marked,
        request.used_entry,
        request.head,
        written,
        request.used_index_addr,
        request.used_idx,
    );
    lemma_observed_on(mem, marked, answered(mem, RAM_BASE, request, data, ok));
}

// ---- runs of calls -------------------------------------------------------

/// One call that a device gets from the guest or from the host.
pub enum DeviceCall {
    /// A write of a register.
    Write(u64, u32),
    /// Queue `qi` is processed in this memory.
    Process { mem: Memory, base: u64, qi: int },
    /// The host answers request `id`, in a RAM of `ram_len` bytes.
    Answer { ram_len: nat, base: u64, id: u64 },
    /// The host sends a frame.
    Input(Seq<u8>),
    /// The host collects the frames that wait for it.
    TakeOutput,
}

impl DeviceView {
    /// The device after a call.
    pub open spec fn after(self, call: DeviceCall) -> DeviceView {
        match call {
            DeviceCall::Write(offset, val) => self.register_written(offset, val),
            DeviceCall::Process { mem, base, qi } => notified(self, mem, base, qi).0,
            DeviceCall::Answer { ram_len, base, id } => match answerable(self, ram_len, base, id) {
                Some(request) => released(self, request),
                None => self,
            },
            DeviceCall::Input(frame) => self.with_input(frame),
            DeviceCall::TakeOutput => self.without_output(),
        }
    }

    /// The device after a run of calls.
    pub open spec fn after_all(self, calls: Seq<DeviceCall>) -> DeviceView
        decreases calls.len(),
    {
        if calls.len() == 0 {
            self
        } else {
            self.after_all(calls.drop_last()).after(calls.last())
        }
    }

    /// How many requests a run of calls makes the device hand to the host.
    pub open spec fn requests_in(self, calls: Seq<DeviceCall>) -> nat
        decreases calls.len(),
    {
        if calls.len() == 0 {
            0
        } else {
            let before = self.after_all(calls.drop_last());
            self.requests_in(calls.drop_last()) + if before.pending() is None && before.after(
                calls.last(),
            ).pending() is Some {
                1nat
            } else {
                0nat
            }
        }
    }

    /// A request that waits has a number that is given out already.
    pub open spec fn is_numbered(self) -> bool {
        self.pending() matches Some(request) ==> request.id < self.next_id
    }
}

/// Whether `later` has the same request waiting as `dev`, or none, and gave out
/// no number.
spec fn keeps_numbers(dev: DeviceView, later: DeviceView) -> bool {
    &&& later.next_id == dev.next_id
    &&& later.pending() == dev.pending() || later.pending() is None
}

/// Whether `later` has a new request waiting, and gave it the next number.
spec fn gives_number(dev: DeviceView, later: DeviceView) -> bool {
    &&& dev.pending() is None
    &&& later.pending() matches Some(request) && request.id == dev.next_id
    &&& later.next_id == vstd::wrapping::u64_specs::wrapping_add(dev.next_id, 1)
}

proof fn lemma_drained_numbers(dev: DeviceView, mem: Memory, base: u64, qi: int, fuel: nat)
    requires
        dev.pending() is None,
    ensures
        keeps_numbers(dev, drained(dev, mem, base, qi, fuel).0) || gives_number(
            dev,
            drained(dev, mem, base, qi, fuel).0,
        ),
    decreases fuel,
{
    if fuel > 0 {
        let t = turn(dev, mem, base, qi);
        if t.more {
            assert(t.dev.pending() is None);
            lemma_drained_numbers(t.dev, t.mem, base, qi, (fuel - 1) as nat);
        }
    }
}

proof fn lemma_call_numbers(dev: DeviceView, call: DeviceCall)
    ensures
        keeps_numbers(dev, dev.after(call)) || gives_number(dev, dev.after(call)),
{
    if let DeviceCall::Process { mem, base, qi } = call {
        if dev.pending() is None {
            lemma_drained_numbers(dev, mem, base, qi, u32::MAX as nat);
        }
    }
}

proof fn lemma_run_numbers(dev: DeviceView, calls: Seq<DeviceCall>)
    requires
        dev.is_numbered(),
        dev.next_id + dev.requests_in(calls) <= u64::MAX,
    ensures
        dev.after_all(calls).is_numbered(),
        dev.after_all(calls).next_id == dev.next_id + dev.requests_in(calls),
        dev.pending() is None ==> (dev.after_all(calls).pending() matches Some(request)
            ==> request.id >= dev.next_id),
    decreases calls.len(),
{
    if calls.len() > 0 {
        lemma_run_numbers(dev, calls.drop_last());
        lemma_call_numbers(dev.after_all(calls.drop_last()), calls.last());
    }
}

proof fn lemma_runs_join(dev: DeviceView, first: Seq<DeviceCall>, then: Seq<DeviceCall>)
    ensures
        dev.after_all(first + then) == dev.after_all(first).after_all(then),
        dev.requests_in(first + then) == dev.requests_in(first) + dev.after_all(first).requests_in(
            then,
        ),
    decreases then.len(),
{
    if then.len() == 0 {
        assert(first + then =~= first);
    } else {
        lemma_runs_join(dev, first, then.drop_last());
        assert((first + then).drop_last() =~= first + then.drop_last());
    }
}

/// No two requests of a device share a number: of a request that waits, and one
/// that waits later when the device was without one in between, the later one has
/// the greater number. That is so over any run of calls in which the numbers do
/// not run out.
pub proof fn law_requests_never_share_a_number(
    dev: DeviceView,
    first: Seq<DeviceCall>,
    between: Seq<DeviceCall>,
    then: Seq<DeviceCall>,
)
    requires
        dev.is_numbered(),
        dev.next_id + dev.requests_in(first + between + then) <= u64::MAX,
        dev.after_all(first).pending() is Some,
        dev.after_all(first + between).pending() is None,
        dev.after_all(first + between + then).pending() is Some,
    ensures
        dev.after_all(first).pending()->0.id < dev.after_all(
            first + between + then,
        ).pending()->0.id,
{
    lemma_runs_join(dev, first, between);
    lemma_runs_join(dev, first + between, then);
    lemma_run_numbers(dev, first);
    lemma_run_numbers(dev.after_all(first), between);
    lemma_run_numbers(dev.after_all(first + between), then);
}

/// Numbers go on over a reboot: a request of a device whose numbers go on from
/// those of one that is gone has a number that none of the requests of that one
/// had.
pub proof fn law_numbers_go_on_after_a_reboot(
    gone: DeviceView,
    first: Seq<DeviceCall>,
    dev: DeviceView,
    then: Seq<DeviceCall>,
)
    requires
        gone.is_numbered(),
        gone.next_id + gone.requests_in(first) <= u64::MAX,
        gone.after_all(first).pending() is Some,
        dev.pending() is None,
        dev.next_id >= gone.after_all(first).next_id,
        dev.next_id + dev.requests_in(then) <= u64::MAX,
        dev.after_all(then).pending() is Some,
    ensures
        gone.after_all(first).pending()->0.id < dev.after_all(then).pending()->0.id,
{
    lemma_run_numbers(gone, first);
    lemma_run_numbers(dev, then);
}

/// Whether a call ends the wait for request `id`: its answer, or a reset.
pub open spec fn ends_wait(call: DeviceCall, id: u64) -> bool {
    match call {
        DeviceCall::Write(offset, val) => offset == 0x070 && val == 0,
        DeviceCall::Answer { ram_len, base, id: answered } => answered == id,
        _ => false,
    }
}

/// A request waits as it is until it is answered or the device is reset, whatever
/// else is called.
pub proof fn law_request_waits_for_its_answer(dev: DeviceView, calls: Seq<DeviceCall>)
    requires
        dev.pending() is Some,
        forall|i: int|
            0 <= i < calls.len() ==> !ends_wait(#[trigger] calls[i], dev.pending()->0.id),
    ensures
        dev.after_all(calls).pending() == dev.pending(),
    decreases calls.len(),
{
    if calls.len() > 0 {
        let rest = calls.drop_last();
        assert forall|i: int| 0 <= i < rest.len() implies !ends_wait(
            #[trigger] rest[i],
            dev.pending()->0.id,
        ) by {
            assert(rest[i] == calls[i]);
        }
        law_request_waits_for_its_answer(dev, rest);
        assert(!ends_wait(calls[calls.len() - 1], dev.pending()->0.id));
    }
}

// ---- frames --------------------------------------------------------------

/// The frames that the guest sends while a queue is turned until it comes to
/// rest, or `fuel` times.
pub open spec fn frames_sent(dev: DeviceView, mem: Memory, base: u64, qi: int, fuel: nat) -> Seq<
    Seq<u8>,
>
    decreases fuel,
{
    if fuel == 0 || qi == 0 || !(dev.backend is Net) {
        Seq::empty()
    } else {
        match next_work(mem.ram, base, dev.queues[qi]) {
            None => Seq::empty(),
            Some(work) => {
                let t = turn(dev, mem, base, qi);
                let rest = frames_sent(t.dev, t.mem, base, qi, (fuel - 1) as nat);
                match frame_in(mem.ram, base, work.chain) {
                    Some(frame) => seq![frame] + rest,
                    None => rest,
                }
            },
        }
    }
}

impl DeviceView {
    /// The frames that the guest sends in a call.
    pub open spec fn sends(self, call: DeviceCall) -> Seq<Seq<u8>> {
        match call {
            DeviceCall::Process { mem, base, qi } => if qi >= MAX_QUEUES || self.queues[qi].ready
                == 0 {
                Seq::empty()
            } else {
                frames_sent(self, mem, base, qi, u32::MAX as nat)
            },
            _ => Seq::empty(),
        }
    }

    /// The frames that the guest sends in a run of calls, oldest first.
    pub open spec fn sends_in(self, calls: Seq<DeviceCall>) -> Seq<Seq<u8>>
        decreases calls.len(),
    {
        if calls.len() == 0 {
            Seq::empty()
        } else {
            self.sends_in(calls.drop_last()) + self.after_all(calls.drop_last()).sends(calls.last())
        }
    }
}

/// The frames that a mailbox has room for: the first of them, up to its limit.
pub open spec fn roomed(frames: Seq<Seq<u8>>) -> Seq<Seq<u8>> {
    if frames.len() <= NET_QUEUE_LIMIT {
        frames
    } else {
        frames.take(NET_QUEUE_LIMIT as int)
    }
}

/// Whether every frame has bytes, and few enough to be moved.
pub open spec fn are_movable(frames: Seq<Seq<u8>>) -> bool {
    forall|i: int| 0 <= i < frames.len() ==> 1 <= (#[trigger] frames[i]).len() <= NET_MAX_FRAME
}

proof fn lemma_drained_sends(dev: DeviceView, mem: Memory, base: u64, qi: int, fuel: nat)
    requires
        dev.backend is Net,
        dev.outbox().len() <= NET_QUEUE_LIMIT,
    ensures
        ({
            let later = drained(dev, mem, base, qi, fuel).0;
            &&& later.backend is Net
            &&& later.outbox() == roomed(dev.outbox() + frames_sent(dev, mem, base, qi, fuel))
            &&& are_movable(frames_sent(dev, mem, base, qi, fuel))
        }),
    decreases fuel,
{
    let all = frames_sent(dev, mem, base, qi, fuel);
    let later = drained(dev, mem, base, qi, fuel).0;
    if fuel == 0 {
        assert(dev.outbox() + all =~= dev.outbox());
    } else {
        let t = turn(dev, mem, base, qi);
        assert(t.dev.backend is Net);
        match next_work(mem.ram, base, dev.queues[qi]) {
            None => {
                assert(dev.outbox() + all =~= dev.outbox());
            },
            Some(work) => {
                if qi == 0 {
                    assert(t.dev.outbox() == dev.outbox());
                    if t.more {
                        lemma_drained_sends(t.dev, t.mem, base, qi, (fuel - 1) as nat);
                    }
                    assert(dev.outbox() + all =~= dev.outbox());
                } else {
                    assert(t.more);
                    lemma_drained_sends(t.dev, t.mem, base, qi, (fuel - 1) as nat);
                    let rest = frames_sent(t.dev, t.mem, base, qi, (fuel - 1) as nat);
                    if let Some(frame) = frame_in(mem.ram, base, work.chain) {
                        if dev.outbox().len() < NET_QUEUE_LIMIT {
                            assert(t.dev.outbox() + rest =~= dev.outbox() + all);
                        } else {
                            assert(roomed(t.dev.outbox() + rest) =~= roomed(dev.outbox() + all));
                        }
                        assert forall|i: int| 0 <= i < all.len() implies 1 <= (
                        #[trigger] all[i]).len() <= NET_MAX_FRAME by {
                            if i > 0 {
                                assert(all[i] == rest[i - 1]);
                            }
                        }
                    }
                }
            },
        }
    }
}

proof fn lemma_run_sends(dev: DeviceView, calls: Seq<DeviceCall>)
    requires
        dev.backend is Net,
        dev.outbox().len() <= NET_QUEUE_LIMIT,
        forall|i: int| 0 <= i < calls.len() ==> !(#[trigger] calls[i] is TakeOutput),
    ensures
        dev.after_all(calls).backend is Net,
        dev.after_all(calls).outbox() == roomed(dev.outbox() + dev.sends_in(calls)),
        are_movable(dev.sends_in(calls)),
    decreases calls.len(),
{
    if calls.len() == 0 {
        assert(dev.outbox() + dev.sends_in(calls) =~= dev.outbox());
    } else {
        let rest = calls.drop_last();
        assert forall|i: int| 0 <= i < rest.len() implies !(#[trigger] rest[i] is TakeOutput) by {
            assert(rest[i] == calls[i]);
        }
        lemma_run_sends(dev, rest);
        let before = dev.after_all(rest);
        let call = calls.last();
        assert(!(calls[calls.len() - 1] is TakeOutput));
        let more = before.sends(call);
        if let DeviceCall::Process { mem, base, qi } = call {
            lemma_drained_sends(before, mem, base, qi, u32::MAX as nat);
        }
        if more.len() == 0 {
            assert(before.outbox() + more =~= before.outbox());
        }
        assert(before.after(call).outbox() == roomed(before.outbox() + more));
        assert(roomed(roomed(dev.outbox() + dev.sends_in(rest)) + more) =~= roomed(
            dev.outbox() + (dev.sends_in(rest) + more),
        ));
        assert forall|i: int| 0 <= i < dev.sends_in(calls).len() implies 1 <= (
        #[trigger] dev.sends_in(calls)[i]).len() <= NET_MAX_FRAME by {
            if i < dev.sends_in(rest).len() {
                assert(dev.sends_in(calls)[i] == dev.sends_in(rest)[i]);
            } else {
                assert(dev.sends_in(calls)[i] == more[i - dev.sends_in(rest).len()]);
            }
        }
    }
}

/// The host collects exactly the frames that the guest sent since the host last
/// collected them, oldest first and without their headers: those that there was
/// room for, at most 256 frames of 1 to 1600 bytes. Collecting them again at once
/// gives nothing, and leaves what the host sent.
pub proof fn law_output_is_what_was_sent(dev: DeviceView, calls: Seq<DeviceCall>)
    requires
        dev.backend is Net,
        forall|i: int| 0 <= i < calls.len() ==> !(#[trigger] calls[i] is TakeOutput),
    ensures
        ({
            let start = dev.after(DeviceCall::TakeOutput);
            let end = start.after_all(calls);
            &&& end.outbox() == roomed(start.sends_in(calls))
            &&& end.outbox().len() <= 256
            &&& forall|i: int|
                0 <= i < end.outbox().len() ==> 1 <= (#[trigger] end.outbox()[i]).len() <= 1600
            &&& end.after(DeviceCall::TakeOutput).outbox() == Seq::<Seq<u8>>::empty()
            &&& end.after(DeviceCall::TakeOutput).backend->inbox == end.backend->inbox
        }),
{
    let start = dev.after(DeviceCall::TakeOutput);
    lemma_run_sends(start, calls);
    assert(start.outbox() + start.sends_in(calls) =~= start.sends_in(calls));
    let end = start.after_all(calls);
    assert forall|i: int| 0 <= i < end.outbox().len() implies 1 <= (
    #[trigger] end.outbox()[i]).len() <= 1600 by {
        assert(end.outbox()[i] == start.sends_in(calls)[i]);
    }
}

// ---- whole queues --------------------------------------------------------

/// Whether byte `i` of RAM belongs to what the driver writes of a queue: its
/// available ring or its descriptor table.
pub open spec fn driver_byte(base: u64, q: Queue, i: int) -> bool {
    ||| q.avail - base <= i < q.avail - base + 4 + 2 * q.num
    ||| q.desc - base <= i < q.desc - base + 16 * q.num
}

/// Whether byte `i` of RAM belongs to the used ring of a queue.
pub open spec fn used_byte(base: u64, q: Queue, i: int) -> bool {
    q.used - base <= i < q.used - base + 4 + 8 * q.num
}

/// Whether a queue has entries, its rings and its table lie in a RAM of `len`
/// bytes that has addresses for all of them, and the used ring overlaps neither
/// of the others.
pub open spec fn rings_apart(len: nat, base: u64, q: Queue) -> bool {
    &&& 0 < q.num <= 256
    &&& base + len <= u64::MAX
    &&& in_ram(len, base, q.avail as int, 4 + 2 * q.num)
    &&& in_ram(len, base, q.desc as int, 16 * q.num)
    &&& in_ram(len, base, q.used as int, 4 + 8 * q.num)
    &&& forall|i: int| #[trigger] driver_byte(base, q, i) ==> !used_byte(base, q, i)
}

/// Whether a buffer lies in RAM and overlaps neither the rings nor the table.
pub open spec fn buffer_apart(len: nat, base: u64, q: Queue, d: Descriptor) -> bool {
    &&& in_ram(len, base, d.addr as int, d.len as int)
    &&& forall|i: int|
        d.addr - base <= i < d.addr - base + d.len ==> !(#[trigger] driver_byte(base, q, i))
            && !used_byte(base, q, i)
}

/// Whether the chain that starts at table entry `di` stays inside the table, for
/// `limit` entries.
pub open spec fn in_table(ram: Seq<u8>, base: u64, q: Queue, di: nat, limit: nat) -> bool
    decreases limit,
{
    limit == 0 || {
        let entry = q.desc + di * 16;
        &&& di < q.num
        &&& guest_value(ram, base, entry + 12, 2)->0 % 2 == 1 ==> in_table(
            ram,
            base,
            q,
            guest_value(ram, base, entry + 14, 2)->0,
            (limit - 1) as nat,
        )
    }
}

/// The slot of ring index `n`: indices run modulo 65536, and slots modulo the
/// size of the ring.
pub open spec fn slot_of(q: Queue, n: int) -> int {
    n % 0x1_0000 % q.num as int
}

/// The head of the `n`th chain that the driver has made available and the device
/// has not taken.
pub open spec fn available_head(ram: Seq<u8>, base: u64, q: Queue, n: int) -> Option<nat> {
    guest_value(ram, base, q.avail + 4 + slot_of(q, q.last_avail_idx + n) * 2, 2)
}

/// Whether the `n`th available chain stays inside the table, has a header and a
/// status byte, and its buffers overlap neither the rings nor the table.
pub open spec fn chain_apart(ram: Seq<u8>, base: u64, q: Queue, n: int) -> bool {
    let head = available_head(ram, base, q, n)->0;
    &&& in_table(ram, base, q, head, q.num as nat)
    &&& chain_at(ram, base, q.desc, head, q.num as nat) matches Some(chain) && {
        &&& chain.len() >= 2
        &&& chain.last().len >= 1
        &&& forall|k: int|
            0 <= k < chain.len() ==> buffer_apart(ram.len(), base, q, #[trigger] chain[k])
    }
}

/// The head that entry `slot` of the used ring gives back.
pub open spec fn used_head(ram: Seq<u8>, base: u64, q: Queue, slot: int) -> Option<nat> {
    guest_value(ram, base, q.used + 4 + slot * 8, 4)
}

proof fn lemma_value_kept(a: Seq<u8>, b: Seq<u8>, base: u64, addr: int, n: int)
    requires
        a.len() == b.len(),
        0 <= n,
        in_ram(a.len(), base, addr, n),
        forall|i: int| addr - base <= i < addr - base + n ==> #[trigger] a[i] == b[i],
    ensures
        guest_value(a, base, addr, n) == guest_value(b, base, addr, n),
{
    assert(guest_bytes(a, base, addr, n) =~= guest_bytes(b, base, addr, n));
}

proof fn lemma_chain_kept(a: Seq<u8>, b: Seq<u8>, base: u64, q: Queue, di: nat, limit: nat)
    requires
        a.len() == b.len(),
        rings_apart(a.len(), base, q),
        forall|i: int| #[trigger] driver_byte(base, q, i) ==> a[i] == b[i],
        in_table(a, base, q, di, limit),
    ensures
        in_table(b, base, q, di, limit),
        chain_at(a, base, q.desc, di, limit) == chain_at(b, base, q.desc, di, limit),
    decreases limit,
{
    if limit > 0 {
        let entry = q.desc + di * 16;
        assert(in_ram(a.len(), base, entry, 16));
        assert forall|i: int| entry - base <= i < entry - base + 16 implies #[trigger] a[i]
            == b[i] by {
            assert(driver_byte(base, q, i));
        }
        lemma_value_kept(a, b, base, entry, 8);
        lemma_value_kept(a, b, base, entry + 8, 4);
        lemma_value_kept(a, b, base, entry + 12, 2);
        lemma_value_kept(a, b, base, entry + 14, 2);
        if guest_value(a, base, entry + 12, 2)->0 % 2 == 1 {
            let next = guest_value(a, base, entry + 14, 2)->0;
            lemma_chain_kept(a, b, base, q, next, (limit - 1) as nat);
        }
    }
}

proof fn lemma_block_kept(r: BlockRun, base: u64, kind: nat, body: Seq<Descriptor>, i: int)
    requires
        0 <= i < r.mem.ram.len(),
        0 <= r.pos,
        forall|k: int|
            0 <= k < body.len() ==> !((#[trigger] body[k]).addr - base <= i < body[k].addr - base
                + body[k].len),
    ensures
        0 <= block_run(r, base, kind, body).pos,
        block_run(r, base, kind, body).mem.ram.len() == r.mem.ram.len(),
        block_run(r, base, kind, body).mem.ram[i] == r.mem.ram[i],
    decreases body.len(),
{
    if body.len() > 0 {
        let rest = body.drop_last();
        assert forall|k: int| 0 <= k < rest.len() implies !((#[trigger] rest[k]).addr - base <= i
            < rest[k].addr - base + rest[k].len) by {
            assert(rest[k] == body[k]);
        }
        lemma_block_kept(r, base, kind, rest, i);
        assert(body[body.len() - 1] == body.last());
    }
}

proof fn lemma_service_kept(
    disk: Seq<u8>,
    mem: Memory,
    id: u64,
    base: u64,
    q: Queue,
    chain: Seq<Descriptor>,
    i: int,
)
    requires
        0 <= i < mem.ram.len(),
        driver_byte(base, q, i) || used_byte(base, q, i),
        chain.len() >= 2,
        chain.last().len >= 1,
        forall|k: int|
            0 <= k < chain.len() ==> buffer_apart(mem.ram.len(), base, q, #[trigger] chain[k]),
    ensures
        block_serviced(disk, mem, id, base, chain).mem.ram.len() == mem.ram.len(),
        block_serviced(disk, mem, id, base, chain).mem.ram[i] == mem.ram[i],
{
    let body = body_of(chain);
    let header = guest_bytes(mem.ram, base, chain[0].addr as int, 16);
    let start = BlockRun {
        disk,
        mem,
        pos: le_value(header.subrange(8, 16)) as int * 512,
        moved: 0,
        ok: true,
    };
    assert forall|k: int| 0 <= k < body.len() implies !((#[trigger] body[k]).addr - base <= i
        < body[k].addr - base + body[k].len) by {
        assert(body[k] == chain[k + 1]);
        assert(buffer_apart(mem.ram.len(), base, q, chain[k + 1]));
        if chain[k + 1].addr - base <= i < chain[k + 1].addr - base + chain[k + 1].len {
            assert(!driver_byte(base, q, i));
        }
    }
    lemma_block_kept(start, base, le_value(header.subrange(0, 4)), body, i);
    let last = chain[chain.len() - 1];
    assert(buffer_apart(mem.ram.len(), base, q, last));
    if i == last.addr - base {
        assert(!driver_byte(base, q, i));
    }
}

/// What one turn of a disk's queue leaves of the queue, if its next chain keeps
/// apart from the rings.
#[verifier::spinoff_prover]
#[verifier::rlimit(60)]
proof fn lemma_block_turn(dev: DeviceView, mem: Memory, base: u64, qi: int, u: nat)
    requires
        dev.backend is Block,
        0 <= qi < dev.queues.len(),
        rings_apart(mem.ram.len(), base, dev.queues[qi]),
        chain_apart(mem.ram, base, dev.queues[qi], 0),
        guest_value(mem.ram, base, dev.queues[qi].avail + 2, 2)->0
            != dev.queues[qi].last_avail_idx,
        guest_value(mem.ram, base, dev.queues[qi].used + 2, 2) == Some(u),
    ensures
        ({
            let q = dev.queues[qi];
            let t = turn(dev, mem, base, qi);
            &&& t.more
            &&& t.dev.backend is Block
            &&& t.dev.queues == dev.queues.update(
                qi,
                Queue {
                    last_avail_idx: vstd::wrapping::u16_specs::wrapping_add(q.last_avail_idx, 1),
                    ..q
                },
            )
            &&& t.dev.int_status == dev.int_status | 1
            &&& t.mem.ram.len() == mem.ram.len()
            &&& forall|i: int| #[trigger]
                driver_byte(base, q, i) ==> t.mem.ram[i] == mem.ram[i]
            &&& guest_value(t.mem.ram, base, q.used + 2, 2) == Some(((u + 1) % 0x1_0000) as nat)
            &&& used_head(t.mem.ram, base, q, slot_of(q, u as int)) == available_head(
                mem.ram,
                base,
                q,
                0,
            )
            &&& forall|slot: int|
                0 <= slot < q.num && slot != slot_of(q, u as int) ==> #[trigger] used_head(
                    t.mem.ram,
                    base,
                    q,
                    slot,
                ) == used_head(mem.ram, base, q, slot)
        }),
{
    let q = dev.queues[qi];
    let len = mem.ram.len();
    crate::bytes::lemma_byte_spans();
    crate::bytes::lemma_le_value_bound(guest_bytes(mem.ram, base, q.used + 2, 2));
    let slot = q.last_avail_idx as int % q.num as int;
    assert(slot == slot_of(q, q.last_avail_idx + 0int));
    assert(0 <= slot < q.num);
    crate::bytes::lemma_le_value_bound(guest_bytes(mem.ram, base, q.avail + 4 + slot * 2, 2));
    let head = available_head(mem.ram, base, q, 0)->0;
    let chain = chain_at(mem.ram, base, q.desc, head, q.num as nat)->0;
    let used_slot = slot_of(q, u as int);
    assert(used_slot == u as int % q.num as int);
    assert(0 <= used_slot < q.num);
    let used_entry = q.used + 4 + used_slot * 8;
    assert(in_ram(len, base, used_entry, 8));
    let work = next_work(mem.ram, base, q)->0;
    assert(next_work(mem.ram, base, q) is Some);
    assert(work.chain == chain);
    assert(work.used_entry == used_entry);
    let disk = dev.backend->disk;
    let s = block_serviced(disk, mem, dev.next_id, base, chain);
    assert forall|i: int| driver_byte(base, q, i) || used_byte(base, q, i) implies #[trigger] s.mem.ram[i]
        == mem.ram[i] by {
        lemma_service_kept(disk, mem, dev.next_id, base, q, chain, i);
    }
    assert(used_byte(base, q, q.used - base));
    lemma_service_kept(disk, mem, dev.next_id, base, q, chain, q.used - base);
    let t = turn(dev, mem, base, qi);
    let head_bytes = le_bytes(head, 4);
    let count_bytes = le_bytes(s.written->0 as nat, 4);
    let next: nat = ((u + 1) % 0x1_0000) as nat;
    let index_bytes = le_bytes(next, 2);
    crate::bytes::lemma_le_bytes_len(head, 4);
    crate::bytes::lemma_le_bytes_len(s.written->0 as nat, 4);
    crate::bytes::lemma_le_bytes_len(next, 2);
    crate::bytes::lemma_le_round_trip(head, 4);
    crate::bytes::lemma_le_round_trip(next, 2);
    assert(vstd::wrapping::u16_specs::wrapping_add(u as u16, 1) as nat == next);
    let a = s.mem.written(base, used_entry, head_bytes);
    let b = a.written(base, used_entry + 4, count_bytes);
    let c = b.written(base, q.used + 2, index_bytes);
    assert(t.mem == c);
    assert forall|i: int| #[trigger] driver_byte(base, q, i) implies t.mem.ram[i] == mem.ram[i] by {
        assert(!used_byte(base, q, i));
        assert(s.mem.ram[i] == mem.ram[i]);
    }
    assert(guest_bytes(c.ram, base, q.used + 2, 2) =~= index_bytes);
    assert(guest_bytes(c.ram, base, used_entry, 4) =~= head_bytes);
    assert forall|other: int| 0 <= other < q.num && other != used_slot implies #[trigger] used_head(
        t.mem.ram,
        base,
        q,
        other,
    ) == used_head(mem.ram, base, q, other) by {
        let entry = q.used + 4 + other * 8;
        assert(in_ram(len, base, entry, 4));
        assert forall|i: int| entry - base <= i < entry - base + 4 implies #[trigger] t.mem.ram[i]
            == mem.ram[i] by {
            assert(used_byte(base, q, i));
            assert(s.mem.ram[i] == mem.ram[i]);
        }
        lemma_value_kept(t.mem.ram, mem.ram, base, entry, 4);
    }
}

/// What is left of the available chains when the first is answered keeps apart
/// from the rings as before.
proof fn lemma_rest_apart(a: Seq<u8>, b: Seq<u8>, base: u64, q: Queue, q2: Queue, k: nat)
    requires
        a.len() == b.len(),
        rings_apart(a.len(), base, q),
        forall|i: int| #[trigger] driver_byte(base, q, i) ==> b[i] == a[i],
        q2 == (Queue { last_avail_idx: ((q.last_avail_idx + 1) % 0x1_0000) as u16, ..q }),
        forall|n: int| 0 <= n < k ==> #[trigger] chain_apart(a, base, q, n),
    ensures
        rings_apart(b.len(), base, q2),
        guest_value(b, base, q.avail + 2, 2) == guest_value(a, base, q.avail + 2, 2),
        forall|n: int| 0 <= n < k - 1 ==> #[trigger] chain_apart(b, base, q2, n),
        forall|n: int| #[trigger]
            available_head(b, base, q2, n) == available_head(a, base, q, n + 1),
{
    assert forall|i: int| #[trigger] driver_byte(base, q2, i) implies !used_byte(base, q2, i) by {
        assert(driver_byte(base, q, i));
    }
    assert(in_ram(a.len(), base, q.avail + 2, 2));
    assert forall|i: int| q.avail + 2 - base <= i < q.avail + 2 - base + 2 implies #[trigger] b[i]
        == a[i] by {
        assert(driver_byte(base, q, i));
    }
    lemma_value_kept(b, a, base, q.avail + 2, 2);
    assert forall|n: int| #[trigger] available_head(b, base, q2, n) == available_head(
        a,
        base,
        q,
        n + 1,
    ) by {
        lemma_head_kept(a, b, base, q, q2, n);
    }
    assert forall|n: int| 0 <= n < k - 1 implies #[trigger] chain_apart(b, base, q2, n) by {
        assert(chain_apart(a, base, q, n + 1));
        assert(available_head(b, base, q2, n) == available_head(a, base, q, n + 1));
        let head = available_head(a, base, q, n + 1)->0;
        lemma_chain_kept(a, b, base, q, head, q.num as nat);
        lemma_table_same(b, base, q, q2, head, q.num as nat);
        let chain = chain_at(a, base, q.desc, head, q.num as nat)->0;
        assert forall|j: int| 0 <= j < chain.len() implies buffer_apart(
            b.len(),
            base,
            q2,
            #[trigger] chain[j],
        ) by {
            assert(buffer_apart(a.len(), base, q, chain[j]));
            assert forall|i: int|
                chain[j].addr - base <= i < chain[j].addr - base + chain[j].len implies !(
            #[trigger] driver_byte(base, q2, i)) && !used_byte(base, q2, i) by {
                assert(!driver_byte(base, q, i));
            }
        }
    }
}

/// Whether `b` is what is left of memory `a` when `k` chains were answered, from
/// used index `u` on: what the driver wrote is as it was, and so is every used
/// entry but those that give back the heads of these chains.
#[verifier::opaque]
spec fn gives_back(a: Seq<u8>, b: Seq<u8>, base: u64, q: Queue, u: nat, k: nat) -> bool {
    &&& b.len() == a.len()
    &&& forall|i: int| #[trigger] driver_byte(base, q, i) ==> b[i] == a[i]
    &&& guest_value(b, base, q.used + 2, 2) == Some(((u + k) % 0x1_0000) as nat)
    &&& forall|n: int|
        0 <= n < k ==> used_head(b, base, q, #[trigger] slot_of(q, u + n)) == available_head(
            a,
            base,
            q,
            n,
        )
    &&& forall|slot: int|
        0 <= slot < q.num && (forall|n: int| 0 <= n < k ==> slot != #[trigger] slot_of(q, u + n))
            ==> #[trigger] used_head(b, base, q, slot) == used_head(a, base, q, slot)
}

/// Whether `k` indices from `u` on have slots of their own.
pub open spec fn slots_differ(q: Queue, u: nat, k: nat) -> bool {
    forall|m: int, n: int|
        0 <= m < n < k ==> #[trigger] slot_of(q, u + m) != #[trigger] slot_of(q, u + n)
}

proof fn lemma_gives_back_on(
    a: Seq<u8>,
    b: Seq<u8>,
    c: Seq<u8>,
    base: u64,
    q: Queue,
    q2: Queue,
    u: nat,
    k: nat,
)
    requires
        0 < q.num,
        q2 == (Queue { last_avail_idx: ((q.last_avail_idx + 1) % 0x1_0000) as u16, ..q }),
        k > 0,
        slots_differ(q, u, k),
        gives_back(a, b, base, q, u, 1),
        gives_back(b, c, base, q2, ((u + 1) % 0x1_0000) as nat, (k - 1) as nat),
        forall|n: int| #[trigger]
            available_head(b, base, q2, n) == available_head(a, base, q, n + 1),
    ensures
        gives_back(a, c, base, q, u, k),
{
    reveal(gives_back);
    let u2: nat = ((u + 1) % 0x1_0000) as nat;
    let k2: nat = (k - 1) as nat;
    lemma_index_on(u as int, k2 as int);
    assert forall|i: int| #[trigger] driver_byte(base, q, i) implies c[i] == a[i] by {
        assert(driver_byte(base, q2, i));
    }
    assert forall|n: int| #[trigger] slot_of(q2, u2 + n) == slot_of(q, u + (n + 1)) by {
        lemma_index_on(u as int, n);
    }
    let first = slot_of(q, u + 0int);
    assert(0 <= first < q.num);
    assert forall|n: int| 0 <= n < k2 implies first != #[trigger] slot_of(q2, u2 + n) by {
        assert(slot_of(q, u + 0int) != slot_of(q, u + (n + 1)));
    }
    assert(used_head(c, base, q2, first) == used_head(b, base, q2, first));
    assert forall|n: int| 0 <= n < k implies used_head(
        c,
        base,
        q,
        #[trigger] slot_of(q, u + n),
    ) == available_head(a, base, q, n) by {
        if n == 0 {
            assert(used_head(b, base, q, slot_of(q, u + 0int)) == available_head(a, base, q, 0));
        } else {
            let n2 = n - 1;
            assert(slot_of(q2, u2 + n2) == slot_of(q, u + (n2 + 1)));
            assert(available_head(b, base, q2, n2) == available_head(a, base, q, n2 + 1));
        }
    }
    assert forall|slot: int|
        0 <= slot < q.num && (forall|n: int| 0 <= n < k ==> slot != #[trigger] slot_of(q, u + n))
        implies #[trigger] used_head(c, base, q, slot) == used_head(a, base, q, slot) by {
        assert(slot != slot_of(q, u + 0int));
        assert forall|n: int| 0 <= n < 1 implies slot != #[trigger] slot_of(q, u + n) by {}
        assert(used_head(b, base, q, slot) == used_head(a, base, q, slot));
        assert forall|n: int| 0 <= n < k2 implies slot != #[trigger] slot_of(q2, u2 + n) by {
            assert(slot != slot_of(q, u + (n + 1)));
        }
        assert(used_head(c, base, q2, slot) == used_head(b, base, q2, slot));
    }
}

/// One turn gives back one head.
proof fn lemma_turn_gives_back(dev: DeviceView, mem: Memory, base: u64, qi: int, u: nat)
    requires
        dev.backend is Block,
        0 <= qi < dev.queues.len(),
        rings_apart(mem.ram.len(), base, dev.queues[qi]),
        chain_apart(mem.ram, base, dev.queues[qi], 0),
        guest_value(mem.ram, base, dev.queues[qi].avail + 2, 2)->0
            != dev.queues[qi].last_avail_idx,
        guest_value(mem.ram, base, dev.queues[qi].used + 2, 2) == Some(u),
    ensures
        gives_back(mem.ram, turn(dev, mem, base, qi).mem.ram, base, dev.queues[qi], u, 1),
{
    lemma_block_turn(dev, mem, base, qi, u);
    reveal(gives_back);
    let q = dev.queues[qi];
    let b = turn(dev, mem, base, qi).mem.ram;
    assert(u + 0int == u);
    assert forall|n: int| 0 <= n < 1 implies used_head(b, base, q, #[trigger] slot_of(q, u + n))
        == available_head(mem.ram, base, q, n) by {
        assert(n == 0);
    }
    assert forall|slot: int|
        0 <= slot < q.num && (forall|n: int| 0 <= n < 1 ==> slot != #[trigger] slot_of(q, u + n))
        implies #[trigger] used_head(b, base, q, slot) == used_head(mem.ram, base, q, slot) by {
        assert(slot != slot_of(q, u + 0int));
    }
}

#[verifier::spinoff_prover]
#[verifier::rlimit(60)]
proof fn lemma_chains_used(
    dev: DeviceView,
    mem: Memory,
    base: u64,
    qi: int,
    u: nat,
    k: nat,
    fuel: nat,
)
    requires
        dev.backend is Block,
        0 <= qi < dev.queues.len(),
        k < 0x1_0000,
        k < fuel,
        u < 0x1_0000,
        rings_apart(mem.ram.len(), base, dev.queues[qi]),
        forall|n: int|
            0 <= n < k ==> #[trigger] chain_apart(mem.ram, base, dev.queues[qi], n),
        guest_value(mem.ram, base, dev.queues[qi].avail + 2, 2) == Some(
            ((dev.queues[qi].last_avail_idx + k) % 0x1_0000) as nat,
        ),
        guest_value(mem.ram, base, dev.queues[qi].used + 2, 2) == Some(u),
        slots_differ(dev.queues[qi], u, k),
    ensures
        ({
            let q = dev.queues[qi];
            let (later, m) = drained(dev, mem, base, qi, fuel);
            &&& k == 0 ==> later == dev && m == mem
            &&& k > 0 ==> later.int_status == dev.int_status | 1
            &&& later.backend is Block
            &&& later.queues.len() == dev.queues.len()
            &&& later.queues[qi] == (Queue {
                last_avail_idx: ((q.last_avail_idx + k) % 0x1_0000) as u16,
                ..q
            })
            &&& gives_back(mem.ram, m.ram, base, q, u, k)
        }),
    decreases k,
{
    let q = dev.queues[qi];
    if k == 0 {
        assert(next_work(mem.ram, base, q) is None);
        reveal(gives_back);
    } else {
        let t = turn(dev, mem, base, qi);
        assert(chain_apart(mem.ram, base, q, 0));
        lemma_block_turn(dev, mem, base, qi, u);
        lemma_turn_gives_back(dev, mem, base, qi, u);
        let q2 = t.dev.queues[qi];
        let u2: nat = ((u + 1) % 0x1_0000) as nat;
        let k2: nat = (k - 1) as nat;
        assert(q2.last_avail_idx == (q.last_avail_idx + 1) % 0x1_0000);
        lemma_rest_apart(mem.ram, t.mem.ram, base, q, q2, k);
        lemma_index_on(q.last_avail_idx as int, k2 as int);
        assert(slots_differ(q2, u2, k2)) by {
            assert forall|m: int, n: int| 0 <= m < n < k2 implies #[trigger] slot_of(q2, u2 + m)
                != #[trigger] slot_of(q2, u2 + n) by {
                lemma_index_on(u as int, m);
                lemma_index_on(u as int, n);
                assert(slot_of(q, u + (m + 1)) != slot_of(q, u + (n + 1)));
            }
        }
        lemma_chains_used(t.dev, t.mem, base, qi, u2, k2, (fuel - 1) as nat);
        let (later, m) = drained(dev, mem, base, qi, fuel);
        lemma_gives_back_on(mem.ram, t.mem.ram, m.ram, base, q, q2, u, k);
        let x = dev.int_status;
        assert((x | 1u32) | 1u32 == x | 1u32) by (bit_vector);
    }
}

proof fn lemma_index_on(x: int, n: int)
    ensures
        ((x + 1) % 0x1_0000 + n) % 0x1_0000 == (x + (n + 1)) % 0x1_0000,
{
}

proof fn lemma_head_kept(a: Seq<u8>, b: Seq<u8>, base: u64, q: Queue, q2: Queue, n: int)
    requires
        a.len() == b.len(),
        rings_apart(a.len(), base, q),
        forall|i: int| #[trigger] driver_byte(base, q, i) ==> b[i] == a[i],
        q2 == (Queue { last_avail_idx: ((q.last_avail_idx + 1) % 0x1_0000) as u16, ..q }),
    ensures
        available_head(b, base, q2, n) == available_head(a, base, q, n + 1),
{
    lemma_index_on(q.last_avail_idx as int, n);
    let slot = slot_of(q, q.last_avail_idx + (n + 1));
    assert(slot == slot_of(q2, q2.last_avail_idx + n));
    assert(0 <= slot < q.num);
    let addr = q.avail + 4 + slot * 2;
    assert(in_ram(a.len(), base, addr, 2));
    assert forall|i: int| addr - base <= i < addr - base + 2 implies #[trigger] a[i] == b[i] by {
        assert(driver_byte(base, q, i));
    }
    lemma_value_kept(a, b, base, addr, 2);
}

proof fn lemma_table_same(ram: Seq<u8>, base: u64, q: Queue, q2: Queue, di: nat, limit: nat)
    requires
        q2.desc == q.desc,
        q2.num == q.num,
    ensures
        in_table(ram, base, q, di, limit) == in_table(ram, base, q2, di, limit),
    decreases limit,
{
    if limit > 0 {
        lemma_table_same(
            ram,
            base,
            q,
            q2,
            guest_value(ram, base, q.desc + di * 16 + 14, 2)->0,
            (limit - 1) as nat,
        );
    }
}

/// Chains are answered once each, in the order in which the driver made them
/// available: of a disk whose queue is ready with `k` available chains, whose
/// rings, table and buffers lie in RAM and do not overlap, the used index moves
/// on by `k`, and the used entry at slot `u + n` gives back the head of the `n`th
/// chain. The device has then taken all of them and raised its interrupt if there
/// was one, and processing the queue again changes nothing.
///
/// The slots that the answers go to must differ, as they do in a ring of a power
/// of two entries with no more chains than that.
pub proof fn law_chains_are_answered_in_order(
    dev: DeviceView,
    mem: Memory,
    base: u64,
    qi: int,
    u: nat,
    k: nat,
)
    requires
        dev.wf(),
        dev.backend is Block,
        0 <= qi < MAX_QUEUES,
        dev.queues[qi].ready == 1,
        k < 0x1_0000,
        rings_apart(mem.ram.len(), base, dev.queues[qi]),
        forall|n: int|
            0 <= n < k ==> #[trigger] chain_apart(mem.ram, base, dev.queues[qi], n),
        guest_value(mem.ram, base, dev.queues[qi].avail + 2, 2) == Some(
            ((dev.queues[qi].last_avail_idx + k) % 0x1_0000) as nat,
        ),
        guest_value(mem.ram, base, dev.queues[qi].used + 2, 2) == Some(u),
        slots_differ(dev.queues[qi], u, k),
    ensures
        ({
            let q = dev.queues[qi];
            let (later, m) = notified(dev, mem, base, qi);
            &&& guest_value(m.ram, base, q.used + 2, 2) == Some(((u + k) % 0x1_0000) as nat)
            &&& forall|n: int|
                0 <= n < k ==> used_head(m.ram, base, q, #[trigger] slot_of(q, u + n))
                    == available_head(mem.ram, base, q, n)
            &&& Some(later.queues[qi].last_avail_idx as nat) == guest_value(
                mem.ram,
                base,
                q.avail + 2,
                2,
            )
            &&& k > 0 ==> later.int_status != 0
            &&& k == 0 ==> later.int_status == dev.int_status
            &&& notified(later, m, base, qi) == (later, m)
        }),
{
    let q = dev.queues[qi];
    crate::bytes::lemma_byte_spans();
    crate::bytes::lemma_le_value_bound(guest_bytes(mem.ram, base, q.used + 2, 2));
    lemma_chains_used(dev, mem, base, qi, u, k, u32::MAX as nat);
    reveal(gives_back);
    let (later, m) = notified(dev, mem, base, qi);
    let x = dev.int_status;
    assert(x | 1u32 != 0) by (bit_vector);
    assert(in_ram(mem.ram.len(), base, q.avail + 2, 2));
    assert forall|i: int| q.avail + 2 - base <= i < q.avail + 2 - base + 2 implies #[trigger] m.ram[i]
        == mem.ram[i] by {
        assert(driver_byte(base, q, i));
    }
    lemma_value_kept(m.ram, mem.ram, base, q.avail + 2, 2);
    assert(next_work(m.ram, base, later.queues[qi]) is None);
}

/// In a ring of a power of two entries, no two of as many indices in a row have
/// the same slot.
pub proof fn law_slots_differ_in_a_ring(q: Queue, u: nat, k: nat)
    requires
        0 < q.num <= 256,
        0x1_0000int % (q.num as int) == 0,
        k <= q.num,
    ensures
        slots_differ(q, u, k),
{
    assert forall|m: int, n: int| 0 <= m < n < k implies #[trigger] slot_of(q, u + m)
        != #[trigger] slot_of(q, u + n) by {
        lemma_slots_differ(q, u, m, n);
    }
}

proof fn lemma_slots_differ(q: Queue, u: nat, m: int, n: int)
    requires
        0 < q.num <= 256,
        0x1_0000int % (q.num as int) == 0,
        0 <= m < n < q.num,
    ensures
        slot_of(q, u + m) != slot_of(q, u + n),
{
    let num = q.num as int;
    vstd::arithmetic::div_mod::lemma_fundamental_div_mod(0x1_0000, num);
    let times = 0x1_0000int / num;
    assert(num * times == 0x1_0000);
    vstd::arithmetic::div_mod::lemma_mod_mod(u + m, num, times);
    vstd::arithmetic::div_mod::lemma_mod_mod(u + n, num, times);
    if (u + m) % num == (u + n) % num {
        vstd::arithmetic::div_mod::lemma_fundamental_div_mod(u + m, num);
        vstd::arithmetic::div_mod::lemma_fundamental_div_mod(u + n, num);
        let a = (u + m) / num;
        let b = (u + n) / num;
        assert(n - m == num * (b - a)) by (nonlinear_arith)
            requires
                u + m == num * a + (u + m) % num,
                u + n == num * b + (u + n) % num,
                (u + m) % num == (u + n) % num,
        ;
        assert(false) by (nonlinear_arith)
            requires
                0 < n - m < num,
                n - m == num * (b - a),
        ;
    }
}

} // verus!
