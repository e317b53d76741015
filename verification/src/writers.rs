//! Reusable grouped-writing component: accumulates incoming byte chunks
//! into group-sized portions honoring a byte-ordering contract, reporting
//! row and group lifecycle events to its caller, plus a character-column
//! accumulator buffering one row of text.
use vstd::prelude::*;

use crate::byte_fmt::extend_bytes;
use crate::format::CharFormatting;
use crate::ordering::ByteOrder;
use crate::ordering::Groupping;
use crate::ordering::GroupingView;

verus! {

/// What one grouped write did with the bytes it consumed.
pub enum WriteResult {
    /// The bytes were staged in the back buffer; nothing to render yet.
    Stored(usize),
    /// A contiguous portion of row bytes is ready to render; the second
    /// field is the row-relative offset of its first byte.
    ReadyAt(Vec<u8>, usize),
}

/// A row lifecycle event reported by the grouped writer.
pub enum WriterEvent {
    /// A row begins: the caller may emit its address column.
    StartRow,
    /// Bytes were consumed; see the carried [`WriteResult`].
    Data(WriteResult),
    /// The row's last byte was consumed: the caller may close the row.
    FinishRow,
}

/// Mathematical shape of a reported event.
pub ghost enum EventView {
    StartRow,
    Stored(nat),
    Ready(Seq<u8>, nat),
    FinishRow,
}

impl View for WriterEvent {
    type V = EventView;

    open spec fn view(&self) -> EventView {
        match self {
            WriterEvent::StartRow => EventView::StartRow,
            WriterEvent::Data(WriteResult::Stored(n)) => EventView::Stored(*n as nat),
            WriterEvent::Data(WriteResult::ReadyAt(bytes, pos)) => EventView::Ready(
                bytes@,
                *pos as nat,
            ),
            WriterEvent::FinishRow => EventView::FinishRow,
        }
    }
}

/// Receiver of the grouped writer's lifecycle notifications, recording the
/// events of each write in order.
pub struct Callbacks {
    events: Vec<WriterEvent>,
}

impl Callbacks {
    /// The events recorded so far, oldest first.
    pub closed spec fn recorded(&self) -> Seq<EventView> {
        Seq::new(self.events@.len(), |i: int| self.events@[i]@)
    }

    pub fn new() -> (r: Callbacks)
        ensures
            r.recorded() == Seq::<EventView>::empty(),
    {
        let r = Callbacks { events: Vec::new() };
        proof {
            assert(r.recorded() =~= Seq::<EventView>::empty());
        }
        r
    }

    /// Read the recorded events back.
    pub fn events(&self) -> (r: &Vec<WriterEvent>)
        ensures
            r@.len() == self.recorded().len(),
            forall|i: int| 0 <= i < r@.len() ==> r@[i]@ == self.recorded()[i],
    {
        &self.events
    }

    fn record(&mut self, event: WriterEvent)
        ensures
            final(self).recorded() == old(self).recorded().push(event@),
    {
        let ghost v = event@;
        self.events.push(event);
        proof {
            assert(self.recorded() =~= old(self).recorded().push(v));
        }
    }
}

/// What a single grouped write consumes, reports and leaves staged, as a
/// function of the layout, ordering contract, the writer's position and
/// staging buffer, and the incoming chunk:
/// `(bytes consumed, events reported, bytes left staged)`.
pub open spec fn spec_write_step(
    g: GroupingView,
    order: ByteOrder,
    address: nat,
    staged: Seq<u8>,
    buf: Seq<u8>,
) -> (nat, Seq<EventView>, Seq<u8>) {
    let bir = address % g.bpr();
    let opening: Seq<EventView> = if bir == 0 {
        seq![EventView::StartRow]
    } else {
        Seq::empty()
    };
    if order == ByteOrder::Relaxed {
        let take = if buf.len() <= g.bpr() - bir {
            buf.len()
        } else {
            (g.bpr() - bir) as nat
        };
        let closing: Seq<EventView> = if bir + take == g.bpr() {
            seq![EventView::FinishRow]
        } else {
            Seq::empty()
        };
        (take, opening + seq![EventView::Ready(buf.take(take as int), bir)] + closing, staged)
    } else {
        let room = g.gsize - bir % g.gsize;
        let fill = if buf.len() <= room {
            buf.len()
        } else {
            (room as nat)
        };
        let staged1 = staged + buf.take(fill as int);
        let row_done = bir + fill == g.bpr();
        if staged1.len() == g.gsize || row_done {
            let closing: Seq<EventView> = if row_done {
                seq![EventView::FinishRow]
            } else {
                Seq::empty()
            };
            (
                fill,
                opening + seq![
                    EventView::Ready(staged1, (bir + fill - staged1.len()) as nat),
                ] + closing,
                Seq::empty(),
            )
        } else {
            (fill, opening + seq![EventView::Stored(fill)], staged1)
        }
    }
}

/// Accumulates incoming byte chunks into group-sized portions. With the
/// `Strict` ordering contract, bytes are staged in a back buffer until a
/// complete group (or the row's trailing partial group) is assembled; with
/// `Relaxed`, bytes are handed on as soon as they arrive.
pub struct GrouppedWriter {
    groupping: Groupping,
    order: ByteOrder,
    address: usize,
    back_buf: Vec<u8>,
    avail: usize,
}

impl GrouppedWriter {
    /// The writer's row layout.
    pub closed spec fn grp(&self) -> GroupingView {
        self.groupping@
    }

    /// The writer's ordering contract.
    pub closed spec fn order_spec(&self) -> ByteOrder {
        self.order
    }

    /// Total bytes consumed so far.
    pub closed spec fn address_spec(&self) -> nat {
        self.address as nat
    }

    /// The bytes currently staged for the in-progress group.
    pub closed spec fn staged(&self) -> Seq<u8> {
        self.back_buf@.take(self.avail as int)
    }

    /// The size of the staging buffer.
    pub closed spec fn buf_len(&self) -> nat {
        self.back_buf@.len()
    }

    /// How many bytes are staged.
    pub closed spec fn staged_count(&self) -> nat {
        self.avail as nat
    }

    /// The staging buffer holds less than one group, exactly the bytes of
    /// the in-progress group, and stays empty under the `Relaxed` contract.
    pub open spec fn wf(&self) -> bool {
        &&& self.grp().wf()
        &&& self.staged().len() < self.grp().gsize
        &&& self.staged().len() == self.staged_count()
        &&& if self.order_spec() == ByteOrder::Strict {
            self.buf_len() == self.grp().gsize && self.staged().len() == self.address_spec()
                % self.grp().bpr() % self.grp().gsize
        } else {
            self.staged().len() == 0
        }
    }

    pub fn new(groupping: Groupping, order: ByteOrder) -> (r: GrouppedWriter)
        requires
            groupping@.wf(),
        ensures
            r.wf(),
            r.grp() == groupping@,
            r.order_spec() == order,
            r.address_spec() == 0,
            r.staged() == Seq::<u8>::empty(),
    {
        let buf_size = match order {
            ByteOrder::Strict => groupping.max_group_size(),
            ByteOrder::Relaxed => 0,
        };
        let mut back_buf: Vec<u8> = Vec::new();
        while back_buf.len() < buf_size
            invariant
                back_buf@.len() <= buf_size,
            decreases buf_size - back_buf@.len(),
        {
            back_buf.push(0);
        }
        let r = GrouppedWriter { groupping, order, address: 0, back_buf, avail: 0 };
        proof {
            crate::streamer::lemma_row_multiple(groupping@.gsize, groupping@.count);
            assert(r.staged() =~= Seq::<u8>::empty());
            assert(0nat % r.grp().bpr() == 0);
            assert(0nat % r.grp().gsize == 0);
        }
        r
    }

    /// Consume a prefix of `buf`, reporting lifecycle events; returns how
    /// many bytes were consumed (the caller loops until its chunk is
    /// exhausted).
    #[verifier::rlimit(60)]
    pub fn write(&mut self, buf: &[u8], callbacks: &mut Callbacks) -> (consumed: usize)
        requires
            old(self).wf(),
            buf@.len() >= 1,
            old(self).address_spec() + buf@.len() <= usize::MAX,
        ensures
            final(self).wf(),
            final(self).grp() == old(self).grp(),
            final(self).order_spec() == old(self).order_spec(),
            ({
                let stepped = spec_write_step(
                    old(self).grp(),
                    old(self).order_spec(),
                    old(self).address_spec(),
                    old(self).staged(),
                    buf@,
                );
                &&& consumed == stepped.0
                &&& 1 <= consumed <= buf@.len()
                &&& final(callbacks).recorded() == old(callbacks).recorded() + stepped.1
                &&& final(self).staged() == stepped.2
                &&& final(self).address_spec() == old(self).address_spec() + consumed
            }),
    {
        let ghost g = self.grp();
        let ghost staged0 = self.staged();
        let ghost events0 = callbacks.recorded();
        proof {
            crate::streamer::lemma_row_multiple(g.gsize, g.count);
            vstd::arithmetic::div_mod::lemma_mod_bound(self.address as int, g.bpr() as int);
            vstd::arithmetic::div_mod::lemma_mod_bound(
                (self.address as int % g.bpr() as int),
                g.gsize as int,
            );
            vstd::arithmetic::div_mod::lemma_mod_decreases(
                (self.address as nat % g.bpr()),
                g.gsize,
            );
        }
        let gr = &self.groupping;
        let bpr = gr.bytes_per_row();
        let byte_in_row = self.address % bpr;

        if byte_in_row == 0 {
            callbacks.record(WriterEvent::StartRow);
        }
        let ghost opened = callbacks.recorded();

        match self.order {
            ByteOrder::Relaxed => {
                let room = bpr - byte_in_row;
                let to_read = if buf.len() <= room {
                    buf.len()
                } else {
                    room
                };
                let portion = vstd::slice::slice_to_vec(
                    vstd::slice::slice_subrange(buf, 0, to_read),
                );
                callbacks.record(WriterEvent::Data(WriteResult::ReadyAt(portion, byte_in_row)));
                if bpr - byte_in_row == to_read {
                    callbacks.record(WriterEvent::FinishRow);
                    proof {
                        assert(callbacks.recorded() =~= events0 + spec_write_step(
                            g,
                            ByteOrder::Relaxed,
                            old(self).address_spec(),
                            staged0,
                            buf@,
                        ).1);
                    }
                } else {
                    proof {
                        assert(callbacks.recorded() =~= events0 + spec_write_step(
                            g,
                            ByteOrder::Relaxed,
                            old(self).address_spec(),
                            staged0,
                            buf@,
                        ).1);
                    }
                }
                self.address = self.address + to_read;
                to_read
            },
            ByteOrder::Strict => {
                proof {
                    lemma_group_fits(g, old(self).address_spec() % g.bpr());
                }
                let avail0 = self.avail;
                let byte_in_group = byte_in_row % gr.max_group_size();
                let room = gr.max_group_size() - byte_in_group;
                let fill = if buf.len() <= room {
                    buf.len()
                } else {
                    room
                };
                let mut j: usize = 0;
                while j < fill
                    invariant
                        j <= fill,
                        fill <= buf@.len(),
                        self.avail + fill <= self.back_buf@.len(),
                        self.groupping == old(self).groupping,
                        self.order == old(self).order,
                        self.address == old(self).address,
                        self.avail == old(self).avail,
                        self.back_buf@.len() == old(self).back_buf@.len(),
                        self.avail + fill <= usize::MAX,
                        self.back_buf@.take(self.avail + j) =~= staged0 + buf@.take(j as int),
                    decreases fill - j,
                {
                    self.back_buf.set(self.avail + j, buf[j]);
                    proof {
                        assert(self.back_buf@.take(self.avail + j) =~= staged0 + buf@.take(
                            j as int,
                        ));
                        assert(self.back_buf@.take(self.avail + j + 1) =~= staged0 + buf@.take(
                            j + 1 as int,
                        ));
                    }
                    j = j + 1;
                }
                let ghost staged1 = staged0 + buf@.take(fill as int);
                self.avail = self.avail + fill;
                proof {
                    assert(self.back_buf@.take(self.avail as int) == staged1);
                }

                let is_row_finished = bpr - byte_in_row == fill;
                if self.avail == gr.max_group_size() || is_row_finished {
                    let flushed = vstd::slice::slice_to_vec(
                        vstd::slice::slice_subrange(self.back_buf.as_slice(), 0, self.avail),
                    );
                    let start = byte_in_row - avail0;
                    callbacks.record(WriterEvent::Data(WriteResult::ReadyAt(flushed, start)));
                    if is_row_finished {
                        callbacks.record(WriterEvent::FinishRow);
                    }
                    self.avail = 0;
                    proof {
                        assert(callbacks.recorded() =~= events0 + spec_write_step(
                            g,
                            ByteOrder::Strict,
                            old(self).address_spec(),
                            staged0,
                            buf@,
                        ).1);
                        assert(self.staged() =~= Seq::<u8>::empty());
                    }
                } else {
                    callbacks.record(WriterEvent::Data(WriteResult::Stored(fill)));
                    proof {
                        assert(callbacks.recorded() =~= events0 + spec_write_step(
                            g,
                            ByteOrder::Strict,
                            old(self).address_spec(),
                            staged0,
                            buf@,
                        ).1);
                    }
                }
                self.address = self.address + fill;
                proof {
                    lemma_row_position_step(g, old(self).address_spec(), fill as nat);
                }
                fill
            },
        }
    }
}

/// How the row-relative position and its in-group part move when `k` bytes
/// are consumed without crossing a group boundary, or exactly reaching one.
proof fn lemma_row_position_step(g: GroupingView, address: nat, k: nat)
    requires
        g.wf(),
        g.bpr() % g.gsize == 0,
        address % g.bpr() + k <= g.bpr(),
        address % g.bpr() % g.gsize + k <= g.gsize,
    ensures
        address % g.bpr() + k < g.bpr() ==> (address + k) % g.bpr() == address % g.bpr() + k,
        address % g.bpr() + k == g.bpr() ==> (address + k) % g.bpr() == 0,
        address % g.bpr() % g.gsize + k < g.gsize ==> (address + k) % g.bpr() % g.gsize == address
            % g.bpr() % g.gsize + k,
        address % g.bpr() % g.gsize + k == g.gsize ==> (address + k) % g.bpr() % g.gsize == 0,
{
    let bpr = g.bpr();
    let gs = g.gsize;
    crate::streamer::lemma_row_multiple(g.gsize, g.count);
    vstd::arithmetic::div_mod::lemma_fundamental_div_mod(address as int, bpr as int);
    vstd::arithmetic::div_mod::lemma_mod_bound(address as int, bpr as int);
    let q = address as int / bpr as int;
    let r = address as int % bpr as int;
    if r + k < bpr {
        crate::streamer::lemma_mod_from_parts((address + k) as int, bpr as int, q, r + k);
    } else if r + k == bpr {
        vstd::arithmetic::mul::lemma_mul_is_distributive_add(bpr as int, q, 1);
        crate::streamer::lemma_mod_from_parts((address + k) as int, bpr as int, q + 1, 0);
        assert(0nat % gs == 0);
        vstd::arithmetic::mul::lemma_mul_is_distributive_add(
            gs as int,
            g.count as int - 1,
            1,
        );
        crate::streamer::lemma_mod_from_parts(r, gs as int, g.count as int - 1, gs as int - k);
    }
    if r + k < bpr {
        vstd::arithmetic::div_mod::lemma_fundamental_div_mod(r, gs as int);
        vstd::arithmetic::div_mod::lemma_mod_bound(r, gs as int);
        let q2 = r / gs as int;
        let r2 = r % gs as int;
        if r2 + k < gs {
            crate::streamer::lemma_mod_from_parts(r + k, gs as int, q2, r2 + k);
        } else if r2 + k == gs {
            vstd::arithmetic::mul::lemma_mul_is_distributive_add(gs as int, q2, 1);
            crate::streamer::lemma_mod_from_parts(r + k, gs as int, q2 + 1, 0);
        }
    }
}

/// A group whose first byte lies inside the row also ends inside it: from
/// any row position, the rest of the current group still fits in the row.
proof fn lemma_group_fits(g: GroupingView, bir: nat)
    requires
        g.wf(),
        bir < g.bpr(),
    ensures
        bir + (g.gsize - bir % g.gsize) <= g.bpr(),
{
    let gs = g.gsize;
    crate::streamer::lemma_row_multiple(gs, g.count);
    vstd::arithmetic::div_mod::lemma_fundamental_div_mod(bir as int, gs as int);
    vstd::arithmetic::div_mod::lemma_mod_bound(bir as int, gs as int);
    let q = bir as int / gs as int;
    assert(gs as int * q < gs as int * g.count as int);
    vstd::arithmetic::mul::lemma_mul_strict_inequality_converse(q, g.count as int, gs as int);
    vstd::arithmetic::mul::lemma_mul_inequality(q + 1, g.count as int, gs as int);
    vstd::arithmetic::mul::lemma_mul_is_distributive_add(gs as int, q, 1);
    vstd::arithmetic::mul::lemma_mul_is_commutative(gs as int, q + 1);
    vstd::arithmetic::mul::lemma_mul_is_commutative(gs as int, g.count as int);
}

/// Buffers the character column of one row, rendering incoming bytes with
/// the supplied character formatter and padding to the full row width when
/// the row is taken.
pub struct TextWriter<C: CharFormatting> {
    fmt: C,
    result: Vec<u8>,
    avail: usize,
    max_bytes: usize,
}

impl<C: CharFormatting> TextWriter<C> {
    /// The formatter rendering the column.
    pub closed spec fn fmt_spec(&self) -> C {
        self.fmt
    }

    /// The rendered text accumulated for the current row.
    pub closed spec fn result_spec(&self) -> Seq<u8> {
        self.result@
    }

    /// How many bytes of the current row have been rendered.
    pub closed spec fn avail_spec(&self) -> nat {
        self.avail as nat
    }

    /// The row width the column is padded to.
    pub closed spec fn max_bytes_spec(&self) -> nat {
        self.max_bytes as nat
    }

    pub fn new(fmt: C, max_bytes: usize) -> (r: TextWriter<C>)
        ensures
            r.fmt_spec() == fmt,
            r.result_spec() == Seq::<u8>::empty(),
            r.avail_spec() == 0,
            r.max_bytes_spec() == max_bytes as nat,
    {
        TextWriter { fmt, result: Vec::new(), avail: 0, max_bytes }
    }

    /// Render `bytes` into the column. Handing a row more bytes than its
    /// width is a caller error, excluded by precondition.
    pub fn write(&mut self, bytes: &[u8]) -> (r: usize)
        requires
            old(self).avail_spec() + bytes@.len() <= old(self).max_bytes_spec(),
        ensures
            final(self).fmt_spec() == old(self).fmt_spec(),
            final(self).max_bytes_spec() == old(self).max_bytes_spec(),
            final(self).avail_spec() == old(self).avail_spec() + bytes@.len(),
            final(self).result_spec() == old(self).result_spec() + old(self).fmt_spec().char_text(
                bytes@,
            ),
            r == bytes@.len(),
    {
        self.avail = self.avail + bytes.len();
        let text = self.fmt.format(bytes);
        extend_bytes(&mut self.result, text.as_slice());
        bytes.len()
    }

    /// Take the finished column: the accumulated text padded to the full
    /// row width; the writer resets for the next row.
    pub fn take_result(&mut self) -> (r: Vec<u8>)
        requires
            old(self).avail_spec() <= old(self).max_bytes_spec(),
        ensures
            final(self).fmt_spec() == old(self).fmt_spec(),
            final(self).max_bytes_spec() == old(self).max_bytes_spec(),
            final(self).avail_spec() == 0,
            final(self).result_spec() == Seq::<u8>::empty(),
            r@ == old(self).result_spec() + old(self).fmt_spec().pad_text(
                old(self).max_bytes_spec() - old(self).avail_spec(),
            ),
    {
        let tail = self.fmt.format_padding(self.max_bytes - self.avail);
        let mut result = crate::ordering::clone_bytes(&self.result);
        extend_bytes(&mut result, tail.as_slice());
        self.result = Vec::new();
        self.avail = 0;
        result
    }

    /// Does the current row hold any rendered bytes yet?
    pub fn has_data(&self) -> (r: bool)
        ensures
            r == (self.avail_spec() > 0),
    {
        self.avail > 0
    }
}

} // verus!
