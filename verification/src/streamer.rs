//! Incremental row-assembly engine: converts pushed byte chunks into
//! formatted output rows, tracking the running address, buffering the current
//! row, and collapsing runs of duplicate rows behind a wildcard line.
//!
//! The engine's behaviour is pinned by a byte-at-a-time abstract machine:
//! `spec_step` gives the state transition and emitted text for a single
//! pushed byte, `spec_run` folds it over a chunk, and `spec_tail` gives the
//! finalization text. Every push advances the machine by exactly the pushed
//! bytes, so the formatted output depends only on the concatenation of all
//! pushed chunks, never on how they were sliced.
use vstd::prelude::*;

use crate::byte_fmt::extend_bytes;
use crate::format::AddressFormatting;
use crate::format::ByteFormatting;
use crate::format::CharFormatting;

verus! {

/// Deduplication state of the row currently being assembled.
#[derive(Clone, Copy, PartialEq, Eq, Structural)]
pub enum RowState {
    /// The row, once assembled, will be printed normally.
    CanWrite,
    /// The row so far duplicates the previous row; on completion a wildcard
    /// line is printed in its place.
    NeedsPlaceholder,
    /// The wildcard was already printed for this run of duplicates; further
    /// duplicate rows are dropped silently.
    Skipped,
}

/// The formatters and switches of one formatting session; fixed at
/// construction.
pub ghost struct SessionView<A, B, C> {
    pub addr: Option<A>,
    pub byte: B,
    pub text: Option<C>,
    pub dedup: bool,
    pub offset: nat,
}

/// The mutable state of one formatting session.
pub ghost struct StreamModel {
    /// Bytes already handed to the byte formatter (monotonic).
    pub total_written: nat,
    /// How many bytes of `cache` belong to the row being assembled.
    pub available: nat,
    /// The current row's bytes; for a partially matched duplicate row the
    /// untouched suffix still holds the previous row's equal bytes.
    pub cache: Seq<u8>,
    pub row_state: RowState,
}

/// The address column written before a row at stream position `tw`:
/// the address formatter's decoration around the formatted address.
pub open spec fn spec_addr_part<A: AddressFormatting>(a: Option<A>, offset: nat, tw: nat) -> Seq<
    u8,
> {
    match a {
        Some(f) => f.trail() + f.addr_text(((tw + offset) as usize)) + f.lead(),
        None => Seq::empty(),
    }
}

/// Everything written when a row opens: the address column, then the byte
/// column's opening decoration.
pub open spec fn spec_row_open<A: AddressFormatting, B: ByteFormatting>(
    a: Option<A>,
    b: B,
    offset: nat,
    tw: nat,
) -> Seq<u8> {
    spec_addr_part(a, offset, tw) + b.trail()
}

/// The byte column text for `cache[from..to)`, rendered group by group;
/// `from` must lie on a group boundary for this to describe the engine.
pub open spec fn spec_groups_text<B: ByteFormatting>(
    b: B,
    cache: Seq<u8>,
    from: int,
    to: int,
) -> Seq<u8>
    decreases to - from,
{
    if from >= to || b.grp().gsize < 1 {
        Seq::empty()
    } else {
        let gs = b.grp().gsize as int;
        let end = if from + gs <= to {
            from + gs
        } else {
            to
        };
        b.byte_text(cache.subrange(from, end), from) + spec_groups_text(b, cache, end, to)
    }
}

/// The character column for a row holding `avail` real bytes: its decoration
/// around the rendered bytes plus padding to the full row width.
pub open spec fn spec_text_part<B: ByteFormatting, C: CharFormatting>(
    b: B,
    c: Option<C>,
    cache: Seq<u8>,
    avail: nat,
) -> Seq<u8> {
    match c {
        Some(f) => f.trail() + f.char_text(cache.take(avail as int)) + f.pad_text(
            b.grp().bpr() - avail,
        ) + f.lead(),
        None => Seq::empty(),
    }
}

/// Everything written when a row closes, by deduplication state: a normally
/// written row gets byte-column padding, the byte column's closing
/// decoration, the character column and a newline; the first duplicate gets
/// the wildcard line; further duplicates get nothing.
pub open spec fn spec_row_close<B: ByteFormatting, C: CharFormatting>(
    b: B,
    c: Option<C>,
    cache: Seq<u8>,
    avail: nat,
    rs: RowState,
) -> Seq<u8> {
    match rs {
        RowState::CanWrite => b.pad_text(avail as int) + b.lead() + spec_text_part(
            b,
            c,
            cache,
            avail,
        ) + seq![0x0au8],
        RowState::NeedsPlaceholder => seq![0x2au8, 0x0au8],
        RowState::Skipped => Seq::empty(),
    }
}

/// One pushed byte, deduplication off: the byte is cached; opening a fresh
/// row writes the address, a completed group is formatted at its row offset,
/// and a completed row closes normally.
pub open spec fn spec_step_plain<A: AddressFormatting, B: ByteFormatting, C: CharFormatting>(
    s: SessionView<A, B, C>,
    m: StreamModel,
    byte: u8,
) -> (StreamModel, Seq<u8>) {
    let g = s.byte.grp();
    let open_t = if m.available == 0 {
        spec_row_open(s.addr, s.byte, s.offset, m.total_written)
    } else {
        Seq::empty()
    };
    let cache1 = m.cache.update(m.available as int, byte);
    let avail1 = (m.available + 1) as nat;
    let group_done = avail1 % g.gsize == 0;
    let group_t = if group_done {
        s.byte.byte_text(
            cache1.subrange(avail1 - g.gsize, avail1 as int),
            (avail1 - g.gsize) as int,
        )
    } else {
        Seq::empty()
    };
    let tw1 = if group_done {
        (m.total_written + g.gsize) as nat
    } else {
        m.total_written
    };
    if avail1 == g.bpr() {
        (
            StreamModel {
                total_written: tw1,
                available: 0,
                cache: cache1,
                row_state: m.row_state,
            },
            open_t + group_t + spec_row_close(s.byte, s.text, cache1, avail1, m.row_state),
        )
    } else {
        (
            StreamModel {
                total_written: tw1,
                available: avail1,
                cache: cache1,
                row_state: m.row_state,
            },
            open_t + group_t,
        )
    }
}

/// One pushed byte, deduplication on. A fresh row starts as a duplicate
/// candidate; the first row of the stream, or any byte differing from the
/// cached previous row, commits the whole row to a real write. Output is
/// emitted only when the row completes: a committed row writes its address,
/// all its groups and a normal close; the first suppressed duplicate writes
/// the wildcard line; later ones write nothing.
pub open spec fn spec_step_dedup<A: AddressFormatting, B: ByteFormatting, C: CharFormatting>(
    s: SessionView<A, B, C>,
    m: StreamModel,
    byte: u8,
) -> (StreamModel, Seq<u8>) {
    let g = s.byte.grp();
    let rs0 = if m.available == 0 && m.row_state == RowState::CanWrite {
        RowState::NeedsPlaceholder
    } else {
        m.row_state
    };
    let fresh = m.total_written < g.bpr();
    let mismatch = fresh || byte != m.cache[m.available as int];
    let rs1 = if mismatch {
        RowState::CanWrite
    } else {
        rs0
    };
    let cache1 = m.cache.update(m.available as int, byte);
    let avail1 = (m.available + 1) as nat;
    if avail1 == g.bpr() {
        let out = if rs1 == RowState::CanWrite {
            spec_row_open(s.addr, s.byte, s.offset, m.total_written) + spec_groups_text(
                s.byte,
                cache1,
                0,
                g.bpr() as int,
            ) + spec_row_close(s.byte, s.text, cache1, avail1, RowState::CanWrite)
        } else {
            spec_row_close(s.byte, s.text, cache1, avail1, rs1)
        };
        let rs2 = if rs1 == RowState::CanWrite {
            RowState::CanWrite
        } else {
            RowState::Skipped
        };
        (
            StreamModel {
                total_written: (m.total_written + g.bpr()) as nat,
                available: 0,
                cache: cache1,
                row_state: rs2,
            },
            out,
        )
    } else {
        (
            StreamModel {
                total_written: m.total_written,
                available: avail1,
                cache: cache1,
                row_state: rs1,
            },
            Seq::empty(),
        )
    }
}

/// One pushed byte.
pub open spec fn spec_step<A: AddressFormatting, B: ByteFormatting, C: CharFormatting>(
    s: SessionView<A, B, C>,
    m: StreamModel,
    byte: u8,
) -> (StreamModel, Seq<u8>) {
    if s.dedup {
        spec_step_dedup(s, m, byte)
    } else {
        spec_step_plain(s, m, byte)
    }
}

/// A whole pushed chunk: the single-byte machine folded over it, with the
/// emitted texts concatenated in order.
pub open spec fn spec_run<A: AddressFormatting, B: ByteFormatting, C: CharFormatting>(
    s: SessionView<A, B, C>,
    m: StreamModel,
    input: Seq<u8>,
) -> (StreamModel, Seq<u8>)
    decreases input.len(),
{
    if input.len() == 0 {
        (m, Seq::empty())
    } else {
        let stepped = spec_step(s, m, input.first());
        let rest = spec_run(s, stepped.0, input.drop_first());
        (rest.0, stepped.1 + rest.1)
    }
}

/// Everything finalization writes. With deduplication on, the current
/// address is always written first, so a suppressed trailing run still shows
/// where it ends. A pending partial row is formatted at its row offset,
/// closed by its deduplication state, and followed by the final address and
/// a newline.
pub open spec fn spec_tail<A: AddressFormatting, B: ByteFormatting, C: CharFormatting>(
    s: SessionView<A, B, C>,
    m: StreamModel,
) -> Seq<u8> {
    let g = s.byte.grp();
    let pre = if s.dedup {
        spec_addr_part(s.addr, s.offset, m.total_written)
    } else {
        Seq::empty()
    };
    if m.available == 0 {
        pre + seq![0x0au8]
    } else {
        let wir = m.total_written % g.bpr();
        pre + spec_groups_text(s.byte, m.cache, wir as int, m.available as int) + spec_row_close(
            s.byte,
            s.text,
            m.cache,
            m.available,
            m.row_state,
        ) + spec_addr_part(s.addr, s.offset, (m.total_written + (m.available - wir)) as nat)
            + seq![0x0au8]
    }
}

/// Total bytes the session has consumed so far, reconstructed from its
/// state: the formatted bytes plus the cached bytes not yet counted by
/// `total_written`.
pub open spec fn spec_consumed<A: AddressFormatting, B: ByteFormatting, C: CharFormatting>(
    s: SessionView<A, B, C>,
    m: StreamModel,
) -> nat {
    if s.dedup {
        (m.total_written + m.available) as nat
    } else {
        (m.total_written + m.available % s.byte.grp().gsize) as nat
    }
}

/// The remainder and quotient of `x` by `d`, given its decomposition.
pub proof fn lemma_mod_from_parts(x: int, d: int, q: int, r: int)
    requires
        d >= 1,
        0 <= r < d,
        x == d * q + r,
    ensures
        x % d == r,
        x / d == q,
{
    vstd::arithmetic::mul::lemma_mul_is_commutative(d, q);
    vstd::arithmetic::div_mod::lemma_fundamental_div_mod_converse(x, d, q, r);
}

/// Stepping a counter by one: its remainder modulo `g` either steps by one
/// or wraps to zero at the group boundary.
pub proof fn lemma_mod_succ(a: nat, g: nat)
    requires
        g >= 1,
    ensures
        a % g + 1 == g ==> (a + 1) % g == 0,
        a % g + 1 != g ==> (a + 1) % g == a % g + 1,
{
    vstd::arithmetic::div_mod::lemma_fundamental_div_mod(a as int, g as int);
    vstd::arithmetic::div_mod::lemma_mod_bound(a as int, g as int);
    let q = a as int / g as int;
    let r = a as int % g as int;
    if r + 1 == g {
        vstd::arithmetic::mul::lemma_mul_is_distributive_add(g as int, q, 1);
        lemma_mod_from_parts(a as int + 1, g as int, q + 1, 0);
    } else {
        lemma_mod_from_parts(a as int + 1, g as int, q, r + 1);
    }
}

/// Adding the modulus to a multiple of it keeps it a multiple.
pub proof fn lemma_mod_add_self(a: nat, g: nat)
    requires
        g >= 1,
        a % g == 0,
    ensures
        (a + g) % g == 0,
{
    vstd::arithmetic::div_mod::lemma_fundamental_div_mod(a as int, g as int);
    let q = a as int / g as int;
    vstd::arithmetic::mul::lemma_mul_is_distributive_add(g as int, q, 1);
    lemma_mod_from_parts(a as int + g, g as int, q + 1, 0);
}

/// Rewriting a counter whose remainder is known: `a == g*(a/g) + r` lets the
/// remainder after adding `k` be computed when `r + k` stays below `g`.
pub proof fn lemma_mod_shift(a: nat, g: nat, k: nat)
    requires
        g >= 1,
        a % g + k < g,
    ensures
        (a + k) % g == a % g + k,
{
    vstd::arithmetic::div_mod::lemma_fundamental_div_mod(a as int, g as int);
    vstd::arithmetic::div_mod::lemma_mod_bound(a as int, g as int);
    lemma_mod_from_parts(
        a as int + k,
        g as int,
        a as int / g as int,
        a as int % g as int + k,
    );
}

/// A whole row of groups is a multiple of the group size.
pub proof fn lemma_row_multiple(gsize: nat, count: nat)
    requires
        gsize >= 1,
        count >= 1,
    ensures
        (gsize * count) % gsize == 0,
        gsize * count >= gsize,
{
    lemma_mod_from_parts((gsize * count) as int, gsize as int, count as int, 0);
    vstd::arithmetic::mul::lemma_mul_ordering(gsize as int, count as int);
}

/// Running the machine over `input` and then one more byte is the same as
/// running it over `input.push(b)`: the machine is a fold.
pub proof fn lemma_run_snoc<A: AddressFormatting, B: ByteFormatting, C: CharFormatting>(
    s: SessionView<A, B, C>,
    m: StreamModel,
    input: Seq<u8>,
    b: u8,
)
    ensures
        ({
            let prev = spec_run(s, m, input);
            let stepped = spec_step(s, prev.0, b);
            spec_run(s, m, input.push(b)) == (stepped.0, prev.1 + stepped.1)
        }),
    decreases input.len(),
{
    let pushed = input.push(b);
    if input.len() == 0 {
        let stepped = spec_step(s, m, b);
        assert(pushed.first() == b);
        assert(pushed.drop_first() =~= Seq::<u8>::empty());
        assert(spec_run(s, m, input) == (m, Seq::<u8>::empty()));
        assert(spec_run(s, stepped.0, pushed.drop_first()) == (stepped.0, Seq::<u8>::empty()));
        assert(spec_run(s, m, pushed) == (stepped.0, stepped.1 + Seq::<u8>::empty()));
        crate::seq_facts::concat_empty_right(stepped.1);
        crate::seq_facts::concat_empty_left(stepped.1);
    } else {
        assert(pushed.first() == input.first());
        assert(pushed.drop_first() =~= input.drop_first().push(b));
        let first_step = spec_step(s, m, input.first());
        let m1 = first_step.0;
        let rest = input.drop_first();
        lemma_run_snoc(s, m1, rest, b);
        assert(spec_run(s, m, input) == (
            spec_run(s, m1, rest).0,
            first_step.1 + spec_run(s, m1, rest).1,
        ));
        assert(spec_run(s, m, pushed) == (
            spec_run(s, m1, rest.push(b)).0,
            first_step.1 + spec_run(s, m1, rest.push(b)).1,
        ));
        crate::seq_facts::concat_assoc(
            first_step.1,
            spec_run(s, m1, rest).1,
            spec_step(s, spec_run(s, m1, rest).0, b).1,
        );
    }
}

/// Streaming engine state; owned by a `Printer`.
pub struct Streamer<A: AddressFormatting, B: ByteFormatting, C: CharFormatting> {
    addr_fmt: Option<A>,
    byte_fmt: B,
    char_fmt: Option<C>,
    total_written: usize,
    printable_offset: usize,
    cache: Vec<u8>,
    available: usize,
    dedup_enabled: bool,
    row_state: RowState,
}

impl<A: AddressFormatting, B: ByteFormatting, C: CharFormatting> Streamer<A, B, C> {
    /// The session's fixed formatters and switches.
    pub closed spec fn sess(&self) -> SessionView<A, B, C> {
        SessionView {
            addr: self.addr_fmt,
            byte: self.byte_fmt,
            text: self.char_fmt,
            dedup: self.dedup_enabled,
            offset: self.printable_offset as nat,
        }
    }

    /// The session's mutable state.
    pub closed spec fn model(&self) -> StreamModel {
        StreamModel {
            total_written: self.total_written as nat,
            available: self.available as nat,
            cache: self.cache@,
            row_state: self.row_state,
        }
    }

    /// Well-formedness: the row layout is usable, the row cache spans
    /// exactly one row, the row in progress is incomplete, and the byte
    /// counter agrees with the cache fill. With deduplication the counter
    /// counts whole rows; without it, it counts the formatted groups of
    /// every started row, so its row-relative part lies on a group boundary.
    pub open spec fn wf(&self) -> bool {
        let g = self.sess().byte.grp();
        let m = self.model();
        &&& g.wf()
        &&& m.cache.len() == g.bpr()
        &&& m.available < g.bpr()
        &&& if self.sess().dedup {
            m.total_written % g.bpr() == 0
        } else {
            m.row_state == RowState::CanWrite && m.total_written % g.bpr() == m.available
                - m.available % g.gsize
        }
    }

    /// Create an engine for one formatting session.
    ///
    /// `printable_offset` - address reported for the first pushed byte.
    #[verifier::loop_isolation(false)]
    pub fn new(
        addr_fmt: Option<A>,
        byte_fmt: B,
        char_fmt: Option<C>,
        printable_offset: usize,
        dedup_enabled: bool,
    ) -> (r: Streamer<A, B, C>)
        requires
            byte_fmt.grp().wf(),
        ensures
            r.wf(),
            r.sess() == (SessionView {
                addr: addr_fmt,
                byte: byte_fmt,
                text: char_fmt,
                dedup: dedup_enabled,
                offset: printable_offset as nat,
            }),
            r.model() == (StreamModel {
                total_written: 0 as nat,
                available: 0 as nat,
                cache: Seq::new(byte_fmt.grp().bpr(), |i: int| 0u8),
                row_state: RowState::CanWrite,
            }),
    {
        proof {
            assert(byte_fmt.grp().bpr() >= 1) by (nonlinear_arith)
                requires
                    byte_fmt.grp().gsize >= 1,
                    byte_fmt.grp().count >= 1,
            ;
            assert(0nat % byte_fmt.grp().bpr() == 0);
            assert(0nat % byte_fmt.grp().gsize == 0);
        }
        let bpr = byte_fmt.groupping().bytes_per_row();
        let mut cache: Vec<u8> = Vec::new();
        while cache.len() < bpr
            invariant
                cache@.len() <= bpr,
                cache@ == Seq::new(cache@.len(), |i: int| 0u8),
            decreases bpr - cache@.len(),
        {
            cache.push(0);
            proof {
                assert(cache@ =~= Seq::new(cache@.len(), |i: int| 0u8));
            }
        }
        proof {
            assert(cache@ =~= Seq::new(byte_fmt.grp().bpr(), |i: int| 0u8));
        }
        Streamer {
            addr_fmt,
            byte_fmt,
            char_fmt,
            total_written: 0,
            printable_offset,
            cache,
            available: 0,
            dedup_enabled,
            row_state: RowState::CanWrite,
        }
    }

    /// Write the address column for the current stream position.
    fn write_current_offset(&self, out: &mut Vec<u8>)
        requires
            self.model().total_written + self.sess().offset <= usize::MAX,
        ensures
            final(out)@ == old(out)@ + spec_addr_part(
                self.sess().addr,
                self.sess().offset,
                self.model().total_written,
            ),
    {
        broadcast use crate::seq_facts::group_concat;

        match &self.addr_fmt {
            Some(fmt) => {
                let seps = fmt.separators();
                extend_bytes(out, seps.trailing.as_slice());
                let text = fmt.format(self.total_written + self.printable_offset);
                extend_bytes(out, text.as_slice());
                let seps = fmt.separators();
                extend_bytes(out, seps.leading.as_slice());
            },
            None => {
                proof {
                    crate::seq_facts::concat_empty_right(old(out)@);
                }
            },
        }
    }

    /// Open a row: address column, then the byte column's opening
    /// decoration.
    fn start_row(&self, out: &mut Vec<u8>)
        requires
            self.model().total_written + self.sess().offset <= usize::MAX,
        ensures
            final(out)@ == old(out)@ + spec_row_open(
                self.sess().addr,
                self.sess().byte,
                self.sess().offset,
                self.model().total_written,
            ),
    {
        broadcast use crate::seq_facts::group_concat;

        self.write_current_offset(out);
        let seps = self.byte_fmt.separators();
        extend_bytes(out, seps.trailing.as_slice());
    }

    /// Write the character column for the current row.
    fn write_text(&self, out: &mut Vec<u8>)
        requires
            self.sess().byte.grp().wf(),
            self.model().available <= self.model().cache.len(),
            self.model().cache.len() == self.sess().byte.grp().bpr(),
        ensures
            final(out)@ == old(out)@ + spec_text_part(
                self.sess().byte,
                self.sess().text,
                self.model().cache,
                self.model().available,
            ),
    {
        broadcast use crate::seq_facts::group_concat;

        match &self.char_fmt {
            Some(fmt) => {
                let seps = fmt.separators();
                extend_bytes(out, seps.trailing.as_slice());
                let part = vstd::slice::slice_subrange(self.cache.as_slice(), 0, self.available);
                proof {
                    assert(part@ =~= self.model().cache.take(self.model().available as int));
                }
                let text = fmt.format(part);
                extend_bytes(out, text.as_slice());
                let tail_len = self.byte_fmt.groupping().bytes_per_row() - self.available;
                let pad = fmt.format_padding(tail_len);
                extend_bytes(out, pad.as_slice());
                let seps = fmt.separators();
                extend_bytes(out, seps.leading.as_slice());
            },
            None => {
                proof {
                    crate::seq_facts::concat_empty_right(old(out)@);
                }
            },
        }
    }

    /// Close the row per its deduplication state and reset the row fill.
    fn finish_row(&mut self, out: &mut Vec<u8>)
        requires
            old(self).sess().byte.grp().wf(),
            old(self).model().available <= old(self).model().cache.len(),
            old(self).model().cache.len() == old(self).sess().byte.grp().bpr(),
        ensures
            final(out)@ == old(out)@ + spec_row_close(
                old(self).sess().byte,
                old(self).sess().text,
                old(self).model().cache,
                old(self).model().available,
                old(self).model().row_state,
            ),
            final(self).sess() == old(self).sess(),
            final(self).model() == (StreamModel {
                available: 0 as nat,
                row_state: match old(self).model().row_state {
                    RowState::CanWrite => RowState::CanWrite,
                    _ => RowState::Skipped,
                },
                ..old(self).model()
            }),
    {
        broadcast use crate::seq_facts::group_concat;

        match self.row_state {
            RowState::CanWrite => {
                let text = self.byte_fmt.format_padding(self.available);
                extend_bytes(out, text.as_slice());
                let seps = self.byte_fmt.separators();
                extend_bytes(out, seps.leading.as_slice());
                self.write_text(out);
                out.push(0x0a);
                proof {
                    assert(out@ =~= old(out)@ + spec_row_close(
                        old(self).sess().byte,
                        old(self).sess().text,
                        old(self).model().cache,
                        old(self).model().available,
                        old(self).model().row_state,
                    ));
                }
            },
            RowState::NeedsPlaceholder => {
                self.row_state = RowState::Skipped;
                out.push(0x2a);
                out.push(0x0a);
                proof {
                    assert(out@ =~= old(out)@ + seq![0x2au8, 0x0au8]);
                }
            },
            RowState::Skipped => {
                proof {
                    crate::seq_facts::concat_empty_right(old(out)@);
                }
            },
        }
        self.available = 0;
    }

    /// Process one pushed byte with deduplication off.
    #[verifier::rlimit(60)]
    fn step_plain(&mut self, byte: u8, out: &mut Vec<u8>)
        requires
            old(self).wf(),
            !old(self).sess().dedup,
            spec_consumed(old(self).sess(), old(self).model()) + old(self).sess().offset + 1
                <= usize::MAX,
        ensures
            final(self).wf(),
            final(self).sess() == old(self).sess(),
            spec_consumed(final(self).sess(), final(self).model()) == spec_consumed(
                old(self).sess(),
                old(self).model(),
            ) + 1,
            ({
                let stepped = spec_step(old(self).sess(), old(self).model(), byte);
                final(self).model() == stepped.0 && final(out)@ == old(out)@ + stepped.1
            }),
    {
        let ghost s = self.sess();
        let ghost m0 = self.model();
        let ghost g = s.byte.grp();
        let ghost out0 = out@;
        proof {
            lemma_row_multiple(g.gsize, g.count);
            lemma_mod_succ(m0.available, g.gsize);
            vstd::arithmetic::div_mod::lemma_mod_bound(m0.available as int, g.gsize as int);
            vstd::arithmetic::div_mod::lemma_mod_bound(m0.total_written as int, g.bpr() as int);
        }
        let gs = self.byte_fmt.groupping().max_group_size();
        let bpr = self.byte_fmt.groupping().bytes_per_row();

        let ghost open_t = if m0.available == 0 {
            spec_row_open(s.addr, s.byte, s.offset, m0.total_written)
        } else {
            Seq::<u8>::empty()
        };
        if self.available == 0 {
            self.start_row(out);
        } else {
            proof {
                crate::seq_facts::concat_empty_right(out0);
            }
        }
        proof {
            assert(out@ == out0 + open_t);
        }

        self.cache.set(self.available, byte);
        self.available = self.available + 1;
        let ghost cache1 = m0.cache.update(m0.available as int, byte);
        let ghost avail1 = (m0.available + 1) as nat;

        let ghost group_t = if avail1 % g.gsize == 0 {
            s.byte.byte_text(
                cache1.subrange(avail1 - g.gsize, avail1 as int),
                (avail1 - g.gsize) as int,
            )
        } else {
            Seq::<u8>::empty()
        };
        if self.available % gs == 0 {
            let start = self.available - gs;
            let group = vstd::slice::slice_subrange(self.cache.as_slice(), start, self.available);
            let text = self.byte_fmt.format(group, start);
            extend_bytes(out, text.as_slice());
            self.total_written = self.total_written + gs;
        } else {
            proof {
                crate::seq_facts::concat_empty_right(out@);
            }
        }
        proof {
            crate::seq_facts::concat_assoc(out0, open_t, group_t);
            assert(out@ == out0 + (open_t + group_t));
        }

        if self.available == bpr {
            let ghost close_t = spec_row_close(s.byte, s.text, cache1, avail1, m0.row_state);
            self.finish_row(out);
            proof {
                crate::seq_facts::concat_assoc(out0, open_t + group_t, close_t);
                assert(0nat % g.gsize == 0);
                assert((m0.total_written + g.gsize) % g.bpr() == 0) by {
                    vstd::arithmetic::div_mod::lemma_fundamental_div_mod(
                        m0.total_written as int,
                        g.bpr() as int,
                    );
                    vstd::arithmetic::mul::lemma_mul_is_distributive_add(
                        g.bpr() as int,
                        m0.total_written as int / g.bpr() as int,
                        1,
                    );
                    lemma_mod_from_parts(
                        (m0.total_written + g.gsize) as int,
                        g.bpr() as int,
                        m0.total_written as int / g.bpr() as int + 1,
                        0,
                    );
                }
            }
        } else {
            proof {
                if avail1 % g.gsize == 0 {
                    assert((m0.total_written + g.gsize) % g.bpr() == avail1) by {
                        vstd::arithmetic::div_mod::lemma_fundamental_div_mod(
                            m0.total_written as int,
                            g.bpr() as int,
                        );
                        lemma_mod_from_parts(
                            (m0.total_written + g.gsize) as int,
                            g.bpr() as int,
                            m0.total_written as int / g.bpr() as int,
                            avail1 as int,
                        );
                    }
                    assert(avail1 % g.gsize == 0);
                    vstd::arithmetic::div_mod::lemma_mod_bound(avail1 as int, g.gsize as int);
                }
            }
        }
    }

    /// Process one pushed byte with deduplication on.
    #[verifier::rlimit(60)]
    fn step_dedup(&mut self, byte: u8, out: &mut Vec<u8>)
        requires
            old(self).wf(),
            old(self).sess().dedup,
            spec_consumed(old(self).sess(), old(self).model()) + old(self).sess().offset + 1
                <= usize::MAX,
        ensures
            final(self).wf(),
            final(self).sess() == old(self).sess(),
            spec_consumed(final(self).sess(), final(self).model()) == spec_consumed(
                old(self).sess(),
                old(self).model(),
            ) + 1,
            ({
                let stepped = spec_step(old(self).sess(), old(self).model(), byte);
                final(self).model() == stepped.0 && final(out)@ == old(out)@ + stepped.1
            }),
    {
        let ghost s = self.sess();
        let ghost m0 = self.model();
        let ghost g = s.byte.grp();
        let ghost out0 = out@;
        let bpr = self.byte_fmt.groupping().bytes_per_row();

        if self.available == 0 {
            match self.row_state {
                RowState::CanWrite => {
                    self.row_state = RowState::NeedsPlaceholder;
                },
                _ => {},
            }
        }
        let fresh = self.total_written < bpr;
        let mismatch = fresh || byte != self.cache[self.available];
        if mismatch {
            self.row_state = RowState::CanWrite;
            self.cache.set(self.available, byte);
        } else {
            proof {
                assert(m0.cache.update(m0.available as int, byte) =~= m0.cache);
            }
        }
        self.available = self.available + 1;
        let ghost cache1 = m0.cache.update(m0.available as int, byte);
        let ghost avail1 = (m0.available + 1) as nat;
        let ghost rs1 = self.model().row_state;

        if self.available == bpr {
            let ghost open_t = spec_row_open(s.addr, s.byte, s.offset, m0.total_written);
            let ghost groups_t = spec_groups_text(s.byte, cache1, 0, g.bpr() as int);
            match self.row_state {
                RowState::CanWrite => {
                    self.start_row(out);
                    self.emit_groups(out, 0, bpr);
                    proof {
                        crate::seq_facts::concat_assoc(out0, open_t, groups_t);
                    }
                    self.total_written = self.total_written + bpr;
                    let ghost close_t = spec_row_close(
                        s.byte,
                        s.text,
                        cache1,
                        avail1,
                        RowState::CanWrite,
                    );
                    self.finish_row(out);
                    proof {
                        crate::seq_facts::concat_assoc(out0, open_t + groups_t, close_t);
                    }
                },
                _ => {
                    self.total_written = self.total_written + bpr;
                    self.finish_row(out);
                },
            }
            proof {
                lemma_mod_add_self(m0.total_written, g.bpr());
                assert(0nat % g.bpr() == 0);
            }
        } else {
            proof {
                crate::seq_facts::concat_empty_right(out0);
            }
        }
    }

    /// Accept a chunk of bytes, appending every completed piece of output to
    /// `out`: the machine advances by exactly the pushed bytes.
    pub fn push(&mut self, bytes: &[u8], out: &mut Vec<u8>)
        requires
            old(self).wf(),
            spec_consumed(old(self).sess(), old(self).model()) + old(self).sess().offset
                + bytes@.len() <= usize::MAX,
        ensures
            final(self).wf(),
            final(self).sess() == old(self).sess(),
            spec_consumed(final(self).sess(), final(self).model()) == spec_consumed(
                old(self).sess(),
                old(self).model(),
            ) + bytes@.len(),
            ({
                let r = spec_run(old(self).sess(), old(self).model(), bytes@);
                final(self).model() == r.0 && final(out)@ == old(out)@ + r.1
            }),
    {
        let ghost s0 = self.sess();
        let ghost m0 = self.model();
        proof {
            assert(bytes@.take(0) =~= Seq::<u8>::empty());
            crate::seq_facts::concat_empty_right(old(out)@);
        }
        let mut i: usize = 0;
        while i < bytes.len()
            invariant
                i <= bytes@.len(),
                self.wf(),
                self.sess() == s0,
                self.model() == spec_run(s0, m0, bytes@.take(i as int)).0,
                out@ == old(out)@ + spec_run(s0, m0, bytes@.take(i as int)).1,
                spec_consumed(s0, self.model()) == spec_consumed(s0, m0) + i,
                spec_consumed(s0, m0) + s0.offset + bytes@.len() <= usize::MAX,
            decreases bytes@.len() - i,
        {
            let b = bytes[i];
            let ghost out_pre = out@;
            if self.dedup_enabled {
                self.step_dedup(b, out);
            } else {
                self.step_plain(b, out);
            }
            proof {
                lemma_run_snoc(s0, m0, bytes@.take(i as int), b);
                assert(bytes@.take(i + 1 as int) =~= bytes@.take(i as int).push(bytes@[i as int]));
                crate::seq_facts::concat_assoc(
                    old(out)@,
                    spec_run(s0, m0, bytes@.take(i as int)).1,
                    spec_step(s0, spec_run(s0, m0, bytes@.take(i as int)).0, b).1,
                );
            }
            i = i + 1;
        }
        proof {
            assert(bytes@.take(bytes@.len() as int) =~= bytes@);
        }
    }

    /// Finalize the stream: flush any pending partial row, padded and closed
    /// by its deduplication state, and write the closing address line.
    pub fn write_tail(&mut self, out: &mut Vec<u8>)
        requires
            old(self).wf(),
            spec_consumed(old(self).sess(), old(self).model()) + old(self).sess().offset
                <= usize::MAX,
        ensures
            final(self).sess() == old(self).sess(),
            final(out)@ == old(out)@ + spec_tail(old(self).sess(), old(self).model()),
    {
        let ghost s = self.sess();
        let ghost m0 = self.model();
        let ghost g = s.byte.grp();
        let ghost out0 = out@;
        let ghost pre_t = if s.dedup {
            spec_addr_part(s.addr, s.offset, m0.total_written)
        } else {
            Seq::<u8>::empty()
        };
        proof {
            vstd::arithmetic::div_mod::lemma_mod_bound(m0.available as int, g.gsize as int);
        }
        let bpr = self.byte_fmt.groupping().bytes_per_row();
        if self.dedup_enabled {
            self.write_current_offset(out);
        } else {
            proof {
                crate::seq_facts::concat_empty_right(out0);
            }
        }
        if self.available == 0 {
            out.push(0x0a);
            proof {
                assert(out@ =~= out0 + pre_t + seq![0x0au8]);
                crate::seq_facts::concat_assoc(out0, pre_t, seq![0x0au8]);
            }
        } else {
            let written_in_row = self.total_written % bpr;
            let ghost groups_t = spec_groups_text(
                s.byte,
                m0.cache,
                (m0.total_written % g.bpr()) as int,
                m0.available as int,
            );
            self.emit_groups(out, written_in_row, self.available);
            proof {
                crate::seq_facts::concat_assoc(out0, pre_t, groups_t);
            }
            let flushed = self.available - written_in_row;
            self.total_written = self.total_written + flushed;
            let ghost close_t = spec_row_close(s.byte, s.text, m0.cache, m0.available, m0.row_state);
            self.finish_row(out);
            proof {
                crate::seq_facts::concat_assoc(out0, pre_t + groups_t, close_t);
            }
            let ghost addr2_t = spec_addr_part(
                s.addr,
                s.offset,
                (m0.total_written + (m0.available - m0.total_written % g.bpr())) as nat,
            );
            self.write_current_offset(out);
            proof {
                crate::seq_facts::concat_assoc(out0, (pre_t + groups_t) + close_t, addr2_t);
            }
            out.push(0x0a);
            proof {
                assert(out@ =~= out0 + ((((pre_t + groups_t) + close_t) + addr2_t) + seq![0x0au8]));
                crate::seq_facts::concat_assoc(
                    out0,
                    ((pre_t + groups_t) + close_t) + addr2_t,
                    seq![0x0au8],
                );
            }
        }
    }

    /// Format `cache[from..to)` group by group, each group at its row
    /// offset.
    #[verifier::loop_isolation(false)]
    fn emit_groups(&self, out: &mut Vec<u8>, from: usize, to: usize)
        requires
            self.sess().byte.grp().wf(),
            from <= to,
            to <= self.model().cache.len(),
            self.model().cache.len() == self.sess().byte.grp().bpr(),
        ensures
            final(out)@ == old(out)@ + spec_groups_text(
                self.sess().byte,
                self.model().cache,
                from as int,
                to as int,
            ),
    {
        broadcast use crate::seq_facts::group_concat;

        let gs = self.byte_fmt.groupping().max_group_size();
        let mut p = from;
        let ghost mut delta: Seq<u8> = Seq::empty();
        proof {
            crate::seq_facts::concat_empty_left(
                spec_groups_text(self.sess().byte, self.model().cache, from as int, to as int),
            );
        }
        while p < to
            invariant
                from <= p <= to,
                out@ == old(out)@ + delta,
                spec_groups_text(self.sess().byte, self.model().cache, from as int, to as int)
                    == delta + spec_groups_text(
                    self.sess().byte,
                    self.model().cache,
                    p as int,
                    to as int,
                ),
            decreases to - p,
        {
            let end = if to - p > gs {
                p + gs
            } else {
                to
            };
            let group = vstd::slice::slice_subrange(self.cache.as_slice(), p, end);
            let text = self.byte_fmt.format(group, p);
            extend_bytes(out, text.as_slice());
            proof {
                let rest = spec_groups_text(
                    self.sess().byte,
                    self.model().cache,
                    end as int,
                    to as int,
                );
                assert(spec_groups_text(self.sess().byte, self.model().cache, p as int, to as int)
                    == self.sess().byte.byte_text(
                    self.model().cache.subrange(p as int, end as int),
                    p as int,
                ) + rest);
                crate::seq_facts::concat_assoc(
                    delta,
                    self.sess().byte.byte_text(
                        self.model().cache.subrange(p as int, end as int),
                        p as int,
                    ),
                    rest,
                );
                crate::seq_facts::concat_assoc(
                    old(out)@,
                    delta,
                    self.sess().byte.byte_text(
                        self.model().cache.subrange(p as int, end as int),
                        p as int,
                    ),
                );
                delta = delta + text@;
            }
            p = end;
        }
        proof {
            crate::seq_facts::concat_empty_right(delta);
        }
    }
}

} // verus!
