//! Streamed hex dumping: incremental, column-aligned byte dump formatting.
//!
//! A [`Printer`] accepts raw bytes in pushes of arbitrary size and renders
//! them as address-prefixed, group-aligned dump rows into an owned output
//! buffer, collapsing runs of duplicate rows behind a wildcard line. The
//! formatted output is a function of the concatenation of all pushed bytes
//! alone: how a caller slices its pushes cannot change it.
use vstd::prelude::*;

pub mod address_fmt;
pub mod args;
pub mod byte_fmt;
pub mod char_fmt;
pub mod config;
pub mod format;
pub mod laws;
pub mod ordering;
pub mod result;
pub mod seq_facts;
pub mod streamer;
pub mod writers;

pub use address_fmt::AddressFormatter;
pub use address_fmt::AddressStyle;
pub use byte_fmt::ByteFormatter;
pub use byte_fmt::ByteStyle;
pub use char_fmt::CharFormatter;
pub use config::Config;
pub use format::AddressFormatting;
pub use format::ByteFormatting;
pub use format::CharFormatting;
pub use format::Separators;
pub use ordering::ByteOrder;
pub use ordering::Group;
pub use ordering::GroupingView;
pub use ordering::Groupping;
pub use ordering::DEFAULT_BYTES_PER_ROW;
pub use ordering::DEFAULT_GROUP_SIZE;
pub use ordering::DEFAULT_NUMBER_OF_GROUPS;
pub use result::AppError;
pub use result::AppResult;
pub use streamer::RowState;
pub use streamer::SessionView;
pub use streamer::StreamModel;
pub use streamer::Streamer;

use streamer::spec_consumed;
use streamer::spec_run;
use streamer::spec_step;
use streamer::spec_tail;

verus! {

/// The machine state a session starts in: nothing consumed, an empty row
/// cache sized to one row, ready to write.
pub open spec fn spec_init_model<A: AddressFormatting, B: ByteFormatting, C: CharFormatting>(
    s: SessionView<A, B, C>,
) -> StreamModel {
    StreamModel {
        total_written: 0,
        available: 0,
        cache: Seq::new(s.byte.grp().bpr(), |i: int| 0u8),
        row_state: RowState::CanWrite,
    }
}

/// The complete formatted output of a session over `input`: everything the
/// byte-at-a-time machine emits while consuming `input`, followed by the
/// finalization text. This is a function of the concatenated input alone.
pub open spec fn spec_output<A: AddressFormatting, B: ByteFormatting, C: CharFormatting>(
    s: SessionView<A, B, C>,
    input: Seq<u8>,
) -> Seq<u8> {
    let r = spec_run(s, spec_init_model(s), input);
    r.1 + spec_tail(s, r.0)
}

/// Running the machine over `xs + ys` is running it over `xs`, then over
/// `ys` from where it left off.
pub proof fn lemma_run_append<A: AddressFormatting, B: ByteFormatting, C: CharFormatting>(
    s: SessionView<A, B, C>,
    m: StreamModel,
    xs: Seq<u8>,
    ys: Seq<u8>,
)
    ensures
        ({
            let first = spec_run(s, m, xs);
            let second = spec_run(s, first.0, ys);
            spec_run(s, m, xs + ys) == (second.0, first.1 + second.1)
        }),
    decreases ys.len(),
{
    let first = spec_run(s, m, xs);
    if ys.len() == 0 {
        assert(xs + ys =~= xs);
        assert(spec_run(s, first.0, ys) == (first.0, Seq::<u8>::empty()));
        seq_facts::concat_empty_right(first.1);
    } else {
        let short = ys.drop_last();
        lemma_run_append(s, m, xs, short);
        streamer::lemma_run_snoc(s, m, xs + short, ys.last());
        streamer::lemma_run_snoc(s, first.0, short, ys.last());
        assert((xs + short).push(ys.last()) =~= xs + ys);
        assert(short.push(ys.last()) =~= ys);
        seq_facts::concat_assoc(
            first.1,
            spec_run(s, first.0, short).1,
            spec_step(s, spec_run(s, first.0, short).0, ys.last()).1,
        );
    }
}

/// The topmost struct for data output: owns the output buffer, forwards
/// pushed bytes to the streaming engine, and flushes the unfinished last
/// row exactly once on finalization.
pub struct Printer<A: AddressFormatting, B: ByteFormatting, C: CharFormatting> {
    out: Vec<u8>,
    streamer: Streamer<A, B, C>,
    is_finished: bool,
    history: Ghost<Seq<u8>>,
    start: Ghost<Seq<u8>>,
}

impl<A: AddressFormatting, B: ByteFormatting, C: CharFormatting> Printer<A, B, C> {
    /// The session's formatters and switches.
    pub closed spec fn sess(&self) -> SessionView<A, B, C> {
        self.streamer.sess()
    }

    /// Every byte pushed so far, in order.
    pub closed spec fn pushed(&self) -> Seq<u8> {
        self.history@
    }

    /// What the output buffer held when the printer was created.
    pub closed spec fn start_out(&self) -> Seq<u8> {
        self.start@
    }

    /// The output buffer's current contents.
    pub closed spec fn out_view(&self) -> Seq<u8> {
        self.out@
    }

    /// Has the tail been flushed?
    pub closed spec fn finished(&self) -> bool {
        self.is_finished
    }

    /// The printer tracks its session faithfully: while unfinished, the
    /// engine state and the output buffer are exactly what the abstract
    /// machine yields on the pushed bytes; once finished, the buffer also
    /// carries the finalization text.
    pub open spec fn wf(&self) -> bool {
        let s = self.sess();
        let r = spec_run(s, spec_init_model(s), self.pushed());
        &&& if self.finished() {
            self.out_view() == self.start_out() + spec_output(s, self.pushed())
        } else {
            &&& self.streamer_wf()
            &&& self.streamer_model() == r.0
            &&& self.out_view() == self.start_out() + r.1
            &&& spec_consumed(s, r.0) == self.pushed().len()
        }
    }

    /// The engine's own invariant (exposed only through `wf`).
    pub closed spec fn streamer_wf(&self) -> bool {
        self.streamer.wf()
    }

    /// The engine's state (exposed only through `wf`).
    pub closed spec fn streamer_model(&self) -> StreamModel {
        self.streamer.model()
    }

    /// Customized constructor.
    ///
    /// All constructors of the [`Printer`] move the given output buffer in;
    /// to take it back use the `finish` function.
    ///
    /// `out` - buffer the formatted text is appended to.
    ///
    /// `start_address` - address printed for the first pushed byte.
    ///
    /// `config` - formatting configuration; its byte formatter must carry a
    /// usable row layout, which every builtin constructor guarantees.
    pub fn new(out: Vec<u8>, start_address: usize, config: Config<A, B, C>) -> (r: Printer<
        A,
        B,
        C,
    >)
        requires
            config.byte.grp().wf(),
        ensures
            r.wf(),
            !r.finished(),
            r.sess() == (SessionView {
                addr: config.addr,
                byte: config.byte,
                text: config.text,
                dedup: config.dedup_enabled,
                offset: start_address as nat,
            }),
            r.pushed() == Seq::<u8>::empty(),
            r.start_out() == out@,
            r.out_view() == out@,
    {
        let ghost start = out@;
        let streamer = Streamer::new(
            config.addr,
            config.byte,
            config.text,
            start_address,
            config.dedup_enabled,
        );
        let r = Printer {
            out,
            streamer,
            is_finished: false,
            history: Ghost(Seq::empty()),
            start: Ghost(start),
        };
        proof {
            let s = r.sess();
            assert(spec_run(s, spec_init_model(s), Seq::<u8>::empty()) == (
                spec_init_model(s),
                Seq::<u8>::empty(),
            ));
            seq_facts::concat_empty_right(start);
            assert(0nat % s.byte.grp().gsize == 0);
        }
        r
    }

    /// Accept a bytes chunk, immediately appending every completed piece of
    /// output to the owned buffer. Returns the chunk's length: the input is
    /// always fully consumed.
    pub fn push(&mut self, bytes: &[u8]) -> (r: usize)
        requires
            old(self).wf(),
            !old(self).finished(),
            old(self).pushed().len() + old(self).sess().offset + bytes@.len() <= usize::MAX,
        ensures
            final(self).wf(),
            !final(self).finished(),
            final(self).sess() == old(self).sess(),
            final(self).start_out() == old(self).start_out(),
            final(self).pushed() == old(self).pushed() + bytes@,
            r == bytes@.len(),
    {
        proof {
            lemma_run_append(
                self.sess(),
                spec_init_model(self.sess()),
                self.pushed(),
                bytes@,
            );
        }
        let ghost s = self.sess();
        let ghost pushed0 = self.pushed();
        self.streamer.push(bytes, &mut self.out);
        self.history = Ghost(self.history@ + bytes@);
        proof {
            let prev = spec_run(s, spec_init_model(s), pushed0);
            seq_facts::concat_assoc(self.start@, prev.1, spec_run(s, prev.0, bytes@).1);
        }
        bytes.len()
    }

    /// Flush the unfinished last row and the closing address line. The
    /// first call writes the tail; any further call leaves everything
    /// untouched, so finalization cannot duplicate or corrupt output.
    pub fn print_last_line(&mut self)
        requires
            old(self).wf(),
            old(self).pushed().len() + old(self).sess().offset <= usize::MAX,
        ensures
            final(self).wf(),
            final(self).finished(),
            final(self).sess() == old(self).sess(),
            final(self).start_out() == old(self).start_out(),
            final(self).pushed() == old(self).pushed(),
            final(self).out_view() == old(self).start_out() + spec_output(
                old(self).sess(),
                old(self).pushed(),
            ),
            old(self).finished() ==> final(self).out_view() == old(self).out_view(),
    {
        if !self.is_finished {
            let ghost s = self.sess();
            let ghost prev = spec_run(s, spec_init_model(s), self.pushed());
            self.streamer.write_tail(&mut self.out);
            self.is_finished = true;
            proof {
                seq_facts::concat_assoc(self.start@, prev.1, spec_tail(s, prev.0));
            }
        }
    }

    /// Everything formatted so far, for callers that forward output
    /// incrementally while the session is still open.
    pub fn output_so_far(&self) -> (r: &Vec<u8>)
        ensures
            r@ == self.out_view(),
    {
        &self.out
    }

    /// Finalize: flush the tail (if not already flushed) and hand the
    /// output buffer back.
    pub fn finish(self) -> (out: Vec<u8>)
        requires
            self.wf(),
            self.pushed().len() + self.sess().offset <= usize::MAX,
        ensures
            out@ == self.start_out() + spec_output(self.sess(), self.pushed()),
    {
        let mut this = self;
        this.print_last_line();
        this.out
    }
}

impl<
    A: AddressFormatting + Default,
    B: ByteFormatting + Default,
    C: CharFormatting + Default,
> Printer<A, B, C> {
    /// A printer over the default configuration of any formatter types
    /// whose defaults carry a usable row layout.
    pub fn default_with(out: Vec<u8>, start_address: usize) -> (r: Option<Printer<A, B, C>>)
        ensures
            r matches Some(p) ==> p.wf() && !p.finished() && p.pushed() == Seq::<u8>::empty()
                && p.start_out() == out@ && p.sess().dedup == true && p.sess().offset
                == start_address as nat,
    {
        let config = Config::<A, B, C>::default();
        if config.byte.groupping().is_wf() {
            Some(Printer::new(out, start_address, config))
        } else {
            None
        }
    }
}

impl Printer<AddressFormatter, ByteFormatter, CharFormatter> {
    /// A printer over the builtin formatters' defaults: eight-digit
    /// hexadecimal addresses, sixteen hex bytes per row in four groups of
    /// four, a pipe-delimited character column, deduplication on.
    pub fn default_fmt_with(out: Vec<u8>, start_address: usize) -> (r: Printer<
        AddressFormatter,
        ByteFormatter,
        CharFormatter,
    >)
        ensures
            r.wf(),
            !r.finished(),
            r.pushed() == Seq::<u8>::empty(),
            r.start_out() == out@,
            r.out_view() == out@,
            r.sess().dedup == true,
            r.sess().offset == start_address as nat,
            r.sess().addr is Some,
            r.sess().text is Some,
    {
        let config = Config::new(
            Some(AddressFormatter::default()),
            ByteFormatter::default(),
            Some(CharFormatter::default()),
            true,
        );
        Printer::new(out, start_address, config)
    }
}

} // verus!
