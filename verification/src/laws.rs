//! The library's general guarantees, stated and proved once over the
//! abstract machine that pins the engine's behaviour.
use vstd::prelude::*;

use crate::format::AddressFormatting;
use crate::format::ByteFormatting;
use crate::format::CharFormatting;
use crate::spec_init_model;
use crate::spec_output;
use crate::streamer::spec_groups_text;
use crate::streamer::spec_run;
use crate::streamer::spec_tail;
use crate::streamer::SessionView;
use crate::streamer::StreamModel;

verus! {

/// The machine run over a sequence of chunks, one push per chunk.
pub open spec fn spec_run_chunks<A: AddressFormatting, B: ByteFormatting, C: CharFormatting>(
    s: SessionView<A, B, C>,
    m: StreamModel,
    chunks: Seq<Seq<u8>>,
) -> (StreamModel, Seq<u8>)
    decreases chunks.len(),
{
    if chunks.len() == 0 {
        (m, Seq::empty())
    } else {
        let first = spec_run(s, m, chunks.first());
        let rest = spec_run_chunks(s, first.0, chunks.drop_first());
        (rest.0, first.1 + rest.1)
    }
}

/// The finished output of a session whose input arrived in the given
/// chunks.
pub open spec fn spec_chunked_output<A: AddressFormatting, B: ByteFormatting, C: CharFormatting>(
    s: SessionView<A, B, C>,
    chunks: Seq<Seq<u8>>,
) -> Seq<u8> {
    let r = spec_run_chunks(s, spec_init_model(s), chunks);
    r.1 + spec_tail(s, r.0)
}

/// Pushing chunk by chunk is the same as pushing their concatenation at
/// once.
pub proof fn lemma_run_chunks_flatten<A: AddressFormatting, B: ByteFormatting, C: CharFormatting>(
    s: SessionView<A, B, C>,
    m: StreamModel,
    chunks: Seq<Seq<u8>>,
)
    ensures
        spec_run_chunks(s, m, chunks) == spec_run(s, m, chunks.flatten()),
    decreases chunks.len(),
{
    if chunks.len() == 0 {
        assert(chunks.flatten() =~= Seq::<u8>::empty());
        assert(spec_run(s, m, Seq::<u8>::empty()) == (m, Seq::<u8>::empty()));
    } else {
        let first = spec_run(s, m, chunks.first());
        lemma_run_chunks_flatten(s, first.0, chunks.drop_first());
        assert(chunks.flatten() == chunks.first() + chunks.drop_first().flatten());
        crate::lemma_run_append(s, m, chunks.first(), chunks.drop_first().flatten());
    }
}

/// Chunk-invariance: for any fixed input byte sequence, the finished
/// formatted output is identical regardless of how the sequence was split
/// across pushes.
pub proof fn lemma_chunk_invariance<A: AddressFormatting, B: ByteFormatting, C: CharFormatting>(
    s: SessionView<A, B, C>,
    chunks1: Seq<Seq<u8>>,
    chunks2: Seq<Seq<u8>>,
)
    requires
        chunks1.flatten() == chunks2.flatten(),
    ensures
        spec_chunked_output(s, chunks1) == spec_chunked_output(s, chunks2),
        spec_chunked_output(s, chunks1) == spec_output(s, chunks1.flatten()),
{
    lemma_run_chunks_flatten(s, spec_init_model(s), chunks1);
    lemma_run_chunks_flatten(s, spec_init_model(s), chunks2);
}

/// `n` copies of `row`, back to back.
pub open spec fn spec_rows(row: Seq<u8>, n: nat) -> Seq<u8>
    decreases n,
{
    if n == 0 {
        Seq::empty()
    } else {
        row + spec_rows(row, (n - 1) as nat)
    }
}

/// A dedup-mode state that sits exactly on a row boundary, at least one row
/// into the stream.
pub open spec fn row_boundary_state<A: AddressFormatting, B: ByteFormatting, C: CharFormatting>(
    s: SessionView<A, B, C>,
    m: StreamModel,
) -> bool {
    &&& s.dedup
    &&& s.byte.grp().wf()
    &&& m.cache.len() == s.byte.grp().bpr()
    &&& m.available == 0
    &&& m.total_written >= s.byte.grp().bpr()
}

/// Feeding `j` bytes that match the cached previous row, without completing
/// the row: nothing is emitted, the cache is unchanged, and the row stays a
/// suppressed-duplicate candidate.
proof fn lemma_run_matching_prefix<A: AddressFormatting, B: ByteFormatting, C: CharFormatting>(
    s: SessionView<A, B, C>,
    m: StreamModel,
    j: nat,
)
    requires
        s.dedup,
        s.byte.grp().wf(),
        m.cache.len() == s.byte.grp().bpr(),
        m.total_written >= s.byte.grp().bpr(),
        m.available + j < s.byte.grp().bpr(),
    ensures
        spec_run(s, m, m.cache.subrange(m.available as int, (m.available + j) as int)) == ((
        StreamModel {
            available: (m.available + j) as nat,
            row_state: if m.available == 0 && j >= 1 && m.row_state == crate::RowState::CanWrite {
                crate::RowState::NeedsPlaceholder
            } else {
                m.row_state
            },
            ..m
        }), Seq::<u8>::empty()),
    decreases j,
{
    let input = m.cache.subrange(m.available as int, (m.available + j) as int);
    if j == 0 {
        assert(input =~= Seq::<u8>::empty());
    } else {
        let b = m.cache[m.available as int];
        assert(input.first() == b);
        let stepped = crate::streamer::spec_step_dedup(s, m, b);
        assert(m.cache.update(m.available as int, b) =~= m.cache);
        let m1 = stepped.0;
        lemma_run_matching_prefix(s, m1, (j - 1) as nat);
        assert(input.drop_first() =~= m.cache.subrange(
            m1.available as int,
            (m1.available + (j - 1)) as int,
        ));
        crate::seq_facts::concat_empty_left(Seq::<u8>::empty());
    }
}

/// One more row identical to the cached previous row: from a row boundary,
/// it yields the wildcard line when the run of duplicates starts here, and
/// nothing at all when the wildcard was already written; either way the row
/// is suppressed and the stream advances one row.
proof fn lemma_run_duplicate_row<A: AddressFormatting, B: ByteFormatting, C: CharFormatting>(
    s: SessionView<A, B, C>,
    m: StreamModel,
)
    requires
        row_boundary_state(s, m),
        m.row_state != crate::RowState::NeedsPlaceholder,
    ensures
        spec_run(s, m, m.cache) == ((StreamModel {
            total_written: (m.total_written + s.byte.grp().bpr()) as nat,
            available: 0,
            cache: m.cache,
            row_state: crate::RowState::Skipped,
        }), (if m.row_state == crate::RowState::Skipped {
            Seq::<u8>::empty()
        } else {
            seq![0x2au8, 0x0au8]
        })),
{
    let g = s.byte.grp();
    let bpr = g.bpr();
    crate::streamer::lemma_row_multiple(g.gsize, g.count);
    let prefix = m.cache.subrange(0, bpr - 1);
    let b = m.cache[bpr - 1];
    lemma_run_matching_prefix(s, m, (bpr - 1) as nat);
    crate::streamer::lemma_run_snoc(s, m, prefix, b);
    assert(prefix.push(b) =~= m.cache);
    let m1 = spec_run(s, m, prefix).0;
    let stepped = crate::streamer::spec_step_dedup(s, m1, b);
    assert(m1.cache.update(m1.available as int, b) =~= m.cache);
    crate::seq_facts::concat_empty_left(stepped.1);
}

/// Deduplication correctness: from a row boundary with the previous row
/// printed normally, a run of `n` further rows identical to it collapses to
/// exactly one wildcard line, whether the run is a single isolated
/// duplicate or arbitrarily long.
pub proof fn lemma_dedup_run_collapses<A: AddressFormatting, B: ByteFormatting, C: CharFormatting>(
    s: SessionView<A, B, C>,
    m: StreamModel,
    n: nat,
)
    requires
        row_boundary_state(s, m),
        m.row_state == crate::RowState::CanWrite,
        n >= 1,
    ensures
        spec_run(s, m, spec_rows(m.cache, n)) == ((StreamModel {
            total_written: (m.total_written + n * s.byte.grp().bpr()) as nat,
            available: 0,
            cache: m.cache,
            row_state: crate::RowState::Skipped,
        }), seq![0x2au8, 0x0au8]),
{
    let g = s.byte.grp();
    lemma_run_duplicate_row(s, m);
    let m1 = StreamModel {
        total_written: (m.total_written + g.bpr()) as nat,
        available: 0,
        cache: m.cache,
        row_state: crate::RowState::Skipped,
    };
    lemma_dedup_skipped_rows(s, m1, (n - 1) as nat);
    crate::lemma_run_append(s, m, m.cache, spec_rows(m.cache, (n - 1) as nat));
    assert(m.cache + spec_rows(m.cache, (n - 1) as nat) =~= spec_rows(m.cache, n));
    crate::seq_facts::concat_empty_right(seq![0x2au8, 0x0au8]);
    assert((m.total_written + g.bpr()) + (n - 1) * g.bpr() == m.total_written + n * g.bpr()) by {
        vstd::arithmetic::mul::lemma_mul_is_distributive_sub(g.bpr() as int, n as int, 1);
        vstd::arithmetic::mul::lemma_mul_is_commutative(g.bpr() as int, n as int - 1);
        vstd::arithmetic::mul::lemma_mul_is_commutative(g.bpr() as int, n as int);
    }
}

/// Once the wildcard is out, any further identical rows vanish without a
/// trace.
proof fn lemma_dedup_skipped_rows<A: AddressFormatting, B: ByteFormatting, C: CharFormatting>(
    s: SessionView<A, B, C>,
    m: StreamModel,
    n: nat,
)
    requires
        row_boundary_state(s, m),
        m.row_state == crate::RowState::Skipped,
    ensures
        spec_run(s, m, spec_rows(m.cache, n)) == ((StreamModel {
            total_written: (m.total_written + n * s.byte.grp().bpr()) as nat,
            available: 0,
            cache: m.cache,
            row_state: crate::RowState::Skipped,
        }), Seq::<u8>::empty()),
    decreases n,
{
    let g = s.byte.grp();
    if n == 0 {
        assert(spec_rows(m.cache, 0) =~= Seq::<u8>::empty());
        assert(m.total_written + 0 * g.bpr() == m.total_written);
        assert(m == (StreamModel {
            total_written: (m.total_written + 0 * g.bpr()) as nat,
            available: 0,
            cache: m.cache,
            row_state: crate::RowState::Skipped,
        }));
    } else {
        lemma_run_duplicate_row(s, m);
        let m1 = StreamModel {
            total_written: (m.total_written + g.bpr()) as nat,
            available: 0,
            cache: m.cache,
            row_state: crate::RowState::Skipped,
        };
        lemma_dedup_skipped_rows(s, m1, (n - 1) as nat);
        crate::lemma_run_append(s, m, m.cache, spec_rows(m.cache, (n - 1) as nat));
        assert(m.cache + spec_rows(m.cache, (n - 1) as nat) =~= spec_rows(m.cache, n));
        crate::seq_facts::concat_empty_right(Seq::<u8>::empty());
        assert((m.total_written + g.bpr()) + (n - 1) * g.bpr() == m.total_written + n * g.bpr())
            by {
            vstd::arithmetic::mul::lemma_mul_is_distributive_sub(g.bpr() as int, n as int, 1);
            vstd::arithmetic::mul::lemma_mul_is_commutative(g.bpr() as int, n as int - 1);
            vstd::arithmetic::mul::lemma_mul_is_commutative(g.bpr() as int, n as int);
        }
    }
}

/// The first row of a stream is never deduplicated: from the initial state,
/// a full first row is always printed for real, wildcard-free, whatever its
/// bytes.
pub proof fn lemma_first_row_never_dedup<A: AddressFormatting, B: ByteFormatting, C: CharFormatting>(
    s: SessionView<A, B, C>,
    row: Seq<u8>,
)
    requires
        s.dedup,
        s.byte.grp().wf(),
        row.len() == s.byte.grp().bpr(),
    ensures
        ({
            let r = spec_run(s, spec_init_model(s), row);
            &&& r.0.row_state == crate::RowState::CanWrite
            &&& r.0.cache == row
            &&& r.0.available == 0
            &&& r.0.total_written == s.byte.grp().bpr()
            &&& r.1 == crate::streamer::spec_row_open(s.addr, s.byte, s.offset, 0)
                + crate::streamer::spec_groups_text(s.byte, row, 0, s.byte.grp().bpr() as int)
                + crate::streamer::spec_row_close(
                s.byte,
                s.text,
                row,
                s.byte.grp().bpr(),
                crate::RowState::CanWrite,
            )
        }),
{
    let g = s.byte.grp();
    crate::streamer::lemma_row_multiple(g.gsize, g.count);
    lemma_run_fresh_prefix(s, spec_init_model(s), row.subrange(0, g.bpr() - 1));
    let prefix = row.subrange(0, g.bpr() - 1);
    let b = row[g.bpr() - 1];
    crate::streamer::lemma_run_snoc(s, spec_init_model(s), prefix, b);
    assert(prefix.push(b) =~= row);
    let m1 = spec_run(s, spec_init_model(s), prefix).0;
    assert(m1.cache =~= spec_init_model(s).cache.take(0) + prefix + spec_init_model(
        s,
    ).cache.skip(g.bpr() - 1));
    let stepped = crate::streamer::spec_step_dedup(s, m1, b);
    assert(m1.cache.update(m1.available as int, b) =~= row);
    crate::seq_facts::concat_empty_left(stepped.1);
}

/// Deduplication, end to end: a stream that is one row followed by `n`
/// identical copies of it finishes as the row printed for real once, a
/// single wildcard line for the whole run, and the closing address line
/// showing where the run ends.
pub proof fn lemma_stream_of_duplicates<A: AddressFormatting, B: ByteFormatting, C: CharFormatting>(
    s: SessionView<A, B, C>,
    row: Seq<u8>,
    n: nat,
)
    requires
        s.dedup,
        s.byte.grp().wf(),
        row.len() == s.byte.grp().bpr(),
        n >= 1,
    ensures
        spec_output(s, row + spec_rows(row, n)) == crate::streamer::spec_row_open(
            s.addr,
            s.byte,
            s.offset,
            0,
        ) + crate::streamer::spec_groups_text(s.byte, row, 0, s.byte.grp().bpr() as int)
            + crate::streamer::spec_row_close(
            s.byte,
            s.text,
            row,
            s.byte.grp().bpr(),
            crate::RowState::CanWrite,
        ) + seq![0x2au8, 0x0au8] + crate::streamer::spec_addr_part(
            s.addr,
            s.offset,
            ((n + 1) * s.byte.grp().bpr()) as nat,
        ) + seq![0x0au8],
{
    let g = s.byte.grp();
    let m0 = spec_init_model(s);
    lemma_first_row_never_dedup(s, row);
    let m1 = spec_run(s, m0, row).0;
    lemma_dedup_run_collapses(s, m1, n);
    crate::lemma_run_append(s, m0, row, spec_rows(row, n));
    let total = spec_run(s, m0, row + spec_rows(row, n));
    assert(total.0.available == 0);
    assert(total.0.total_written == g.bpr() + n * g.bpr());
    assert((g.bpr() + n * g.bpr()) == (n + 1) * g.bpr()) by {
        vstd::arithmetic::mul::lemma_mul_is_distributive_add(g.bpr() as int, n as int, 1);
        vstd::arithmetic::mul::lemma_mul_is_commutative(g.bpr() as int, n as int);
        vstd::arithmetic::mul::lemma_mul_is_commutative(g.bpr() as int, n as int + 1);
    }
    assert(spec_tail(s, total.0) == crate::streamer::spec_addr_part(
        s.addr,
        s.offset,
        total.0.total_written,
    ) + seq![0x0au8]);
}

/// Overwrite `cache` from position `at` with `xs`.
pub open spec fn spec_overwrite(cache: Seq<u8>, at: int, xs: Seq<u8>) -> Seq<u8> {
    cache.take(at) + xs + cache.skip(at + xs.len())
}

/// Feeding any bytes while still inside the first row: everything is cached
/// and the row stays committed to a real write; nothing is emitted.
proof fn lemma_run_fresh_prefix<A: AddressFormatting, B: ByteFormatting, C: CharFormatting>(
    s: SessionView<A, B, C>,
    m: StreamModel,
    xs: Seq<u8>,
)
    requires
        s.dedup,
        s.byte.grp().wf(),
        m.cache.len() == s.byte.grp().bpr(),
        m.total_written < s.byte.grp().bpr(),
        m.available + xs.len() < s.byte.grp().bpr(),
    ensures
        spec_run(s, m, xs) == ((StreamModel {
            available: (m.available + xs.len()) as nat,
            cache: spec_overwrite(m.cache, m.available as int, xs),
            row_state: if xs.len() >= 1 {
                crate::RowState::CanWrite
            } else {
                m.row_state
            },
            ..m
        }), Seq::<u8>::empty()),
    decreases xs.len(),
{
    if xs.len() == 0 {
        assert(spec_overwrite(m.cache, m.available as int, xs) =~= m.cache);
    } else {
        let b = xs.first();
        let stepped = crate::streamer::spec_step_dedup(s, m, b);
        let m1 = stepped.0;
        lemma_run_fresh_prefix(s, m1, xs.drop_first());
        assert(spec_overwrite(m1.cache, m1.available as int, xs.drop_first()) =~= spec_overwrite(
            m.cache,
            m.available as int,
            xs,
        ));
        crate::seq_facts::concat_empty_left(Seq::<u8>::empty());
    }
}

/// A numeral style that renders every byte two characters wide, the width
/// of the padding that stands in for a missing byte.
pub open spec fn two_wide(style: crate::ByteStyle) -> bool {
    style == crate::ByteStyle::Hex || style == crate::ByteStyle::CaretAscii
}

/// One within-group run of real bytes, followed by padding for the rest of
/// the row, is exactly as long as padding the whole range: real bytes and
/// padding get the same separators and the same two-character cells.
proof fn lemma_chunk_width(
    style: crate::ByteStyle,
    le: bool,
    bsep: Seq<u8>,
    g: crate::GroupingView,
    gsep: Seq<u8>,
    xs: Seq<u8>,
    q: int,
)
    requires
        two_wide(style),
        g.wf(),
        q >= 0,
        q % g.gsize as int + xs.len() <= g.gsize as int,
        q + xs.len() <= g.bpr(),
        xs.len() >= 1,
    ensures
        crate::byte_fmt::spec_chunk_text(style, le, bsep, xs, q % g.gsize as int).len()
            + crate::byte_fmt::spec_pad_text(bsep, g, gsep, q + xs.len()).len() + (if q != 0 && q
            % g.gsize as int == 0 {
            gsep.len()
        } else {
            0
        }) == crate::byte_fmt::spec_pad_text(bsep, g, gsep, q).len(),
    decreases xs.len(),
{
    let gs = g.gsize as int;
    let rest = if le {
        xs.drop_last()
    } else {
        xs.drop_first()
    };
    let b = if le {
        xs.last()
    } else {
        xs.first()
    };
    assert(crate::byte_fmt::spec_style_text(style, b).len() == 2);
    if xs.len() == 1 {
        assert(crate::byte_fmt::spec_chunk_text(style, le, bsep, rest, q % gs + 1).len() == 0);
    } else {
        crate::streamer::lemma_mod_shift(q as nat, g.gsize, 1);
        assert((q + 1) % gs == q % gs + 1);
        lemma_chunk_width(style, le, bsep, g, gsep, rest, q + 1);
    }
}

/// A single within-group portion rendered by the builtin formatter, plus
/// padding for the rest of the row, is as long as padding from its start.
proof fn lemma_byte_text_width(
    style: crate::ByteStyle,
    le: bool,
    bsep: Seq<u8>,
    g: crate::GroupingView,
    gsep: Seq<u8>,
    xs: Seq<u8>,
    q: int,
)
    requires
        two_wide(style),
        g.wf(),
        q >= 0,
        q % g.gsize as int + xs.len() <= g.gsize as int,
        q + xs.len() <= g.bpr(),
        xs.len() >= 1,
    ensures
        crate::byte_fmt::spec_byte_text(style, le, bsep, g, gsep, xs, q).len()
            + crate::byte_fmt::spec_pad_text(bsep, g, gsep, q + xs.len()).len()
            == crate::byte_fmt::spec_pad_text(bsep, g, gsep, q).len(),
{
    let gs = g.gsize as int;
    assert(xs.skip(xs.len() as int) =~= Seq::<u8>::empty());
    assert(xs.take(xs.len() as int) =~= xs);
    assert(crate::byte_fmt::spec_byte_text(
        style,
        le,
        bsep,
        g,
        gsep,
        Seq::<u8>::empty(),
        q + xs.len(),
    ).len() == 0);
    lemma_chunk_width(style, le, bsep, g, gsep, xs, q);
}

/// Rendering `cache[from..to)` group by group and then padding the rest of
/// the row is exactly as long as padding the whole row from `from`.
proof fn lemma_groups_width(
    style: crate::ByteStyle,
    le: bool,
    bsep: Seq<u8>,
    g: crate::GroupingView,
    gsep: Seq<u8>,
    bf: crate::ByteFormatter,
    cache: Seq<u8>,
    from: int,
    to: int,
)
    requires
        two_wide(style),
        g.wf(),
        bf.style_spec() == style,
        bf.le_spec() == le,
        bf.bsep_spec() == bsep,
        bf.grp() == g,
        g.sep == gsep,
        0 <= from <= to,
        to <= g.bpr(),
        to <= cache.len(),
        from % g.gsize as int == 0,
    ensures
        spec_groups_text(bf, cache, from, to).len() + crate::byte_fmt::spec_pad_text(
            bsep,
            g,
            gsep,
            to,
        ).len() == crate::byte_fmt::spec_pad_text(bsep, g, gsep, from).len(),
    decreases to - from,
{
    let gs = g.gsize as int;
    if from >= to {
    } else {
        let end = if from + gs <= to {
            from + gs
        } else {
            to
        };
        let slice = cache.subrange(from, end);
        lemma_byte_text_width(style, le, bsep, g, gsep, slice, from);
        if end < to {
            crate::streamer::lemma_mod_add_self(from as nat, g.gsize);
            lemma_groups_width(style, le, bsep, g, gsep, bf, cache, end, to);
        } else {
            assert(spec_groups_text(bf, cache, end, to).len() == 0);
        }
    }
}

/// Row width invariant: under a numeral style whose cells are as wide as
/// the padding cells (hexadecimal or caret notation), every emitted row's
/// byte column — the rendered groups of its `k` real bytes plus the padding
/// that completes it — has exactly the length of a fully padded row,
/// whatever the bytes are. Any two rows therefore render the same number of
/// logical byte positions.
pub proof fn lemma_row_width_invariant(bf: crate::ByteFormatter, cache: Seq<u8>, k: nat)
    requires
        two_wide(bf.style_spec()),
        bf.grp().wf(),
        k <= bf.grp().bpr(),
        k <= cache.len(),
    ensures
        spec_groups_text(bf, cache, 0, k as int).len() + bf.pad_text(k as int).len()
            == bf.pad_text(0).len(),
{
    assert(0int % bf.grp().gsize as int == 0);
    lemma_groups_width(
        bf.style_spec(),
        bf.le_spec(),
        bf.bsep_spec(),
        bf.grp(),
        bf.grp().sep,
        bf,
        cache,
        0,
        k as int,
    );
}

/// With a one-character placeholder, the character column renders exactly
/// one character per byte; together with its space padding, every row's
/// character column spans exactly the row width.
pub proof fn lemma_char_column_width(ph: Seq<u8>, bytes: Seq<u8>)
    requires
        ph.len() == 1,
    ensures
        crate::char_fmt::spec_char_text(ph, bytes).len() == bytes.len(),
    decreases bytes.len(),
{
    if bytes.len() > 0 {
        lemma_char_column_width(ph, bytes.drop_first());
    }
}

/// The row offsets at which the engine renders groups, mirroring the
/// recursion of `spec_groups_text`.
pub open spec fn spec_group_starts(gsize: nat, from: int, to: int) -> Seq<int>
    decreases to - from,
{
    if from >= to || gsize < 1 {
        Seq::empty()
    } else {
        let end = if from + gsize <= to {
            from + gsize
        } else {
            to
        };
        seq![from] + spec_group_starts(gsize, end, to)
    }
}

/// Alignment invariant: when a row's groups are rendered starting from a
/// group boundary, every rendered group starts at a row offset that is a
/// multiple of the group size.
pub proof fn lemma_group_alignment(gsize: nat, from: int, to: int)
    requires
        gsize >= 1,
        from >= 0,
        from % gsize as int == 0,
    ensures
        forall|i: int|
            0 <= i < spec_group_starts(gsize, from, to).len()
                ==> #[trigger] (spec_group_starts(gsize, from, to)[i]) % gsize as int == 0,
    decreases to - from,
{
    if from < to {
        crate::streamer::lemma_mod_add_self(from as nat, gsize);
        let end = if from + gsize <= to {
            from + gsize
        } else {
            to
        };
        if end == from + gsize {
            lemma_group_alignment(gsize, end, to);
        }
        assert forall|i: int| 0 <= i < spec_group_starts(gsize, from, to).len() implies #[trigger] (
        spec_group_starts(gsize, from, to)[i]) % gsize as int == 0 by {
            if i > 0 {
                assert(spec_group_starts(gsize, from, to)[i] == spec_group_starts(
                    gsize,
                    end,
                    to,
                )[i - 1]);
            }
        }
    }
}

} // verus!
