//! Builtin byte-column formatter: renders row bytes in a chosen numeral
//! style, with group separators and optional little-endian group reversal.
use vstd::prelude::*;
use vstd::string::StrSliceExecFns;
use vstd::string::StringSliceAdditionalSpecFns;

use crate::format::ByteFormatting;
use crate::format::Separators;
use crate::ordering::ByteOrder;
use crate::ordering::Group;
use crate::ordering::GroupingView;
use crate::ordering::Groupping;
use crate::ordering::clone_bytes;

verus! {

/// Numeral style for a single byte.
#[derive(Clone, Copy, PartialEq, Eq, Structural)]
pub enum ByteStyle {
    Hex,
    Bin,
    Dec,
    Oct,
    Ascii,
    CaretAscii,
}

/// Lowercase hexadecimal digit character for `d < 16`.
pub open spec fn spec_hex_digit(d: nat) -> u8 {
    if d < 10 {
        (0x30 + d) as u8
    } else {
        (0x61 + (d - 10)) as u8
    }
}

/// Is `b` a printable ASCII character (space through tilde)?
pub open spec fn spec_printable(b: u8) -> bool {
    0x20 <= b < 0x7f
}

/// The exact text a single byte renders to under `style`.
pub open spec fn spec_style_text(style: ByteStyle, b: u8) -> Seq<u8> {
    match style {
        ByteStyle::Hex => seq![
            spec_hex_digit(b as nat / 16),
            spec_hex_digit(b as nat % 16),
        ],
        ByteStyle::Bin => seq![
            (0x30 + (b / 128) % 2) as u8,
            (0x30 + (b / 64) % 2) as u8,
            (0x30 + (b / 32) % 2) as u8,
            (0x30 + (b / 16) % 2) as u8,
            (0x30 + (b / 8) % 2) as u8,
            (0x30 + (b / 4) % 2) as u8,
            (0x30 + (b / 2) % 2) as u8,
            (0x30 + b % 2) as u8,
        ],
        ByteStyle::Dec => if b >= 100 {
            seq![(0x30 + b / 100) as u8, (0x30 + (b / 10) % 10) as u8, (0x30 + b % 10) as u8]
        } else if b >= 10 {
            seq![0x20u8, (0x30 + b / 10) as u8, (0x30 + b % 10) as u8]
        } else {
            seq![0x20u8, 0x20u8, (0x30 + b) as u8]
        },
        ByteStyle::Oct => seq![
            (0x30 + b / 64) as u8,
            (0x30 + (b / 8) % 8) as u8,
            (0x30 + b % 8) as u8,
        ],
        ByteStyle::Ascii => if spec_printable(b) {
            seq![b]
        } else {
            seq![0x2eu8]
        },
        ByteStyle::CaretAscii => if b < 32 {
            seq![0x5eu8, (b + 64) as u8]
        } else if b == 0x3f {
            seq![0x5eu8, 0x3fu8]
        } else if spec_printable(b) {
            seq![0x20u8, b]
        } else {
            seq![0x20u8, 0x2eu8]
        },
    }
}

/// Relies on `ascii::AsciiChar::from_ascii`, which accepts exactly the bytes
/// up to `0x7f`, and `ascii::AsciiChar::is_ascii_printable`, which holds
/// exactly for space (`0x20`) through tilde (`0x7e`).
#[verifier::external_body]
fn ascii_printable(b: u8) -> (r: bool)
    ensures
        r == spec_printable(b),
{
    match ascii::AsciiChar::from_ascii(b) {
        Ok(ch) => ch.is_ascii_printable(),
        Err(_) => false,
    }
}

/// Append all of `src` to `dst`.
pub(crate) fn extend_bytes(dst: &mut Vec<u8>, src: &[u8])
    ensures
        final(dst)@ == old(dst)@ + src@,
    {
    let mut i: usize = 0;
    while i < src.len()
        invariant
            i <= src.len(),
            dst@ == old(dst)@ + src@.take(i as int),
        decreases src.len() - i,
    {
        dst.push(src[i]);
        proof {
            assert(src@.take(i + 1 as int) =~= src@.take(i as int).push(src@[i as int]));
        }
        i = i + 1;
    }
    proof {
        assert(src@.take(src@.len() as int) =~= src@);
    }
}

impl ByteStyle {
    /// Render one byte in this style.
    pub fn format_byte(&self, byte: u8) -> (r: Vec<u8>)
        ensures
            r@ == spec_style_text(*self, byte),
    {
        match self {
            ByteStyle::Hex => self.fmt_hex(byte),
            ByteStyle::Bin => self.fmt_bin(byte),
            ByteStyle::Dec => self.fmt_dec(byte),
            ByteStyle::Oct => self.fmt_oct(byte),
            ByteStyle::Ascii => self.fmt_ascii(byte),
            ByteStyle::CaretAscii => self.fmt_caret_ascii(byte),
        }
    }

    /// Two lowercase hexadecimal digits.
    pub fn fmt_hex(&self, byte: u8) -> (r: Vec<u8>)
        ensures
            r@ == spec_style_text(ByteStyle::Hex, byte),
    {
        let mut r: Vec<u8> = Vec::new();
        let hi = byte / 16;
        let lo = byte % 16;
        r.push(if hi < 10 { 0x30 + hi } else { 0x61 + (hi - 10) });
        r.push(if lo < 10 { 0x30 + lo } else { 0x61 + (lo - 10) });
        proof {
            assert(r@ =~= spec_style_text(ByteStyle::Hex, byte));
        }
        r
    }

    /// Eight binary digits, most significant first.
    pub fn fmt_bin(&self, byte: u8) -> (r: Vec<u8>)
        ensures
            r@ == spec_style_text(ByteStyle::Bin, byte),
    {
        let mut r: Vec<u8> = Vec::new();
        r.push(0x30 + (byte / 128) % 2);
        r.push(0x30 + (byte / 64) % 2);
        r.push(0x30 + (byte / 32) % 2);
        r.push(0x30 + (byte / 16) % 2);
        r.push(0x30 + (byte / 8) % 2);
        r.push(0x30 + (byte / 4) % 2);
        r.push(0x30 + (byte / 2) % 2);
        r.push(0x30 + byte % 2);
        proof {
            assert(r@ =~= spec_style_text(ByteStyle::Bin, byte));
        }
        r
    }

    /// Three decimal characters, right-aligned with spaces.
    pub fn fmt_dec(&self, byte: u8) -> (r: Vec<u8>)
        ensures
            r@ == spec_style_text(ByteStyle::Dec, byte),
    {
        let mut r: Vec<u8> = Vec::new();
        if byte >= 100 {
            r.push(0x30 + byte / 100);
            r.push(0x30 + (byte / 10) % 10);
            r.push(0x30 + byte % 10);
        } else if byte >= 10 {
            r.push(0x20);
            r.push(0x30 + byte / 10);
            r.push(0x30 + byte % 10);
        } else {
            r.push(0x20);
            r.push(0x20);
            r.push(0x30 + byte);
        }
        proof {
            assert(r@ =~= spec_style_text(ByteStyle::Dec, byte));
        }
        r
    }

    /// Three octal digits, zero-padded.
    pub fn fmt_oct(&self, byte: u8) -> (r: Vec<u8>)
        ensures
            r@ == spec_style_text(ByteStyle::Oct, byte),
    {
        let mut r: Vec<u8> = Vec::new();
        r.push(0x30 + byte / 64);
        r.push(0x30 + (byte / 8) % 8);
        r.push(0x30 + byte % 8);
        proof {
            assert(r@ =~= spec_style_text(ByteStyle::Oct, byte));
        }
        r
    }

    /// The character itself when printable, else a dot.
    pub fn fmt_ascii(&self, byte: u8) -> (r: Vec<u8>)
        ensures
            r@ == spec_style_text(ByteStyle::Ascii, byte),
    {
        let mut r: Vec<u8> = Vec::new();
        if ascii_printable(byte) {
            r.push(byte);
        } else {
            r.push(0x2e);
        }
        proof {
            assert(r@ =~= spec_style_text(ByteStyle::Ascii, byte));
        }
        r
    }

    /// Caret notation: control characters as `^` plus a letter, `?` as `^?`,
    /// printable characters with a leading space, anything else as a dot.
    pub fn fmt_caret_ascii(&self, byte: u8) -> (r: Vec<u8>)
        ensures
            r@ == spec_style_text(ByteStyle::CaretAscii, byte),
    {
        let mut r: Vec<u8> = Vec::new();
        if byte < 32 {
            r.push(0x5e);
            r.push(byte + 64);
        } else if byte == 0x3f {
            r.push(0x5e);
            r.push(0x3f);
        } else if ascii_printable(byte) {
            r.push(0x20);
            r.push(byte);
        } else {
            r.push(0x20);
            r.push(0x2e);
        }
        proof {
            assert(r@ =~= spec_style_text(ByteStyle::CaretAscii, byte));
        }
        r
    }
}

impl Default for ByteStyle {
    fn default() -> (r: ByteStyle)
        ensures
            r == ByteStyle::Hex,
    {
        ByteStyle::Hex
    }
}

/// The group separator written immediately before row-relative position
/// `pos`, when `pos` starts a group other than the first.
pub open spec fn spec_sep_at(g: GroupingView, sep: Seq<u8>, pos: int) -> Seq<u8> {
    if pos != 0 && pos % (g.gsize as int) == 0 {
        sep
    } else {
        Seq::empty()
    }
}

/// Text of one within-group run of bytes whose first output slot is position
/// `num` inside its group; a little-endian formatter emits the run reversed.
pub open spec fn spec_chunk_text(
    style: ByteStyle,
    le: bool,
    bsep: Seq<u8>,
    xs: Seq<u8>,
    num: int,
) -> Seq<u8>
    decreases xs.len(),
{
    if xs.len() == 0 {
        Seq::empty()
    } else {
        let b = if le {
            xs.last()
        } else {
            xs.first()
        };
        let rest = if le {
            xs.drop_last()
        } else {
            xs.drop_first()
        };
        (if num != 0 {
            bsep
        } else {
            Seq::empty()
        }) + spec_style_text(style, b) + spec_chunk_text(style, le, bsep, rest, num + 1)
    }
}

/// The exact text the builtin byte formatter renders for `bytes` starting at
/// row-relative position `pos`: the bytes are split at group boundaries, each
/// group-start other than the row start is preceded by the group separator,
/// and each run is rendered by `spec_chunk_text`.
pub open spec fn spec_byte_text(
    style: ByteStyle,
    le: bool,
    bsep: Seq<u8>,
    g: GroupingView,
    gsep: Seq<u8>,
    bytes: Seq<u8>,
    pos: int,
) -> Seq<u8>
    decreases bytes.len(),
{
    if g.gsize < 1 || bytes.len() == 0 || pos < 0 {
        Seq::empty()
    } else {
        let left = g.gsize as int - pos % (g.gsize as int);
        let k = if bytes.len() <= left {
            bytes.len() as int
        } else {
            left
        };
        spec_sep_at(g, gsep, pos) + spec_chunk_text(
            style,
            le,
            bsep,
            bytes.take(k),
            pos % (g.gsize as int),
        ) + spec_byte_text(style, le, bsep, g, gsep, bytes.skip(k), pos + k)
    }
}

/// The exact padding text filling a row from position `pos` to the row end:
/// two dots per missing byte, with the same separators real bytes get.
pub open spec fn spec_pad_text(bsep: Seq<u8>, g: GroupingView, gsep: Seq<u8>, pos: int) -> Seq<u8>
    decreases g.bpr() - pos,
{
    if pos < 0 || g.bpr() <= pos || g.gsize < 1 {
        Seq::empty()
    } else {
        (if pos != 0 && pos % (g.gsize as int) == 0 {
            gsep
        } else if pos % (g.gsize as int) != 0 {
            bsep
        } else {
            Seq::empty()
        }) + seq![0x2eu8, 0x2eu8] + spec_pad_text(bsep, g, gsep, pos + 1)
    }
}

/// Builtin byte formatter (used for the `second` column by default).
pub struct ByteFormatter {
    style: ByteStyle,
    groupping: Groupping,
    is_little_endian: bool,
    byte_separator: Vec<u8>,
    separators: Separators,
}

impl ByteFormatter {
    /// The numeral style this formatter renders bytes in.
    pub closed spec fn style_spec(&self) -> ByteStyle {
        self.style
    }

    /// Whether groups are rendered reversed (little-endian display).
    pub closed spec fn le_spec(&self) -> bool {
        self.is_little_endian
    }

    /// The text written between adjacent bytes of one group.
    pub closed spec fn bsep_spec(&self) -> Seq<u8> {
        self.byte_separator@
    }

    /// `style` - numeral style for single bytes.
    ///
    /// `groupping` - row layout.
    ///
    /// `byte_separator` - text between adjacent bytes of one group.
    ///
    /// `is_little_endian` - render each group's bytes in reverse order.
    ///
    /// `separators` - decoration around the whole byte column.
    ///
    /// A `groupping` with a zero group size or count, or a row too large for
    /// a machine word, falls back to the default layout.
    pub fn new(
        style: ByteStyle,
        groupping: Groupping,
        byte_separator: &str,
        is_little_endian: bool,
        separators: Separators,
    ) -> (r: ByteFormatter)
        ensures
            r.style_spec() == style,
            r.grp() == if groupping@.wf() {
                groupping@
            } else {
                (GroupingView {
                    gsize: crate::ordering::DEFAULT_GROUP_SIZE as nat,
                    count: crate::ordering::DEFAULT_NUMBER_OF_GROUPS as nat,
                    sep: " ".spec_bytes(),
                })
            },
            r.grp().wf(),
            r.bsep_spec() == byte_separator.spec_bytes(),
            r.le_spec() == is_little_endian,
            r.trail() == separators.trailing@,
            r.lead() == separators.leading@,
    {
        let groupping = if groupping.is_wf() {
            groupping
        } else {
            Groupping::default()
        };
        ByteFormatter {
            style,
            groupping,
            is_little_endian,
            byte_separator: byte_separator.as_bytes_vec(),
            separators,
        }
    }
}

impl Default for ByteFormatter {
    fn default() -> (r: ByteFormatter)
        ensures
            r.style_spec() == ByteStyle::Hex,
            r.grp().gsize == crate::ordering::DEFAULT_GROUP_SIZE as nat,
            r.grp().count == crate::ordering::DEFAULT_NUMBER_OF_GROUPS as nat,
            r.grp().sep == " ".spec_bytes(),
            r.grp().wf(),
            r.bsep_spec() == Seq::<u8>::empty(),
            r.le_spec() == false,
            r.trail() == Seq::<u8>::empty(),
            r.lead() == " ".spec_bytes(),
    {
        ByteFormatter {
            style: ByteStyle::Hex,
            groupping: Groupping::default(),
            is_little_endian: false,
            byte_separator: Vec::new(),
            separators: Separators::default(),
        }
    }
}

impl ByteFormatting for ByteFormatter {
    closed spec fn grp(&self) -> GroupingView {
        self.groupping@
    }


    open spec fn byte_order_spec(&self) -> ByteOrder {
        if self.le_spec() {
            ByteOrder::Strict
        } else {
            ByteOrder::Relaxed
        }
    }

    open spec fn byte_text(&self, bytes: Seq<u8>, pos: int) -> Seq<u8> {
        spec_byte_text(
            self.style_spec(),
            self.le_spec(),
            self.bsep_spec(),
            self.grp(),
            self.grp().sep,
            bytes,
            pos,
        )
    }

    open spec fn pad_text(&self, pos: int) -> Seq<u8> {
        spec_pad_text(self.bsep_spec(), self.grp(), self.grp().sep, pos)
    }

    closed spec fn trail(&self) -> Seq<u8> {
        self.separators.trailing@
    }

    closed spec fn lead(&self) -> Seq<u8> {
        self.separators.leading@
    }

    fn byte_order(&self) -> (r: ByteOrder) {
        if self.is_little_endian {
            ByteOrder::Strict
        } else {
            ByteOrder::Relaxed
        }
    }

    fn groupping(&self) -> (g: Groupping) {
        self.groupping.clone()
    }

    #[verifier::loop_isolation(false)]
    #[verifier::rlimit(30)]
    fn format(&self, bytes: &[u8], byte_number_in_row: usize) -> (r: Vec<u8>) {
        let gr = &self.groupping;
        let gs = gr.max_group_size();
        let sep = gr.separator();

        let mut r: Vec<u8> = Vec::new();
        let mut idx: usize = 0;
        let mut byte_number: usize = byte_number_in_row;

        proof {
            assert(bytes@.skip(0) =~= bytes@);
            crate::seq_facts::concat_empty_left(
                spec_byte_text(
                    self.style_spec(),
                    self.le_spec(),
                    self.bsep_spec(),
                    self.grp(),
                    self.grp().sep,
                    bytes@,
                    byte_number_in_row as int,
                ),
            );
        }

        while idx < bytes.len()
            invariant
                byte_number == byte_number_in_row + idx,
                idx <= bytes@.len(),
                self.byte_text(bytes@, byte_number_in_row as int) == r@ + spec_byte_text(
                    self.style_spec(),
                    self.le_spec(),
                    self.bsep_spec(),
                    self.grp(),
                    self.grp().sep,
                    bytes@.skip(idx as int),
                    byte_number as int,
                ),
            decreases bytes@.len() - idx,
        {
            let bytes_left_in_group = gr.bytes_left_in_group_after(byte_number);
            let rest = bytes.len() - idx;
            let to_format = if rest < bytes_left_in_group {
                rest
            } else {
                bytes_left_in_group
            };

            let ghost remaining = bytes@.skip(idx as int);
            let ghost chunk = remaining.take(to_format as int);
            let ghost chunk_t = spec_chunk_text(
                self.style_spec(),
                self.le_spec(),
                self.bsep_spec(),
                chunk,
                byte_number as int % self.grp().gsize as int,
            );
            let ghost sep_t = spec_sep_at(self.grp(), self.grp().sep, byte_number as int);
            let ghost tail_text = spec_byte_text(
                self.style_spec(),
                self.le_spec(),
                self.bsep_spec(),
                self.grp(),
                self.grp().sep,
                remaining.skip(to_format as int),
                byte_number + to_format,
            );
            let ghost r0 = r@;
            proof {
                assert(remaining.len() > 0);
                assert(spec_byte_text(
                    self.style_spec(),
                    self.le_spec(),
                    self.bsep_spec(),
                    self.grp(),
                    self.grp().sep,
                    remaining,
                    byte_number as int,
                ) == sep_t + chunk_t + tail_text);
            }

            let needs_separator = byte_number != 0 && gr.is_aligned_at(byte_number);
            if needs_separator {
                extend_bytes(&mut r, sep.as_slice());
            }
            proof {
                crate::seq_facts::concat_assoc(sep_t, chunk_t, tail_text);
                crate::seq_facts::concat_assoc(r0, sep_t, chunk_t + tail_text);
                if !needs_separator {
                    assert(sep_t =~= Seq::<u8>::empty());
                    crate::seq_facts::concat_empty_right(r0);
                }
                assert(r@ == r0 + sep_t);
                assert(self.byte_text(bytes@, byte_number_in_row as int) == r@ + (chunk_t
                    + tail_text));
                if self.le_spec() {
                    assert(chunk.take(to_format as int) =~= chunk);
                } else {
                    assert(chunk.skip(0) =~= chunk);
                }
            }

            let mut num: usize = byte_number % gs;
            let mut j: usize = 0;
            while j < to_format
                invariant
                    j <= to_format,
                    num == byte_number as nat % self.grp().gsize + j,
                    self.byte_text(bytes@, byte_number_in_row as int) == r@ + (spec_chunk_text(
                        self.style_spec(),
                        self.le_spec(),
                        self.bsep_spec(),
                        (if self.le_spec() {
                            chunk.take(to_format - j)
                        } else {
                            chunk.skip(j as int)
                        }),
                        num as int,
                    ) + tail_text),
                decreases to_format - j,
            {
                let ghost part = if self.le_spec() {
                    chunk.take(to_format - j)
                } else {
                    chunk.skip(j as int)
                };
                let ghost part2 = if self.le_spec() {
                    chunk.take(to_format - (j + 1))
                } else {
                    chunk.skip(j + 1 as int)
                };
                let ghost r1 = r@;
                let ghost bs_t = if num != 0 {
                    self.bsep_spec()
                } else {
                    Seq::<u8>::empty()
                };
                if num != 0 {
                    extend_bytes(&mut r, self.byte_separator.as_slice());
                }
                let b = if self.is_little_endian {
                    bytes[idx + to_format - 1 - j]
                } else {
                    bytes[idx + j]
                };
                proof {
                    if self.le_spec() {
                        assert(part.last() == chunk[to_format - 1 - j]);
                        assert(part.drop_last() =~= part2);
                        assert(b == part.last());
                    } else {
                        assert(part.first() == chunk[j as int]);
                        assert(part.drop_first() =~= part2);
                        assert(b == part.first());
                    }
                }
                let text = self.style.format_byte(b);
                extend_bytes(&mut r, text.as_slice());
                proof {
                    let st = spec_style_text(self.style_spec(), b);
                    let rec = spec_chunk_text(
                        self.style_spec(),
                        self.le_spec(),
                        self.bsep_spec(),
                        part2,
                        num + 1,
                    );
                    assert(spec_chunk_text(
                        self.style_spec(),
                        self.le_spec(),
                        self.bsep_spec(),
                        part,
                        num as int,
                    ) == bs_t + st + rec);
                    crate::seq_facts::concat_assoc(bs_t + st, rec, tail_text);
                    crate::seq_facts::concat_assoc(r1, bs_t + st, rec + tail_text);
                    crate::seq_facts::concat_assoc(r1, bs_t, st);
                    if num == 0 {
                        crate::seq_facts::concat_empty_right(r1);
                    }
                    assert(r@ == (r1 + bs_t) + st);
                    assert(self.byte_text(bytes@, byte_number_in_row as int) == r@ + (rec
                        + tail_text));
                }
                num = num + 1;
                j = j + 1;
            }

            proof {
                if self.le_spec() {
                    assert(chunk.take(0) =~= Seq::<u8>::empty());
                } else {
                    assert(chunk.skip(to_format as int) =~= Seq::<u8>::empty());
                }
                crate::seq_facts::concat_empty_left(tail_text);
                assert(bytes@.skip(idx as int).skip(to_format as int) =~= bytes@.skip(
                    idx + to_format,
                ));
            }

            byte_number = byte_number + to_format;
            idx = idx + to_format;
        }
        proof {
            assert(bytes@.skip(bytes@.len() as int) =~= Seq::<u8>::empty());
            crate::seq_facts::concat_empty_right(r@);
        }
        r
    }

    #[verifier::loop_isolation(false)]
    #[verifier::rlimit(30)]
    fn format_padding(&self, byte_number_in_row: usize) -> (r: Vec<u8>) {
        let gr = &self.groupping;
        let gs = gr.max_group_size();
        let sep = gr.separator();
        let bpr = gr.bytes_per_row();

        let mut r: Vec<u8> = Vec::new();
        let mut pos: usize = byte_number_in_row;
        proof {
            crate::seq_facts::concat_empty_left(
                spec_pad_text(
                    self.bsep_spec(),
                    self.grp(),
                    self.grp().sep,
                    byte_number_in_row as int,
                ),
            );
        }
        while pos < bpr
            invariant
                byte_number_in_row <= pos <= bpr,
                self.pad_text(byte_number_in_row as int) == r@ + spec_pad_text(
                    self.bsep_spec(),
                    self.grp(),
                    self.grp().sep,
                    pos as int,
                ),
            decreases bpr - pos,
        {
            let ghost r0 = r@;
            let ghost gsz = self.grp().gsize as int;
            let ghost sep_t = if pos != 0 && pos as int % gsz == 0 {
                self.grp().sep
            } else if pos as int % gsz != 0 {
                self.bsep_spec()
            } else {
                Seq::<u8>::empty()
            };
            let ghost dots = seq![0x2eu8, 0x2eu8];
            let ghost rec = spec_pad_text(self.bsep_spec(), self.grp(), self.grp().sep, pos + 1);
            proof {
                assert(spec_pad_text(self.bsep_spec(), self.grp(), self.grp().sep, pos as int)
                    == sep_t + dots + rec);
            }
            if pos != 0 && pos % gs == 0 {
                extend_bytes(&mut r, sep.as_slice());
            } else if pos % gs != 0 {
                extend_bytes(&mut r, self.byte_separator.as_slice());
            }
            proof {
                if pos == 0 {
                    crate::seq_facts::concat_empty_right(r0);
                }
                assert(r@ == r0 + sep_t);
            }
            r.push(0x2e);
            r.push(0x2e);
            proof {
                assert(r@ =~= (r0 + sep_t) + dots);
                crate::seq_facts::concat_assoc(sep_t, dots, rec);
                crate::seq_facts::concat_assoc(r0, sep_t, dots + rec);
                crate::seq_facts::concat_assoc(r0 + sep_t, dots, rec);
                assert(self.pad_text(byte_number_in_row as int) == r@ + rec);
            }
            pos = pos + 1;
        }
        proof {
            crate::seq_facts::concat_empty_right(r@);
        }
        r
    }

    fn separators(&self) -> (r: &Separators) {
        &self.separators
    }
}

} // verus!
