//! Builtin address-column formatter: renders the row address as a padded
//! decimal, hexadecimal, binary or octal numeral.
use vstd::prelude::*;
use vstd::string::StringSliceAdditionalSpecFns;

use crate::byte_fmt::spec_hex_digit;
use crate::format::AddressFormatting;
use crate::format::Separators;

verus! {

/// Address numeral style, each with a minimum printed width.
#[derive(Clone, Copy)]
pub enum AddressStyle {
    /// Decimal, right-aligned with spaces to the given minimum width.
    Dec(usize),
    /// Lowercase hexadecimal, zero-padded to the given minimum width.
    Hex(usize),
    /// Binary, zero-padded to the given minimum width.
    Bin(usize),
    /// Octal, zero-padded to the given minimum width.
    Oct(usize),
}

/// The digits of `n` in `base`, most significant first; empty for zero.
pub open spec fn spec_digits(n: nat, base: nat) -> Seq<u8>
    decreases n,
    via spec_digits_decreases
{
    if base < 2 || n == 0 {
        Seq::empty()
    } else {
        spec_digits(n / base, base) + seq![spec_hex_digit(n % base)]
    }
}

#[via_fn]
proof fn spec_digits_decreases(n: nat, base: nat) {
    if base >= 2 && n > 0 {
        vstd::arithmetic::div_mod::lemma_div_decreases(n as int, base as int);
    }
}

/// `k` copies of the character `c`.
pub open spec fn spec_repeat(c: u8, k: int) -> Seq<u8> {
    if k < 0 {
        Seq::empty()
    } else {
        Seq::new(k as nat, |i: int| c)
    }
}

/// Numeral base of a style.
pub open spec fn spec_style_base(style: AddressStyle) -> nat {
    match style {
        AddressStyle::Dec(_) => 10,
        AddressStyle::Hex(_) => 16,
        AddressStyle::Bin(_) => 2,
        AddressStyle::Oct(_) => 8,
    }
}

/// Minimum printed width of a style.
pub open spec fn spec_style_width(style: AddressStyle) -> nat {
    match style {
        AddressStyle::Dec(w) => w as nat,
        AddressStyle::Hex(w) => w as nat,
        AddressStyle::Bin(w) => w as nat,
        AddressStyle::Oct(w) => w as nat,
    }
}

/// Fill character a short numeral is padded with: spaces for decimal,
/// zeros otherwise.
pub open spec fn spec_style_fill(style: AddressStyle) -> u8 {
    match style {
        AddressStyle::Dec(_) => 0x20,
        _ => 0x30,
    }
}

/// The exact text an address renders to: its digits in the style's base,
/// left-padded with the style's fill character up to the minimum width.
pub open spec fn spec_addr_text(style: AddressStyle, addr: usize) -> Seq<u8> {
    let ds = if addr == 0 {
        seq![0x30u8]
    } else {
        spec_digits(addr as nat, spec_style_base(style))
    };
    spec_repeat(spec_style_fill(style), spec_style_width(style) - ds.len()) + ds
}

impl AddressStyle {
    /// Render `addr` in this style.
    #[verifier::loop_isolation(false)]
    #[verifier::rlimit(60)]
    pub fn format(&self, addr: usize) -> (r: Vec<u8>)
        ensures
            r@ == spec_addr_text(*self, addr),
    {
        let (base, width, fill): (usize, usize, u8) = match self {
            AddressStyle::Dec(w) => (10, *w, 0x20),
            AddressStyle::Hex(w) => (16, *w, 0x30),
            AddressStyle::Bin(w) => (2, *w, 0x30),
            AddressStyle::Oct(w) => (8, *w, 0x30),
        };

        let mut rev: Vec<u8> = Vec::new();
        let mut n: usize = addr;
        if n == 0 {
            rev.push(0x30);
            proof {
                assert(rev@.reverse() =~= seq![0x30u8]);
            }
        } else {
            proof {
                assert(rev@.reverse() =~= Seq::<u8>::empty());
                crate::seq_facts::concat_empty_right(spec_digits(addr as nat, base as nat));
            }
            while n > 0
                invariant
                    spec_digits(addr as nat, base as nat) == spec_digits(n as nat, base as nat)
                        + rev@.reverse(),
                decreases n,
            {
                let d = n % base;
                let d8: u8 = d as u8;
                let c: u8 = if d8 < 10 {
                    0x30 + d8
                } else {
                    0x61 + (d8 - 10)
                };
                let ghost rev0 = rev@;
                rev.push(c);
                proof {
                    assert(c == spec_hex_digit(n as nat % base as nat));
                    assert(rev@.reverse() =~= seq![c] + rev0.reverse());
                    assert(spec_digits(n as nat, base as nat) == spec_digits(
                        n as nat / base as nat,
                        base as nat,
                    ) + seq![c]);
                    crate::seq_facts::concat_assoc(
                        spec_digits(n as nat / base as nat, base as nat),
                        seq![c],
                        rev0.reverse(),
                    );
                }
                n = n / base;
            }
            proof {
                assert(spec_digits(0, base as nat) == Seq::<u8>::empty());
                crate::seq_facts::concat_empty_left(rev@.reverse());
            }
        }

        let ghost ds = rev@.reverse();
        proof {
            assert(ds == if addr == 0 {
                seq![0x30u8]
            } else {
                spec_digits(addr as nat, base as nat)
            });
        }

        let mut r: Vec<u8> = Vec::new();
        let mut k: usize = rev.len();
        proof {
            assert(spec_repeat(fill, 0) =~= Seq::<u8>::empty());
        }
        while k < width
            invariant
                rev.len() <= k,
                k <= width || k == rev@.len(),
                r@ == spec_repeat(fill, k - rev@.len()),
            decreases width - k,
        {
            r.push(fill);
            proof {
                assert(spec_repeat(fill, k + 1 - rev@.len()) =~= spec_repeat(
                    fill,
                    k - rev@.len(),
                ).push(fill));
            }
            k = k + 1;
        }
        proof {
            assert(rev@.len() == ds.len());
            if width <= rev@.len() {
                assert(k == rev@.len());
                assert(spec_repeat(fill, spec_style_width(*self) - ds.len()) =~= spec_repeat(
                    fill,
                    0,
                ));
            } else {
                assert(k == width);
            }
            assert(r@ == spec_repeat(fill, spec_style_width(*self) - ds.len()));
        }

        let ghost pad = r@;
        let mut i: usize = rev.len();
        proof {
            assert(ds.take(0) =~= Seq::<u8>::empty());
            crate::seq_facts::concat_empty_right(pad);
        }
        while i > 0
            invariant
                i <= rev.len(),
                r@ == pad + ds.take(rev@.len() - i),
            decreases i,
        {
            i = i - 1;
            r.push(rev[i]);
            proof {
                assert(ds[rev@.len() - i - 1] == rev@[i as int]);
                assert(r@ =~= pad + ds.take(rev@.len() - i));
            }
        }
        proof {
            assert(ds.take(rev@.len() as int) =~= ds);
        }
        r
    }
}

impl Default for AddressStyle {
    fn default() -> (r: AddressStyle)
        ensures
            r == AddressStyle::Hex(8usize),
    {
        AddressStyle::Hex(8)
    }
}

/// Builtin address formatter.
pub struct AddressFormatter {
    pub style: AddressStyle,
    pub separators: Separators,
}

impl AddressFormatter {
    pub fn new(style: AddressStyle, separators: Separators) -> (r: AddressFormatter)
        ensures
            r.style == style,
            r.separators.trailing@ == separators.trailing@,
            r.separators.leading@ == separators.leading@,
    {
        AddressFormatter { style, separators }
    }
}

impl Default for AddressFormatter {
    fn default() -> (r: AddressFormatter)
        ensures
            r.style == AddressStyle::Hex(8usize),
            r.trail() == Seq::<u8>::empty(),
            r.lead() == " ".spec_bytes(),
    {
        AddressFormatter { style: AddressStyle::Hex(8), separators: Separators::default() }
    }
}

impl AddressFormatting for AddressFormatter {
    open spec fn addr_text(&self, addr: usize) -> Seq<u8> {
        spec_addr_text(self.style, addr)
    }

    open spec fn trail(&self) -> Seq<u8> {
        self.separators.trailing@
    }

    open spec fn lead(&self) -> Seq<u8> {
        self.separators.leading@
    }

    fn format(&self, addr: usize) -> (r: Vec<u8>) {
        self.style.format(addr)
    }

    fn separators(&self) -> (r: &Separators) {
        &self.separators
    }
}

} // verus!
