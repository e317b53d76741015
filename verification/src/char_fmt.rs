//! Builtin character-column formatter: printable ASCII passes through,
//! anything else renders as a placeholder; padding is plain spaces.
use vstd::prelude::*;
use vstd::string::StrSliceExecFns;
use vstd::string::StringSliceAdditionalSpecFns;

use crate::address_fmt::spec_repeat;
use crate::byte_fmt::extend_bytes;
use crate::byte_fmt::spec_printable;
use crate::format::CharFormatting;
use crate::format::Separators;

verus! {

/// The exact text the builtin character formatter renders: each printable
/// ASCII byte stands for itself, every other byte becomes `placeholder`.
pub open spec fn spec_char_text(placeholder: Seq<u8>, bytes: Seq<u8>) -> Seq<u8>
    decreases bytes.len(),
{
    if bytes.len() == 0 {
        Seq::empty()
    } else {
        (if spec_printable(bytes.first()) {
            seq![bytes.first()]
        } else {
            placeholder
        }) + spec_char_text(placeholder, bytes.drop_first())
    }
}

/// Relies on `ascii::AsciiChar::from_ascii`, which accepts exactly the bytes
/// up to `0x7f`, `ascii::AsciiChar::is_ascii_printable` (space through
/// tilde) and `ascii::AsciiChar::is_ascii_control` (below space, or delete):
/// together they accept exactly space (`0x20`) through tilde (`0x7e`).
#[verifier::external_body]
fn ascii_printable_char(b: u8) -> (r: bool)
    ensures
        r == spec_printable(b),
{
    match ascii::AsciiChar::from_ascii(b) {
        Ok(ch) => ch.is_ascii_printable() && !ch.is_ascii_control(),
        Err(_) => false,
    }
}

/// Builtin character formatter (used for the `third` column by default).
pub struct CharFormatter {
    placeholder: Vec<u8>,
    separators: Separators,
}

impl CharFormatter {
    /// The placeholder text standing in for unprintable bytes.
    pub closed spec fn ph_spec(&self) -> Seq<u8> {
        self.placeholder@
    }

    /// `placeholder` - text substituted for every unprintable byte.
    ///
    /// `separators` - decoration around the character column.
    pub fn new(placeholder: &str, separators: Separators) -> (r: CharFormatter)
        ensures
            r.ph_spec() == placeholder.spec_bytes(),
            r.trail() == separators.trailing@,
            r.lead() == separators.leading@,
    {
        CharFormatter { placeholder: placeholder.as_bytes_vec(), separators }
    }
}

impl Default for CharFormatter {
    fn default() -> (r: CharFormatter)
        ensures
            r.ph_spec() == ".".spec_bytes(),
            r.trail() == "|".spec_bytes(),
            r.lead() == "|".spec_bytes(),
    {
        CharFormatter::new(".", Separators::new("|", "|"))
    }
}

impl CharFormatting for CharFormatter {
    open spec fn char_text(&self, bytes: Seq<u8>) -> Seq<u8> {
        spec_char_text(self.ph_spec(), bytes)
    }

    open spec fn pad_text(&self, count: int) -> Seq<u8> {
        spec_repeat(0x20, count)
    }

    closed spec fn trail(&self) -> Seq<u8> {
        self.separators.trailing@
    }

    closed spec fn lead(&self) -> Seq<u8> {
        self.separators.leading@
    }

    #[verifier::loop_isolation(false)]
    fn format(&self, bytes: &[u8]) -> (r: Vec<u8>) {
        let mut r: Vec<u8> = Vec::new();
        let mut i: usize = 0;
        proof {
            assert(bytes@.skip(0) =~= bytes@);
            crate::seq_facts::concat_empty_left(spec_char_text(self.ph_spec(), bytes@));
        }
        while i < bytes.len()
            invariant
                i <= bytes@.len(),
                self.char_text(bytes@) == r@ + spec_char_text(
                    self.ph_spec(),
                    bytes@.skip(i as int),
                ),
            decreases bytes@.len() - i,
        {
            let ghost rest = bytes@.skip(i as int);
            let ghost r0 = r@;
            let ghost head = if spec_printable(rest.first()) {
                seq![rest.first()]
            } else {
                self.ph_spec()
            };
            let b = bytes[i];
            if ascii_printable_char(b) {
                r.push(b);
                proof {
                    assert(r@ =~= r0 + head);
                }
            } else {
                extend_bytes(&mut r, self.placeholder.as_slice());
            }
            proof {
                assert(spec_char_text(self.ph_spec(), rest) == head + spec_char_text(
                    self.ph_spec(),
                    rest.drop_first(),
                ));
                assert(rest.drop_first() =~= bytes@.skip(i + 1 as int));
                crate::seq_facts::concat_assoc(
                    r0,
                    head,
                    spec_char_text(self.ph_spec(), rest.drop_first()),
                );
            }
            i = i + 1;
        }
        proof {
            assert(bytes@.skip(bytes@.len() as int) =~= Seq::<u8>::empty());
            crate::seq_facts::concat_empty_right(r@);
        }
        r
    }

    #[verifier::loop_isolation(false)]
    fn format_padding(&self, byte_count: usize) -> (r: Vec<u8>) {
        let mut r: Vec<u8> = Vec::new();
        let mut i: usize = 0;
        proof {
            assert(spec_repeat(0x20, 0) =~= Seq::<u8>::empty());
        }
        while i < byte_count
            invariant
                i <= byte_count,
                r@ == spec_repeat(0x20, i as int),
            decreases byte_count - i,
        {
            r.push(0x20);
            proof {
                assert(spec_repeat(0x20, i + 1 as int) =~= spec_repeat(0x20, i as int).push(0x20));
            }
            i = i + 1;
        }
        r
    }

    fn separators(&self) -> (r: &Separators) {
        &self.separators
    }
}

} // verus!
