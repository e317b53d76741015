//! Capability interfaces consumed by the formatting engine: address, byte and
//! character column formatters, and the separator decoration around a column.
//!
//! Each trait pairs every executable method with a spec function giving the
//! exact text the method returns, so the engine's output can be described
//! precisely for any conforming formatter.
use vstd::prelude::*;
use vstd::string::StrSliceExecFns;
use vstd::string::StringSliceAdditionalSpecFns;

use crate::ordering::ByteOrder;
use crate::ordering::GroupingView;
use crate::ordering::Groupping;

verus! {

/// Decoration written immediately before (`trailing`) and after (`leading`)
/// a column's text.
pub struct Separators {
    pub trailing: Vec<u8>,
    pub leading: Vec<u8>,
}

impl Separators {
    /// `trailing` is written before the column, `leading` after it.
    pub fn new(trailing: &str, leading: &str) -> (s: Separators)
        ensures
            s.trailing@ == trailing.spec_bytes(),
            s.leading@ == leading.spec_bytes(),
    {
        Separators { trailing: trailing.as_bytes_vec(), leading: leading.as_bytes_vec() }
    }
}

impl Clone for Separators {
    fn clone(&self) -> (s: Separators)
        ensures
            s.trailing@ == self.trailing@,
            s.leading@ == self.leading@,
    {
        Separators {
            trailing: crate::ordering::clone_bytes(&self.trailing),
            leading: crate::ordering::clone_bytes(&self.leading),
        }
    }
}

impl Default for Separators {
    fn default() -> (s: Separators)
        ensures
            s.trailing@ == Seq::<u8>::empty(),
            s.leading@ == " ".spec_bytes(),
    {
        let s = Separators::new("", " ");
        proof {
            reveal_strlit("");
            assert(s.trailing@ =~= Seq::<u8>::empty());
        }
        s
    }
}

/// Address-column formatter (`first` column).
pub trait AddressFormatting: Sized {
    /// The text `format` renders for `addr`.
    spec fn addr_text(&self, addr: usize) -> Seq<u8>;

    /// Decoration written before the address text.
    spec fn trail(&self) -> Seq<u8>;

    /// Decoration written after the address text.
    spec fn lead(&self) -> Seq<u8>;

    fn format(&self, addr: usize) -> (r: Vec<u8>)
        ensures
            r@ == self.addr_text(addr),
    ;

    fn separators(&self) -> (r: &Separators)
        ensures
            r.trailing@ == self.trail(),
            r.leading@ == self.lead(),
    ;
}

/// Byte-column formatter (`second` column).
pub trait ByteFormatting: Sized {
    /// The row layout this formatter renders.
    spec fn grp(&self) -> GroupingView;

    /// Whether this formatter must receive complete groups.
    spec fn byte_order_spec(&self) -> ByteOrder;

    /// The text `format` renders for `bytes` starting at row-relative
    /// position `pos`.
    spec fn byte_text(&self, bytes: Seq<u8>, pos: int) -> Seq<u8>;

    /// The text `format_padding` renders to fill a row from row-relative
    /// position `pos` to the end of the row.
    spec fn pad_text(&self, pos: int) -> Seq<u8>;

    /// Decoration written before the byte column.
    spec fn trail(&self) -> Seq<u8>;

    /// Decoration written after the byte column.
    spec fn lead(&self) -> Seq<u8>;

    /// Requirement for byte portions passed to `format`.
    fn byte_order(&self) -> (r: ByteOrder)
        ensures
            r == self.byte_order_spec(),
    ;

    fn groupping(&self) -> (g: Groupping)
        ensures
            g@ == self.grp(),
    ;

    /// Total bytes rendered in one row.
    fn bytes_per_row(&self) -> (r: usize)
        requires
            self.grp().wf(),
        ensures
            r == self.grp().bpr(),
    {
        self.groupping().bytes_per_row()
    }

    /// Render `bytes`, the row bytes starting at row-relative position
    /// `byte_number_in_row`, including any group separators that fall inside
    /// or immediately before the range.
    fn format(&self, bytes: &[u8], byte_number_in_row: usize) -> (r: Vec<u8>)
        requires
            self.grp().wf(),
            byte_number_in_row + bytes@.len() <= self.grp().bpr(),
        ensures
            r@ == self.byte_text(bytes@, byte_number_in_row as int),
    ;

    /// Render the spacing that stands in for the missing bytes of an
    /// incomplete row, from `byte_number_in_row` to the end of the row.
    fn format_padding(&self, byte_number_in_row: usize) -> (r: Vec<u8>)
        requires
            self.grp().wf(),
            byte_number_in_row <= self.grp().bpr(),
        ensures
            r@ == self.pad_text(byte_number_in_row as int),
    ;

    fn separators(&self) -> (r: &Separators)
        ensures
            r.trailing@ == self.trail(),
            r.leading@ == self.lead(),
    ;
}

/// Character-column formatter (`third` column).
pub trait CharFormatting: Sized {
    /// The text `format` renders for `bytes`.
    spec fn char_text(&self, bytes: Seq<u8>) -> Seq<u8>;

    /// The text `format_padding` renders for `count` missing bytes.
    spec fn pad_text(&self, count: int) -> Seq<u8>;

    /// Decoration written before the character column.
    spec fn trail(&self) -> Seq<u8>;

    /// Decoration written after the character column.
    spec fn lead(&self) -> Seq<u8>;

    fn format(&self, bytes: &[u8]) -> (r: Vec<u8>)
        ensures
            r@ == self.char_text(bytes@),
    ;

    fn format_padding(&self, byte_count: usize) -> (r: Vec<u8>)
        ensures
            r@ == self.pad_text(byte_count as int),
    ;

    fn separators(&self) -> (r: &Separators)
        ensures
            r.trailing@ == self.trail(),
            r.leading@ == self.lead(),
    ;
}

} // verus!
