//! Formatting configuration handed to a `Printer`.
use vstd::prelude::*;

use crate::format::AddressFormatting;
use crate::format::ByteFormatting;
use crate::format::CharFormatting;

verus! {

/// Configuration of formatting.
pub struct Config<A: AddressFormatting, B: ByteFormatting, C: CharFormatting> {
    /// Address formatter, used for printing the address starting each row;
    /// `None` drops the address column.
    pub addr: Option<A>,
    /// Byte formatter, used for printing the raw data column.
    pub byte: B,
    /// Character formatter, used for printing the text column closing each
    /// row; `None` drops that column.
    pub text: Option<C>,
    /// Row deduplication: when set, a run of rows identical to the previous
    /// row is replaced by a single wildcard line.
    pub dedup_enabled: bool,
}

impl<A: AddressFormatting, B: ByteFormatting, C: CharFormatting> Config<A, B, C> {
    /// Create a new config from the three column formatters and the
    /// deduplication switch.
    pub fn new(
        address_format: Option<A>,
        byte_format: B,
        text_format: Option<C>,
        dedup_enabled: bool,
    ) -> (r: Config<A, B, C>)
        ensures
            r.addr == address_format,
            r.byte == byte_format,
            r.text == text_format,
            r.dedup_enabled == dedup_enabled,
    {
        Config { addr: address_format, byte: byte_format, text: text_format, dedup_enabled }
    }
}

impl<
    A: AddressFormatting + Default,
    B: ByteFormatting + Default,
    C: CharFormatting + Default,
> Default for Config<A, B, C> {
    fn default() -> (r: Config<A, B, C>)
        ensures
            r.addr is Some,
            r.text is Some,
            r.dedup_enabled == true,
    {
        Config {
            addr: Some(A::default()),
            byte: B::default(),
            text: Some(C::default()),
            dedup_enabled: true,
        }
    }
}

} // verus!
