//! Parsing of command-line style argument strings into formatting choices:
//! address style, byte style, and row grouping.
use vstd::prelude::*;
use vstd::string::StrSliceExecFns;
use vstd::string::StringSliceAdditionalSpecFns;

use crate::address_fmt::AddressStyle;
use crate::byte_fmt::ByteStyle;
use crate::ordering::Group;
use crate::ordering::Groupping;
use crate::ordering::GroupingView;
use crate::ordering::DEFAULT_GROUP_SIZE;
use crate::result::AppError;
use crate::result::AppResult;

verus! {

/// Is the text one or more decimal digits?
pub open spec fn spec_digits(cs: Seq<char>) -> bool {
    cs.len() >= 1 && forall|i: int| 0 <= i < cs.len() ==> '0' <= #[trigger] cs[i] <= '9'
}

/// The decimal value of a digit string.
pub open spec fn spec_dec_val(cs: Seq<char>) -> int
    decreases cs.len(),
{
    if cs.len() == 0 {
        0
    } else {
        spec_dec_val(cs.drop_last()) * 10 + (cs.last() as u32 - 0x30)
    }
}

/// A digit string's value is nonnegative.
proof fn lemma_dec_val_nonneg(cs: Seq<char>)
    requires
        forall|i: int| 0 <= i < cs.len() ==> '0' <= #[trigger] cs[i] <= '9',
    ensures
        spec_dec_val(cs) >= 0,
    decreases cs.len(),
{
    if cs.len() > 0 {
        lemma_dec_val_nonneg(cs.drop_last());
    }
}

/// Once a prefix's value exceeds the machine word, appending any further
/// characters cannot bring the value back down into range.
proof fn lemma_dec_val_grows(cs: Seq<char>, j: int)
    requires
        0 <= j <= cs.len(),
        spec_dec_val(cs.take(j)) > usize::MAX,
    ensures
        spec_dec_val(cs) > usize::MAX,
    decreases cs.len() - j,
{
    if j < cs.len() {
        let next = cs.take(j + 1);
        assert(next.drop_last() =~= cs.take(j));
        lemma_dec_val_grows(cs, j + 1);
    } else {
        assert(cs.take(j) =~= cs);
    }
}

/// Parse the decimal number written in character positions `[from, to)` of
/// `s`: the digits' value if the range is all digits and the value fits in
/// a machine word.
fn parse_usize_range(s: &str, from: usize, to: usize) -> (r: Option<usize>)
    requires
        from <= to,
        to <= s@.len(),
    ensures
        ({
            let cs = s@.subrange(from as int, to as int);
            match r {
                Some(v) => spec_digits(cs) && v == spec_dec_val(cs),
                None => !(spec_digits(cs) && spec_dec_val(cs) <= usize::MAX),
            }
        }),
{
    let ghost cs = s@.subrange(from as int, to as int);
    if from == to {
        return None;
    }
    let mut acc: usize = 0;
    let mut i: usize = from;
    while i < to
        invariant
            from <= i <= to,
            to <= s@.len(),
            cs == s@.subrange(from as int, to as int),
            forall|j: int| 0 <= j < i - from ==> '0' <= #[trigger] cs[j] <= '9',
            acc == spec_dec_val(cs.take(i - from)),
        decreases to - i,
    {
        let c = s.get_char(i);
        if c < '0' || c > '9' {
            proof {
                assert(cs[i - from] == c);
            }
            return None;
        }
        let d: usize = ((c as u32) - 0x30) as usize;
        let ghost prefix = cs.take(i - from);
        let ghost next = cs.take(i + 1 - from);
        proof {
            assert(next.drop_last() =~= prefix);
            assert(next.last() == c);
        }
        let wide = match acc.checked_mul(10) {
            Some(x) => x.checked_add(d),
            None => None,
        };
        match wide {
            Some(y) => {
                acc = y;
            },
            None => {
                proof {
                    lemma_dec_val_nonneg(prefix);
                    assert(spec_dec_val(next) > usize::MAX);
                    lemma_dec_val_grows(cs, i + 1 - from);
                }
                return None;
            },
        }
        i = i + 1;
    }
    proof {
        assert(cs.take(to - from) =~= cs);
    }
    Some(acc)
}

/// The address style an argument string denotes: its first character picks
/// the numeral base, the remaining characters give the minimum width,
/// defaulting to eight.
pub open spec fn spec_addr_style_arg(cs: Seq<char>) -> Option<AddressStyle> {
    if cs.len() == 0 {
        None
    } else {
        let rest = cs.subrange(1, cs.len() as int);
        let w: Option<int> = if rest.len() == 0 {
            Some(8)
        } else if spec_digits(rest) && spec_dec_val(rest) <= usize::MAX {
            Some(spec_dec_val(rest))
        } else {
            None
        };
        match w {
            Some(w) => if cs[0] == 'h' {
                Some(AddressStyle::Hex(w as usize))
            } else if cs[0] == 'b' {
                Some(AddressStyle::Bin(w as usize))
            } else if cs[0] == 'd' {
                Some(AddressStyle::Dec(w as usize))
            } else if cs[0] == 'o' {
                Some(AddressStyle::Oct(w as usize))
            } else {
                None
            },
            None => None,
        }
    }
}

impl AddressStyle {
    /// Parse an address-format argument such as `h8`, `d`, `o12` or `b16`.
    pub fn from_arg_str(fmt_str: String) -> (r: AppResult<AddressStyle>)
        requires
            fmt_str@.len() >= 1,
        ensures
            ({
                match r {
                    Ok(style) => spec_addr_style_arg(fmt_str@) == Some(style),
                    Err(_) => spec_addr_style_arg(fmt_str@) is None,
                }
            }),
    {
        let s = fmt_str.as_str();
        let n = s.unicode_len();
        let fmt_name = s.get_char(0);

        let min_width: usize = if n == 1 {
            8
        } else {
            match parse_usize_range(s, 1, n) {
                Some(w) => w,
                None => {
                    return Err(AppError::new("invalid minimum width".to_owned()));
                },
            }
        };
        proof {
            if n == 1 {
                assert(fmt_str@.subrange(1, fmt_str@.len() as int).len() == 0);
            }
        }

        if fmt_name == 'h' {
            Ok(AddressStyle::Hex(min_width))
        } else if fmt_name == 'b' {
            Ok(AddressStyle::Bin(min_width))
        } else if fmt_name == 'd' {
            Ok(AddressStyle::Dec(min_width))
        } else if fmt_name == 'o' {
            Ok(AddressStyle::Oct(min_width))
        } else {
            Err(AppError::new("unknown address format".to_owned()))
        }
    }
}

/// The byte style an argument string's first character denotes.
pub open spec fn spec_byte_style_arg(cs: Seq<char>) -> Option<ByteStyle> {
    if cs.len() == 0 {
        None
    } else if cs[0] == 'h' {
        Some(ByteStyle::Hex)
    } else if cs[0] == 'b' {
        Some(ByteStyle::Bin)
    } else if cs[0] == 'd' {
        Some(ByteStyle::Dec)
    } else if cs[0] == 'o' {
        Some(ByteStyle::Oct)
    } else if cs[0] == 'c' {
        Some(ByteStyle::Ascii)
    } else if cs[0] == 'C' {
        Some(ByteStyle::CaretAscii)
    } else {
        None
    }
}

impl ByteStyle {
    /// Parse a byte-format argument such as `h`, `b`, `d`, `o`, `c` or `C`;
    /// characters after the first are ignored.
    pub fn from_arg_str(fmt_str: String) -> (r: AppResult<ByteStyle>)
        requires
            fmt_str@.len() >= 1,
        ensures
            ({
                match r {
                    Ok(style) => spec_byte_style_arg(fmt_str@) == Some(style),
                    Err(_) => spec_byte_style_arg(fmt_str@) is None,
                }
            }),
    {
        let fmt_name = fmt_str.as_str().get_char(0);
        if fmt_name == 'h' {
            Ok(ByteStyle::Hex)
        } else if fmt_name == 'b' {
            Ok(ByteStyle::Bin)
        } else if fmt_name == 'd' {
            Ok(ByteStyle::Dec)
        } else if fmt_name == 'o' {
            Ok(ByteStyle::Oct)
        } else if fmt_name == 'c' {
            Ok(ByteStyle::Ascii)
        } else if fmt_name == 'C' {
            Ok(ByteStyle::CaretAscii)
        } else {
            Err(AppError::new("unknown byte format".to_owned()))
        }
    }
}

/// A number segment of a grouping argument: empty means the given default;
/// otherwise it must be a digit string whose value fits a machine word.
pub open spec fn spec_seg_val(cs: Seq<char>, dflt: int) -> Option<int> {
    if cs.len() == 0 {
        Some(dflt)
    } else if spec_digits(cs) && spec_dec_val(cs) <= usize::MAX {
        Some(spec_dec_val(cs))
    } else {
        None
    }
}

/// The row layout a grouping argument denotes. Without a `/` the whole text
/// is a byte count for a single row-wide group. With one, the part before
/// the first `/` is the group size (default eight) and the part up to the
/// second `/` or the end is the group count (default two); the groups are
/// separated by two spaces, and a zero group size falls back to the
/// documented default.
pub open spec fn spec_grouping_arg(cs: Seq<char>) -> Option<GroupingView> {
    if !cs.contains('/') {
        if spec_digits(cs) && spec_dec_val(cs) <= usize::MAX {
            Some(
                GroupingView {
                    gsize: spec_dec_val(cs) as nat,
                    count: 1,
                    sep: Seq::empty(),
                },
            )
        } else {
            None
        }
    } else {
        match cs.index_of_first('/') {
            Some(slash) => {
                let seg0 = cs.subrange(0, slash);
                let rest = cs.subrange(slash + 1, cs.len() as int);
                let cut = match rest.index_of_first('/') {
                    Some(second) => second,
                    None => rest.len() as int,
                };
                let seg1 = rest.subrange(0, cut);
                match (spec_seg_val(seg0, 8), spec_seg_val(seg1, 2)) {
                    (Some(gs), Some(n)) => Some(
                        GroupingView {
                            gsize: if gs == 0 {
                                DEFAULT_GROUP_SIZE as nat
                            } else {
                                gs as nat
                            },
                            count: n as nat,
                            sep: "  ".spec_bytes(),
                        },
                    ),
                    _ => None,
                }
            },
            None => None,
        }
    }
}

/// Find the first `/` at or after position `from`, or the text's length.
fn find_slash(s: &str, from: usize) -> (r: usize)
    requires
        from <= s@.len(),
    ensures
        from <= r <= s@.len(),
        forall|j: int| from <= j < r ==> s@[j] != '/',
        r < s@.len() ==> s@[r as int] == '/',
{
    let n = s.unicode_len();
    let mut i: usize = from;
    let mut found: usize = n;
    while found == n && i < n
        invariant
            from <= i <= n,
            n == s@.len(),
            found == n || (found == i && i < n && s@[found as int] == '/'),
            forall|j: int| from <= j < i ==> s@[j] != '/',
        decreases n - i + (if found == n {
            1int
        } else {
            0int
        }),
    {
        if s.get_char(i) == '/' {
            found = i;
        } else {
            i = i + 1;
        }
    }
    found
}

impl Groupping {
    /// Parse a grouping argument such as `8/2`, `4/`, `/`, or a plain byte
    /// count such as `16`.
    pub fn from_arg_str(fmt_str: String) -> (r: AppResult<Groupping>)
        ensures
            ({
                match r {
                    Ok(g) => spec_grouping_arg(fmt_str@) == Some(g@),
                    Err(_) => spec_grouping_arg(fmt_str@) is None,
                }
            }),
    {
        let s = fmt_str.as_str();
        let n = s.unicode_len();
        let slash = find_slash(s, 0);
        proof {
            fmt_str@.index_of_first_ensures('/');
        }

        if slash == n {
            // no delimiter: a single row-wide group of the given byte count
            match parse_usize_range(s, 0, n) {
                Some(v) => {
                    proof {
                        assert(fmt_str@.subrange(0, n as int) =~= fmt_str@);
                    }
                    Ok(Groupping::RowWide(v))
                },
                None => {
                    proof {
                        assert(fmt_str@.subrange(0, n as int) =~= fmt_str@);
                    }
                    Err(AppError::new("invalid group size".to_owned()))
                },
            }
        } else {
            let ghost slash_spec = fmt_str@.index_of_first('/').unwrap();
            proof {
                assert(fmt_str@[slash as int] == '/');
                assert(slash_spec == slash);
            }
            let group_size: usize = if slash == 0 {
                8
            } else {
                match parse_usize_range(s, 0, slash) {
                    Some(v) => v,
                    None => {
                        return Err(AppError::new("invalid group size".to_owned()));
                    },
                }
            };

            let second = find_slash(s, slash + 1);
            let ghost rest = fmt_str@.subrange(slash + 1, fmt_str@.len() as int);
            proof {
                rest.index_of_first_ensures('/');
                assert(forall|t: int|
                    0 <= t < rest.len() ==> rest[t] == fmt_str@[slash + 1 + t]);
                if second < n {
                    assert(rest[second - (slash + 1)] == '/');
                    match rest.index_of_first('/') {
                        Some(c) => {
                            assert(rest[c] == '/');
                            assert(c == second - (slash + 1));
                        },
                        None => {
                            assert(false);
                        },
                    }
                } else {
                    assert(forall|t: int| 0 <= t < rest.len() ==> rest[t] != '/');
                    assert(rest.index_of_first('/') is None);
                }
                assert(rest.subrange(0, second - (slash + 1)) =~= fmt_str@.subrange(
                    slash + 1,
                    second as int,
                ));
            }
            let n_groups: usize = if second == slash + 1 {
                2
            } else {
                match parse_usize_range(s, slash + 1, second) {
                    Some(v) => v,
                    None => {
                        return Err(AppError::new("invalid number of groups".to_owned()));
                    },
                }
            };

            Ok(Groupping::RepeatingGroup(Group::new(group_size, "  "), n_groups))
        }
    }
}

} // verus!
