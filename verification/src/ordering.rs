//! Row layout policy: how a row of bytes is divided into fixed-size groups,
//! and the row-relative positional queries the formatting engine relies on.
use vstd::prelude::*;
use vstd::string::StrSliceExecFns;
use vstd::string::StringSliceAdditionalSpecFns;

verus! {

pub const DEFAULT_BYTES_PER_ROW: usize = 16;

pub const DEFAULT_GROUP_SIZE: usize = 4;

pub const DEFAULT_NUMBER_OF_GROUPS: usize = 4;

/// Requirement for providing byte portions to a byte formatter.
#[derive(Clone, Copy, PartialEq, Eq, Structural)]
pub enum ByteOrder {
    /// Bytes must be provided in complete groups; the engine buffers until a
    /// group is assembled (needed by formatters that reverse group bytes).
    Strict,
    /// Bytes may be provided as soon as they are available, in any chunking.
    Relaxed,
}

/// Mathematical shape of a row layout: `count` groups of `gsize` bytes each,
/// with `sep` printed between adjacent groups.
pub ghost struct GroupingView {
    pub gsize: nat,
    pub count: nat,
    pub sep: Seq<u8>,
}

impl GroupingView {
    /// Total bytes rendered in one row.
    pub open spec fn bpr(self) -> nat {
        self.gsize * self.count
    }

    /// A usable layout: positive group size and count, with a row that fits
    /// in a machine word.
    pub open spec fn wf(self) -> bool {
        self.gsize >= 1 && self.count >= 1 && self.gsize * self.count <= usize::MAX
    }
}

/// Group of bytes, separated from its neighbours by arbitrary printable text.
pub struct Group {
    size: usize,
    separator: Vec<u8>,
}

impl View for Group {
    type V = GroupingView;

    closed spec fn view(&self) -> GroupingView {
        GroupingView { gsize: self.size as nat, count: 1, sep: self.separator@ }
    }
}

impl Group {
    /// Create a group of `size` bytes; a zero size falls back to the
    /// documented default. `separator` is the text printed between groups.
    pub fn new(size: usize, separator: &str) -> (g: Group)
        ensures
            g@.gsize == if size == 0 { DEFAULT_GROUP_SIZE as nat } else { size as nat },
            g@.sep == separator.spec_bytes(),
    {
        let size: usize = if size == 0 { DEFAULT_GROUP_SIZE } else { size };
        Group { size, separator: separator.as_bytes_vec() }
    }
}

impl Clone for Group {
    fn clone(&self) -> (g: Group)
        ensures
            g@ == self@,
    {
        Group { size: self.size, separator: clone_bytes(&self.separator) }
    }
}

impl Default for Group {
    fn default() -> (g: Group)
        ensures
            g@.gsize == DEFAULT_GROUP_SIZE as nat,
            g@.sep == " ".spec_bytes(),
    {
        Group::new(DEFAULT_GROUP_SIZE, " ")
    }
}

/// Clone a byte vector, keeping its contents.
pub(crate) fn clone_bytes(v: &Vec<u8>) -> (r: Vec<u8>)
    ensures
        r@ == v@,
{
    let mut r: Vec<u8> = Vec::new();
    let mut i: usize = 0;
    while i < v.len()
        invariant
            i <= v.len(),
            r@ == v@.take(i as int),
        decreases v.len() - i,
    {
        r.push(v[i]);
        proof {
            assert(v@.take(i + 1 as int) =~= v@.take(i as int).push(v@[i as int]));
        }
        i = i + 1;
    }
    proof {
        assert(v@.take(v.len() as int) =~= v@);
    }
    r
}

/// Row layout.
pub enum Groupping {
    /// A single group spanning the whole row, with no internal separator.
    RowWide(usize),
    /// `usize` groups of `Group::size` bytes each; `bytes per row` is
    /// `group size * number of groups`.
    RepeatingGroup(Group, usize),
}

impl View for Groupping {
    type V = GroupingView;

    open spec fn view(&self) -> GroupingView {
        match self {
            Groupping::RowWide(r) => GroupingView {
                gsize: *r as nat,
                count: 1,
                sep: Seq::empty(),
            },
            Groupping::RepeatingGroup(g, rep) => GroupingView {
                gsize: g@.gsize,
                count: *rep as nat,
                sep: g@.sep,
            },
        }
    }
}

impl Clone for Groupping {
    fn clone(&self) -> (g: Groupping)
        ensures
            g@ == self@,
    {
        match self {
            Groupping::RowWide(r) => Groupping::RowWide(*r),
            Groupping::RepeatingGroup(g, rep) => Groupping::RepeatingGroup(g.clone(), *rep),
        }
    }
}

impl Default for Groupping {
    fn default() -> (g: Groupping)
        ensures
            g@.gsize == DEFAULT_GROUP_SIZE as nat,
            g@.count == DEFAULT_NUMBER_OF_GROUPS as nat,
            g@.sep == " ".spec_bytes(),
            g@.wf(),
    {
        Groupping::RepeatingGroup(Group::default(), DEFAULT_NUMBER_OF_GROUPS)
    }
}

impl Groupping {
    /// Is this layout usable: positive group size and count, with a row that
    /// fits in a machine word?
    pub fn is_wf(&self) -> (r: bool)
        ensures
            r == self@.wf(),
    {
        match self {
            Groupping::RowWide(r) => *r >= 1,
            Groupping::RepeatingGroup(g, rep) => g.size >= 1 && *rep >= 1 && g.size.checked_mul(
                *rep,
            ).is_some(),
        }
    }

    /// The text printed between adjacent groups.
    pub fn separator(&self) -> (r: Vec<u8>)
        ensures
            r@ == self@.sep,
    {
        match self {
            Groupping::RowWide(_) => Vec::new(),
            Groupping::RepeatingGroup(g, _) => clone_bytes(&g.separator),
        }
    }

    /// Total bytes rendered in one row.
    pub fn bytes_per_row(&self) -> (r: usize)
        requires
            self@.wf(),
        ensures
            r == self@.bpr(),
    {
        match self {
            Groupping::RowWide(r) => *r,
            Groupping::RepeatingGroup(g, rep) => g.size * *rep,
        }
    }

    /// Size of a single group.
    pub fn max_group_size(&self) -> (r: usize)
        ensures
            r == self@.gsize,
    {
        match self {
            Groupping::RowWide(r) => *r,
            Groupping::RepeatingGroup(g, _) => g.size,
        }
    }

    /// Number of groups in a row.
    pub fn number_of_groups(&self) -> (r: usize)
        ensures
            r == self@.count,
    {
        match self {
            Groupping::RowWide(_) => 1,
            Groupping::RepeatingGroup(_, rep) => *rep,
        }
    }

    /// Does row-relative byte `number` start a group?
    pub fn is_aligned_at(&self, number: usize) -> (r: bool)
        requires
            self@.wf(),
            number < self@.bpr(),
        ensures
            r == (number as nat % self@.gsize == 0),
    {
        number % self.max_group_size() == 0
    }

    /// Does the range of `len` bytes starting at row-relative byte `number`
    /// begin and end on group boundaries?
    pub fn is_aligned_with(&self, number: usize, len: usize) -> (r: bool)
        requires
            self@.wf(),
            number + len <= self@.bpr(),
        ensures
            r == (number as nat % self@.gsize == 0 && (number + len) as nat % self@.gsize == 0),
    {
        let gs = self.max_group_size();
        number % gs == 0 && (number + len) % gs == 0
    }

    /// Index of the group that row-relative byte `number` falls in.
    pub fn group_of_byte(&self, number: usize) -> (r: usize)
        requires
            self@.wf(),
            number <= self@.bpr(),
        ensures
            r == number as nat / self@.gsize,
    {
        number / self.max_group_size()
    }

    /// How many bytes remain in the group containing row-relative byte
    /// `number`, counting `number` itself.
    pub fn bytes_left_in_group_after(&self, number: usize) -> (r: usize)
        requires
            self@.wf(),
            number <= self@.bpr(),
        ensures
            r == self@.gsize - number as nat % self@.gsize,
    {
        let gs = self.max_group_size();
        gs - number % gs
    }

    /// Row-relative byte `number`'s position inside its group.
    pub fn byte_number_in_group(&self, number_in_row: usize) -> (r: usize)
        requires
            self@.wf(),
            number_in_row < self@.bpr(),
        ensures
            r == number_in_row as nat % self@.gsize,
    {
        number_in_row % self.max_group_size()
    }
}

} // verus!
