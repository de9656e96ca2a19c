//! The decisions of the directory-size scanner, over UTF-16 paths as the Win32
//! `FindFirstFileExW` / `FindNextFileW` calls take and return them. The calls
//! themselves are made by the caller, which hands each directory record to a
//! [`DirScan`].
use vstd::prelude::*;

verus! {

/// `.` in UTF-16.
pub const DOT: u16 = 0x2E;
/// `\` in UTF-16.
pub const SEP: u16 = 0x5C;
/// `*` in UTF-16.
pub const STAR: u16 = 0x2A;
/// The Win32 attribute bit of a directory.
pub const FILE_ATTRIBUTE_DIRECTORY: u32 = 0x10;
/// The Win32 attribute bit of a reparse point (symbolic link, junction).
pub const FILE_ATTRIBUTE_REPARSE_POINT: u32 = 0x400;

/// The length of a NUL-terminated name: the position of the first 0, or the whole buffer.
pub open spec fn name_len_spec(name: Seq<u16>) -> int
    decreases name.len(),
{
    if name.len() == 0 {
        0
    } else if name_len_spec(name.drop_last()) < name.len() - 1 {
        name_len_spec(name.drop_last())
    } else if name.last() == 0 {
        name.len() - 1
    } else {
        name.len() as int
    }
}

/// `name_len_spec` points at the first 0, or past the end when there is none.
pub proof fn lemma_name_len(name: Seq<u16>)
    ensures
        0 <= name_len_spec(name) <= name.len(),
        forall|j: int| 0 <= j < name_len_spec(name) ==> name[j] != 0,
        name_len_spec(name) < name.len() ==> name[name_len_spec(name)] == 0,
    decreases name.len(),
{
    if name.len() > 0 {
        let n0 = name.drop_last();
        lemma_name_len(n0);
        assert forall|j: int| 0 <= j < name.len() - 1 implies name[j] == n0[j] by {}
    }
}

/// The length of the name in a `cFileName` buffer (up to its terminating 0).
pub fn name_len(name: &[u16]) -> (r: usize)
    ensures
        r == name_len_spec(name@),
{
    let mut i: usize = 0;
    while i < name.len() && name[i] != 0
        invariant
            i <= name@.len(),
            forall|j: int| 0 <= j < i ==> name@[j] != 0,
        decreases name@.len() - i,
    {
        i = i + 1;
    }
    proof {
        lemma_name_len(name@);
        let n = name_len_spec(name@);
        if n < i {
            assert(name@[n] == 0);
        }
        if i < n {
            assert(name@[i as int] != 0);
        }
    }
    i
}

/// The entries `.` and `..`.
pub open spec fn is_dot_name(name: Seq<u16>) -> bool {
    name[0] == DOT && (name[1] == 0 || (name[1] == DOT && name[2] == 0))
}

/// Whether a `cFileName` buffer holds `.` or `..`.
pub fn is_dot_entry(name: &[u16]) -> (r: bool)
    requires
        name@.len() >= 1,
        name@[0] == DOT ==> name@.len() >= 2,
        name@[0] == DOT && name@[1] == DOT ==> name@.len() >= 3,
    ensures
        r == is_dot_name(name@),
{
    name[0] == DOT && (name[1] == 0 || (name[1] == DOT && name[2] == 0))
}

/// `dir` ending in exactly the separator it already has, or one more.
pub open spec fn with_separator(dir: Seq<u16>) -> Seq<u16> {
    if dir.len() > 0 && dir.last() == SEP {
        dir
    } else {
        dir.push(SEP)
    }
}

fn copy_with_separator(dir: &[u16]) -> (r: Vec<u16>)
    ensures
        r@ == with_separator(dir@),
{
    let mut r: Vec<u16> = Vec::new();
    let mut i: usize = 0;
    while i < dir.len()
        invariant
            i <= dir@.len(),
            r@ == dir@.take(i as int),
        decreases dir@.len() - i,
    {
        r.push(dir[i]);
        i = i + 1;
        assert(r@ =~= dir@.take(i as int));
    }
    assert(dir@.take(i as int) =~= dir@);
    if dir.len() == 0 || dir[dir.len() - 1] != SEP {
        r.push(SEP);
    }
    r
}

/// The search pattern `<dir>\*`, NUL-terminated, that lists a directory.
pub fn search_pattern(dir: &[u16]) -> (r: Vec<u16>)
    ensures
        r@ == with_separator(dir@) + seq![STAR, 0u16],
{
    let mut r = copy_with_separator(dir);
    r.push(STAR);
    r.push(0);
    assert(r@ =~= with_separator(dir@) + seq![STAR, 0u16]);
    r
}

/// The full path `<dir>\<name>` of a directory entry, the name cut at its terminating 0.
pub fn child_path(dir: &[u16], name: &[u16]) -> (r: Vec<u16>)
    ensures
        r@ == with_separator(dir@) + name@.take(name_len_spec(name@)),
{
    let len = name_len(name);
    proof {
        lemma_name_len(name@);
    }
    let mut r = copy_with_separator(dir);
    let ghost base = r@;
    let mut i: usize = 0;
    while i < len
        invariant
            len == name_len_spec(name@),
            len <= name@.len(),
            i <= len,
            r@ == base + name@.take(i as int),
        decreases len - i,
    {
        r.push(name[i]);
        i = i + 1;
        assert(r@ =~= base + name@.take(i as int));
    }
    r
}

/// The 64-bit size held in the `nFileSizeHigh` / `nFileSizeLow` pair.
pub fn file_size(high: u32, low: u32) -> (r: u64)
    ensures
        r == high * 0x1_0000_0000 + low,
{
    let r: u64 = ((high as u64) << 32u64) | (low as u64);
    assert(((high as u64) << 32u64) | (low as u64) == high * 0x1_0000_0000 + low) by (bit_vector);
    r
}

/// What a directory record stands for in the scan.
#[derive(Debug, Clone, Copy, PartialEq, Eq, Structural)]
pub enum EntryKind {
    /// `.`, `..`, or a reparse point (never followed, so links are not counted twice).
    Skip,
    /// A subdirectory, to be scanned.
    Directory,
    /// A file, whose size is counted.
    File,
}

/// The kind of a directory record with name `name` and attributes `attrs`.
pub open spec fn entry_kind(name: Seq<u16>, attrs: u32) -> EntryKind {
    if is_dot_name(name) {
        EntryKind::Skip
    } else if attrs & FILE_ATTRIBUTE_REPARSE_POINT != 0 {
        EntryKind::Skip
    } else if attrs & FILE_ATTRIBUTE_DIRECTORY != 0 {
        EntryKind::Directory
    } else {
        EntryKind::File
    }
}

/// Classifies a directory record.
pub fn classify_entry(name: &[u16], attrs: u32) -> (r: EntryKind)
    requires
        name@.len() >= 3,
    ensures
        r == entry_kind(name@, attrs),
{
    if is_dot_entry(name) {
        EntryKind::Skip
    } else if attrs & FILE_ATTRIBUTE_REPARSE_POINT != 0 {
        EntryKind::Skip
    } else if attrs & FILE_ATTRIBUTE_DIRECTORY != 0 {
        EntryKind::Directory
    } else {
        EntryKind::File
    }
}

/// The running state of a size scan: bytes counted so far and directories still
/// to be listed (a stack: the last one pushed is listed next).
#[derive(Debug, Clone, PartialEq, Eq)]
pub struct DirScan {
    pub total: u64,
    pub pending: Vec<Vec<u16>>,
}

impl DirScan {
    /// A scan that starts by listing `start`.
    pub fn new(start: Vec<u16>) -> (r: DirScan)
        ensures
            r.total == 0,
            r.pending@ == seq![start],
    {
        let mut pending: Vec<Vec<u16>> = Vec::new();
        pending.push(start);
        assert(pending@ =~= seq![start]);
        DirScan { total: 0, pending }
    }

    /// A scan with nothing counted and nothing pending.
    pub fn empty() -> (r: DirScan)
        ensures
            r.total == 0,
            r.pending@ == Seq::<Vec<u16>>::empty(),
    {
        DirScan { total: 0, pending: Vec::new() }
    }

    /// The next directory to list, taken off the stack; `None` when the scan is done.
    pub fn next_dir(&mut self) -> (r: Option<Vec<u16>>)
        ensures
            final(self).total == old(self).total,
            old(self).pending@.len() == 0 ==> r is None && final(self).pending@ == old(self).pending@,
            old(self).pending@.len() > 0 ==> r == Some(old(self).pending@.last()) && final(self).pending@
                == old(self).pending@.drop_last(),
    {
        self.pending.pop()
    }

    /// Whether counting this record would overflow the running total.
    pub fn would_overflow(&self, name: &[u16], attrs: u32, size_high: u32, size_low: u32) -> (r:
        bool)
        requires
            name@.len() >= 3,
        ensures
            r == (entry_kind(name@, attrs) is File && self.total + size_high * 0x1_0000_0000
                + size_low > u64::MAX),
    {
        match classify_entry(name, attrs) {
            EntryKind::File => {
                let size = file_size(size_high, size_low);
                size > u64::MAX - self.total
            },
            _ => false,
        }
    }

    /// Takes in one record of directory `dir`: a file adds its size, a subdirectory
    /// is pushed to be listed later, `.`, `..` and reparse points are ignored.
    pub fn record(&mut self, dir: &[u16], name: &[u16], attrs: u32, size_high: u32, size_low: u32)
        requires
            name@.len() >= 3,
            entry_kind(name@, attrs) is File ==> old(self).total + size_high * 0x1_0000_0000
                + size_low <= u64::MAX,
        ensures
            entry_kind(name@, attrs) is Skip ==> final(self).total == old(self).total
                && final(self).pending@ == old(self).pending@,
            entry_kind(name@, attrs) is Directory ==> final(self).total == old(self).total
                && final(self).pending@.len() == old(self).pending@.len() + 1
                && final(self).pending@.drop_last() == old(self).pending@
                && final(self).pending@.last()@ == with_separator(dir@) + name@.take(
                name_len_spec(name@),
            ),
            entry_kind(name@, attrs) is File ==> final(self).total == old(self).total
                + size_high * 0x1_0000_0000 + size_low && final(self).pending@ == old(self).pending@,
    {
        match classify_entry(name, attrs) {
            EntryKind::Skip => {},
            EntryKind::Directory => {
                let child = child_path(dir, name);
                self.pending.push(child);
                assert(self.pending@.drop_last() =~= old(self).pending@);
            },
            EntryKind::File => {
                let size = file_size(size_high, size_low);
                self.total = self.total + size;
            },
        }
    }

    /// The subdirectories still pending, handed over (the scan keeps none).
    pub fn take_pending(&mut self) -> (r: Vec<Vec<u16>>)
        ensures
            r@ == old(self).pending@,
            final(self).pending@.len() == 0,
            final(self).total == old(self).total,
    {
        let mut out: Vec<Vec<u16>> = Vec::new();
        std::mem::swap(&mut out, &mut self.pending);
        out
    }
}

/// The size of a directory: the files directly in it plus the totals of its
/// subdirectories, which must not overflow.
pub fn total_size(direct: u64, sub_totals: &[u64]) -> (r: u64)
    requires
        direct + crate::data_roots::total(sub_totals@) <= u64::MAX,
    ensures
        r == direct + crate::data_roots::total(sub_totals@),
{
    proof {
        crate::data_roots::lemma_total_prefix(sub_totals@, sub_totals@.len() as int);
        assert(sub_totals@.take(sub_totals@.len() as int) =~= sub_totals@);
    }
    direct + crate::data_roots::sum_sizes(sub_totals)
}

/// How a directory record is treated, from its name and attribute bits alone: `.` and
/// `..` are skipped; otherwise a reparse point (bit 0x400) is skipped whatever its other
/// bits, a directory (bit 0x10) is descended into whatever its other bits, and anything
/// else is a file.
pub proof fn lemma_entry_kind_meaning(name: Seq<u16>, attrs: u32)
    requires
        name.len() >= 3,
    ensures
        ({
            let dot = name[0] == 0x2Eu16 && (name[1] == 0u16 || (name[1] == 0x2Eu16 && name[2]
                == 0u16));
            &&& dot ==> entry_kind(name, attrs) is Skip
            &&& !dot && attrs & 0x400u32 != 0 ==> entry_kind(name, attrs) is Skip
            &&& !dot && attrs & 0x400u32 == 0 && attrs & 0x10u32 != 0 ==> entry_kind(name, attrs) is Directory
            &&& !dot && attrs & 0x400u32 == 0 && attrs & 0x10u32 == 0 ==> entry_kind(name, attrs) is File
        }),
{
}

} // verus!
