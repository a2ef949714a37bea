//! Mapped regions of a process's address space, and the policies that select the
//! regions worth hashing.

use vstd::prelude::*;
use crate::text::{
    chars_of,
    contains,
    ends_with,
    find,
    has_prefix,
    has_suffix,
    number_text,
    padded,
    push_chars,
    push_padded_number,
    starts_with,
    text_of,
};

verus! {

/// A region this large or larger is never interesting.
pub const REGION_SIZE_CEILING: u64 = 50 * 1024 * 1024;

/// An anonymous region larger than this is never interesting.
pub const ANONYMOUS_SIZE_CEILING: u64 = 10 * 1024 * 1024;

/// One mapped range of a process's address space.
#[derive(Debug, Clone)]
pub struct MemoryRegion {
    /// The first address of the range.
    pub start: u64,
    /// The address after the last one of the range.
    pub end: u64,
    /// The number of bytes in the range.
    pub size: u64,
    /// The permission flags, such as `r-xp`.
    pub permissions: String,
    /// The offset into the backing object.
    pub offset: u64,
    /// The device of the backing object.
    pub device: String,
    /// The inode of the backing object.
    pub inode: u64,
    /// The name of the backing object; an anonymous mapping has none.
    pub pathname: Option<String>,
}

/// A region as plain values.
pub struct RegionView {
    pub start: u64,
    pub end: u64,
    pub size: u64,
    pub permissions: Seq<char>,
    pub offset: u64,
    pub device: Seq<char>,
    pub inode: u64,
    pub pathname: Option<Seq<char>>,
}

impl View for MemoryRegion {
    type V = RegionView;

    open spec fn view(&self) -> RegionView {
        RegionView {
            start: self.start,
            end: self.end,
            size: self.size,
            permissions: self.permissions@,
            offset: self.offset,
            device: self.device@,
            inode: self.inode,
            pathname: match self.pathname {
                Some(name) => Some(name@),
                None => None,
            },
        }
    }
}

impl RegionView {
    /// The range is not empty and `size` is its length.
    pub open spec fn well_formed(self) -> bool {
        self.start < self.end && self.size == self.end - self.start
    }
}

/// A policy that selects regions.
#[derive(Debug, Clone, Copy, PartialEq, Eq, Structural)]
pub enum RegionFilter {
    /// Every region.
    All,
    /// Regions worth hashing: no shared library, nothing at or over the size ceiling, no
    /// anonymous mapping over its own ceiling, no kernel-special mapping.
    Interesting,
    /// Regions that may be read.
    Readable,
    /// Regions that may be written.
    Writable,
    /// Regions that may be executed.
    Executable,
    /// The heap and the stack.
    HeapStack,
    /// Shared libraries.
    Libraries,
    /// The executable's own code.
    MainExecutable,
    /// Mappings without a name.
    Anonymous,
}

/// The name is that of a shared library: it ends in `.so` or holds `.so.`.
pub open spec fn names_library(name: Seq<char>) -> bool {
    ends_with(name, ".so"@) || contains(name, ".so."@)
}

/// The name is that of a shared library or of a bundled extension (`.gem`).
pub open spec fn names_bundled_code(name: Seq<char>) -> bool {
    names_library(name) || contains(name, ".gem"@)
}

/// The name is that of a mapping the kernel provides: `[vsyscall]`, `[vdso]`,
/// `[vectors]`, or any name that ends with a closing bracket.
pub open spec fn names_kernel_special(name: Seq<char>) -> bool {
    ||| contains(name, "[vsyscall]"@)
    ||| contains(name, "[vdso]"@)
    ||| contains(name, "[vectors]"@)
    ||| ends_with(name, seq![']'])
}

/// Whether the policy `filter` selects `region`.
pub open spec fn selects(filter: RegionFilter, region: RegionView) -> bool {
    match filter {
        RegionFilter::All => true,
        RegionFilter::Interesting => {
            &&& !(region.pathname matches Some(name) && names_bundled_code(name))
            &&& region.size < REGION_SIZE_CEILING
            &&& !(region.pathname is None && region.size > ANONYMOUS_SIZE_CEILING)
            &&& !(region.pathname matches Some(name) && names_kernel_special(name))
        },
        RegionFilter::Readable => contains(region.permissions, seq!['r']),
        RegionFilter::Writable => contains(region.permissions, seq!['w']),
        RegionFilter::Executable => contains(region.permissions, seq!['x']),
        RegionFilter::HeapStack => region.pathname matches Some(name) && (contains(name, "[heap]"@)
            || contains(name, "[stack]"@)),
        RegionFilter::Libraries => region.pathname matches Some(name) && names_library(name),
        RegionFilter::MainExecutable => {
            &&& contains(region.permissions, seq!['x'])
            &&& region.pathname matches Some(name) && !starts_with(name, seq!['['])
                && !contains(name, ".so"@)
        },
        RegionFilter::Anonymous => region.pathname is None,
    }
}

/// Whether `text` holds the character `c`.
fn holds_char(text: &String, c: char) -> (yes: bool)
    ensures
        yes == contains(text@, seq![c]),
{
    let chars = chars_of(text.as_str());
    let pattern: Vec<char> = vec![c];
    assert(pattern@ =~= seq![c]);
    find(&chars, &pattern)
}

/// Whether `name` holds `pattern`.
fn holds(name: &Vec<char>, pattern: &str) -> (yes: bool)
    ensures
        yes == contains(name@, pattern@),
{
    let wanted = chars_of(pattern);
    find(name, &wanted)
}

/// Whether `name` ends with `pattern`.
fn ends_in(name: &Vec<char>, pattern: &str) -> (yes: bool)
    ensures
        yes == ends_with(name@, pattern@),
{
    let wanted = chars_of(pattern);
    has_suffix(name, &wanted)
}

/// Whether the name is that of a shared library.
fn is_library_name(name: &Vec<char>) -> (yes: bool)
    ensures
        yes == names_library(name@),
{
    ends_in(name, ".so") || holds(name, ".so.")
}

/// Whether the name is that of a mapping the kernel provides.
fn is_kernel_special_name(name: &Vec<char>) -> (yes: bool)
    ensures
        yes == names_kernel_special(name@),
{
    let bracket: Vec<char> = vec![']'];
    assert(bracket@ =~= seq![']']);
    holds(name, "[vsyscall]") || holds(name, "[vdso]") || holds(name, "[vectors]") || has_suffix(
        name,
        &bracket,
    )
}

/// The line that presents a region: the two addresses in sixteen hexadecimal digits
/// with a hyphen between them, the permissions, the offset in eight hexadecimal digits,
/// the device, the inode in decimal and right-aligned in eight columns, and the
/// pathname, each after one space. An anonymous region ends with that space.
pub open spec fn display_text(region: RegionView) -> Seq<char> {
    padded(number_text(region.start as nat, 16), 16, '0') + seq!['-'] + padded(
        number_text(region.end as nat, 16),
        16,
        '0',
    ) + seq![' '] + region.permissions + seq![' '] + padded(
        number_text(region.offset as nat, 16),
        8,
        '0',
    ) + seq![' '] + region.device + seq![' '] + padded(
        number_text(region.inode as nat, 10),
        8,
        ' ',
    ) + seq![' '] + match region.pathname {
        Some(name) => name,
        None => Seq::empty(),
    }
}

impl MemoryRegion {
    /// The line that presents this region.
    pub fn to_display_string(&self) -> (text: String)
        ensures
            text@ == display_text(self@),
    {
        let mut out: Vec<char> = Vec::new();
        push_padded_number(&mut out, self.start, 16, 16, '0');
        out.push('-');
        push_padded_number(&mut out, self.end, 16, 16, '0');
        out.push(' ');
        push_chars(&mut out, &chars_of(self.permissions.as_str()));
        out.push(' ');
        push_padded_number(&mut out, self.offset, 16, 8, '0');
        out.push(' ');
        push_chars(&mut out, &chars_of(self.device.as_str()));
        out.push(' ');
        push_padded_number(&mut out, self.inode, 10, 8, ' ');
        out.push(' ');
        match &self.pathname {
            Some(name) => {
                push_chars(&mut out, &chars_of(name.as_str()));
            },
            None => {},
        }
        assert(out@ =~= display_text(self@));
        assert(out@.subrange(0, out@.len() as int) =~= out@);
        text_of(&out, 0, out.len())
    }

    /// Whether the policy `filter` selects this region.
    pub fn matches(&self, filter: RegionFilter) -> (selected: bool)
        ensures
            selected == selects(filter, self@),
    {
        match filter {
            RegionFilter::All => true,
            RegionFilter::Interesting => {
                match &self.pathname {
                    Some(name) => {
                        let name = chars_of(name.as_str());
                        !(is_library_name(&name) || holds(&name, ".gem")) && self.size
                            < REGION_SIZE_CEILING && !is_kernel_special_name(&name)
                    },
                    None => self.size < REGION_SIZE_CEILING && !(self.size
                        > ANONYMOUS_SIZE_CEILING),
                }
            },
            RegionFilter::Readable => holds_char(&self.permissions, 'r'),
            RegionFilter::Writable => holds_char(&self.permissions, 'w'),
            RegionFilter::Executable => holds_char(&self.permissions, 'x'),
            RegionFilter::HeapStack => {
                match &self.pathname {
                    Some(name) => {
                        let name = chars_of(name.as_str());
                        holds(&name, "[heap]") || holds(&name, "[stack]")
                    },
                    None => false,
                }
            },
            RegionFilter::Libraries => {
                match &self.pathname {
                    Some(name) => {
                        let name = chars_of(name.as_str());
                        is_library_name(&name)
                    },
                    None => false,
                }
            },
            RegionFilter::MainExecutable => {
                match &self.pathname {
                    Some(name) => {
                        let name = chars_of(name.as_str());
                        let bracket: Vec<char> = vec!['['];
                        assert(bracket@ =~= seq!['[']);
                        holds_char(&self.permissions, 'x') && !has_prefix(&name, &bracket)
                            && !holds(&name, ".so")
                    },
                    None => false,
                }
            },
            RegionFilter::Anonymous => self.pathname.is_none(),
        }
    }
}

} // verus!
