//! The region catalog of one process and the assembly of its memory snapshot.
//!
//! The catalog is parsed from the lines of the kernel's description of the process's
//! mappings. Reading the mapped bytes is the caller's part: the dumper is handed what
//! each read returned, decides which reads count, and joins them in catalog order.

use vstd::prelude::*;
use crate::region::{display_text, selects, MemoryRegion, RegionFilter, RegionView};
use crate::text::{
    chars_of,
    find_char,
    join_words,
    number_text,
    parse_number,
    parse_unsigned,
    position_of,
    push_number,
    split_whitespace,
    split_words,
    text_of,
};

verus! {

/// The two addresses that an `addr-addr` field writes in hexadecimal.
pub open spec fn parsed_range(field: Seq<char>) -> Option<(u64, u64)> {
    let dash = position_of(field, '-', 0);
    if dash >= field.len() {
        None
    } else {
        match (
            parse_unsigned(field.take(dash), 16, u64::MAX as nat),
            parse_unsigned(field.skip(dash + 1), 16, u64::MAX as nat),
        ) {
            (Some(start), Some(end)) => Some((start as u64, end as u64)),
            _ => None,
        }
    }
}

/// The region that one line of the description records, if the line is well formed:
/// at least five fields between whitespace, which are an `addr-addr` range in
/// hexadecimal with the first address below the second, the permissions, the offset in
/// hexadecimal, the device, and the inode in decimal. Any further fields, joined by
/// single spaces, are the pathname.
pub open spec fn parsed_line(line: Seq<char>) -> Option<RegionView> {
    let fields = split_whitespace(line);
    if fields.len() < 5 {
        None
    } else {
        match (
            parsed_range(fields[0]),
            parse_unsigned(fields[2], 16, u64::MAX as nat),
            parse_unsigned(fields[4], 10, u64::MAX as nat),
        ) {
            (Some((start, end)), Some(offset), Some(inode)) => if start < end {
                Some(
                    RegionView {
                        start,
                        end,
                        size: (end - start) as u64,
                        permissions: fields[1],
                        offset: offset as u64,
                        device: fields[3],
                        inode: inode as u64,
                        pathname: if fields.len() > 5 {
                            Some(join_words(fields.skip(5)))
                        } else {
                            None
                        },
                    },
                )
            } else {
                None
            },
            _ => None,
        }
    }
}

/// A line that records a region records a well-formed one.
pub proof fn lemma_parsed_line_well_formed(line: Seq<char>)
    ensures
        parsed_line(line) matches Some(region) ==> region.well_formed(),
{
}

/// The fields from the sixth on, joined by single spaces.
fn joined_pathname(chars: &Vec<char>, ranges: &Vec<(usize, usize)>) -> (name: String)
    requires
        ranges@.len() == split_whitespace(chars@).len(),
        ranges@.len() > 5,
        forall|k: int|
            0 <= k < ranges@.len() ==> {
                &&& (#[trigger] ranges@[k]).0 < ranges@[k].1 <= chars@.len()
                &&& chars@.subrange(ranges@[k].0 as int, ranges@[k].1 as int) == split_whitespace(
                    chars@,
                )[k]
            },
    ensures
        name@ == join_words(split_whitespace(chars@).skip(5)),
{
    let ghost words = split_whitespace(chars@).skip(5);
    let mut joined: Vec<char> = Vec::new();
    let mut k: usize = 5;
    while k < ranges.len()
        invariant
            5 <= k <= ranges@.len(),
            ranges@.len() == split_whitespace(chars@).len(),
            words == split_whitespace(chars@).skip(5),
            forall|j: int|
                0 <= j < ranges@.len() ==> {
                    &&& (#[trigger] ranges@[j]).0 < ranges@[j].1 <= chars@.len()
                    &&& chars@.subrange(ranges@[j].0 as int, ranges@[j].1 as int)
                        == split_whitespace(chars@)[j]
                },
            joined@ == join_words(words.take(k - 5)),
        decreases ranges@.len() - k,
    {
        let (start, end) = ranges[k];
        let ghost before = joined@;
        proof {
            assert(words.take(k - 5 + 1).drop_last() =~= words.take(k - 5));
            assert(words.take(k - 5 + 1).last() == split_whitespace(chars@)[k as int]);
        }
        if k > 5 {
            joined.push(' ');
        }
        let ghost spaced = joined@;
        let mut i: usize = start;
        while i < end
            invariant
                start <= i <= end <= chars@.len(),
                joined@ == spaced + chars@.subrange(start as int, i as int),
            decreases end - i,
        {
            joined.push(chars[i]);
            assert(chars@.subrange(start as int, i as int).push(chars@[i as int])
                =~= chars@.subrange(start as int, i + 1));
            i += 1;
        }
        proof {
            let word = chars@.subrange(start as int, end as int);
            if k == 5 {
                assert(joined@ =~= word);
            } else {
                assert(joined@ =~= before + seq![' '] + word);
            }
        }
        k += 1;
    }
    assert(words.take(ranges@.len() - 5) =~= words);
    assert(joined@.subrange(0, joined@.len() as int) =~= joined@);
    text_of(&joined, 0, joined.len())
}

/// Reads one line of the description of a process's mappings. A line that is not well
/// formed records nothing.
pub fn parse_maps_line(line: &str) -> (region: Option<MemoryRegion>)
    ensures
        region matches Some(r) ==> parsed_line(line@) == Some(r@),
        region is None ==> parsed_line(line@) is None,
{
    let chars = chars_of(line);
    let ranges = split_words(&chars);
    if ranges.len() < 5 {
        return None;
    }
    let (range_start, range_end) = ranges[0];
    let dash = find_char(&chars, range_start, range_end, '-');
    if dash >= range_end {
        return None;
    }
    proof {
        let field = chars@.subrange(range_start as int, range_end as int);
        assert(field.take(dash - range_start) =~= chars@.subrange(range_start as int, dash as int));
        assert(field.skip(dash - range_start + 1) =~= chars@.subrange(
            dash + 1,
            range_end as int,
        ));
    }
    let start = match parse_number(&chars, range_start, dash, 16) {
        Some(value) => value,
        None => {
            return None;
        },
    };
    let end = match parse_number(&chars, dash + 1, range_end, 16) {
        Some(value) => value,
        None => {
            return None;
        },
    };
    let offset = match parse_number(&chars, ranges[2].0, ranges[2].1, 16) {
        Some(value) => value,
        None => {
            return None;
        },
    };
    let inode = match parse_number(&chars, ranges[4].0, ranges[4].1, 10) {
        Some(value) => value,
        None => {
            return None;
        },
    };
    if start >= end {
        return None;
    }
    let permissions = text_of(&chars, ranges[1].0, ranges[1].1);
    let device = text_of(&chars, ranges[3].0, ranges[3].1);
    let pathname = if ranges.len() > 5 {
        Some(joined_pathname(&chars, &ranges))
    } else {
        None
    };
    Some(
        MemoryRegion {
            start,
            end,
            size: end - start,
            permissions,
            offset,
            device,
            inode,
            pathname,
        },
    )
}

/// Why the bytes of a region are not part of a snapshot.
#[derive(Debug, Clone, Copy, PartialEq, Eq, Structural)]
pub enum ReadError {
    /// The process's memory could not be sought or read at the region.
    Unreadable,
    /// Fewer or more bytes came back than the region holds.
    ShortRead,
    /// The process's memory has not been opened.
    NotOpen,
}

/// Why the catalog of a process could not be acquired.
#[derive(Debug, Clone, Copy, PartialEq, Eq, Structural)]
pub enum AcquisitionError {
    /// There is no such process.
    NotFound,
    /// The description of the process's mappings may not be read.
    PermissionDenied,
    /// The description could not be read as lines of text.
    MalformedSource,
}

/// What reading the description of a process's mappings returned.
#[derive(Debug)]
pub enum MapsSource {
    /// There is no description, as the process does not exist.
    Missing,
    /// The description may not be read.
    Denied,
    /// The description broke off or is not text.
    Garbled,
    /// The lines of the description.
    Lines(Vec<String>),
}

/// The text of each line.
pub open spec fn line_views(lines: Seq<String>) -> Seq<Seq<char>> {
    Seq::new(lines.len(), |k: int| lines[k]@)
}

/// Each region as plain values.
pub open spec fn region_views(regions: Seq<MemoryRegion>) -> Seq<RegionView> {
    Seq::new(regions.len(), |k: int| regions[k]@)
}

/// What one read returned, as plain values.
pub open spec fn read_view(read: Option<Vec<u8>>) -> Option<Seq<u8>> {
    match read {
        Some(bytes) => Some(bytes@),
        None => None,
    }
}

/// What each read returned, as plain values.
pub open spec fn read_views(reads: Seq<Option<Vec<u8>>>) -> Seq<Option<Seq<u8>>> {
    Seq::new(reads.len(), |k: int| read_view(reads[k]))
}

/// The regions that the lines of a description record, in the order of the lines. Lines
/// that are not well formed are passed over.
pub open spec fn parsed_regions(lines: Seq<Seq<char>>) -> Seq<RegionView> {
    lines.filter_map(|line: Seq<char>| parsed_line(line))
}

/// Whether the read of `region` counts, given whether the memory is open and what the
/// read returned (`None` where seeking or reading failed): it has to hold exactly the
/// region's bytes.
pub open spec fn read_outcome(open: bool, region: RegionView, read: Option<Seq<u8>>) -> Result<
    Seq<u8>,
    ReadError,
> {
    if !open {
        Err(ReadError::NotOpen)
    } else {
        match read {
            None => Err(ReadError::Unreadable),
            Some(bytes) => if bytes.len() == region.size {
                Ok(bytes)
            } else {
                Err(ReadError::ShortRead)
            },
        }
    }
}

/// What the `k`-th read returned; a read that was never made has failed.
pub open spec fn read_at(reads: Seq<Option<Seq<u8>>>, k: int) -> Option<Seq<u8>> {
    if 0 <= k < reads.len() {
        reads[k]
    } else {
        None
    }
}

/// The snapshot of `regions`: the bytes of every region whose read counts, joined in the
/// order of the regions. `reads[k]` is what the read of `regions[k]` returned.
pub open spec fn snapshot_of(open: bool, regions: Seq<RegionView>, reads: Seq<Option<Seq<u8>>>) -> Seq<
    u8,
>
    decreases regions.len(),
{
    if regions.len() == 0 {
        Seq::empty()
    } else {
        let last = regions.len() - 1;
        snapshot_of(open, regions.drop_last(), reads) + match read_outcome(
            open,
            regions[last],
            read_at(reads, last),
        ) {
            Ok(bytes) => bytes,
            Err(_) => Seq::empty(),
        }
    }
}

/// The lines that present `regions`: a heading with their number, a rule of eighty
/// hyphens, and one line for each region.
pub open spec fn report_lines(regions: Seq<RegionView>) -> Seq<Seq<char>> {
    seq![
        "Memory regions ("@ + number_text(regions.len(), 10) + seq![')'],
        Seq::new(80, |i: int| '-'),
    ] + Seq::new(regions.len(), |k: int| display_text(regions[k]))
}

/// Reads the lines of the description of a process's mappings into regions, in order.
/// A line that is not well formed is passed over and does not stop the scan.
pub fn parse_memory_maps(lines: &Vec<String>) -> (regions: Vec<MemoryRegion>)
    ensures
        region_views(regions@) == parsed_regions(line_views(lines@)),
        forall|k: int| 0 <= k < regions@.len() ==> (#[trigger] regions@[k])@.well_formed(),
{
    let ghost texts = line_views(lines@);
    let ghost parse = |line: Seq<char>| parsed_line(line);
    let mut regions: Vec<MemoryRegion> = Vec::new();
    let mut k: usize = 0;
    while k < lines.len()
        invariant
            k <= lines@.len(),
            texts == line_views(lines@),
            parse == |line: Seq<char>| parsed_line(line),
            region_views(regions@) == texts.take(k as int).filter_map(parse),
        decreases lines@.len() - k,
    {
        let ghost before = region_views(regions@);
        assert(texts.take(k + 1).drop_last() =~= texts.take(k as int));
        assert(texts.take(k + 1).last() == lines@[k as int]@);
        match parse_maps_line(lines[k].as_str()) {
            Some(region) => {
                regions.push(region);
                assert(region_views(regions@) =~= before + seq![region@]);
            },
            None => {},
        }
        k += 1;
    }
    assert(texts.take(lines@.len() as int) =~= texts);
    proof {
        lemma_parsed_regions_well_formed(texts);
        assert forall|k: int| 0 <= k < regions@.len() implies (#[trigger] regions@[k])@.well_formed() by {
            assert(region_views(regions@)[k] == regions@[k]@);
            assert(parsed_regions(texts)[k].well_formed());
        }
    }
    regions
}

/// Every region that a description records is well formed: its range is not empty and
/// its size is the length of the range.
pub proof fn lemma_parsed_regions_well_formed(lines: Seq<Seq<char>>)
    ensures
        forall|k: int|
            0 <= k < parsed_regions(lines).len() ==> (#[trigger] parsed_regions(
                lines,
            )[k]).well_formed(),
    decreases lines.len(),
{
    if lines.len() > 0 {
        lemma_parsed_regions_well_formed(lines.drop_last());
        lemma_parsed_line_well_formed(lines.last());
        let earlier = parsed_regions(lines.drop_last());
        assert forall|k: int| 0 <= k < parsed_regions(lines).len() implies (#[trigger] parsed_regions(
            lines,
        )[k]).well_formed() by {
            if k < earlier.len() {
                assert(parsed_regions(lines)[k] == earlier[k]);
            }
        }
    }
}

/// The catalog of one process's mapped regions, and whether its memory is open for
/// reading.
pub struct MemoryDumper {
    pid: u32,
    memory_open: bool,
    regions: Vec<MemoryRegion>,
}

impl MemoryDumper {
    #[verifier::type_invariant]
    spec fn regions_well_formed(&self) -> bool {
        forall|k: int| 0 <= k < self.regions@.len() ==> (#[trigger] self.regions@[k])@.well_formed()
    }

    /// The process that the catalog describes.
    pub closed spec fn process(&self) -> u32 {
        self.pid
    }

    /// Whether the process's memory has been opened.
    pub closed spec fn is_open(&self) -> bool {
        self.memory_open
    }

    /// The regions, in the order in which the description lists them.
    pub closed spec fn catalog(&self) -> Seq<MemoryRegion> {
        self.regions@
    }

    /// The regions of the catalog that `filter` selects, in catalog order.
    pub open spec fn selected(&self, filter: RegionFilter) -> Seq<MemoryRegion> {
        self.catalog().filter(|region: MemoryRegion| selects(filter, region@))
    }

    /// Builds the catalog of process `pid` from the lines of its description. The
    /// process's memory is not open yet.
    pub fn new(pid: u32, lines: &Vec<String>) -> (dumper: MemoryDumper)
        ensures
            dumper.process() == pid,
            !dumper.is_open(),
            region_views(dumper.catalog()) == parsed_regions(line_views(lines@)),
    {
        MemoryDumper { pid, memory_open: false, regions: parse_memory_maps(lines) }
    }

    /// Builds the catalog of process `pid` from what reading its description returned.
    /// A description that could not be had fails the scan; lines that are not well formed
    /// do not.
    pub fn scan(pid: u32, source: &MapsSource) -> (result: Result<MemoryDumper, AcquisitionError>)
        ensures
            match *source {
                MapsSource::Missing => result matches Err(AcquisitionError::NotFound),
                MapsSource::Denied => result matches Err(AcquisitionError::PermissionDenied),
                MapsSource::Garbled => result matches Err(AcquisitionError::MalformedSource),
                MapsSource::Lines(lines) => result matches Ok(dumper) && dumper.process() == pid
                    && !dumper.is_open() && region_views(dumper.catalog()) == parsed_regions(
                    line_views(lines@),
                ),
            },
    {
        match source {
            MapsSource::Missing => Err(AcquisitionError::NotFound),
            MapsSource::Denied => Err(AcquisitionError::PermissionDenied),
            MapsSource::Garbled => Err(AcquisitionError::MalformedSource),
            MapsSource::Lines(lines) => Ok(MemoryDumper::new(pid, lines)),
        }
    }

    /// The process that the catalog describes.
    pub fn pid(&self) -> (pid: u32)
        ensures
            pid == self.process(),
    {
        self.pid
    }

    /// The regions, in the order in which the description lists them. Each of them is
    /// well formed: its range is not empty and its size is the length of the range.
    pub fn get_regions(&self) -> (regions: &Vec<MemoryRegion>)
        ensures
            regions@ == self.catalog(),
            forall|k: int| 0 <= k < regions@.len() ==> (#[trigger] regions@[k])@.well_formed(),
    {
        proof {
            use_type_invariant(self);
        }
        &self.regions
    }

    /// The regions that `filter` selects, in catalog order. Every policy is defined on
    /// every catalog; an empty catalog has no selected region.
    pub fn filter_regions(&self, filter: RegionFilter) -> (selected: Vec<&MemoryRegion>)
        ensures
            selected@.len() == self.selected(filter).len(),
            forall|k: int| 0 <= k < selected@.len() ==> *selected@[k] == self.selected(filter)[k],
            self.catalog().len() == 0 ==> selected@.len() == 0,
    {
        proof {
            self.regions@.lemma_filter_len(|region: MemoryRegion| selects(filter, region@));
        }
        let ghost keep = |region: MemoryRegion| selects(filter, region@);
        let mut selected: Vec<&MemoryRegion> = Vec::new();
        let mut i: usize = 0;
        while i < self.regions.len()
            invariant
                i <= self.regions@.len(),
                keep == |region: MemoryRegion| selects(filter, region@),
                selected@.len() == self.regions@.take(i as int).filter(keep).len(),
                forall|k: int|
                    0 <= k < selected@.len() ==> *selected@[k] == self.regions@.take(
                        i as int,
                    ).filter(keep)[k],
            decreases self.regions@.len() - i,
        {
            proof {
                reveal(Seq::filter);
                assert(self.regions@.take(i + 1).drop_last() =~= self.regions@.take(i as int));
            }
            if self.regions[i].matches(filter) {
                selected.push(&self.regions[i]);
            }
            i += 1;
        }
        assert(self.regions@.take(self.regions@.len() as int) =~= self.regions@);
        selected
    }

    /// The lines that present the regions that `filter` selects, for printing.
    pub fn print_regions(&self, filter: RegionFilter) -> (lines: Vec<String>)
        ensures
            line_views(lines@) == report_lines(region_views(self.selected(filter))),
    {
        let selected = self.filter_regions(filter);
        let ghost regions = region_views(self.selected(filter));
        let mut heading = chars_of("Memory regions (");
        push_number(&mut heading, selected.len() as u64, 10);
        heading.push(')');
        assert(heading@ =~= "Memory regions ("@ + number_text(regions.len(), 10) + seq![')']);
        assert(heading@.subrange(0, heading@.len() as int) =~= heading@);
        let mut rule: Vec<char> = Vec::new();
        let mut i: usize = 0;
        while i < 80
            invariant
                i <= 80,
                rule@ == Seq::new(i as nat, |j: int| '-'),
            decreases 80 - i,
        {
            rule.push('-');
            assert(Seq::new(i as nat, |j: int| '-').push('-') =~= Seq::new(
                (i + 1) as nat,
                |j: int| '-',
            ));
            i += 1;
        }
        assert(rule@.subrange(0, rule@.len() as int) =~= rule@);
        let mut lines: Vec<String> = Vec::new();
        lines.push(text_of(&heading, 0, heading.len()));
        lines.push(text_of(&rule, 0, rule.len()));
        assert(line_views(lines@).take(2) =~= report_lines(regions).take(2));
        let mut k: usize = 0;
        while k < selected.len()
            invariant
                k <= selected@.len(),
                selected@.len() == regions.len(),
                forall|j: int| 0 <= j < selected@.len() ==> selected@[j]@ == regions[j],
                lines@.len() == 2 + k,
                line_views(lines@).take(2) == report_lines(regions).take(2),
                forall|j: int| 0 <= j < k ==> (#[trigger] lines@[2 + j])@ == display_text(regions[j]),
            decreases selected@.len() - k,
        {
            let ghost before = lines@;
            lines.push(selected[k].to_display_string());
            assert(line_views(lines@).take(2) =~= line_views(before).take(2));
            k += 1;
        }
        assert(line_views(lines@) =~= report_lines(regions)) by {
            assert forall|j: int| 0 <= j < lines@.len() implies line_views(lines@)[j]
                == report_lines(regions)[j] by {
                if j < 2 {
                    assert(line_views(lines@)[j] == line_views(lines@).take(2)[j]);
                    assert(report_lines(regions)[j] == report_lines(regions).take(2)[j]);
                } else {
                    assert(lines@[2 + (j - 2)]@ == display_text(regions[j - 2]));
                }
            }
        }
        lines
    }

    /// Replaces the catalog by what the lines of a fresh description record.
    pub fn refresh_regions(&mut self, lines: &Vec<String>)
        ensures
            final(self).process() == old(self).process(),
            final(self).is_open() == old(self).is_open(),
            region_views(final(self).catalog()) == parsed_regions(line_views(lines@)),
    {
        self.regions = parse_memory_maps(lines);
    }

    /// Records the attempt to open the process's memory. After a failed attempt the
    /// memory is not open, and the failure is reported as `Unreadable`.
    pub fn open_memory_file(&mut self, opened: bool) -> (result: Result<(), ReadError>)
        ensures
            final(self).process() == old(self).process(),
            final(self).catalog() == old(self).catalog(),
            final(self).is_open() == opened,
            result is Ok <==> opened,
            result matches Err(e) ==> e == ReadError::Unreadable,
    {
        proof {
            use_type_invariant(&*self);
        }
        self.memory_open = opened;
        if opened {
            Ok(())
        } else {
            Err(ReadError::Unreadable)
        }
    }

    /// Judges the read of one region: `read` is what seeking to the region's start and
    /// reading its bytes returned, `None` where either failed. On success the number of
    /// bytes read is returned, which is the region's size.
    pub fn check_read(&self, region: &MemoryRegion, read: &Option<Vec<u8>>) -> (result: Result<
        usize,
        ReadError,
    >)
        ensures
            match read_outcome(self.is_open(), region@, read_view(*read)) {
                Ok(bytes) => result == Ok::<usize, ReadError>(bytes.len() as usize),
                Err(e) => result == Err::<usize, ReadError>(e),
            },
    {
        if !self.memory_open {
            return Err(ReadError::NotOpen);
        }
        match read {
            None => Err(ReadError::Unreadable),
            Some(bytes) => {
                if bytes.len() as u64 == region.size {
                    Ok(bytes.len())
                } else {
                    Err(ReadError::ShortRead)
                }
            },
        }
    }

    /// The bytes of one region, if its read counts: `read` is what seeking to the region's
    /// start and reading its bytes returned, `None` where either failed.
    pub fn dump_region(&self, region: &MemoryRegion, read: Option<Vec<u8>>) -> (result: Result<
        Vec<u8>,
        ReadError,
    >)
        ensures
            match read_outcome(self.is_open(), region@, read_view(read)) {
                Ok(bytes) => result matches Ok(data) && data@ == bytes,
                Err(e) => result == Err::<Vec<u8>, ReadError>(e),
            },
    {
        match self.check_read(region, &read) {
            Ok(_) => match read {
                Some(bytes) => Ok(bytes),
                None => Err(ReadError::Unreadable),
            },
            Err(e) => Err(e),
        }
    }

    /// The snapshot of the regions that `filter` selects: the bytes of every selected
    /// region whose read counts, joined in catalog order. `reads[k]` is what the read of
    /// the `k`-th selected region returned. A region whose read does not count is left
    /// out and does not stop the others.
    pub fn dump_regions(&self, filter: RegionFilter, reads: &Vec<Option<Vec<u8>>>) -> (dumps: Vec<u8>)
        ensures
            dumps@ == snapshot_of(
                self.is_open(),
                region_views(self.selected(filter)),
                read_views(reads@),
            ),
    {
        let selected = self.filter_regions(filter);
        let ghost regions = region_views(self.selected(filter));
        let ghost given = read_views(reads@);
        let mut dumps: Vec<u8> = Vec::new();
        let mut k: usize = 0;
        while k < selected.len()
            invariant
                k <= selected@.len(),
                selected@.len() == regions.len(),
                regions == region_views(self.selected(filter)),
                given == read_views(reads@),
                forall|j: int| 0 <= j < selected@.len() ==> selected@[j]@ == regions[j],
                dumps@ == snapshot_of(self.memory_open, regions.take(k as int), given),
            decreases selected@.len() - k,
        {
            assert(regions.take(k + 1).drop_last() =~= regions.take(k as int));
            let ghost before = dumps@;
            if k < reads.len() {
                match self.check_read(selected[k], &reads[k]) {
                    Ok(_) => match &reads[k] {
                        Some(bytes) => {
                            let mut j: usize = 0;
                            while j < bytes.len()
                                invariant
                                    j <= bytes@.len(),
                                    dumps@ == before + bytes@.take(j as int),
                                decreases bytes@.len() - j,
                            {
                                dumps.push(bytes[j]);
                                j += 1;
                            }
                            assert(bytes@.take(bytes@.len() as int) =~= bytes@);
                        },
                        None => {},
                    },
                    Err(_) => {
                        assert(dumps@ =~= before + Seq::<u8>::empty());
                    },
                }
            } else {
                assert(dumps@ =~= before + Seq::<u8>::empty());
            }
            k += 1;
        }
        assert(regions.take(selected@.len() as int) =~= regions);
        dumps
    }
}

} // verus!
