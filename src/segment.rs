//! Contiguous sector runs on a member device, and the linear table that
//! concatenates them into one dense logical device.
use vstd::prelude::*;

use devicemapper::{Device, LinearTargetParams, Sectors};

use crate::types::DevUuid;

verus! {

/// A contiguous run of sectors on one device.
#[derive(Debug, Clone, Copy)]
pub struct Segment {
    /// The offset into the device where this segment starts.
    pub start: Sectors,
    /// The length of the segment.
    pub length: Sectors,
    /// The device the segment is within.
    pub device: Device,
}

impl Segment {
    /// Create a new Segment with given attributes.
    pub fn new(device: Device, start: Sectors, length: Sectors) -> (r: Segment)
        ensures
            r.device == device,
            r.start == start,
            r.length == length,
    {
        Segment { device, start, length }
    }
}

/// A segment together with the member device that it was carved from.
#[derive(Debug, Clone, Copy)]
pub struct BlkDevSegment {
    pub uuid: DevUuid,
    pub segment: Segment,
}

impl BlkDevSegment {
    pub fn new(uuid: DevUuid, segment: Segment) -> (r: BlkDevSegment)
        ensures
            r.uuid == uuid,
            r.segment == segment,
    {
        BlkDevSegment { uuid, segment }
    }

    pub fn to_segment(&self) -> (r: Segment)
        ensures
            r == self.segment,
    {
        self.segment
    }
}

/// The saved form of a segment: its owner, start and length.
#[derive(Debug, Clone, Copy)]
pub struct BaseDevSave {
    pub parent: DevUuid,
    pub start: Sectors,
    pub length: Sectors,
}

/// The record of a list of segments, in order.
pub fn record_segments(bsegs: &[BlkDevSegment]) -> (r: Vec<BaseDevSave>)
    ensures
        r.len() == bsegs.len(),
        forall|i: int|
            0 <= i < r.len() ==> (#[trigger] r[i]) == (BaseDevSave {
                parent: bsegs[i].uuid,
                start: bsegs[i].segment.start,
                length: bsegs[i].segment.length,
            }),
{
    let mut r: Vec<BaseDevSave> = Vec::new();
    let mut i: usize = 0;
    while i < bsegs.len()
        invariant
            i <= bsegs.len(),
            r.len() == i,
            forall|k: int|
                0 <= k < i ==> (#[trigger] r[k]) == (BaseDevSave {
                    parent: bsegs[k].uuid,
                    start: bsegs[k].segment.start,
                    length: bsegs[k].segment.length,
                }),
        decreases bsegs.len() - i,
    {
        let b = bsegs[i];
        r.push(BaseDevSave { parent: b.uuid, start: b.segment.start, length: b.segment.length });
        i = i + 1;
    }
    r
}

/// One line of a linear device-mapper table: the logical range
/// `[start, start + length)` is backed by `params`.
#[derive(Debug)]
pub struct LinearLine {
    pub start: Sectors,
    pub length: Sectors,
    pub params: LinearTargetParams,
}

/// The sum of the lengths of a sequence of segments.
pub open spec fn total_length(s: Seq<BlkDevSegment>) -> nat
    decreases s.len(),
{
    if s.len() == 0 {
        0
    } else {
        total_length(s.drop_last()) + s.last().segment.length.0 as nat
    }
}

/// The logical offset at which the `i`th segment begins in the table.
pub open spec fn logical_start(s: Seq<BlkDevSegment>, i: int) -> nat {
    total_length(s.take(i))
}

/// The `i`th line of the linear table built from `s`.
pub open spec fn table_line(s: Seq<BlkDevSegment>, i: int) -> LinearLine {
    LinearLine {
        start: Sectors(logical_start(s, i) as u64),
        length: s[i].segment.length,
        params: LinearTargetParams { device: s[i].segment.device, start_offset: s[i].segment.start },
    }
}

proof fn lemma_take_step(s: Seq<BlkDevSegment>, i: int)
    requires
        0 <= i < s.len(),
    ensures
        logical_start(s, i + 1) == logical_start(s, i) + s[i].segment.length.0,
{
    assert(s.take(i + 1).drop_last() =~= s.take(i));
}

proof fn lemma_prefix_bounded(s: Seq<BlkDevSegment>, i: int)
    requires
        0 <= i <= s.len(),
    ensures
        logical_start(s, i) <= total_length(s),
    decreases s.len() - i,
{
    if i < s.len() {
        lemma_take_step(s, i);
        lemma_prefix_bounded(s, i + 1);
    } else {
        assert(s.take(i) =~= s);
    }
}

/// Build a linear table from segments: line `i` covers the logical range
/// that starts at the sum of the lengths of the segments before it, has the
/// length of segment `i`, and is backed by that segment's device and start.
pub fn map_to_dm(bsegs: &[BlkDevSegment]) -> (r: Vec<LinearLine>)
    requires
        total_length(bsegs@) <= u64::MAX,
    ensures
        r.len() == bsegs.len(),
        forall|i: int| 0 <= i < r.len() ==> (#[trigger] r[i]) == table_line(bsegs@, i),
{
    let mut table: Vec<LinearLine> = Vec::new();
    let mut logical_start_offset: u64 = 0;
    let mut i: usize = 0;
    proof {
        assert(bsegs@.take(0) =~= Seq::<BlkDevSegment>::empty());
    }
    while i < bsegs.len()
        invariant
            i <= bsegs.len(),
            total_length(bsegs@) <= u64::MAX,
            table.len() == i,
            logical_start_offset == logical_start(bsegs@, i as int),
            forall|k: int| 0 <= k < i ==> (#[trigger] table[k]) == table_line(bsegs@, k),
        decreases bsegs.len() - i,
    {
        let segment = bsegs[i].to_segment();
        let params = LinearTargetParams { device: segment.device, start_offset: segment.start };
        table.push(LinearLine { start: Sectors(logical_start_offset), length: segment.length, params });
        proof {
            lemma_take_step(bsegs@, i as int);
            lemma_prefix_bounded(bsegs@, i + 1);
        }
        logical_start_offset = logical_start_offset + segment.length.0;
        i = i + 1;
    }
    table
}

proof fn lemma_prefix_monotone(s: Seq<BlkDevSegment>, i: int, j: int)
    requires
        0 <= i <= j <= s.len(),
    ensures
        logical_start(s, i) <= logical_start(s, j),
    decreases j - i,
{
    if i < j {
        lemma_take_step(s, j - 1);
        lemma_prefix_monotone(s, i, j - 1);
    }
}

/// The table that `map_to_dm` builds tiles `[0, total)` in order: the first
/// line starts at 0, each line ends where the next begins, the last ends at
/// the total length, and no line overlaps a later one.
pub proof fn lemma_table_tiles(s: Seq<BlkDevSegment>)
    requires
        total_length(s) <= u64::MAX,
    ensures
        s.len() > 0 ==> table_line(s, 0).start.0 == 0,
        s.len() > 0 ==> table_line(s, s.len() - 1).start.0 + s.last().segment.length.0
            == total_length(s),
        forall|i: int|
            0 <= i < s.len() - 1 ==> table_line(s, i).start.0 + (#[trigger] table_line(
                s,
                i,
            )).length.0 == table_line(s, i + 1).start.0,
        forall|i: int, j: int|
            0 <= i < j < s.len() ==> (#[trigger] table_line(s, i)).start.0 + table_line(
                s,
                i,
            ).length.0 <= (#[trigger] table_line(s, j)).start.0,
{
    assert(s.take(0) =~= Seq::<BlkDevSegment>::empty());
    if s.len() > 0 {
        lemma_take_step(s, s.len() - 1);
        assert(s.take(s.len() as int) =~= s);
        lemma_prefix_bounded(s, s.len() - 1);
    }
    assert forall|i: int| 0 <= i < s.len() - 1 implies table_line(s, i).start.0 + (
    #[trigger] table_line(s, i)).length.0 == table_line(s, i + 1).start.0 by {
        lemma_take_step(s, i);
        lemma_prefix_bounded(s, i);
        lemma_prefix_bounded(s, i + 1);
    }
    assert forall|i: int, j: int| 0 <= i < j < s.len() implies (#[trigger] table_line(
        s,
        i,
    )).start.0 + table_line(s, i).length.0 <= (#[trigger] table_line(s, j)).start.0 by {
        lemma_take_step(s, i);
        lemma_prefix_bounded(s, i);
        lemma_prefix_bounded(s, j);
        lemma_prefix_monotone(s, i + 1, j);
    }
}

} // verus!
