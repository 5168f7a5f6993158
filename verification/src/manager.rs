//! The registry of loaded point clouds: what an `open` creates, what the
//! indexing of a file does to its entry step by step, and what the queries
//! answer.

use vstd::prelude::*;
use vstd::string::StringExecFns;
use crate::lod::lemma_selection_named;
use crate::lod::selection;
use crate::octree::Octree;
use crate::octree::chunk_of;
use crate::octree::describes;
use crate::octree::lemma_node_at;
use crate::octree::path_of;
use crate::packing::ChunkFrame;
use crate::packing::all_consistent;
use crate::packing::chunk_frames;
use crate::packing::frames_of;
use crate::packing::pack_chunks_binary;
use crate::packing::packed;
use crate::parser::Delivery;
use crate::parser::ParseError;
use crate::parser::PointSink;
use crate::parser::PointcloudParser;
use crate::parser::answered;
use crate::parser::delivered_points;
use crate::parser::error_text;
use crate::parser::lemma_batches_cover;
use crate::registry::Registry;
use crate::text::decimal;
use crate::text::decimal_text;
use crate::types::CameraState;
use crate::types::IndexProgress;
use crate::types::OctreeNodeInfo;
use crate::types::PointChunk;
use crate::types::PointRecord;
use crate::types::PointcloudMetadata;

verus! {

/// Points that a batch of the indexing holds.
pub const BATCH_SIZE: u64 = 100_000;

/// The progress of a finished indexing, in millionths.
pub const PROGRESS_DONE: u32 = 1_000_000;

/// The progress when all points are read, in millionths.
pub const PROGRESS_READ: u32 = 500_000;

/// Why a query could not be answered.
#[derive(Debug, Clone, Copy, PartialEq, Eq, Structural)]
pub enum ManagerError {
    /// No entry for the given id.
    NotFound,
    /// The entry exists but has no octree: it is still under construction,
    /// or its construction failed.
    NotReady,
}

/// One loaded point cloud.
pub struct PointcloudEntry {
    pub metadata: PointcloudMetadata,
    pub octree: Option<Octree>,
    pub progress: IndexProgress,
}

/// The id of the `n`-th point cloud opened: `pc_` and `n` in decimal.
pub open spec fn pc_id(n: u32) -> Seq<char> {
    "pc_"@ + decimal(n as nat)
}

/// The progress while reading, in millionths: half of the share of the
/// points that are read.
pub open spec fn reading_progress(processed: u64, total: u64) -> u32 {
    if total == 0 {
        0
    } else if processed >= total {
        PROGRESS_READ
    } else {
        ((processed * PROGRESS_READ) / (total as int)) as u32
    }
}

proof fn lemma_share(processed: u64, total: u64)
    requires
        processed < total,
    ensures
        0 <= (processed * PROGRESS_READ) / (total as int) < PROGRESS_READ,
        reading_progress(processed, total) == (processed * PROGRESS_READ) / (total as int),
{
    let q = (processed * 500_000) / (total as int);
    assert(0 <= q < 500_000) by (nonlinear_arith)
        requires
            q == (processed * 500_000) / (total as int),
            0 <= processed < total,
    ;
}

/// The progress does not fall while more points are read, and stays
/// within the half that the reading has.
pub proof fn lemma_reading_progress(fewer: u64, more: u64, total: u64)
    requires
        fewer <= more,
    ensures
        reading_progress(fewer, total) <= reading_progress(more, total) <= PROGRESS_READ,
        PROGRESS_READ < PROGRESS_DONE,
{
    if total > 0 && fewer < total {
        lemma_share(fewer, total);
        if more < total {
            lemma_share(more, total);
            assert(fewer * 500_000 <= more * 500_000) by (nonlinear_arith)
                requires
                    0 <= fewer <= more,
            ;
            vstd::arithmetic::div_mod::lemma_div_is_ordered(
                fewer * 500_000,
                more * 500_000,
                total as int,
            );
        }
    }
}

/// An octree, where the entry has one, is well formed.
pub open spec fn entry_ok(e: PointcloudEntry) -> bool {
    match e.octree {
        Some(tree) => tree.wf(),
        None => true,
    }
}

/// The entry `e` with its progress replaced.
pub open spec fn with_progress(
    after: PointcloudEntry,
    before: PointcloudEntry,
    progress: u32,
    phase: Seq<char>,
    points_processed: u64,
) -> bool {
    &&& after.metadata == before.metadata
    &&& after.octree == before.octree
    &&& after.progress.progress == progress
    &&& after.progress.phase@ == phase
    &&& after.progress.points_processed == points_processed
    &&& after.progress.total_points == before.progress.total_points
}

/// Whether the tree has a chunk for `id`: a node with that id and points.
pub open spec fn has_chunk(tree: Octree, id: Seq<char>) -> bool {
    tree.lookup(id) is Some && tree.lookup(id).unwrap().points@.len() > 0
}

/// The ids among `ids` for which the tree has a chunk, in their order.
pub open spec fn ids_with_chunk(tree: Octree, ids: Seq<String>) -> Seq<Seq<char>>
    decreases ids.len(),
{
    if ids.len() == 0 {
        Seq::empty()
    } else if has_chunk(tree, ids.last()@) {
        ids_with_chunk(tree, ids.drop_last()).push(ids.last()@)
    } else {
        ids_with_chunk(tree, ids.drop_last())
    }
}

/// Whether `chunks` are the chunks of those ids among `ids`, in their
/// order, that name a node with points.
pub open spec fn chunks_answer(tree: Octree, ids: Seq<String>, chunks: Seq<PointChunk>) -> bool {
    &&& chunks.len() == ids_with_chunk(tree, ids).len()
    &&& forall|i: int|
        0 <= i < chunks.len() ==> chunk_of(
            #[trigger] chunks[i],
            tree.lookup(ids_with_chunk(tree, ids)[i]).unwrap(),
            ids_with_chunk(tree, ids)[i],
        )
}

/// No more ids have a chunk than there are ids.
pub proof fn lemma_with_chunk_len(tree: Octree, ids: Seq<String>)
    ensures
        ids_with_chunk(tree, ids).len() <= ids.len(),
    decreases ids.len(),
{
    if ids.len() > 0 {
        lemma_with_chunk_len(tree, ids.drop_last());
    }
}

/// Every id with a chunk is the id of a node of the tree.
pub proof fn lemma_ids_with_chunk(tree: Octree, ids: Seq<String>, i: int)
    requires
        0 <= i < ids_with_chunk(tree, ids).len(),
    ensures
        has_chunk(tree, ids_with_chunk(tree, ids)[i]),
    decreases ids.len(),
{
    if ids.len() > 0 {
        let front = ids_with_chunk(tree, ids.drop_last());
        if i < front.len() {
            lemma_ids_with_chunk(tree, ids.drop_last(), i);
        }
    }
}

/// The id of a node of a well-formed tree is at most 13 characters of
/// ASCII: as many bytes in UTF-8.
pub proof fn lemma_id_bytes(tree: Octree, id: Seq<char>)
    requires
        tree.wf(),
        tree.lookup(id) is Some,
    ensures
        vstd::utf8::encode_utf8(id).len() == id.len(),
        id.len() <= 13,
{
    lemma_node_at(tree.root, path_of(id));
    assert(vstd::utf8::is_ascii_chars(id)) by {
        assert forall|i: int| 0 <= i < id.len() implies '\0' <= #[trigger] id[i] <= '\u{7f}' by {
            if i > 0 {
                assert('0' <= id[i] <= '7');
            }
        }
    }
    vstd::utf8::is_ascii_chars_encode_utf8(id);
}

/// The ids among `ids` that are ids of nodes of the tree, in their order.
pub open spec fn ids_in_tree(tree: Octree, ids: Seq<Seq<char>>) -> Seq<Seq<char>>
    decreases ids.len(),
{
    if ids.len() == 0 {
        Seq::empty()
    } else if tree.lookup(ids.last()) is Some {
        ids_in_tree(tree, ids.drop_last()).push(ids.last())
    } else {
        ids_in_tree(tree, ids.drop_last())
    }
}

/// Where every id is the id of a node of the tree, none is left out.
pub proof fn lemma_ids_in_tree_all(tree: Octree, ids: Seq<Seq<char>>)
    requires
        forall|i: int| 0 <= i < ids.len() ==> tree.lookup(#[trigger] ids[i]) is Some,
    ensures
        ids_in_tree(tree, ids) == ids,
    decreases ids.len(),
{
    if ids.len() > 0 {
        assert forall|i: int| 0 <= i < ids.drop_last().len() implies tree.lookup(
            #[trigger] ids.drop_last()[i],
        ) is Some by {
            assert(ids.drop_last()[i] == ids[i]);
        }
        lemma_ids_in_tree_all(tree, ids.drop_last());
        assert(tree.lookup(ids[ids.len() - 1]) is Some);
        assert(ids.drop_last().push(ids.last()) =~= ids);
    } else {
        assert(ids =~= Seq::<Seq<char>>::empty());
    }
}

/// A copy of metadata.
pub fn copy_metadata(m: &PointcloudMetadata) -> (r: PointcloudMetadata)
    ensures
        r == *m,
{
    PointcloudMetadata {
        id: m.id.clone(),
        file_path: m.file_path.clone(),
        file_name: m.file_name.clone(),
        format: m.format.clone(),
        total_points: m.total_points,
        bounds: m.bounds,
        has_color: m.has_color,
        has_intensity: m.has_intensity,
        has_classification: m.has_classification,
        point_record_format: m.point_record_format,
        las_version: m.las_version.clone(),
    }
}

/// A copy of a progress.
pub fn copy_progress(p: &IndexProgress) -> (r: IndexProgress)
    ensures
        r == *p,
{
    IndexProgress {
        progress: p.progress,
        phase: p.phase.clone(),
        points_processed: p.points_processed,
        total_points: p.total_points,
    }
}

/// Collects the points of all batches, and asks for more every time.
pub struct PointCollector {
    batches: Vec<(Vec<PointRecord>, u64)>,
}

impl PointCollector {
    /// A collector that has taken nothing.
    pub fn new() -> (c: PointCollector)
        ensures
            c.received() == Seq::<Delivery>::empty(),
            c.answers() == Seq::<bool>::empty(),
    {
        let c = PointCollector { batches: Vec::new() };
        assert(c.received() =~= Seq::<Delivery>::empty());
        assert(c.answers() =~= Seq::<bool>::empty());
        c
    }

    /// A collector asks for more every time, once for each batch.
    pub proof fn lemma_asks_for_more(&self)
        ensures
            self.answers().len() == self.received().len(),
            forall|i: int| 0 <= i < self.answers().len() ==> #[trigger] self.answers()[i],
    {
    }

    /// Hands over the points collected, in the order in which they came.
    pub fn into_points(self) -> (v: Vec<PointRecord>)
        ensures
            v@ == delivered_points(self.received()),
    {
        let mut points: Vec<PointRecord> = Vec::new();
        let ghost log = self.received();
        let mut k: usize = 0;
        assert(log.take(0) =~= Seq::<Delivery>::empty());
        while k < self.batches.len()
            invariant
                k <= self.batches@.len(),
                log == self.received(),
                log.len() == self.batches@.len(),
                points@ == delivered_points(log.take(k as int)),
            decreases self.batches@.len() - k,
        {
            let batch = &self.batches[k].0;
            let ghost before = points@;
            let mut i: usize = 0;
            while i < batch.len()
                invariant
                    i <= batch@.len(),
                    points@ == before + batch@.subrange(0, i as int),
                decreases batch@.len() - i,
            {
                points.push(batch[i]);
                i = i + 1;
                assert(points@ =~= before + batch@.subrange(0, i as int));
            }
            proof {
                assert(batch@.subrange(0, i as int) =~= batch@);
                let next = log.take(k + 1);
                assert(next.drop_last() =~= log.take(k as int));
                assert(next.last() == log[k as int]);
                assert(log[k as int].points == batch@);
            }
            k = k + 1;
        }
        assert(log.take(k as int) =~= log);
        points
    }
}

impl PointSink for PointCollector {
    closed spec fn received(&self) -> Seq<Delivery> {
        Seq::new(
            self.batches@.len(),
            |i: int| Delivery { points: self.batches@[i].0@, start_index: self.batches@[i].1 as int },
        )
    }

    closed spec fn answers(&self) -> Seq<bool> {
        Seq::new(self.batches@.len(), |i: int| true)
    }

    fn accept(&mut self, batch: &[PointRecord], start_index: u64) -> (go_on: bool) {
        let mut copy: Vec<PointRecord> = Vec::new();
        let mut i: usize = 0;
        while i < batch.len()
            invariant
                i <= batch@.len(),
                copy@ == batch@.subrange(0, i as int),
            decreases batch@.len() - i,
        {
            copy.push(batch[i]);
            i = i + 1;
            assert(copy@ =~= batch@.subrange(0, i as int));
        }
        assert(batch@.subrange(0, i as int) =~= batch@);
        self.batches.push((copy, start_index));
        assert(self.received() =~= old(self).received().push(
            Delivery { points: batch@, start_index: start_index as int },
        ));
        assert(self.answers() =~= old(self).answers().push(true));
        true
    }
}

/// Manages all loaded point clouds.
pub struct PointcloudManager {
    entries: Registry<PointcloudEntry>,
    next_id: u32,
}

impl PointcloudManager {
    /// The point clouds loaded, by id.
    pub closed spec fn entries(&self) -> Map<Seq<char>, PointcloudEntry> {
        self.entries.map()
    }

    /// The number that the next id is made of.
    pub closed spec fn next(&self) -> u32 {
        self.next_id
    }

    /// Every id stands once, an entry stands under the id of its metadata,
    /// and every octree is well formed.
    pub closed spec fn wf(&self) -> bool {
        &&& self.entries.wf()
        &&& self.entries.key_seq().len() == self.entries.value_seq().len()
        &&& forall|i: int|
            0 <= i < self.entries.value_seq().len() ==> entry_ok(
                #[trigger] self.entries.value_seq()[i],
            ) && self.entries.value_seq()[i].metadata.id@ == self.entries.key_seq()[i]
    }

    /// The octree of every entry is well formed.
    pub proof fn lemma_entries_ok(&self)
        requires
            self.wf(),
        ensures
            forall|id: Seq<char>| #[trigger]
                self.entries().contains_key(id) ==> entry_ok(self.entries()[id])
                    && self.entries()[id].metadata.id@ == id,
    {
        self.entries.lemma_map_of_seqs();
        assert forall|id: Seq<char>| #[trigger] self.entries().contains_key(id) implies entry_ok(
            self.entries()[id],
        ) && self.entries()[id].metadata.id@ == id by {
            let i = choose|i: int|
                0 <= i < self.entries.key_seq().len() && #[trigger] self.entries.key_seq()[i]
                    == id;
            assert(entry_ok(self.entries.value_seq()[i]));
        }
    }

    /// A registry without entries, whose first id is `pc_1`.
    pub fn new() -> (m: PointcloudManager)
        ensures
            m.wf(),
            m.next() == 1,
            m.entries() == Map::<Seq<char>, PointcloudEntry>::empty(),
    {
        PointcloudManager { entries: Registry::new(), next_id: 1 }
    }

    /// Whether an id is left for another `open`.
    pub fn has_free_id(&self) -> (r: bool)
        ensures
            r == (self.next() < u32::MAX),
    {
        self.next_id < u32::MAX
    }

    /// Puts `e` under `id`, in place of the entry that was there, if any.
    fn put(&mut self, id: &str, e: PointcloudEntry)
        requires
            old(self).wf(),
            entry_ok(e),
            e.metadata.id@ == id@,
        ensures
            final(self).wf(),
            final(self).next() == old(self).next(),
            final(self).entries() == old(self).entries().insert(id@, e),
    {
        self.entries.insert(id, e);
        proof {
            let keys = self.entries.key_seq();
            let values = self.entries.value_seq();
            assert forall|i: int| 0 <= i < values.len() implies entry_ok(#[trigger] values[i])
                && values[i].metadata.id@ == keys[i] by {
                if old(self).entries.map().contains_key(id@) {
                    let k = choose|k: int|
                        0 <= k < old(self).entries.key_seq().len() && old(self).entries.key_seq()[k] == id@ && values == #[trigger] old(self).entries.value_seq().update(k, e);
                    if i != k {
                        assert(entry_ok(old(self).entries.value_seq()[i]));
                    }
                } else {
                    if i < old(self).entries.value_seq().len() {
                        assert(entry_ok(old(self).entries.value_seq()[i]));
                    }
                }
            }
        }
    }

    /// Opens the point cloud file at `file_path`, whose bytes are `data`:
    /// parses the header, takes the next id and makes an entry without an
    /// octree, in the phase `Reading points`. Returns the metadata and the
    /// parser from which the octree is to be built. A file that is refused
    /// takes no id and leaves the registry as it was.
    pub fn open(&mut self, file_path: &str, data: Vec<u8>) -> (r: Result<
        (PointcloudMetadata, PointcloudParser),
        ParseError,
    >)
        requires
            old(self).wf(),
            old(self).next() < u32::MAX,
        ensures
            final(self).wf(),
            match r {
                Ok((m, p)) => {
                    &&& crate::parser::refusal(data@) is None
                    &&& final(self).next() == old(self).next() + 1
                    &&& p.wf()
                    &&& p.file() == data@
                    &&& m.id@ == pc_id(old(self).next())
                    &&& m.file_path@ == file_path@
                    &&& (m.file_name@ == "unknown"@ || crate::parser::is_part_of(
                        file_path@,
                        m.file_name@,
                    ))
                    &&& (p.compressed() ==> crate::parser::names_laz(file_path@))
                    &&& m.format@ == (if p.compressed() { "LAZ"@ } else { "LAS"@ })
                    &&& m.total_points == p.las_header().number_of_points
                    &&& m.bounds == crate::parser::header_bounds(p.las_header())
                    &&& m.has_color == p.las_header().has_color
                    &&& m.has_intensity
                    &&& m.has_classification
                    &&& m.point_record_format == p.las_header().point_data_format
                    &&& m.las_version@ == crate::parser::version_text(
                        p.las_header().version_minor,
                    )
                    &&& final(self).entries().contains_key(m.id@)
                    &&& final(self).entries() == old(self).entries().insert(
                        m.id@,
                        final(self).entries()[m.id@],
                    )
                    &&& final(self).entries()[m.id@].metadata == m
                    &&& final(self).entries()[m.id@].octree is None
                    &&& final(self).entries()[m.id@].progress.progress == 0
                    &&& final(self).entries()[m.id@].progress.phase@ == "Reading points"@
                    &&& final(self).entries()[m.id@].progress.points_processed == 0
                    &&& final(self).entries()[m.id@].progress.total_points == m.total_points
                },
                Err(e) => {
                    &&& crate::parser::refusal(data@) == Some(e)
                    &&& final(self).next() == old(self).next()
                    &&& final(self).entries() == old(self).entries()
                },
            },
    {
        let parser = match PointcloudParser::open(file_path, data) {
            Ok(p) => p,
            Err(e) => {
                return Err(e);
            },
        };
        let id = String::from_str("pc_").concat(decimal_text(self.next_id as u128).as_str());
        self.next_id = self.next_id + 1;
        let metadata = parser.metadata(id.as_str(), file_path);
        let total_points = parser.total_points();
        let entry = PointcloudEntry {
            metadata: copy_metadata(&metadata),
            octree: None,
            progress: IndexProgress {
                progress: 0,
                phase: String::from_str("Reading points"),
                points_processed: 0,
                total_points,
            },
        };
        self.put(id.as_str(), entry);
        Ok((metadata, parser))
    }

    /// Changes the progress of the entry `id`; no entry, no change.
    fn set_progress(&mut self, id: &str, progress: u32, phase: String, points_processed: u64)
        requires
            old(self).wf(),
        ensures
            final(self).wf(),
            final(self).next() == old(self).next(),
            final(self).entries().dom() == old(self).entries().dom(),
            !old(self).entries().contains_key(id@) ==> final(self).entries() == old(self).entries(),
            old(self).entries().contains_key(id@) ==> {
                &&& final(self).entries() == old(self).entries().insert(
                    id@,
                    final(self).entries()[id@],
                )
                &&& with_progress(
                    final(self).entries()[id@],
                    old(self).entries()[id@],
                    progress,
                    phase@,
                    points_processed,
                )
            },
    {
        match self.entries.find(id) {
            Some(i) => {
                let ghost before = self.entries.value_seq();
                let entry = self.entries.value_mut(i);
                entry.progress.progress = progress;
                entry.progress.phase = phase;
                entry.progress.points_processed = points_processed;
                proof {
                    assert forall|j: int| 0 <= j < self.entries.value_seq().len() implies entry_ok(
                        #[trigger] self.entries.value_seq()[j],
                    ) && self.entries.value_seq()[j].metadata.id@ == self.entries.key_seq()[j] by {
                        assert(entry_ok(before[j]));
                    }
                    assert(self.entries().dom() =~= old(self).entries().dom());
                }
            },
            None => {},
        }
    }

    /// The reading of the points of `id` begins.
    pub fn begin_reading(&mut self, id: &str)
        requires
            old(self).wf(),
        ensures
            final(self).wf(),
            final(self).next() == old(self).next(),
            !old(self).entries().contains_key(id@) ==> final(self).entries() == old(self).entries(),
            old(self).entries().contains_key(id@) ==> {
                &&& final(self).entries() == old(self).entries().insert(
                    id@,
                    final(self).entries()[id@],
                )
                &&& with_progress(
                    final(self).entries()[id@],
                    old(self).entries()[id@],
                    old(self).entries()[id@].progress.progress,
                    "Reading points"@,
                    old(self).entries()[id@].progress.points_processed,
                )
            },
    {
        match self.entries.find(id) {
            Some(i) => {
                let progress = self.entries.value(i).progress.progress;
                let processed = self.entries.value(i).progress.points_processed;
                self.set_progress(id, progress, String::from_str("Reading points"), processed);
            },
            None => {},
        }
    }

    /// `points_processed` points of `id` have been read: the progress is
    /// half of their share of all points.
    pub fn record_progress(&mut self, id: &str, points_processed: u64)
        requires
            old(self).wf(),
        ensures
            final(self).wf(),
            final(self).next() == old(self).next(),
            !old(self).entries().contains_key(id@) ==> final(self).entries() == old(self).entries(),
            old(self).entries().contains_key(id@) ==> {
                &&& final(self).entries() == old(self).entries().insert(
                    id@,
                    final(self).entries()[id@],
                )
                &&& with_progress(
                    final(self).entries()[id@],
                    old(self).entries()[id@],
                    reading_progress(
                        points_processed,
                        old(self).entries()[id@].progress.total_points,
                    ),
                    old(self).entries()[id@].progress.phase@,
                    points_processed,
                )
            },
    {
        match self.entries.find(id) {
            Some(i) => {
                let total = self.entries.value(i).progress.total_points;
                let phase = self.entries.value(i).progress.phase.clone();
                let progress: u32 = if total == 0 {
                    0
                } else if points_processed >= total {
                    PROGRESS_READ
                } else {
                    assert(points_processed * PROGRESS_READ <= 0xffff_ffff_ffff_ffff * 500_000)
                        by (nonlinear_arith)
                        requires
                            0 <= points_processed <= 0xffff_ffff_ffff_ffff,
                            PROGRESS_READ == 500_000,
                    ;
                    let share: u128 = (points_processed as u128) * (PROGRESS_READ as u128) / (
                    total as u128);
                    assert(share < 500_000) by (nonlinear_arith)
                        requires
                            share == (points_processed * 500_000) / (total as int),
                            0 <= points_processed < total,
                    ;
                    share as u32
                };
                self.set_progress(id, progress, phase, points_processed);
            },
            None => {},
        }
    }

    /// All points of `id` are read and the building of its octree begins.
    pub fn begin_building(&mut self, id: &str)
        requires
            old(self).wf(),
        ensures
            final(self).wf(),
            final(self).next() == old(self).next(),
            !old(self).entries().contains_key(id@) ==> final(self).entries() == old(self).entries(),
            old(self).entries().contains_key(id@) ==> {
                &&& final(self).entries() == old(self).entries().insert(
                    id@,
                    final(self).entries()[id@],
                )
                &&& with_progress(
                    final(self).entries()[id@],
                    old(self).entries()[id@],
                    PROGRESS_READ,
                    "Building octree"@,
                    old(self).entries()[id@].progress.points_processed,
                )
            },
    {
        match self.entries.find(id) {
            Some(i) => {
                let processed = self.entries.value(i).progress.points_processed;
                self.set_progress(id, PROGRESS_READ, String::from_str("Building octree"), processed);
            },
            None => {},
        }
    }

    /// The octree of `id` is built: the entry gets it and is complete. No
    /// entry, no change.
    pub fn install_octree(&mut self, id: &str, octree: Octree)
        requires
            old(self).wf(),
            octree.wf(),
        ensures
            final(self).wf(),
            final(self).next() == old(self).next(),
            !old(self).entries().contains_key(id@) ==> final(self).entries() == old(self).entries(),
            old(self).entries().contains_key(id@) ==> {
                let after = final(self).entries()[id@];
                let before = old(self).entries()[id@];
                &&& final(self).entries() == old(self).entries().insert(id@, after)
                &&& after.metadata == before.metadata
                &&& after.octree == Some(octree)
                &&& after.progress.progress == PROGRESS_DONE
                &&& after.progress.phase@ == "Complete"@
                &&& after.progress.points_processed == before.progress.points_processed
                &&& after.progress.total_points == before.progress.total_points
            },
    {
        match self.entries.find(id) {
            Some(i) => {
                let ghost before = self.entries.value_seq();
                let entry = self.entries.value_mut(i);
                entry.octree = Some(octree);
                entry.progress.phase = String::from_str("Complete");
                entry.progress.progress = PROGRESS_DONE;
                proof {
                    assert forall|j: int| 0 <= j < self.entries.value_seq().len() implies entry_ok(
                        #[trigger] self.entries.value_seq()[j],
                    ) && self.entries.value_seq()[j].metadata.id@ == self.entries.key_seq()[j] by {
                        assert(entry_ok(before[j]));
                    }
                }
            },
            None => {},
        }
    }

    /// The indexing of `id` failed: its phase is `Error: ` and the message,
    /// and its progress stays as it is.
    pub fn fail(&mut self, id: &str, message: &str)
        requires
            old(self).wf(),
        ensures
            final(self).wf(),
            final(self).next() == old(self).next(),
            !old(self).entries().contains_key(id@) ==> final(self).entries() == old(self).entries(),
            old(self).entries().contains_key(id@) ==> {
                &&& final(self).entries() == old(self).entries().insert(
                    id@,
                    final(self).entries()[id@],
                )
                &&& with_progress(
                    final(self).entries()[id@],
                    old(self).entries()[id@],
                    old(self).entries()[id@].progress.progress,
                    "Error: "@ + message@,
                    old(self).entries()[id@].progress.points_processed,
                )
            },
    {
        match self.entries.find(id) {
            Some(i) => {
                let progress = self.entries.value(i).progress.progress;
                let processed = self.entries.value(i).progress.points_processed;
                let phase = String::from_str("Error: ").concat(message);
                self.set_progress(id, progress, phase, processed);
            },
            None => {},
        }
    }

    /// The building of the octree of `id` has ended: with an octree, which
    /// the entry gets, or with an error, which its phase reports.
    pub fn finish_build(&mut self, id: &str, outcome: Result<Octree, ParseError>)
        requires
            old(self).wf(),
            outcome is Ok ==> outcome->Ok_0.wf(),
        ensures
            final(self).wf(),
            final(self).next() == old(self).next(),
            !old(self).entries().contains_key(id@) ==> final(self).entries() == old(self).entries(),
            old(self).entries().contains_key(id@) ==> {
                let after = final(self).entries()[id@];
                let before = old(self).entries()[id@];
                &&& final(self).entries() == old(self).entries().insert(id@, after)
                &&& after.metadata == before.metadata
                &&& after.progress.points_processed == before.progress.points_processed
                &&& after.progress.total_points == before.progress.total_points
                &&& match outcome {
                    Ok(tree) => {
                        &&& after.octree == Some(tree)
                        &&& after.progress.progress == PROGRESS_DONE
                        &&& after.progress.phase@ == "Complete"@
                    },
                    Err(e) => {
                        &&& after.octree == before.octree
                        &&& after.progress.progress == before.progress.progress
                        &&& after.progress.phase@ == "Error: "@ + error_text(e)
                    },
                }
            },
    {
        match outcome {
            Ok(tree) => {
                self.install_octree(id, tree);
            },
            Err(e) => {
                let message = e.message();
                self.fail(id, message.as_str());
            },
        }
    }

    /// Reads all points of the file of `parser` and builds the octree of
    /// `id` from them: the phase is `Reading points` while the points are
    /// read, `Building octree` while the octree is built, and `Complete`
    /// when the entry has its octree. For a compressed file `laz_records`
    /// holds the decompressed point records (see `stream_points`). Where
    /// the points cannot be read, the entry stays in the phase `Reading
    /// points` with its progress as it was and gets no octree; where they
    /// are more than an octree takes, it stays in that phase with all
    /// points counted as read.
    #[verifier::rlimit(40)]
    pub fn build_octree(&mut self, id: &str, parser: &PointcloudParser, laz_records: &[u8]) -> (r:
        Result<(), ParseError>)
        requires
            old(self).wf(),
            parser.wf(),
        ensures
            final(self).wf(),
            final(self).next() == old(self).next(),
            final(self).entries().dom() == old(self).entries().dom(),
            !old(self).entries().contains_key(id@) ==> final(self).entries() == old(self).entries(),
            old(self).entries().contains_key(id@) ==> final(self).entries() == old(self).entries().insert(id@, final(self).entries()[id@]) && final(self).entries()[id@].metadata == old(self).entries()[id@].metadata,
            match r {
                Ok(()) => {
                    &&& parser.stream_fault(BATCH_SIZE, laz_records@) is None
                    &&& parser.stream_source(laz_records@).len() <= u32::MAX
                    &&& old(self).entries().contains_key(id@) ==> {
                        let after = final(self).entries()[id@];
                        &&& after.octree is Some
                        &&& after.octree.unwrap().wf()
                        &&& after.octree.unwrap().root.built(
                            parser.stream_source(laz_records@),
                            true,
                        )
                        &&& after.octree.unwrap().root.bounds == crate::parser::header_bounds(
                            parser.las_header(),
                        )
                        &&& after.octree.unwrap().total_points == parser.stream_source(
                            laz_records@,
                        ).len()
                        &&& after.progress.progress == PROGRESS_DONE
                        &&& after.progress.phase@ == "Complete"@
                        &&& after.progress.points_processed == parser.stream_source(
                            laz_records@,
                        ).len()
                    }
                },
                Err(e) => {
                    &&& (if parser.stream_fault(BATCH_SIZE, laz_records@) is Some {
                        parser.stream_fault(BATCH_SIZE, laz_records@) == Some(e)
                    } else {
                        e == ParseError::TooManyPoints && parser.stream_source(
                            laz_records@,
                        ).len() > u32::MAX
                    })
                    &&& old(self).entries().contains_key(id@) ==> {
                        let after = final(self).entries()[id@];
                        let before = old(self).entries()[id@];
                        &&& after.octree == before.octree
                        &&& after.progress.phase@ == "Reading points"@
                        &&& after.progress.total_points == before.progress.total_points
                        &&& if parser.stream_fault(BATCH_SIZE, laz_records@) is Some {
                            &&& after.progress.progress == before.progress.progress
                            &&& after.progress.points_processed
                                == before.progress.points_processed
                        } else {
                            &&& after.progress.points_processed == parser.stream_source(
                                laz_records@,
                            ).len()
                            &&& after.progress.progress == reading_progress(
                                after.progress.points_processed,
                                before.progress.total_points,
                            )
                        }
                    }
                },
            },
    {
        self.begin_reading(id);
        let ghost all = parser.stream_source(laz_records@);
        let ghost full = parser.batches(BATCH_SIZE, laz_records@);
        let mut sink = PointCollector::new();
        match parser.stream_points(BATCH_SIZE, laz_records, &mut sink) {
            Ok(()) => {},
            Err(e) => {
                return Err(e);
            },
        }
        let all_points = sink.into_points();
        proof {
            parser.lemma_source_valid(laz_records@);
            sink.lemma_asks_for_more();
            let k = choose|k: int|
                #![trigger full.take(k)]
                0 <= k <= full.len() && sink.received() == Seq::<Delivery>::empty() + full.take(k)
                    && answered(Seq::<bool>::empty(), sink.answers(), k) && (k == full.len() || (k
                    > 0 && !sink.answers().last()));
            if k > 0 {
                assert(sink.answers().last() == sink.answers()[sink.answers().len() - 1]);
            }
            assert(full.take(k) =~= full);
            assert(Seq::<Delivery>::empty() + full =~= full);
            lemma_batches_cover(all, parser.las_header().number_of_points as int, BATCH_SIZE as int, 0);
            assert(all.subrange(0, all.len() as int) =~= all);
            assert(all_points@ == all);
        }
        let count: usize = all_points.len();
        self.record_progress(id, count as u64);
        if count > u32::MAX as usize {
            return Err(ParseError::TooManyPoints);
        }
        self.begin_building(id);
        let octree = Octree::build(all_points, parser.bounds());
        self.install_octree(id, octree);
        Ok(())
    }

    /// Get indexing progress.
    pub fn get_progress(&self, id: &str) -> (r: Option<IndexProgress>)
        requires
            self.wf(),
        ensures
            match r {
                Some(p) => self.entries().contains_key(id@) && p == self.entries()[id@].progress,
                None => !self.entries().contains_key(id@),
            },
    {
        match self.entries.find(id) {
            Some(i) => Some(copy_progress(&self.entries.value(i).progress)),
            None => None,
        }
    }

    /// Get metadata for a point cloud.
    pub fn get_metadata(&self, id: &str) -> (r: Option<PointcloudMetadata>)
        requires
            self.wf(),
        ensures
            match r {
                Some(m) => self.entries().contains_key(id@) && m == self.entries()[id@].metadata,
                None => !self.entries().contains_key(id@),
            },
    {
        match self.entries.find(id) {
            Some(i) => Some(copy_metadata(&self.entries.value(i).metadata)),
            None => None,
        }
    }

    /// Load point data for specific nodes: the chunks of those ids, in
    /// their order, that name a node with points.
    pub fn get_nodes(&self, id: &str, node_ids: &Vec<String>) -> (r: Result<
        Vec<PointChunk>,
        ManagerError,
    >)
        requires
            self.wf(),
        ensures
            match r {
                Ok(chunks) => {
                    &&& self.entries().contains_key(id@)
                    &&& self.entries()[id@].octree is Some
                    &&& self.entries()[id@].octree.unwrap().wf()
                    &&& chunks_answer(self.entries()[id@].octree.unwrap(), node_ids@, chunks@)
                },
                Err(ManagerError::NotFound) => !self.entries().contains_key(id@),
                Err(ManagerError::NotReady) => self.entries().contains_key(id@)
                    && self.entries()[id@].octree is None,
            },
    {
        let i = match self.entries.find(id) {
            Some(i) => i,
            None => {
                return Err(ManagerError::NotFound);
            },
        };
        let entry = self.entries.value(i);
        let octree = match &entry.octree {
            Some(t) => t,
            None => {
                return Err(ManagerError::NotReady);
            },
        };
        let ghost tree = *octree;
        assert(entry_ok(*entry));
        let mut chunks: Vec<PointChunk> = Vec::new();
        let mut k: usize = 0;
        assert(node_ids@.take(0) =~= Seq::<String>::empty());
        while k < node_ids.len()
            invariant
                k <= node_ids@.len(),
                tree == *octree,
                octree.wf(),
                chunks@.len() == ids_with_chunk(tree, node_ids@.take(k as int)).len(),
                forall|j: int|
                    0 <= j < chunks@.len() ==> chunk_of(
                        #[trigger] chunks@[j],
                        tree.lookup(ids_with_chunk(tree, node_ids@.take(k as int))[j]).unwrap(),
                        ids_with_chunk(tree, node_ids@.take(k as int))[j],
                    ),
            decreases node_ids@.len() - k,
        {
            proof {
                let next = node_ids@.take(k + 1);
                assert(next.drop_last() =~= node_ids@.take(k as int));
                assert(next.last() == node_ids@[k as int]);
            }
            match octree.get_node_chunk(node_ids[k].as_str()) {
                Some(chunk) => {
                    chunks.push(chunk);
                },
                None => {},
            }
            k = k + 1;
        }
        assert(node_ids@.take(k as int) =~= node_ids@);
        proof {
            self.lemma_entries_ok();
        }
        Ok(chunks)
    }

    /// Load point data for specific nodes as one buffer in the binary
    /// layout: the chunks that `get_nodes` gives, with their numbers as
    /// floats, packed.
    pub fn get_nodes_binary(&self, id: &str, node_ids: &Vec<String>) -> (r: Result<
        Vec<u8>,
        ManagerError,
    >)
        requires
            self.wf(),
            node_ids@.len() <= u32::MAX,
        ensures
            match r {
                Ok(bytes) => {
                    &&& self.entries().contains_key(id@)
                    &&& self.entries()[id@].octree is Some
                    &&& exists|chunks: Seq<PointChunk>, frames: Seq<ChunkFrame>|
                        {
                            &&& chunks_answer(
                                self.entries()[id@].octree.unwrap(),
                                node_ids@,
                                chunks,
                            )
                            &&& #[trigger] frames_of(frames, chunks)
                            &&& all_consistent(frames)
                            &&& bytes@ == packed(frames)
                        }
                },
                Err(ManagerError::NotFound) => !self.entries().contains_key(id@),
                Err(ManagerError::NotReady) => self.entries().contains_key(id@)
                    && self.entries()[id@].octree is None,
            },
    {
        let chunks = match self.get_nodes(id, node_ids) {
            Ok(c) => c,
            Err(e) => {
                return Err(e);
            },
        };
        let frames = chunk_frames(&chunks);
        proof {
            let tree = self.entries()[id@].octree.unwrap();
            lemma_with_chunk_len(tree, node_ids@);
            assert forall|i: int| 0 <= i < frames@.len() implies (#[trigger] frames@[i]).consistent()
                && frames@[i].id_bytes().len() <= u32::MAX by {
                let wanted = ids_with_chunk(tree, node_ids@)[i];
                lemma_ids_with_chunk(tree, node_ids@, i);
                lemma_id_bytes(tree, wanted);
                assert(frames@[i].node_id@ == chunks@[i].node_id@);
                assert(chunks@[i].node_id@ == wanted);
            }
        }
        let bytes = pack_chunks_binary(frames.as_slice());
        Ok(bytes)
    }

    /// Get visible nodes for level-of-detail rendering: the infos of the
    /// nodes that the selection names, in its order.
    pub fn get_visible_nodes(&self, id: &str, camera: &CameraState, point_budget: u32) -> (r:
        Result<Vec<OctreeNodeInfo>, ManagerError>)
        requires
            self.wf(),
            camera.valid(),
        ensures
            match r {
                Ok(infos) => {
                    &&& self.entries().contains_key(id@)
                    &&& self.entries()[id@].octree is Some
                    &&& infos@.len() == selection(
                        self.entries()[id@].octree.unwrap().root,
                        *camera,
                        point_budget as int,
                    ).len()
                    &&& forall|i: int|
                        0 <= i < infos@.len() ==> describes(
                            #[trigger] infos@[i],
                            self.entries()[id@].octree.unwrap().lookup(
                                selection(
                                    self.entries()[id@].octree.unwrap().root,
                                    *camera,
                                    point_budget as int,
                                )[i],
                            ).unwrap(),
                        ) && infos@[i].node_id@ == selection(
                            self.entries()[id@].octree.unwrap().root,
                            *camera,
                            point_budget as int,
                        )[i]
                },
                Err(ManagerError::NotFound) => !self.entries().contains_key(id@),
                Err(ManagerError::NotReady) => self.entries().contains_key(id@)
                    && self.entries()[id@].octree is None,
            },
    {
        let i = match self.entries.find(id) {
            Some(i) => i,
            None => {
                return Err(ManagerError::NotFound);
            },
        };
        let entry = self.entries.value(i);
        let octree = match &entry.octree {
            Some(t) => t,
            None => {
                return Err(ManagerError::NotReady);
            },
        };
        let ghost tree = *octree;
        assert(entry_ok(*entry));
        let node_ids = octree.get_visible_nodes(camera, point_budget);
        let ghost sel = selection(tree.root, *camera, point_budget as int);
        let mut infos: Vec<OctreeNodeInfo> = Vec::new();
        let mut k: usize = 0;
        assert(sel.take(0) =~= Seq::<Seq<char>>::empty());
        while k < node_ids.len()
            invariant
                k <= node_ids@.len(),
                tree == *octree,
                octree.wf(),
                node_ids@.len() == sel.len(),
                forall|j: int| 0 <= j < node_ids@.len() ==> (#[trigger] node_ids@[j])@ == sel[j],
                infos@.len() == ids_in_tree(tree, sel.take(k as int)).len(),
                forall|j: int|
                    0 <= j < infos@.len() ==> describes(
                        #[trigger] infos@[j],
                        tree.lookup(ids_in_tree(tree, sel.take(k as int))[j]).unwrap(),
                    ),
            decreases node_ids@.len() - k,
        {
            proof {
                let next = sel.take(k + 1);
                assert(next.drop_last() =~= sel.take(k as int));
                assert(next.last() == sel[k as int]);
                assert(node_ids@[k as int]@ == sel[k as int]);
            }
            match octree.get_node_info(node_ids[k].as_str()) {
                Some(info) => {
                    infos.push(info);
                },
                None => {},
            }
            k = k + 1;
        }
        proof {
            assert(sel.take(k as int) =~= sel);
            assert forall|j: int| 0 <= j < sel.len() implies tree.lookup(#[trigger] sel[j]) is Some by {
                lemma_selection_named(tree, *camera, point_budget as int, j);
            }
            lemma_ids_in_tree_all(tree, sel);
            assert forall|j: int| 0 <= j < infos@.len() implies (#[trigger] infos@[j]).node_id@
                == sel[j] by {
                lemma_selection_named(tree, *camera, point_budget as int, j);
            }
        }
        Ok(infos)
    }

    /// Close and remove a point cloud; whether there was one.
    pub fn close(&mut self, id: &str) -> (r: bool)
        requires
            old(self).wf(),
        ensures
            final(self).wf(),
            final(self).next() == old(self).next(),
            r == old(self).entries().contains_key(id@),
            final(self).entries() == old(self).entries().remove(id@),
    {
        let removed = self.entries.remove(id);
        proof {
            old(self).entries.lemma_map_of_seqs();
            self.entries.lemma_map_of_seqs();
            if removed is Some {
                let i = choose|i: int|
                    0 <= i < old(self).entries.key_seq().len() && old(self).entries.key_seq()[i]
                        == id@ && self.entries.key_seq() == #[trigger] old(self).entries.key_seq().remove(i) && self.entries.value_seq() == old(self).entries.value_seq().remove(i);
                assert forall|j: int| 0 <= j < self.entries.value_seq().len() implies entry_ok(
                    #[trigger] self.entries.value_seq()[j],
                ) && self.entries.value_seq()[j].metadata.id@ == self.entries.key_seq()[j] by {
                    let j0 = if j < i { j } else { j + 1 };
                    assert(entry_ok(old(self).entries.value_seq()[j0]));
                }
            }
        }
        removed.is_some()
    }

    /// List all loaded point clouds: the metadata of every entry, once.
    pub fn list(&self) -> (r: Vec<PointcloudMetadata>)
        requires
            self.wf(),
        ensures
            forall|i: int|
                0 <= i < r@.len() ==> self.entries().contains_key((#[trigger] r@[i]).id@)
                    && self.entries()[r@[i].id@].metadata == r@[i],
            forall|id: Seq<char>| #[trigger]
                self.entries().contains_key(id) ==> exists|i: int|
                    0 <= i < r@.len() && (#[trigger] r@[i]).id@ == id,
            forall|i: int, j: int|
                0 <= i < j < r@.len() ==> (#[trigger] r@[i]).id@ != (#[trigger] r@[j]).id@,
    {
        let mut out: Vec<PointcloudMetadata> = Vec::new();
        let n: usize = self.entries.len();
        let mut i: usize = 0;
        proof {
            self.entries.lemma_map_of_seqs();
        }
        while i < n
            invariant
                i <= n,
                self.wf(),
                n == self.entries.value_seq().len(),
                out@.len() == i,
                forall|j: int| 0 <= j < i ==> #[trigger] out@[j] == self.entries.value_seq()[j].metadata,
            decreases n - i,
        {
            out.push(copy_metadata(&self.entries.value(i).metadata));
            i = i + 1;
        }
        proof {
            let keys = self.entries.key_seq();
            let values = self.entries.value_seq();
            assert forall|j: int| 0 <= j < out@.len() implies self.entries().contains_key(
                (#[trigger] out@[j]).id@,
            ) && self.entries()[out@[j].id@].metadata == out@[j] by {
                assert(values[j].metadata.id@ == keys[j]);
                assert(self.entries().contains_key(keys[j]));
            }
            assert forall|id: Seq<char>| #[trigger] self.entries().contains_key(id) implies exists|
                j: int,
            | 0 <= j < out@.len() && (#[trigger] out@[j]).id@ == id by {
                let j = choose|j: int| 0 <= j < keys.len() && #[trigger] keys[j] == id;
                assert(values[j].metadata.id@ == keys[j]);
                assert(out@[j].id@ == id);
            }
            assert forall|a: int, b: int| 0 <= a < b < out@.len() implies (#[trigger] out@[a]).id@
                != (#[trigger] out@[b]).id@ by {
                assert(values[a].metadata.id@ == keys[a]);
                assert(values[b].metadata.id@ == keys[b]);
                assert(keys[a] != keys[b]);
            }
        }
        out
    }
}

} // verus!
