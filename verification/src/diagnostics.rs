//! Opt-in, content-free layout evidence. Counters are scoped to one
//! synchronous worker: a slot that the worker owns, not deltas from a shared
//! cache that concurrent typing can contaminate.
use vstd::prelude::*;

verus! {

/// How much layout evidence a background reflow collects.
#[derive(Clone, Copy, Debug, PartialEq, Eq, Structural)]
pub enum LayoutTraceMode {
    Off,
    Summary,
    Details,
}

impl Default for LayoutTraceMode {
    fn default() -> (mode: Self)
        ensures
            mode == LayoutTraceMode::Off,
    {
        LayoutTraceMode::Off
    }
}

/// Whether a worker trace is started at all: every mode but `Off`.
pub fn trace_enabled(mode: LayoutTraceMode) -> (enabled: bool)
    ensures
        enabled == (mode != LayoutTraceMode::Off),
{
    !matches!(mode, LayoutTraceMode::Off)
}

/// Whether a finished trace carries per-row details.
pub fn wants_details(mode: LayoutTraceMode) -> (details: bool)
    ensures
        details == (mode == LayoutTraceMode::Details),
{
    matches!(mode, LayoutTraceMode::Details)
}

/// Why a row candidate was rejected.
#[derive(Clone, Copy, Debug, PartialEq, Eq, Structural)]
pub enum RowRejection {
    TooNarrow,
    Unmeasured,
    Overflow,
    TooTall,
    EditLock,
}

/// Arrangement of a row candidate.
#[derive(Clone, Copy, Debug, PartialEq, Eq, Structural)]
pub enum RowKind {
    Stack,
    Peer,
    Explanation,
    Tables,
    Gallery,
}

/// The report's name for a rejection reason.
pub open spec fn rejection_name(reason: RowRejection) -> Seq<char> {
    match reason {
        RowRejection::TooNarrow => "too_narrow"@,
        RowRejection::Unmeasured => "unmeasured"@,
        RowRejection::Overflow => "overflow"@,
        RowRejection::TooTall => "peer_too_tall"@,
        RowRejection::EditLock => "edit_lock"@,
    }
}

/// The report's name for a rejection reason.
pub fn rejection(reason: RowRejection) -> (name: &'static str)
    ensures
        name@ == rejection_name(reason),
{
    match reason {
        RowRejection::TooNarrow => "too_narrow",
        RowRejection::Unmeasured => "unmeasured",
        RowRejection::Overflow => "overflow",
        RowRejection::TooTall => "peer_too_tall",
        RowRejection::EditLock => "edit_lock",
    }
}

/// The report's name for a row arrangement.
pub open spec fn row_kind_name(kind: RowKind) -> Seq<char> {
    match kind {
        RowKind::Stack => "stack"@,
        RowKind::Peer => "peer_row"@,
        RowKind::Explanation => "explanation_content"@,
        RowKind::Tables => "tables"@,
        RowKind::Gallery => "gallery"@,
    }
}

/// The report's name for a row arrangement.
pub fn row_kind(kind: RowKind) -> (name: &'static str)
    ensures
        name@ == row_kind_name(kind),
{
    match kind {
        RowKind::Stack => "stack",
        RowKind::Peer => "peer_row",
        RowKind::Explanation => "explanation_content",
        RowKind::Tables => "tables",
        RowKind::Gallery => "gallery",
    }
}

/// Measurement work done during one stage of a worker.
#[derive(Clone, Copy, Debug, PartialEq, Eq, Structural)]
pub struct MeasurementCounts {
    pub wrap_requests: u64,
    pub wrap_cache_hits: u64,
    pub wrap_cache_misses: u64,
    pub intrinsic_requests: u64,
    pub intrinsic_cache_hits: u64,
    pub intrinsic_cache_misses: u64,
    pub shaping_calls: u64,
    pub table_attempts: u64,
    pub tables_measured: u64,
    pub table_cache_hits: u64,
    pub group_requests: u64,
    pub group_cache_hits: u64,
    pub groups_measured: u64,
    pub item_requests: u64,
    pub item_cache_hits: u64,
    pub items_measured: u64,
    pub geometry_requests: u64,
    pub geometry_cache_hits: u64,
    pub segments_laid_out: u64,
    pub geometry_cache_evictions: u64,
    pub published_geometry_reuses: u64,
    pub retained_extension_requests: u64,
    pub retained_extension_hits: u64,
    pub deferred_text_segments: u64,
}

/// One counter of `MeasurementCounts`.
#[derive(Clone, Copy, Debug, PartialEq, Eq, Structural)]
pub enum Counter {
    WrapRequests,
    WrapCacheHits,
    WrapCacheMisses,
    IntrinsicRequests,
    IntrinsicCacheHits,
    IntrinsicCacheMisses,
    ShapingCalls,
    TableAttempts,
    TablesMeasured,
    TableCacheHits,
    GroupRequests,
    GroupCacheHits,
    GroupsMeasured,
    ItemRequests,
    ItemCacheHits,
    ItemsMeasured,
    GeometryRequests,
    GeometryCacheHits,
    SegmentsLaidOut,
    GeometryCacheEvictions,
    PublishedGeometryReuses,
    RetainedExtensionRequests,
    RetainedExtensionHits,
    DeferredTextSegments,
}

/// All counters at zero.
pub open spec fn zero_counts() -> MeasurementCounts {
    MeasurementCounts {
        wrap_requests: 0,
        wrap_cache_hits: 0,
        wrap_cache_misses: 0,
        intrinsic_requests: 0,
        intrinsic_cache_hits: 0,
        intrinsic_cache_misses: 0,
        shaping_calls: 0,
        table_attempts: 0,
        tables_measured: 0,
        table_cache_hits: 0,
        group_requests: 0,
        group_cache_hits: 0,
        groups_measured: 0,
        item_requests: 0,
        item_cache_hits: 0,
        items_measured: 0,
        geometry_requests: 0,
        geometry_cache_hits: 0,
        segments_laid_out: 0,
        geometry_cache_evictions: 0,
        published_geometry_reuses: 0,
        retained_extension_requests: 0,
        retained_extension_hits: 0,
        deferred_text_segments: 0,
    }
}

impl Default for MeasurementCounts {
    fn default() -> (counts: Self)
        ensures
            counts == zero_counts(),
    {
        MeasurementCounts {
            wrap_requests: 0,
            wrap_cache_hits: 0,
            wrap_cache_misses: 0,
            intrinsic_requests: 0,
            intrinsic_cache_hits: 0,
            intrinsic_cache_misses: 0,
            shaping_calls: 0,
            table_attempts: 0,
            tables_measured: 0,
            table_cache_hits: 0,
            group_requests: 0,
            group_cache_hits: 0,
            groups_measured: 0,
            item_requests: 0,
            item_cache_hits: 0,
            items_measured: 0,
            geometry_requests: 0,
            geometry_cache_hits: 0,
            segments_laid_out: 0,
            geometry_cache_evictions: 0,
            published_geometry_reuses: 0,
            retained_extension_requests: 0,
            retained_extension_hits: 0,
            deferred_text_segments: 0,
        }
    }
}

impl MeasurementCounts {
    /// The value of one counter.
    pub open spec fn value(self, counter: Counter) -> u64 {
        match counter {
            Counter::WrapRequests => self.wrap_requests,
            Counter::WrapCacheHits => self.wrap_cache_hits,
            Counter::WrapCacheMisses => self.wrap_cache_misses,
            Counter::IntrinsicRequests => self.intrinsic_requests,
            Counter::IntrinsicCacheHits => self.intrinsic_cache_hits,
            Counter::IntrinsicCacheMisses => self.intrinsic_cache_misses,
            Counter::ShapingCalls => self.shaping_calls,
            Counter::TableAttempts => self.table_attempts,
            Counter::TablesMeasured => self.tables_measured,
            Counter::TableCacheHits => self.table_cache_hits,
            Counter::GroupRequests => self.group_requests,
            Counter::GroupCacheHits => self.group_cache_hits,
            Counter::GroupsMeasured => self.groups_measured,
            Counter::ItemRequests => self.item_requests,
            Counter::ItemCacheHits => self.item_cache_hits,
            Counter::ItemsMeasured => self.items_measured,
            Counter::GeometryRequests => self.geometry_requests,
            Counter::GeometryCacheHits => self.geometry_cache_hits,
            Counter::SegmentsLaidOut => self.segments_laid_out,
            Counter::GeometryCacheEvictions => self.geometry_cache_evictions,
            Counter::PublishedGeometryReuses => self.published_geometry_reuses,
            Counter::RetainedExtensionRequests => self.retained_extension_requests,
            Counter::RetainedExtensionHits => self.retained_extension_hits,
            Counter::DeferredTextSegments => self.deferred_text_segments,
        }
    }

    /// `self` with one counter raised by `amount`.
    pub open spec fn raised(self, counter: Counter, amount: u64) -> MeasurementCounts {
        match counter {
            Counter::WrapRequests => MeasurementCounts { wrap_requests: (self.wrap_requests + amount) as u64, ..self },
            Counter::WrapCacheHits => MeasurementCounts { wrap_cache_hits: (self.wrap_cache_hits + amount) as u64, ..self },
            Counter::WrapCacheMisses => MeasurementCounts { wrap_cache_misses: (self.wrap_cache_misses + amount) as u64, ..self },
            Counter::IntrinsicRequests => MeasurementCounts { intrinsic_requests: (self.intrinsic_requests + amount) as u64, ..self },
            Counter::IntrinsicCacheHits => MeasurementCounts { intrinsic_cache_hits: (self.intrinsic_cache_hits + amount) as u64, ..self },
            Counter::IntrinsicCacheMisses => MeasurementCounts { intrinsic_cache_misses: (self.intrinsic_cache_misses + amount) as u64, ..self },
            Counter::ShapingCalls => MeasurementCounts { shaping_calls: (self.shaping_calls + amount) as u64, ..self },
            Counter::TableAttempts => MeasurementCounts { table_attempts: (self.table_attempts + amount) as u64, ..self },
            Counter::TablesMeasured => MeasurementCounts { tables_measured: (self.tables_measured + amount) as u64, ..self },
            Counter::TableCacheHits => MeasurementCounts { table_cache_hits: (self.table_cache_hits + amount) as u64, ..self },
            Counter::GroupRequests => MeasurementCounts { group_requests: (self.group_requests + amount) as u64, ..self },
            Counter::GroupCacheHits => MeasurementCounts { group_cache_hits: (self.group_cache_hits + amount) as u64, ..self },
            Counter::GroupsMeasured => MeasurementCounts { groups_measured: (self.groups_measured + amount) as u64, ..self },
            Counter::ItemRequests => MeasurementCounts { item_requests: (self.item_requests + amount) as u64, ..self },
            Counter::ItemCacheHits => MeasurementCounts { item_cache_hits: (self.item_cache_hits + amount) as u64, ..self },
            Counter::ItemsMeasured => MeasurementCounts { items_measured: (self.items_measured + amount) as u64, ..self },
            Counter::GeometryRequests => MeasurementCounts { geometry_requests: (self.geometry_requests + amount) as u64, ..self },
            Counter::GeometryCacheHits => MeasurementCounts { geometry_cache_hits: (self.geometry_cache_hits + amount) as u64, ..self },
            Counter::SegmentsLaidOut => MeasurementCounts { segments_laid_out: (self.segments_laid_out + amount) as u64, ..self },
            Counter::GeometryCacheEvictions => MeasurementCounts { geometry_cache_evictions: (self.geometry_cache_evictions + amount) as u64, ..self },
            Counter::PublishedGeometryReuses => MeasurementCounts { published_geometry_reuses: (self.published_geometry_reuses + amount) as u64, ..self },
            Counter::RetainedExtensionRequests => MeasurementCounts { retained_extension_requests: (self.retained_extension_requests + amount) as u64, ..self },
            Counter::RetainedExtensionHits => MeasurementCounts { retained_extension_hits: (self.retained_extension_hits + amount) as u64, ..self },
            Counter::DeferredTextSegments => MeasurementCounts { deferred_text_segments: (self.deferred_text_segments + amount) as u64, ..self },
        }
    }

    /// The value of one counter.
    pub fn get(&self, counter: Counter) -> (value: u64)
        ensures
            value == self.value(counter),
    {
        match counter {
            Counter::WrapRequests => self.wrap_requests,
            Counter::WrapCacheHits => self.wrap_cache_hits,
            Counter::WrapCacheMisses => self.wrap_cache_misses,
            Counter::IntrinsicRequests => self.intrinsic_requests,
            Counter::IntrinsicCacheHits => self.intrinsic_cache_hits,
            Counter::IntrinsicCacheMisses => self.intrinsic_cache_misses,
            Counter::ShapingCalls => self.shaping_calls,
            Counter::TableAttempts => self.table_attempts,
            Counter::TablesMeasured => self.tables_measured,
            Counter::TableCacheHits => self.table_cache_hits,
            Counter::GroupRequests => self.group_requests,
            Counter::GroupCacheHits => self.group_cache_hits,
            Counter::GroupsMeasured => self.groups_measured,
            Counter::ItemRequests => self.item_requests,
            Counter::ItemCacheHits => self.item_cache_hits,
            Counter::ItemsMeasured => self.items_measured,
            Counter::GeometryRequests => self.geometry_requests,
            Counter::GeometryCacheHits => self.geometry_cache_hits,
            Counter::SegmentsLaidOut => self.segments_laid_out,
            Counter::GeometryCacheEvictions => self.geometry_cache_evictions,
            Counter::PublishedGeometryReuses => self.published_geometry_reuses,
            Counter::RetainedExtensionRequests => self.retained_extension_requests,
            Counter::RetainedExtensionHits => self.retained_extension_hits,
            Counter::DeferredTextSegments => self.deferred_text_segments,
        }
    }

    /// Raises one counter by `amount`.
    pub fn raise(&mut self, counter: Counter, amount: u64)
        requires
            old(self).value(counter) + amount <= u64::MAX,
        ensures
            *final(self) == old(self).raised(counter, amount),
    {
        match counter {
            Counter::WrapRequests => self.wrap_requests = self.wrap_requests + amount,
            Counter::WrapCacheHits => self.wrap_cache_hits = self.wrap_cache_hits + amount,
            Counter::WrapCacheMisses => self.wrap_cache_misses = self.wrap_cache_misses + amount,
            Counter::IntrinsicRequests => self.intrinsic_requests = self.intrinsic_requests + amount,
            Counter::IntrinsicCacheHits => self.intrinsic_cache_hits = self.intrinsic_cache_hits + amount,
            Counter::IntrinsicCacheMisses => self.intrinsic_cache_misses = self.intrinsic_cache_misses + amount,
            Counter::ShapingCalls => self.shaping_calls = self.shaping_calls + amount,
            Counter::TableAttempts => self.table_attempts = self.table_attempts + amount,
            Counter::TablesMeasured => self.tables_measured = self.tables_measured + amount,
            Counter::TableCacheHits => self.table_cache_hits = self.table_cache_hits + amount,
            Counter::GroupRequests => self.group_requests = self.group_requests + amount,
            Counter::GroupCacheHits => self.group_cache_hits = self.group_cache_hits + amount,
            Counter::GroupsMeasured => self.groups_measured = self.groups_measured + amount,
            Counter::ItemRequests => self.item_requests = self.item_requests + amount,
            Counter::ItemCacheHits => self.item_cache_hits = self.item_cache_hits + amount,
            Counter::ItemsMeasured => self.items_measured = self.items_measured + amount,
            Counter::GeometryRequests => self.geometry_requests = self.geometry_requests + amount,
            Counter::GeometryCacheHits => self.geometry_cache_hits = self.geometry_cache_hits + amount,
            Counter::SegmentsLaidOut => self.segments_laid_out = self.segments_laid_out + amount,
            Counter::GeometryCacheEvictions => self.geometry_cache_evictions = self.geometry_cache_evictions + amount,
            Counter::PublishedGeometryReuses => self.published_geometry_reuses = self.published_geometry_reuses + amount,
            Counter::RetainedExtensionRequests => self.retained_extension_requests = self.retained_extension_requests + amount,
            Counter::RetainedExtensionHits => self.retained_extension_hits = self.retained_extension_hits + amount,
            Counter::DeferredTextSegments => self.deferred_text_segments = self.deferred_text_segments + amount,
        }
    }
}

/// The counter slot of one worker thread: `None` outside any measurement scope.
pub struct CounterSlot {
    pub counts: Option<MeasurementCounts>,
}

impl CounterSlot {
    /// A slot outside any measurement scope.
    pub fn new() -> (slot: Self)
        ensures
            slot.counts is None,
    {
        CounterSlot { counts: None }
    }

    /// Whether `count` may add `amount` to `counter` without overflow.
    pub open spec fn can_count(self, counter: Counter, amount: u64) -> bool {
        self.counts matches Some(c) ==> c.value(counter) + amount <= u64::MAX
    }

    /// The slot after counting: unchanged outside a scope (counting is opt-in).
    pub open spec fn counted(self, counter: Counter, amount: u64) -> CounterSlot {
        match self.counts {
            Some(c) => CounterSlot { counts: Some(c.raised(counter, amount)) },
            None => self,
        }
    }
}

/// Records measurement work in the current scope, if any.
pub fn count(slot: &mut CounterSlot, counter: Counter, amount: u64)
    requires
        old(slot).can_count(counter, amount),
    ensures
        *final(slot) == old(slot).counted(counter, amount),
{
    if let Some(mut counts) = slot.counts {
        counts.raise(counter, amount);
        slot.counts = Some(counts);
    }
}

/// A measurement scope: counts from zero while open, and gives the slot back
/// its previous contents when closed, so scopes nest.
pub struct MeasurementScope {
    previous: Option<MeasurementCounts>,
}

impl MeasurementScope {
    /// What the slot held when the scope was opened.
    pub closed spec fn previous(self) -> Option<MeasurementCounts> {
        self.previous
    }

    /// Opens a scope: the slot counts from zero.
    pub fn new(slot: &mut CounterSlot) -> (scope: Self)
        ensures
            scope.previous() == old(slot).counts,
            final(slot).counts == Some(zero_counts()),
    {
        let previous = slot.counts;
        slot.counts = Some(MeasurementCounts::default());
        MeasurementScope { previous }
    }

    /// The counts of the stage that just ended; the next stage counts from zero.
    pub fn take_stage(&self, slot: &mut CounterSlot) -> (stage: MeasurementCounts)
        ensures
            final(slot).counts == Some(zero_counts()),
            stage == match old(slot).counts {
                Some(c) => c,
                None => zero_counts(),
            },
    {
        let stage = match slot.counts {
            Some(c) => c,
            None => MeasurementCounts::default(),
        };
        slot.counts = Some(MeasurementCounts::default());
        stage
    }

    /// Closes the scope: the slot holds what it held before the scope opened.
    pub fn close(self, slot: &mut CounterSlot)
        ensures
            final(slot).counts == self.previous(),
    {
        slot.counts = self.previous;
    }
}

} // verus!
