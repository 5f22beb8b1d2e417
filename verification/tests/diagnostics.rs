use document_view::diagnostics::{
    count, rejection, row_kind, trace_enabled, wants_details, Counter, CounterSlot, LayoutTraceMode,
    MeasurementCounts, MeasurementScope, RowKind, RowRejection,
};
use document_view::placement::{changed_entries, changed_rows, placements_of, ChosenRow};
use document_view::trace_report::{
    candidate_scope, detailed_rows, details_truncated, list_candidates, listed_decisions, tally_rejections,
};
use std::collections::HashMap;

#[test]
fn counters_are_opt_in_stage_scoped_and_thread_local() {
    // One slot per worker thread; a second thread owns a second slot.
    let mut slot = CounterSlot::new();
    count(&mut slot, Counter::ShapingCalls, 99);
    assert_eq!(slot.counts, None);
    let scope = MeasurementScope::new(&mut slot);
    count(&mut slot, Counter::ShapingCalls, 1);
    {
        let mut other = CounterSlot::new();
        let worker = MeasurementScope::new(&mut other);
        count(&mut other, Counter::ShapingCalls, 7);
        assert_eq!(worker.take_stage(&mut other).shaping_calls, 7);
        worker.close(&mut other);
        assert_eq!(other.counts, None);
    }
    {
        let nested = MeasurementScope::new(&mut slot);
        count(&mut slot, Counter::WrapCacheHits, 3);
        assert_eq!(nested.take_stage(&mut slot).wrap_cache_hits, 3);
        nested.close(&mut slot);
    }
    assert_eq!(scope.take_stage(&mut slot).shaping_calls, 1);
    assert_eq!(scope.take_stage(&mut slot), MeasurementCounts::default());
    scope.close(&mut slot);
    assert_eq!(slot.counts, None);
}

#[test]
fn every_counter_is_raised_independently() {
    let mut counts = MeasurementCounts::default();
    counts.raise(Counter::DeferredTextSegments, 2);
    counts.raise(Counter::GroupRequests, 5);
    assert_eq!(counts.get(Counter::DeferredTextSegments), 2);
    assert_eq!(counts.get(Counter::GroupRequests), 5);
    assert_eq!(counts.get(Counter::ShapingCalls), 0);
}

#[test]
fn report_names_match_the_schema() {
    assert_eq!(rejection(RowRejection::TooNarrow), "too_narrow");
    assert_eq!(rejection(RowRejection::Unmeasured), "unmeasured");
    assert_eq!(rejection(RowRejection::Overflow), "overflow");
    assert_eq!(rejection(RowRejection::TooTall), "peer_too_tall");
    assert_eq!(rejection(RowRejection::EditLock), "edit_lock");
    assert_eq!(row_kind(RowKind::Stack), "stack");
    assert_eq!(row_kind(RowKind::Peer), "peer_row");
    assert_eq!(row_kind(RowKind::Explanation), "explanation_content");
    assert_eq!(row_kind(RowKind::Tables), "tables");
    assert_eq!(row_kind(RowKind::Gallery), "gallery");
    assert!(!trace_enabled(LayoutTraceMode::Off));
    assert!(trace_enabled(LayoutTraceMode::Summary));
    assert!(wants_details(LayoutTraceMode::Details));
    assert!(!wants_details(LayoutTraceMode::Summary));
    assert_eq!(LayoutTraceMode::default(), LayoutTraceMode::Off);
}

fn row(kind: RowKind, template: usize, ids: &[u64], widths: &[f32]) -> ChosenRow {
    ChosenRow {
        kind,
        template,
        ids: ids.to_vec(),
        width_bits: widths.iter().map(|w| w.to_bits()).collect(),
    }
}

#[test]
fn replanning_the_same_rows_changes_nothing() {
    let plan = vec![row(RowKind::Peer, 1, &[1, 2], &[400., 500.]), row(RowKind::Gallery, 0, &[3], &[900.])];
    assert_eq!(changed_rows(&plan, &plan), 0);
}

#[test]
fn changed_rows_counts_moved_new_and_dropped_groups() {
    let before = vec![row(RowKind::Peer, 1, &[1, 2], &[400., 500.]), row(RowKind::Stack, 0, &[3], &[900.])];
    // Group 1 and 2 get a new width, 3 stays, 4 is new.
    let after = vec![row(RowKind::Peer, 1, &[1, 2], &[450., 450.]), row(RowKind::Stack, 0, &[3], &[900.]), row(RowKind::Stack, 0, &[4], &[900.])];
    assert_eq!(changed_rows(&before, &after), 3);
    // Group 4 dropped; 1 and 2 moved back.
    assert_eq!(changed_rows(&after, &before), 3);
    assert_eq!(changed_rows(&before, &Vec::new()), 3);
    assert_eq!(changed_rows(&Vec::new(), &before), 3);
}

#[test]
fn placements_record_kind_template_ordinal_ids_and_widths() {
    let plan = vec![row(RowKind::Tables, 2, &[8, 9], &[1.0])];
    let map = placements_of(&plan);
    assert_eq!(map[&9], vec![3, 2, 1, 8, 9, 1.0f32.to_bits() as u64]);
    let mut a: HashMap<u64, Vec<u64>> = HashMap::new();
    a.insert(1, vec![1]);
    let mut b = a.clone();
    b.insert(1, vec![2]);
    assert_eq!(changed_entries(&a, &b), 1);
    assert_eq!(changed_entries(&a, &a), 0);
}

#[test]
fn finished_traces_tally_and_bound_their_details() {
    let tally = tally_rejections(&vec![
        Some(RowRejection::TooNarrow),
        None,
        Some(RowRejection::TooNarrow),
        Some(RowRejection::EditLock),
    ]);
    assert_eq!((tally.too_narrow, tally.edit_lock, tally.overflow), (2, 1, 0));
    let keys: Vec<u64> = (1..=20).rev().collect();
    assert_eq!(listed_decisions(LayoutTraceMode::Details, &keys), (1..=12).collect::<Vec<u64>>());
    assert_eq!(listed_decisions(LayoutTraceMode::Details, &vec![5, 3]), vec![3, 5]);
    assert!(listed_decisions(LayoutTraceMode::Summary, &keys).is_empty());
    assert_eq!(list_candidates(&vec![(true, 3), (false, 10), (true, 4)]), 7);
    assert!(details_truncated(LayoutTraceMode::Details, 33, 0, 0));
    assert!(details_truncated(LayoutTraceMode::Details, 0, 97, 0));
    assert!(details_truncated(LayoutTraceMode::Details, 0, 0, 13));
    assert!(!details_truncated(LayoutTraceMode::Details, 32, 96, 12));
    assert!(!details_truncated(LayoutTraceMode::Summary, 100, 100, 100));
    assert_eq!(detailed_rows(LayoutTraceMode::Details, 240, 32), 32);
    assert_eq!(detailed_rows(LayoutTraceMode::Details, 5, 96), 5);
    assert_eq!(detailed_rows(LayoutTraceMode::Summary, 5, 96), 0);
    assert_eq!(candidate_scope(true), "visible_and_lookahead_windows");
    assert_eq!(candidate_scope(false), "whole_document");
}

#[test]
fn separately_built_plans_with_the_same_rows_change_nothing() {
    let build = || vec![row(RowKind::Peer, 1, &[4, 5], &[300.0, 400.0]), row(RowKind::Stack, 0, &[6], &[700.0])];
    assert_eq!(changed_rows(&build(), &build()), 0);
}
