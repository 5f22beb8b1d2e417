use document_view::publication::{math_scroll_frame, publish_step, PublishStep};

#[test]
fn the_retained_tree_is_reused_revised_or_rebuilt() {
    assert_eq!(publish_step(Some((4, 9)), 4, 9), PublishStep::Reuse);
    assert_eq!(publish_step(Some((4, 8)), 4, 9), PublishStep::Revise);
    assert_eq!(publish_step(Some((5, 9)), 4, 9), PublishStep::Rebuild);
    assert_eq!(publish_step(None, 4, 9), PublishStep::Rebuild);
}

#[test]
fn departed_and_idle_formulas_return_to_their_baseline() {
    let active = vec![10, 20, 30];
    let nodes = vec![(20, false), (30, true), (40, true), (50, false)];
    let frame = math_scroll_frame(&active, &nodes);
    assert_eq!(frame.restored, vec![10, 20]);
    assert_eq!(frame.updated, vec![30, 40]);
    assert_eq!(frame.active, vec![30, 40]);
    let again = math_scroll_frame(&frame.active, &nodes);
    assert_eq!(again.restored, Vec::<u64>::new());
    assert_eq!(again.active, vec![30, 40]);
}
