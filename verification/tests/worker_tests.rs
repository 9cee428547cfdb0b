use zoocache::cache::WorkerMsg;
use zoocache::worker::{WorkerAction, WorkerState};

fn quiet_worker(now: u64) -> WorkerState {
    // long flush cadence and prune interval, 30 s coalescing window
    WorkerState::new(now, 30, 1000, 100000, 3600)
}

#[test]
fn touches_within_the_window_coalesce_to_one() {
    let mut w = quiet_worker(0);
    let a1 = w.step(WorkerMsg::Touch("k".to_string(), None), 0);
    assert!(a1.is_empty());

    // a second touch of the same key inside the window vanishes, TTL and all
    let a2 = w.step(WorkerMsg::Touch("k".to_string(), Some(7)), 10);
    assert!(a2.is_empty());

    // force a flush much later: the batch holds exactly one touch for the key
    let a3 = w.tick(5000);
    assert_eq!(a3.len(), 1);
    match &a3[0] {
        WorkerAction::TouchBatch(items) => {
            assert_eq!(items.len(), 1);
            assert_eq!(items[0].0, "k");
            assert_eq!(items[0].1, None);
        }
        _ => panic!("expected a touch batch"),
    }
}

#[test]
fn touches_past_the_window_batch_again() {
    let mut w = quiet_worker(0);
    w.step(WorkerMsg::Touch("k".to_string(), None), 0);
    // outside the 30 s window the touch is recorded anew, with its TTL
    w.step(WorkerMsg::Touch("k".to_string(), Some(9)), 40);
    let a = w.tick(5000);
    assert_eq!(a.len(), 1);
    match &a[0] {
        WorkerAction::TouchBatch(items) => {
            assert_eq!(items.len(), 1);
            assert_eq!(items[0].0, "k");
            assert_eq!(items[0].1, Some(9));
        }
        _ => panic!("expected a touch batch"),
    }
}

#[test]
fn deletes_updates_and_prunes_pass_through() {
    let mut w = quiet_worker(0);
    let a = w.step(WorkerMsg::Delete("gone".to_string()), 1);
    assert!(matches!(&a[0], WorkerAction::Remove(k) if k == "gone"));

    let a = w.step(WorkerMsg::Update("k".to_string(), vec![1, 2], Some(5)), 2);
    assert!(
        matches!(&a[0], WorkerAction::SetRaw(k, data, ttl) if k == "k" && data == &vec![1, 2] && *ttl == Some(5))
    );

    let a = w.step(WorkerMsg::Prune(600), 3);
    assert!(matches!(&a[0], WorkerAction::PruneTrie(600)));

    let a = w.step(WorkerMsg::FlushMetrics, 4);
    assert!(matches!(&a[0], WorkerAction::FlushMetrics));
}

#[test]
fn auto_prune_fires_on_schedule() {
    let mut w = WorkerState::new(0, 30, 100000, 60, 3600);
    let a = w.tick(30);
    assert!(a.is_empty());
    let a = w.tick(61);
    assert_eq!(a.len(), 1);
    assert!(matches!(&a[0], WorkerAction::PruneTrie(3600)));
    // the schedule resets
    let a = w.tick(100);
    assert!(a.is_empty());
}
