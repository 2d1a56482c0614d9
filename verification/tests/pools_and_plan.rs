use ingot::glitch::GlitchPlan;
use ingot::oneshot_pool::OneshotPool;
use ingot::thread_pool::ThreadPool;

#[test]
fn oneshot_hands_tasks_out_front_first() {
    let mut p = OneshotPool::new(vec![10, 20, 30], 2);
    assert_eq!(p.take_task(), Some(10));
    assert_eq!(p.take_task(), Some(20));
    assert_eq!(p.take_task(), Some(30));
    assert_eq!(p.take_task(), None);
}

#[test]
fn oneshot_abort_discards_remaining_tasks() {
    let mut p = OneshotPool::new(vec![1, 2, 3, 4], 2);
    assert_eq!(p.take_task(), Some(1));
    p.abort();
    assert_eq!(p.take_task(), None);
}

#[test]
fn oneshot_finalizer_fires_exactly_once() {
    let mut p: OneshotPool<u32> = OneshotPool::new(Vec::new(), 3);
    let mut fires = 0;
    for _ in 0..3 {
        if p.worker_finished() {
            fires += 1;
        }
    }
    assert_eq!(fires, 1);
    assert!(p.drained());
    p.join();
}

#[test]
fn thread_pool_wakes_exactly_the_sleepers() {
    let mut p: ThreadPool<u32> = ThreadPool::new(3);
    let wake = p.queue(7);
    assert_eq!(wake, vec![0, 1, 2]);
    let wake2 = p.queue(8);
    assert_eq!(wake2, Vec::<usize>::new());
    assert_eq!(p.try_take(), Some(7));
    assert_eq!(p.try_take(), Some(8));
    assert_eq!(p.try_take(), None);
}

#[test]
fn thread_pool_shutdown_fires_once_when_last_sleeps() {
    let mut p: ThreadPool<u32> = ThreadPool::new(2);
    let _ = p.queue(1);
    let wake = p.join();
    assert_eq!(wake, vec![0, 1]);
    assert!(!p.sleep(0));
    assert!(p.sleep(1));
    // a late sleeper does not trigger a second shutdown
    assert!(!p.sleep(0));
}

#[test]
fn glitch_plan_shape_holds() {
    let plan = GlitchPlan::build(12345, 640, 480);
    assert_eq!(plan.w, 640);
    assert_eq!(plan.h, 480);
    assert!(!plan.rows.is_empty());
    let mut prev: Option<u64> = None;
    for &(row, e) in &plan.rows {
        if let Some(p) = prev {
            assert!(row > p);
        }
        assert!(e.radius < 30);
        assert!((-10..10).contains(&e.offx));
        assert!((-10..10).contains(&e.offy));
        prev = Some(row);
    }
    assert!(plan.rows.last().unwrap().0 >= 480);
}

#[test]
fn glitch_effect_lookup_matches_bands() {
    let plan = GlitchPlan::build(99, 64, 300);
    for row in (0..300u32).step_by(17) {
        let got = plan.effect_at(row);
        // the applicable entry is the first boundary strictly above `row`
        let want = plan
            .rows
            .iter()
            .find(|&&(k, _)| (row as u64) < k)
            .map(|&(_, e)| e)
            .unwrap();
        assert_eq!(got, want);
    }
}

#[test]
fn glitch_plan_empty_image() {
    let plan = GlitchPlan::build(7, 0, 0);
    assert!(plan.rows.is_empty());
}
