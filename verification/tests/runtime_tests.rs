use reactive_core::error::ReactiveError;
use reactive_core::runtime::MemoProbe;
use reactive_core::runtime::Runtime;
use reactive_core::runtime::FLUSH_LIMIT;

#[test]
fn untracked_read_returns_value() {
    let mut rt = Runtime::<u64>::new();
    let c = rt.create_cell(5);
    assert_eq!(rt.read_cell(c), Ok(5));
    assert!(rt.write_cell(c, 6).is_ok());
    assert_eq!(rt.read_cell(c), Ok(6));
}

#[test]
fn batched_writes_run_effect_once_with_final_value() {
    let mut rt = Runtime::<u64>::new();
    let c = rt.create_cell(0);
    let e = rt.create_effect();
    assert_eq!(rt.read_cell(c), Ok(0));
    rt.finish_effect_run(e);

    rt.begin_batch();
    rt.write_cell(c, 1).unwrap();
    rt.write_cell(c, 2).unwrap();
    rt.write_cell(c, 3).unwrap();
    rt.end_batch();

    let mut runs = 0;
    loop {
        match rt.take_next_effect().unwrap() {
            Some(eff) => {
                assert_eq!(eff, e);
                // The effect observes only the final value of the batch.
                assert_eq!(rt.read_cell(c), Ok(3));
                rt.finish_effect_run(eff);
                runs += 1;
            },
            None => break,
        }
    }
    assert_eq!(runs, 1);
}

#[test]
fn writes_are_not_elided_on_equal_values() {
    // Policy: every committed write notifies, even when the value is equal.
    let mut rt = Runtime::<u64>::new();
    let c = rt.create_cell(7);
    let e = rt.create_effect();
    assert_eq!(rt.read_cell(c), Ok(7));
    rt.finish_effect_run(e);

    rt.write_cell(c, 7).unwrap();
    let mut runs = 0;
    loop {
        match rt.take_next_effect().unwrap() {
            Some(eff) => {
                rt.read_cell(c).unwrap();
                rt.finish_effect_run(eff);
                runs += 1;
            },
            None => break,
        }
    }
    assert_eq!(runs, 1);
}

#[test]
fn memo_without_dependencies_evaluates_once() {
    let mut rt = Runtime::<u64>::new();
    let m = rt.create_memo();
    let mut evals = 0;
    match rt.memo_get(m).unwrap() {
        MemoProbe::NeedsEval => {
            rt.start_memo_eval(m).unwrap();
            // The memo's function reads no sources.
            rt.finish_memo_eval(m, 42);
            evals += 1;
        },
        MemoProbe::Ready(_) => panic!("fresh memo served a value"),
    }
    for _ in 0..10 {
        match rt.memo_get(m).unwrap() {
            MemoProbe::Ready(v) => assert_eq!(v, 42),
            MemoProbe::NeedsEval => {
                evals += 1;
            },
        }
    }
    // Writes anywhere never invalidate a memo with no dependencies.
    let c = rt.create_cell(1);
    rt.write_cell(c, 2).unwrap();
    match rt.memo_get(m).unwrap() {
        MemoProbe::Ready(v) => assert_eq!(v, 42),
        MemoProbe::NeedsEval => {
            evals += 1;
        },
    }
    assert_eq!(evals, 1);
}

#[test]
fn memo_recomputes_lazily_after_write() {
    let mut rt = Runtime::<u64>::new();
    let c = rt.create_cell(2);
    let m = rt.create_memo();

    match rt.memo_get(m).unwrap() {
        MemoProbe::NeedsEval => {
            rt.start_memo_eval(m).unwrap();
            let x = rt.read_cell(c).unwrap();
            rt.finish_memo_eval(m, x * 10);
        },
        MemoProbe::Ready(_) => panic!("fresh memo served a value"),
    }
    match rt.memo_get(m).unwrap() {
        MemoProbe::Ready(v) => assert_eq!(v, 20),
        MemoProbe::NeedsEval => panic!("memo dirty right after evaluation"),
    }

    rt.write_cell(c, 3).unwrap();
    match rt.memo_get(m).unwrap() {
        MemoProbe::NeedsEval => {
            rt.start_memo_eval(m).unwrap();
            let x = rt.read_cell(c).unwrap();
            rt.finish_memo_eval(m, x * 10);
        },
        MemoProbe::Ready(_) => panic!("memo stayed clean across a write to its source"),
    }
    match rt.memo_get(m).unwrap() {
        MemoProbe::Ready(v) => assert_eq!(v, 30),
        MemoProbe::NeedsEval => panic!("memo dirty right after evaluation"),
    }
}

#[test]
fn effect_through_memo_is_notified() {
    let mut rt = Runtime::<u64>::new();
    let c = rt.create_cell(1);
    let m = rt.create_memo();
    let e = rt.create_effect();
    // Effect body: read the memo, evaluating it on demand.
    match rt.memo_get(m).unwrap() {
        MemoProbe::NeedsEval => {
            rt.start_memo_eval(m).unwrap();
            let x = rt.read_cell(c).unwrap();
            rt.finish_memo_eval(m, x + 100);
        },
        MemoProbe::Ready(_) => panic!("fresh memo served a value"),
    }
    match rt.memo_get(m).unwrap() {
        MemoProbe::Ready(v) => assert_eq!(v, 101),
        MemoProbe::NeedsEval => panic!("memo dirty right after evaluation"),
    }
    rt.finish_effect_run(e);

    // A write to the cell invalidates the memo, which notifies the effect.
    rt.write_cell(c, 2).unwrap();
    let eff = rt.take_next_effect().unwrap().expect("effect was not scheduled");
    assert_eq!(eff, e);
    match rt.memo_get(m).unwrap() {
        MemoProbe::NeedsEval => {
            rt.start_memo_eval(m).unwrap();
            let x = rt.read_cell(c).unwrap();
            rt.finish_memo_eval(m, x + 100);
        },
        MemoProbe::Ready(_) => panic!("memo stayed clean across a write to its source"),
    }
    match rt.memo_get(m).unwrap() {
        MemoProbe::Ready(v) => assert_eq!(v, 102),
        MemoProbe::NeedsEval => panic!("memo dirty right after evaluation"),
    }
    rt.finish_effect_run(eff);
    assert_eq!(rt.take_next_effect().unwrap(), None);
}

#[test]
fn disposed_effect_never_runs_again() {
    let mut rt = Runtime::<u64>::new();
    let c = rt.create_cell(0);
    let e = rt.create_effect();
    assert_eq!(rt.read_cell(c), Ok(0));
    rt.finish_effect_run(e);

    rt.dispose_effect(e).unwrap();
    rt.write_cell(c, 5).unwrap();
    assert_eq!(rt.take_next_effect().unwrap(), None);
    rt.write_cell(c, 6).unwrap();
    assert_eq!(rt.take_next_effect().unwrap(), None);

    // Disposing twice is reported.
    assert_eq!(rt.dispose_effect(e), Err(ReactiveError::UseAfterDispose));
}

#[test]
fn effect_disposed_while_queued_is_skipped() {
    let mut rt = Runtime::<u64>::new();
    let c = rt.create_cell(0);
    let e = rt.create_effect();
    assert_eq!(rt.read_cell(c), Ok(0));
    rt.finish_effect_run(e);

    rt.write_cell(c, 1).unwrap();
    rt.dispose_effect(e).unwrap();
    // The stale queue entry is skipped, not run.
    assert_eq!(rt.take_next_effect().unwrap(), None);
}

#[test]
fn self_triggering_effect_reports_cycle() {
    let mut rt = Runtime::<u64>::new();
    let c = rt.create_cell(0);
    let e = rt.create_effect();
    // Effect body: read the cell, then write to it.
    let v = rt.read_cell(c).unwrap();
    rt.write_cell(c, v + 1).unwrap();
    rt.finish_effect_run(e);

    let mut runs = 0;
    let err = loop {
        match rt.take_next_effect() {
            Ok(Some(eff)) => {
                let v = rt.read_cell(c).unwrap();
                rt.write_cell(c, v + 1).unwrap();
                rt.finish_effect_run(eff);
                runs += 1;
            },
            Ok(None) => panic!("a self-triggering effect must not settle"),
            Err(err) => break err,
        }
    };
    assert_eq!(err, ReactiveError::CycleExceeded);
    assert_eq!(runs, FLUSH_LIMIT);

    // The failed pass is abandoned but the graph stays usable.
    assert_eq!(rt.take_next_effect().unwrap(), None);
    rt.write_cell(c, 0).unwrap();
    let eff = rt.take_next_effect().unwrap().expect("effect lost after cycle");
    assert_eq!(rt.read_cell(c), Ok(0));
    rt.finish_effect_run(eff);
    assert_eq!(rt.take_next_effect().unwrap(), None);
}

#[test]
fn memo_evaluating_itself_reports_cycle() {
    let mut rt = Runtime::<u64>::new();
    let m = rt.create_memo();
    assert!(matches!(rt.memo_get(m).unwrap(), MemoProbe::NeedsEval));
    rt.start_memo_eval(m).unwrap();
    // The memo's function asks for the memo itself.
    assert_eq!(rt.start_memo_eval(m), Err(ReactiveError::CycleExceeded));
    rt.finish_memo_eval(m, 0);
}

#[test]
fn disposed_handles_are_reported() {
    let mut rt = Runtime::<u64>::new();
    let c = rt.create_cell(1);
    let m = rt.create_memo();

    assert_eq!(rt.read_cell(99), Err(ReactiveError::UseAfterDispose));
    assert_eq!(rt.write_cell(99, 0), Err(ReactiveError::UseAfterDispose));
    assert_eq!(rt.memo_get(7).unwrap_err(), ReactiveError::UseAfterDispose);
    assert_eq!(rt.dispose_cell(99), Err(ReactiveError::UseAfterDispose));

    rt.dispose_cell(c).unwrap();
    assert_eq!(rt.read_cell(c), Err(ReactiveError::UseAfterDispose));
    assert_eq!(rt.write_cell(c, 2), Err(ReactiveError::UseAfterDispose));
    assert_eq!(rt.dispose_cell(c), Err(ReactiveError::UseAfterDispose));

    rt.dispose_memo(m).unwrap();
    assert_eq!(rt.memo_get(m).unwrap_err(), ReactiveError::UseAfterDispose);
    assert_eq!(rt.start_memo_eval(m), Err(ReactiveError::UseAfterDispose));
    assert_eq!(rt.dispose_memo(m), Err(ReactiveError::UseAfterDispose));
}

#[test]
fn nested_batches_flush_at_the_outer_boundary() {
    let mut rt = Runtime::<u64>::new();
    let c = rt.create_cell(0);
    let d = rt.create_cell(100);
    let e = rt.create_effect();
    assert_eq!(rt.read_cell(c), Ok(0));
    assert_eq!(rt.read_cell(d), Ok(100));
    rt.finish_effect_run(e);

    rt.begin_batch();
    rt.write_cell(c, 1).unwrap();
    rt.begin_batch();
    rt.write_cell(d, 101).unwrap();
    rt.end_batch();
    rt.write_cell(c, 2).unwrap();
    rt.end_batch();

    let mut runs = 0;
    loop {
        match rt.take_next_effect().unwrap() {
            Some(eff) => {
                assert_eq!(rt.read_cell(c), Ok(2));
                assert_eq!(rt.read_cell(d), Ok(101));
                rt.finish_effect_run(eff);
                runs += 1;
            },
            None => break,
        }
    }
    assert_eq!(runs, 1);
}

#[test]
fn generations_increase_per_write() {
    let mut rt = Runtime::<u64>::new();
    let c = rt.create_cell(0);
    assert_eq!(rt.cells[c].generation, 0);
    rt.write_cell(c, 1).unwrap();
    rt.write_cell(c, 2).unwrap();
    assert_eq!(rt.cells[c].generation, 2);
}

#[test]
fn dynamic_dependencies_are_rebuilt_per_run() {
    // An effect that reads `a` on its first run and `b` on later runs stops
    // reacting to `a`.
    let mut rt = Runtime::<u64>::new();
    let a = rt.create_cell(0);
    let b = rt.create_cell(10);
    let e = rt.create_effect();
    assert_eq!(rt.read_cell(a), Ok(0));
    rt.finish_effect_run(e);

    rt.write_cell(a, 1).unwrap();
    let eff = rt.take_next_effect().unwrap().expect("effect was not scheduled");
    // Second run reads only `b`.
    assert_eq!(rt.read_cell(b), Ok(10));
    rt.finish_effect_run(eff);
    assert_eq!(rt.take_next_effect().unwrap(), None);

    // A further write to `a` no longer schedules the effect; one to `b` does.
    rt.write_cell(a, 2).unwrap();
    assert_eq!(rt.take_next_effect().unwrap(), None);
    rt.write_cell(b, 11).unwrap();
    let eff = rt.take_next_effect().unwrap().expect("effect was not scheduled");
    assert_eq!(rt.read_cell(b), Ok(11));
    rt.finish_effect_run(eff);
    assert_eq!(rt.take_next_effect().unwrap(), None);
}
