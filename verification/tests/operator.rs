use std::collections::HashMap;
use std::sync::{Arc, Mutex};
use timely::dataflow::channels::pact::Pipeline;
use timely::dataflow::operators::{FrontierNotificator, Input, Inspect, Operator, Probe};
use timely::dataflow::{Scope, Stream};
use timely::progress::frontier::AntichainRef;
use timely::Data;
use timely_window::buffer::WindowBuffer;
use timely_window::driver::{flush, Fault, WindowDriver};
use timely_window::tumbling::TumblingWindow;
use timely_window::watermark::Watermark;
use timely_window::window::Window;

type Policy = TumblingWindow<HashMap<u64, Vec<u64>>>;

fn at(elements: &[u64]) -> Watermark<'_> {
    Watermark::new(AntichainRef::new(elements))
}

#[test]
fn operator_over_times_one_to_nine() {
    let window: Policy = TumblingWindow::new(4, Some(0));
    let mut driver = WindowDriver::new(window, true);
    let mut sent = Vec::new();
    for round in 1..10u64 {
        let frontier = [round + 1];
        let tick = driver.try_tick(vec![(round, vec![round])], at(&frontier)).unwrap();
        assert!(!tick.release);
        if round == 4 {
            assert_eq!(tick.hold, Some(4));
            assert_eq!(tick.downgrade, Some(4));
        } else if round == 8 {
            assert_eq!(tick.hold, Some(8));
            assert_eq!(tick.downgrade, Some(8));
        } else {
            assert_eq!(tick.hold, None);
            assert_eq!(tick.downgrade, None);
            assert!(tick.send.is_empty());
        }
        sent.extend(tick.send);
    }
    let tick = driver.try_tick(vec![], at(&[10])).unwrap();
    assert!(tick.send.is_empty());
    let last = driver.try_tick(vec![], at(&[])).unwrap();
    assert!(last.release);
    assert_eq!(last.hold, Some(12));
    assert_eq!(last.downgrade, None);
    sent.extend(last.send);
    assert_eq!(
        sent,
        vec![
            (4, vec![(1, 1), (2, 2), (3, 3)]),
            (8, vec![(4, 4), (5, 5), (6, 6), (7, 7)]),
            (12, vec![(8, 8), (9, 9)]),
        ]
    );
}

#[test]
fn operator_that_does_not_drain_keeps_the_rest() {
    let window: Policy = TumblingWindow::new(4, Some(0));
    let mut driver = WindowDriver::new(window, false);
    let tick = driver.try_tick(vec![(1, vec![1]), (5, vec![5])], at(&[6])).unwrap();
    assert_eq!(tick.send, vec![(4, vec![(1, 1)])]);
    let last = driver.try_tick(vec![], at(&[])).unwrap();
    assert!(last.release);
    assert_eq!(last.hold, None);
    assert!(last.send.is_empty());
}

#[test]
fn operator_without_data_sends_nothing_at_the_end() {
    let window: Policy = TumblingWindow::new(4, None);
    let mut driver = WindowDriver::new(window, true);
    let last = driver.try_tick(vec![], at(&[])).unwrap();
    assert!(last.release);
    assert_eq!(last.hold, None);
    assert_eq!(last.downgrade, None);
    assert!(last.send.is_empty());
    let again = driver.try_tick(vec![], at(&[])).unwrap();
    assert!(again.release);
    assert!(again.send.is_empty());
}

#[test]
fn empty_window_moves_the_capability_and_sends_nothing() {
    let window: Policy = TumblingWindow::new(4, Some(0));
    let mut driver = WindowDriver::new(window, true);
    let tick = driver.try_tick(vec![(6, vec![60])], at(&[7])).unwrap();
    assert_eq!(tick.downgrade, Some(4));
    assert_eq!(tick.hold, None);
    assert!(tick.send.is_empty());
    let tick = driver.try_tick(vec![], at(&[9])).unwrap();
    assert_eq!(tick.downgrade, Some(8));
    assert_eq!(tick.hold, Some(8));
    assert_eq!(tick.send, vec![(8, vec![(6, 60)])]);
}

#[test]
fn input_is_stored_in_the_order_given() {
    let window: Policy = TumblingWindow::new(10, None);
    let mut driver = WindowDriver::new(window, true);
    let input = vec![(3, vec![1, 2]), (1, vec![3]), (3, vec![4])];
    let tick = driver.try_tick(input, at(&[14])).unwrap();
    assert_eq!(tick.downgrade, Some(13));
    assert_eq!(tick.send, vec![(13, vec![(1, 3), (3, 1), (3, 2), (3, 4)])]);
}

#[test]
fn operator_refuses_input_after_the_end() {
    let window: Policy = TumblingWindow::new(4, Some(0));
    let mut driver = WindowDriver::new(window, true);
    driver.try_tick(vec![], at(&[])).unwrap();
    assert_eq!(driver.try_tick(vec![(1, vec![1])], at(&[2])).err(), Some(Fault::Released));
}

#[test]
fn operator_refuses_data_that_arms_no_boundary() {
    let window: Policy = TumblingWindow::new(u64::MAX, None);
    let mut driver = WindowDriver::new(window, true);
    assert_eq!(driver.try_tick(vec![(1, vec![1])], at(&[2])).err(), Some(Fault::Unarmed));
    let tick = driver.try_tick(vec![(0, vec![1])], at(&[2])).unwrap();
    assert_eq!(tick.downgrade, None);
}

#[test]
fn operator_refuses_a_boundary_without_successor() {
    let window: Policy = TumblingWindow::new(u64::MAX - 5, Some(0));
    let mut driver = WindowDriver::new(window, true);
    let tick = driver.try_tick(vec![(1, vec![1])], at(&[u64::MAX - 5])).unwrap();
    assert_eq!(tick.downgrade, None);
    assert_eq!(driver.try_tick(vec![], at(&[u64::MAX - 4])).err(), Some(Fault::Stalled));
    let last = driver.try_tick(vec![], at(&[])).unwrap();
    assert_eq!(last.send, vec![(u64::MAX - 5, vec![(1, 1)])]);
}

#[test]
fn flush_sends_what_the_frontier_has_passed() {
    let mut stash: HashMap<u64, Vec<(u64, u64)>> = HashMap::new();
    stash.store(8, vec![(5, 50)]);
    stash.store(4, vec![(1, 10), (2, 20)]);
    stash.store(12, vec![(9, 90)]);
    assert!(flush(&mut stash, &at(&[4])).is_empty());
    assert_eq!(flush(&mut stash, &at(&[9])), vec![(4, vec![(1, 10), (2, 20)]), (8, vec![(5, 50)])]);
    assert_eq!(stash.timestamps(), vec![12]);
    assert_eq!(flush(&mut stash, &at(&[])), vec![(12, vec![(9, 90)])]);
    assert!(stash.timestamps().is_empty());
}

fn windowed<G, D, W, B>(
    stream: &Stream<G, D>,
    name: &str,
    window: W,
    drain_when_finished: bool,
) -> Stream<G, Vec<(u64, D)>>
where
    G: Scope<Timestamp = u64>,
    D: Data,
    W: Window<B> + 'static,
    B: WindowBuffer<Datum = D> + 'static,
{
    let mut driver = WindowDriver::new(window, drain_when_finished);
    stream.unary_frontier(Pipeline, name, |cap, _| {
        let mut cap = Some(cap);
        let mut notificator = FrontierNotificator::new();
        move |input, output| {
            let mut batches = Vec::new();
            input.for_each(|time, data| {
                batches.push((*time.time(), data.replace(Vec::new())));
            });
            let watermark = Watermark::new(input.frontier().frontier());
            let tick = driver.try_tick(batches, watermark).unwrap();
            if let Some(time) = tick.hold {
                notificator.notify_at(cap.as_ref().unwrap().delayed(&time));
            }
            if let Some(time) = tick.downgrade {
                cap.as_mut().unwrap().downgrade(&time);
            }
            if tick.release {
                cap = None;
            }
            let mut send: HashMap<u64, Vec<(u64, D)>> = tick.send.into_iter().collect();
            notificator.for_each(&[input.frontier()], |time, _| {
                if let Some(data) = send.remove(time.time()) {
                    output.session(&time).give(data);
                }
            });
        }
    })
}

fn run_rounds(init_time: Option<u64>, drain: bool) -> Vec<(u64, Vec<(u64, u64)>)> {
    let seen = Arc::new(Mutex::new(Vec::new()));
    let sink = seen.clone();
    timely::execute_directly(move |worker| {
        let (mut input, probe) = worker.dataflow(|scope| {
            let (input, stream) = scope.new_input();
            let probe = stream.probe();
            let window: Policy = TumblingWindow::new(4, init_time);
            windowed(&stream.inspect_time(|t, v| println!("A {t:?} {v:?}")), "A", window, drain)
                .inspect_time(move |t, d| {
                    println!("B {t:?} {d:?}");
                    sink.lock().unwrap().push((*t, d.clone()));
                });
            (input, probe)
        });
        for round in 1..10_u64 {
            input.send(round);
            input.advance_to(round + 1);
            worker.step_while(|| probe.less_than(input.time()))
        }
    });
    let seen = seen.lock().unwrap().clone();
    seen
}

#[test]
fn window_run() {
    let seen = run_rounds(None, false);
    assert_eq!(
        seen,
        vec![
            (4, vec![(0, 1), (2, 2), (3, 3)]),
            (8, vec![(4, 4), (5, 5), (6, 6), (7, 7)]),
        ]
    );
}

#[test]
fn tumbling_run() {
    let seen = run_rounds(None, false);
    let total: usize = seen.iter().map(|(_, batch)| batch.len()).sum();
    assert_eq!(total, 7);
    assert_eq!(seen[0].0, 4);
    assert_eq!(seen[1].0, 8);
}

#[test]
fn dataflow_drains_at_the_end() {
    let seen = run_rounds(Some(0), true);
    assert_eq!(
        seen,
        vec![
            (4, vec![(0, 1), (2, 2), (3, 3)]),
            (8, vec![(4, 4), (5, 5), (6, 6), (7, 7)]),
            (12, vec![(8, 8), (9, 9)]),
        ]
    );
}
