use std::collections::HashMap;
use timely::progress::frontier::AntichainRef;
use timely_window::buffer::WindowBuffer;
use timely_window::tumbling::TumblingWindow;
use timely_window::watermark::Watermark;
use timely_window::window::Window;

type Policy = TumblingWindow<HashMap<u64, Vec<u64>>>;

fn at(elements: &[u64]) -> Watermark<'_> {
    Watermark::new(AntichainRef::new(elements))
}

#[test]
fn watermark_compares_with_the_frontier() {
    let frontier = [1u64];
    let watermark = at(&frontier);
    assert!(!watermark.less_than(&0));
    assert!(!watermark.less_than(&1));
    assert!(watermark.less_than(&2));
    assert!(!watermark.less_equal(&0));
    assert!(watermark.less_equal(&1));
    assert!(watermark.less_equal(&2));
    assert!(!watermark.is_empty());
}

#[test]
fn watermark_of_two_elements_takes_the_least() {
    let frontier = [7u64, 3];
    let watermark = at(&frontier);
    assert!(!watermark.less_equal(&2));
    assert!(watermark.less_equal(&3));
    assert!(!watermark.less_than(&3));
    assert!(watermark.less_than(&4));
}

#[test]
fn empty_watermark_holds_nothing_back() {
    let watermark = at(&[]);
    assert!(watermark.is_empty());
    assert!(!watermark.less_than(&u64::MAX));
    assert!(!watermark.less_equal(&u64::MAX));
}

#[test]
fn buffer_appends_and_removes_whole_entries() {
    let mut buffer: HashMap<u64, Vec<u64>> = HashMap::new();
    buffer.store(5, vec![1, 2]);
    buffer.store(3, vec![9]);
    buffer.store(5, vec![3]);
    let mut times = buffer.timestamps();
    times.sort();
    assert_eq!(times, vec![3, 5]);
    assert_eq!(WindowBuffer::remove(&mut buffer, &5), Some(vec![1, 2, 3]));
    assert_eq!(WindowBuffer::remove(&mut buffer, &5), None);
    assert_eq!(buffer.timestamps(), vec![3]);
    assert_eq!(WindowBuffer::remove(&mut buffer, &4), None);
    assert_eq!(WindowBuffer::remove(&mut buffer, &3), Some(vec![9]));
    assert!(buffer.timestamps().is_empty());
}

#[test]
fn buffer_keeps_no_empty_entry() {
    let mut buffer: HashMap<u64, Vec<u64>> = HashMap::new();
    buffer.store(5, vec![]);
    assert!(buffer.timestamps().is_empty());
    assert_eq!(WindowBuffer::remove(&mut buffer, &5), None);
    buffer.store(5, vec![1]);
    buffer.store(5, vec![]);
    assert_eq!(WindowBuffer::remove(&mut buffer, &5), Some(vec![1]));
}

#[test]
fn first_boundary_is_one_size_after_the_initial_time() {
    let mut window: Policy = TumblingWindow::new(3, Some(10));
    assert_eq!(window.emit_boundary(), Some(13));
    window.give(11, 0);
    assert_eq!(window.emit_boundary(), Some(13));
}

#[test]
fn first_data_arms_the_boundary() {
    let mut window: Policy = TumblingWindow::new(4, None);
    assert_eq!(window.emit_boundary(), None);
    assert_eq!(window.try_emit(at(&[100])), None);
    window.give(1, 10);
    assert_eq!(window.emit_boundary(), Some(5));
    window.give(0, 11);
    assert_eq!(window.emit_boundary(), Some(5));
    assert_eq!(window.step_from(&5), Some(9));
    assert_eq!(window.step_from(&u64::MAX), None);
}

#[test]
fn window_waits_for_the_frontier() {
    let mut window: Policy = TumblingWindow::new(4, Some(0));
    window.give(1, 10);
    assert_eq!(window.try_emit(at(&[3])), None);
    assert_eq!(window.try_emit(at(&[4])), None);
    assert_eq!(window.try_emit(at(&[6, 4])), None);
    assert_eq!(window.try_emit(at(&[5])), Some((4, vec![(1, 10)])));
    assert_eq!(window.emit_boundary(), Some(8));
}

#[test]
fn second_try_emit_gives_nothing() {
    let mut window: Policy = TumblingWindow::new(4, Some(0));
    window.give(1, 10);
    window.give(5, 50);
    assert_eq!(window.try_emit(at(&[6])), Some((4, vec![(1, 10)])));
    assert_eq!(window.try_emit(at(&[6])), None);
    assert_eq!(window.try_emit(at(&[6])), None);
}

#[test]
fn frontier_far_ahead_closes_one_window_per_call() {
    let mut window: Policy = TumblingWindow::new(4, Some(0));
    window.give(1, 10);
    window.give(5, 50);
    assert_eq!(window.try_emit(at(&[100])), Some((4, vec![(1, 10)])));
    assert_eq!(window.try_emit(at(&[100])), Some((8, vec![(5, 50)])));
    assert_eq!(window.try_emit(at(&[100])), Some((12, vec![])));
}

#[test]
fn batch_is_ascending_and_keeps_the_order_of_arrival() {
    let mut window: Policy = TumblingWindow::new(10, Some(0));
    window.give(3, 1);
    window.give(1, 2);
    window.give_iterator(3, vec![3, 4].into_iter());
    window.give(9, 5);
    window.give(2, 6);
    window.give(10, 7);
    window.give(1, 8);
    assert_eq!(
        window.try_emit(at(&[11])),
        Some((10, vec![(1, 2), (1, 8), (2, 6), (3, 1), (3, 3), (3, 4), (9, 5)]))
    );
    assert_eq!(window.drain(), Some((20, vec![(10, 7)])));
}

#[test]
fn size_four_over_times_one_to_nine() {
    let mut window: Policy = TumblingWindow::new(4, Some(0));
    let mut emitted = Vec::new();
    for round in 1..10u64 {
        window.give(round, round);
        let frontier = [round + 1];
        if let Some(closed) = window.try_emit(at(&frontier)) {
            emitted.push(closed);
        }
    }
    assert_eq!(
        emitted,
        vec![
            (4, vec![(1, 1), (2, 2), (3, 3)]),
            (8, vec![(4, 4), (5, 5), (6, 6), (7, 7)]),
        ]
    );
    assert_eq!(window.drain(), Some((12, vec![(8, 8), (9, 9)])));
    assert_eq!(window.drain(), None);
    let total: usize = emitted.iter().map(|(_, batch)| batch.len()).sum();
    assert_eq!(total + 2, 9);
}

#[test]
fn drain_without_data_gives_nothing() {
    let mut unarmed: Policy = TumblingWindow::new(4, None);
    assert_eq!(unarmed.drain(), None);
    let mut armed: Policy = TumblingWindow::new(4, Some(0));
    assert_eq!(armed.drain(), None);
    assert_eq!(armed.emit_boundary(), Some(4));
}

#[test]
fn late_data_leaves_with_the_next_window() {
    let mut window: Policy = TumblingWindow::new(4, Some(0));
    window.give(1, 10);
    assert_eq!(window.try_emit(at(&[5])), Some((4, vec![(1, 10)])));
    window.give(2, 20);
    window.give(6, 60);
    assert_eq!(window.try_emit(at(&[8])), None);
    assert_eq!(window.try_emit(at(&[9])), Some((8, vec![(2, 20), (6, 60)])));
}

#[test]
fn boundaries_rise_by_the_size() {
    let mut window: Policy = TumblingWindow::new(3, Some(10));
    window.give(14, 1);
    window.give(13, 2);
    window.give(16, 3);
    assert_eq!(window.try_emit(at(&[50])), Some((13, vec![])));
    assert_eq!(window.try_emit(at(&[50])), Some((16, vec![(13, 2), (14, 1)])));
    assert_eq!(window.try_emit(at(&[50])), Some((19, vec![(16, 3)])));
    assert_eq!(window.emit_boundary(), Some(22));
}

#[test]
fn size_zero_keeps_the_boundary() {
    let mut window: Policy = TumblingWindow::new(0, Some(5));
    window.give(4, 1);
    assert_eq!(window.try_emit(at(&[6])), Some((5, vec![(4, 1)])));
    assert_eq!(window.try_emit(at(&[6])), Some((5, vec![])));
}

#[test]
fn give_vec_stores_the_records_of_one_time() {
    let mut window: Policy = TumblingWindow::new(4, None);
    window.give_vec(2, vec![5, 6]);
    window.give_vec(2, vec![]);
    window.give_iterator(1, (7..9u64).into_iter());
    assert_eq!(window.emit_boundary(), Some(6));
    assert_eq!(window.try_emit(at(&[7])), Some((6, vec![(1, 7), (1, 8), (2, 5), (2, 6)])));
}

#[test]
fn every_given_record_is_emitted_once() {
    let mut window: Policy = TumblingWindow::new(3, None);
    let mut given = Vec::new();
    let mut emitted = Vec::new();
    let times = [5u64, 2, 9, 5, 7, 2, 11, 30, 6];
    for (value, time) in times.iter().enumerate() {
        window.give(*time, value as u64);
        given.push((*time, value as u64));
        let frontier = [*time];
        if let Some((_, batch)) = window.try_emit(at(&frontier)) {
            emitted.extend(batch);
        }
    }
    while let Some((boundary, batch)) = window.try_emit(at(&[40])) {
        emitted.extend(batch);
        if boundary > 30 {
            break;
        }
    }
    assert_eq!(window.drain(), None);
    given.sort();
    emitted.sort();
    assert_eq!(emitted, given);
}

#[test]
fn policy_over_a_filled_buffer() {
    let mut buffer: HashMap<u64, Vec<u64>> = HashMap::new();
    buffer.store(2, vec![7]);
    let mut window = TumblingWindow::new_with_buffer(4, Some(0), buffer);
    assert_eq!(window.try_emit(at(&[5])), Some((4, vec![(2, 7)])));
}

#[test]
fn data_beyond_the_boundary_closes_the_window() {
    let mut window: Policy = TumblingWindow::new(4, Some(0));
    assert_eq!(window.try_emit_by_data(), None);
    window.give(1, 10);
    window.give(3, 30);
    assert_eq!(window.try_emit_by_data(), None);
    window.give(4, 40);
    assert_eq!(window.try_emit_by_data(), None);
    window.give(5, 50);
    window.give(2, 20);
    assert_eq!(window.try_emit_by_data(), Some((4, vec![(1, 10), (2, 20), (3, 30)])));
    assert_eq!(window.try_emit_by_data(), None);
    window.give(9, 90);
    assert_eq!(window.try_emit_by_data(), Some((8, vec![(4, 40), (5, 50)])));
}
