use apex_core::delayed::DelayedQueue;
use apex_core::entity::Entity;
use apex_core::event_registry::EventRegistry;
use apex_core::events::{EntityEvent, EventCursor, Events, Removed};
use apex_core::world::World;

const TEXT_EVENT: u64 = 100;
const NUMBER_EVENT: u64 = 101;

#[test]
fn send_and_read() {
    let mut queue = Events::new();
    let reader = queue.add_reader();

    queue.send(42);
    queue.send(43);
    queue.update();

    let events = queue.iter(&reader);
    assert_eq!(events.len(), 2);
    assert_eq!(events[0], 42);
    assert_eq!(events[1], 43);

    queue.advance_reader_mut(&reader);
    let events = queue.iter(&reader);
    assert_eq!(events.len(), 0, "after advance the cursor should be at the end");
}

#[test]
fn read_guard_into_iterator_yields_and_advances() {
    let mut queue = Events::new();
    let reader = queue.add_reader();

    queue.send(1);
    queue.send(2);
    queue.send(3);
    queue.update();

    let mut got = Vec::new();
    let mut it = queue.read(&reader).into_iter();
    while let Some(e) = it.next() {
        got.push(*e);
    }
    assert_eq!(got, vec![1, 2, 3]);
    assert_eq!(queue.iter(&reader).len(), 0);
}

#[test]
fn event_iterator_break_advances_to_end() {
    let mut queue = Events::new();
    let reader = queue.add_reader();

    queue.send(10);
    queue.send(20);
    queue.update();

    let mut it = queue.read(&reader).into_iter();
    while let Some(e) = it.next() {
        if *e == 10 {
            break;
        }
    }
    assert_eq!(queue.iter(&reader).len(), 0, "a read goes to the end, however much is looked at");
}

#[test]
fn event_iterator_collect_holds_references() {
    let mut queue = Events::new();
    let reader = queue.add_reader();

    queue.send(7);
    queue.send(8);
    queue.update();

    let mut collected: Vec<&i32> = Vec::new();
    {
        let mut it = queue.read(&reader).into_iter();
        while let Some(e) = it.next() {
            collected.push(e);
        }
    }
    // The references outlive the iterator.
    assert_eq!(collected, vec![&7, &8]);
    drop(collected);
    assert_eq!(queue.iter(&reader).len(), 0);
}

#[test]
fn event_iterator_len_and_guard_slice_api() {
    let mut queue = Events::new();
    let reader = queue.add_reader();

    queue.send(5);
    queue.send(6);
    queue.update();

    {
        let guard = queue.read(&reader);
        assert_eq!(guard.len(), 2);
        assert!(!guard.is_empty());
        let doubled: Vec<i32> = guard.as_slice().iter().map(|e| e * 2).collect();
        assert_eq!(doubled, vec![10, 12]);
        let it = guard.into_iter();
        assert_eq!(it.len(), 2);
    }
    assert_eq!(queue.iter(&reader).len(), 0);
}

#[test]
fn two_readers_independent() {
    let mut queue = Events::new();
    let reader_a = queue.add_reader();
    let reader_b = queue.add_reader();

    queue.send(1);
    queue.send(2);
    queue.update();

    {
        let events = queue.iter(&reader_a);
        assert_eq!(events.len(), 2);
    }
    queue.advance_reader_mut(&reader_a);

    {
        let events = queue.iter(&reader_b);
        assert_eq!(events.len(), 2);
    }
    queue.advance_reader_mut(&reader_b);

    queue.update();
    queue.send(3);
    queue.update();

    let events = queue.iter(&reader_a);
    assert_eq!(events.len(), 1);
    assert_eq!(events[0], 3);
}

#[test]
fn lagging_reader_receives_old_and_new_events_none_lost() {
    let mut queue = Events::new();
    let reader_a = queue.add_reader();
    let reader_b = queue.add_reader();

    queue.send(1);
    queue.send(2);
    queue.update();

    assert_eq!(queue.iter(&reader_b), &[1, 2]);
    queue.advance_reader_mut(&reader_b);

    queue.send(3);
    queue.send(4);
    queue.update();

    assert_eq!(queue.iter(&reader_a), &[1, 2, 3, 4], "a lagging reader lost events");
    queue.advance_reader_mut(&reader_a);

    assert_eq!(queue.iter(&reader_b), &[3, 4], "a reader missed events while another lagged");
    queue.advance_reader_mut(&reader_b);

    queue.update();
    assert_eq!(queue.iter(&reader_a), &[] as &[i32]);
    assert_eq!(queue.iter(&reader_b), &[] as &[i32]);
}

#[test]
fn reader_removed_still_works() {
    let mut queue = Events::new();
    let reader = queue.add_reader();

    queue.send(10);
    queue.update();
    queue.remove_reader(reader);

    let _reader2 = queue.add_reader();
    queue.send(20);
    queue.update();
}

#[test]
fn entity_event_send_and_read() {
    let mut queue = Events::<EntityEvent<i32>>::new();
    let reader = queue.add_reader();

    let entity = Entity { index: 42, generation: 1 };
    queue.send(EntityEvent::new(entity, 100));
    queue.update();

    let events = queue.iter(&reader);
    assert_eq!(events.len(), 1);
    assert_eq!(events[0].target, entity);
    assert_eq!(events[0].data, 100);
}

#[test]
fn delayed_event_delivery() {
    let mut queue = Events::new();
    let reader = queue.add_reader();
    let mut delayed = DelayedQueue::new();

    delayed.send_delayed(99, 3, 0);
    assert_eq!(delayed.len(), 1);

    delayed.flush_delayed(1, &mut queue);
    assert_eq!(queue.len_pending(), 0);

    delayed.flush_delayed(2, &mut queue);
    assert_eq!(queue.len_pending(), 0);

    delayed.flush_delayed(3, &mut queue);
    assert_eq!(queue.len_pending(), 1);
    assert!(delayed.is_empty());

    queue.update();
    let events = queue.iter(&reader);
    assert_eq!(events.len(), 1);
    assert_eq!(events[0], 99);
}

#[test]
fn delayed_event_fifo_same_tick() {
    let mut queue = Events::new();
    let reader = queue.add_reader();
    let mut delayed = DelayedQueue::new();

    delayed.send_delayed(10, 1, 0);
    delayed.send_delayed(20, 1, 0);
    delayed.send_delayed(30, 1, 0);

    delayed.flush_delayed(1, &mut queue);
    assert_eq!(queue.len_pending(), 3);
    assert!(delayed.is_empty());

    queue.update();
    let events = queue.iter(&reader);
    assert_eq!(events.len(), 3);
    assert_eq!(events[0], 10);
    assert_eq!(events[1], 20);
    assert_eq!(events[2], 30);
}

#[test]
fn delayed_event_varying_delays() {
    let mut queue = Events::new();
    let reader = queue.add_reader();
    let mut delayed = DelayedQueue::new();

    delayed.send_delayed(10, 1, 0);
    delayed.send_delayed(20, 2, 0);
    delayed.send_delayed(30, 1, 0);

    delayed.flush_delayed(1, &mut queue);
    assert_eq!(queue.len_pending(), 2);

    queue.update();
    let events = queue.iter(&reader);
    assert_eq!(events.len(), 2);
    assert_eq!(events[0], 10);
    assert_eq!(events[1], 30);
    queue.advance_reader_mut(&reader);

    delayed.flush_delayed(2, &mut queue);
    assert_eq!(queue.len_pending(), 1);
    assert!(delayed.is_empty());

    queue.update();
    let events = queue.iter(&reader);
    assert_eq!(events.len(), 1);
    assert_eq!(events[0], 20);
}

#[test]
fn delayed_heap_early_stop() {
    let mut queue = Events::new();
    let mut delayed = DelayedQueue::new();

    delayed.send_delayed(1, 10, 0);
    delayed.send_delayed(2, 10, 0);
    delayed.send_delayed(3, 20, 0);

    delayed.flush_delayed(10, &mut queue);
    assert_eq!(queue.len_pending(), 2);
    assert_eq!(delayed.len(), 1, "the later event should remain");

    delayed.flush_delayed(15, &mut queue);
    assert_eq!(delayed.len(), 1);

    delayed.flush_delayed(20, &mut queue);
    assert_eq!(delayed.len(), 0);
}

#[test]
fn read_partial_advances_by_count() {
    let mut queue = Events::new();
    let reader = queue.add_reader();

    for i in 0..10 {
        queue.send(i);
    }
    queue.update();

    {
        let guard = queue.read_partial(&reader, 3);
        assert_eq!(guard.len(), 3);
        assert_eq!(guard.as_slice(), &[0, 1, 2]);
    }
    {
        let guard = queue.read_partial(&reader, 3);
        assert_eq!(guard.len(), 3);
        assert_eq!(guard.as_slice(), &[3, 4, 5]);
    }
    {
        let guard = queue.read_partial(&reader, 100);
        assert_eq!(guard.len(), 4);
    }
    {
        let guard = queue.read_partial(&reader, 10);
        assert_eq!(guard.len(), 0);
    }
}

#[test]
fn read_advances_to_end() {
    let mut queue = Events::new();
    let reader = queue.add_reader();

    queue.send(1);
    queue.send(2);
    queue.send(3);
    queue.update();

    {
        let _guard = queue.read(&reader);
    }

    let remaining = queue.iter(&reader);
    assert_eq!(remaining.len(), 0, "a read must advance to the end of the buffer");
}

#[test]
fn send_sync_visible_after_flush() {
    let mut queue = Events::<i32>::new();
    let reader = queue.add_reader();

    queue.send_sync(42);
    queue.send_sync(43);
    assert_eq!(queue.len_pending(), 0);

    queue.flush_sync();
    assert_eq!(queue.len_pending(), 2);

    queue.update();
    let events = queue.iter(&reader);
    assert_eq!(events.len(), 2);
    assert_eq!(events[0], 42);
    assert_eq!(events[1], 43);
}

#[test]
fn update_auto_flushes_sync() {
    let mut queue = Events::<i32>::new();
    let reader = queue.add_reader();

    queue.send_sync(100);
    queue.send(200);

    queue.update();
    let events = queue.iter(&reader);
    assert_eq!(events.len(), 2);
}

#[test]
fn clear_resets_everything() {
    let mut queue = Events::new();
    let reader = queue.add_reader();

    queue.send(1);
    queue.send(2);
    queue.update();
    assert_eq!(queue.len(), 2);

    queue.clear();
    assert_eq!(queue.len(), 0);

    queue.update();
    let events = queue.iter(&reader);
    assert_eq!(events.len(), 0);
}

#[test]
fn multiple_updates_cycle() {
    let mut queue = Events::new();
    let reader = queue.add_reader();

    queue.send(1);
    queue.update();
    assert_eq!(queue.iter(&reader).len(), 1);
    queue.advance_reader_mut(&reader);

    queue.send(2);
    queue.update();
    assert_eq!(queue.iter(&reader).len(), 1);
    assert_eq!(queue.iter(&reader)[0], 2);
}

#[test]
fn event_auto_register_via_send() {
    let mut world = World::new();
    // The event type is not registered beforehand.
    world.send_event(TEXT_EVENT, "auto-registered".as_bytes().to_vec());

    world.tick();
    world.flush_all_events();
    let queue = world.events(TEXT_EVENT);
    assert_eq!(queue.len_readable(), 1, "the event should be available after the flush");
}

#[test]
fn advance_frame_flushes_events_and_ticks() {
    let mut world = World::new();
    let t0 = world.current_tick();

    world.send_event(NUMBER_EVENT, 7u32.to_le_bytes().to_vec());
    assert_eq!(world.events(NUMBER_EVENT).len_readable(), 0);

    world.advance_frame();

    assert_eq!(world.events(NUMBER_EVENT).len_readable(), 1);
    assert_ne!(world.current_tick(), t0, "a frame must advance the tick");
}

#[test]
fn gated_reader_apex_no_loss_bevy_drops() {
    // A reader that runs every third frame, while events are written in every frame.
    let mut queue: Events<u64> = Events::new();
    let reader = queue.add_reader();
    let mut written = 0u64;
    let mut read = 0u64;
    for frame in 0..30u64 {
        queue.send(frame);
        written += 1;
        queue.update();
        if (frame + 1) % 3 == 0 {
            read += queue.read(&reader).len() as u64;
        }
    }
    assert_eq!(written, 30);
    assert_eq!(read, written, "a gated reader must receive all {written}, received {read}");
}

#[test]
fn events_frame_loop_apex_and_bevy_read_all() {
    for n in [10_000u64, 1] {
        let mut queue: Events<u64> = Events::new();
        let reader = queue.add_reader();
        let mut sum = 0u64;
        let mut sent = 0u64;
        while sent < n {
            let end = (sent + 100).min(n);
            while sent < end {
                queue.send(sent);
                sent += 1;
            }
            queue.update();
            let mut it = queue.read(&reader).into_iter();
            while let Some(e) = it.next() {
                sum += *e;
            }
        }
        assert_eq!(sum, n * (n - 1) / 2, "the frame loop did not read all events");
    }
}

#[test]
fn events_apex_and_bevy_read_all_10k() {
    const EXPECTED: u64 = 49_995_000;
    let mut queue: Events<u64> = Events::new();
    let reader = queue.add_reader();
    queue.send_batch((0..10_000u64).collect());
    queue.update();
    let sum: u64 = queue.read(&reader).as_slice().iter().sum();
    assert_eq!(sum, EXPECTED, "not all events were read");
}

#[test]
fn peek_leaves_the_cursor() {
    let mut queue = Events::new();
    let reader = queue.add_reader();
    queue.send(1);
    queue.send(2);
    queue.update();
    assert_eq!(queue.read(&reader).peek().as_slice(), &[1, 2]);
    assert_eq!(queue.iter(&reader), &[1, 2]);
    let mut it = queue.read(&reader).into_iter();
    assert_eq!(it.next_back(), Some(&2));
    assert_eq!(it.next(), Some(&1));
    assert_eq!(it.next(), None);
    assert_eq!(it.next_back(), None);
}

#[test]
fn unknown_readers_see_nothing() {
    let mut queue = Events::new();
    queue.send(1);
    queue.update();
    assert_eq!(queue.iter(&EventCursor(17)), &[] as &[i32]);
    assert_eq!(queue.reader_count(), 0);
}

#[test]
fn batches_keep_their_order() {
    let mut queue = Events::new();
    let reader = queue.add_reader();
    queue.reserve(8);
    queue.send_batch(vec![1, 2]);
    queue.send_batch_sync(vec![3, 4]);
    queue.update();
    let mut seen = queue.iter(&reader).to_vec();
    seen.sort_unstable();
    assert_eq!(seen, vec![1, 2, 3, 4]);
    assert_eq!(queue.len_readable(), 4);
    assert!(!queue.is_empty());
}

#[test]
fn removed_readers_do_not_hold_events_back() {
    let mut queue = Events::new();
    let slow = queue.add_reader();
    let fast = queue.add_reader();
    assert_eq!(queue.reader_count(), 2);
    queue.send(1);
    queue.update();
    queue.advance_reader_mut(&fast);
    queue.remove_reader(slow);
    assert_eq!(queue.reader_count(), 1);
    queue.update();
    assert_eq!(queue.len_readable(), 0);
    assert_eq!(queue.iter(&fast), &[] as &[i32]);
}

#[test]
fn delayed_events_can_be_dropped() {
    let mut delayed: DelayedQueue<u8> = DelayedQueue::new();
    delayed.reserve(4);
    delayed.send_delayed(1, 5, 0);
    delayed.clear();
    assert_eq!(delayed.len(), 0);
    let mut queue = Events::new();
    delayed.flush_delayed(100, &mut queue);
    assert_eq!(queue.len_pending(), 0);
}

#[test]
fn registry_flushes_only_the_named_types() {
    let mut registry: EventRegistry<u8> = EventRegistry::new();
    registry.register(1);
    registry.register(2);
    registry.get_mut(1).send(7);
    registry.get_mut(2).send(8);
    registry.get_or_register_mut(3).send(9);
    registry.reserve_by_type(1, 4);
    registry.flush_by_type_id(&[1, 99]);
    assert_eq!(registry.get(1).len_readable(), 1);
    assert_eq!(registry.get(2).len_readable(), 0);
    registry.update_all();
    assert_eq!(registry.get(2).len_readable(), 1);
    assert_eq!(registry.get(3).len_readable(), 1);
}

#[test]
fn removed_event_as_text() {
    let r = Removed::new(Entity::from_raw_parts(3, 1));
    assert_eq!(r.entity.index, 3);
    assert_eq!(r.text("game::Hp"), "Removed<game::Hp>(Entity(3v1))");
}

#[test]
fn readers_added_after_clear_have_slots() {
    let mut q = Events::new();
    let r0 = q.add_reader();
    let r1 = q.add_reader();
    q.remove_reader(r1);
    q.clear();
    q.remove_reader(r0);
    let a = q.add_reader();
    let b = q.add_reader();
    q.send(7);
    q.update();
    assert_eq!(q.iter(&a), &[7]);
    assert_eq!(q.iter(&b), &[7]);
    assert_eq!(q.reader_count(), 2);
}

#[test]
fn removing_a_reader_twice_is_removing_it_once() {
    let mut q: Events<i32> = Events::new();
    let r = q.add_reader();
    q.remove_reader(r);
    q.remove_reader(r);
    let a = q.add_reader();
    let b = q.add_reader();
    assert_ne!(a, b);
    assert_eq!(q.reader_count(), 2);
}

#[test]
fn delayed_events_wait_across_the_wrap() {
    let mut d = DelayedQueue::new();
    let mut q = Events::new();
    d.send_delayed(5, 1, u32::MAX);
    d.flush_delayed(u32::MAX, &mut q);
    assert_eq!(q.len_pending(), 0);
    assert_eq!(d.len(), 1);
    d.flush_delayed(0, &mut q);
    assert_eq!(q.len_pending(), 1);
    assert!(d.is_empty());
}

#[test]
fn delayed_events_come_in_order_across_the_wrap() {
    let mut d = DelayedQueue::new();
    let mut q = Events::new();
    let reader = q.add_reader();
    d.send_delayed(3, 4, u32::MAX - 1);
    d.send_delayed(1, 1, u32::MAX - 1);
    d.send_delayed(2, 2, u32::MAX - 1);
    d.send_delayed(4, u32::MAX, u32::MAX - 1);
    d.flush_delayed(u32::MAX, &mut q);
    q.update();
    assert_eq!(q.iter(&reader), &[1]);
    d.flush_delayed(5, &mut q);
    q.update();
    assert_eq!(q.iter(&reader), &[1, 2, 3]);
    assert_eq!(d.len(), 1, "the longest delay is not over");
    d.flush_delayed(u32::MAX - 3, &mut q);
    assert_eq!(d.len(), 1);
    d.flush_delayed(u32::MAX - 2, &mut q);
    assert!(d.is_empty());
}

#[test]
fn delayed_events_stay_due_for_long() {
    let mut d = DelayedQueue::new();
    let mut q = Events::new();
    d.send_delayed(7, 1, 0);
    d.flush_delayed(3_000_000_000, &mut q);
    assert_eq!(q.len_pending(), 1);
    assert!(d.is_empty());
}

#[test]
fn long_delays_are_kept() {
    let mut d = DelayedQueue::new();
    let mut q = Events::new();
    d.send_delayed(7, 3_000_000_000, 5);
    d.flush_delayed(6, &mut q);
    d.flush_delayed(3_000_000_004, &mut q);
    assert_eq!(q.len_pending(), 0);
    d.flush_delayed(3_000_000_005, &mut q);
    assert_eq!(q.len_pending(), 1);
}
