use apex_core::archetype::{archetype_chunks, Archetype, ArchetypeId};
use apex_core::column::Column;
use apex_core::component::{ComponentId, Tick};
use apex_core::entity::Entity;
use apex_core::inline::IdList;
use apex_core::registry::ComponentInfo;

fn make_info(id: u32) -> ComponentInfo {
    ComponentInfo {
        id: ComponentId(id),
        name: "test".to_string(),
        key: 1,
        size: 4,
        align: 4,
        needs_drop: false,
        serde: None,
        map_entities: None,
    }
}

fn bytes(v: f32) -> Vec<u8> {
    v.to_le_bytes().to_vec()
}

fn number(b: &[u8]) -> f32 {
    f32::from_le_bytes([b[0], b[1], b[2], b[3]])
}

#[test]
fn column_push_and_get() {
    let info = make_info(0);
    let mut col = Column::new(&info);
    assert_eq!(col.len(), 0);
    assert_eq!(col.capacity(), 0);

    col.push(&bytes(42.0), Tick(1));
    assert_eq!(col.len(), 1);
    assert!(col.capacity() >= 1);
    assert_eq!(col.ticks_ptr().len(), 1);

    assert_eq!(number(col.get(0)), 42.0);
}

#[test]
fn column_push_many_grows_capacity() {
    let info = make_info(0);
    let mut col = Column::new(&info);
    let n = 200;

    for i in 0..n {
        col.push(&bytes(i as f32), Tick(i as u32));
    }
    assert_eq!(col.len(), n);
    assert!(col.capacity() >= n);
    assert_eq!(col.ticks_ptr().len(), n);

    for i in 0..n {
        assert_eq!(number(col.get(i)), i as f32);
        assert_eq!(col.get_tick(i).0, i as u32);
    }
}

#[test]
fn column_write_at_existing_row() {
    let info = make_info(0);
    let mut col = Column::new(&info);

    col.push(&bytes(1.0), Tick(1));
    col.push(&bytes(2.0), Tick(1));
    col.write_at(0, &bytes(99.0), Tick(100));

    assert_eq!(number(col.get(0)), 99.0);
    assert_eq!(number(col.get(1)), 2.0);
    assert_eq!(col.get_tick(0).0, 100);
}

#[test]
fn column_swap_remove_no_drop() {
    let info = make_info(0);
    let mut col = Column::new(&info);

    for i in 0..5 {
        col.push(&bytes(i as f32), Tick(i as u32));
    }

    col.swap_remove_no_drop(1);
    assert_eq!(col.len(), 4);
    assert_eq!(number(col.get(0)), 0.0);
    assert_eq!(number(col.get(1)), 4.0);
    assert_eq!(number(col.get(2)), 2.0);
    assert_eq!(number(col.get(3)), 3.0);
}

#[test]
fn column_swap_remove_last_noop() {
    let info = make_info(0);
    let mut col = Column::new(&info);

    col.push(&bytes(5.0), Tick(1));
    assert_eq!(col.len(), 1);

    col.swap_remove_no_drop(0);
    assert_eq!(col.len(), 0);
}

#[test]
fn column_reserve_pre_allocation() {
    let info = make_info(0);
    let mut col = Column::new(&info);
    col.reserve(100);
    assert!(col.capacity() >= 100);
    assert_eq!(col.len(), 0);
}

#[test]
fn column_change_tick_tracking() {
    let info = make_info(0);
    let mut col = Column::new(&info);

    col.push(&bytes(1.0), Tick(10));
    col.push(&bytes(2.0), Tick(20));

    assert_eq!(col.get_tick(0).0, 10);
    assert_eq!(col.get_tick(1).0, 20);

    col.write_at(0, &bytes(3.0), Tick(30));
    assert_eq!(col.get_tick(0).0, 30);
}

#[test]
fn column_zero_sized_type() {
    let info = ComponentInfo {
        id: ComponentId(99),
        name: "zst".to_string(),
        key: 2,
        size: 0,
        align: 1,
        needs_drop: false,
        serde: None,
        map_entities: None,
    };
    let mut col = Column::new(&info);
    col.push(&[], Tick(1));
    assert_eq!(col.len(), 1);
}

fn make_arch(id: u32, component_ids: &[u32]) -> Archetype {
    let mut ids = IdList::new();
    for &i in component_ids {
        ids.push(i);
    }
    let infos: Vec<ComponentInfo> = component_ids.iter().map(|&i| make_info(i)).collect();
    let refs: Vec<&ComponentInfo> = infos.iter().collect();
    Archetype::new(ArchetypeId(id), ids, &refs)
}

fn make_entity(index: u32, generation: u32) -> Entity {
    Entity { index, generation }
}

#[test]
fn archetype_allocate_row() {
    let mut arch = make_arch(0, &[0, 1]);
    let row = arch.allocate_row(make_entity(0, 100));
    assert_eq!(row, 0);
    assert_eq!(arch.len(), 1);
}

#[test]
fn archetype_write_and_read_component() {
    let mut arch = make_arch(0, &[0]);
    arch.allocate_row(make_entity(0, 1));
    arch.write_component(0, ComponentId(0), &bytes(2.5), Tick(1));
    assert_eq!(number(arch.get_component(0, ComponentId(0)).unwrap()), 2.5);
}

#[test]
fn archetype_remove_row() {
    let mut arch = make_arch(0, &[0]);
    let e1 = make_entity(0, 1);
    let e2 = make_entity(0, 2);

    arch.allocate_row(e1);
    arch.write_component(0, ComponentId(0), &bytes(1.0), Tick(1));
    arch.allocate_row(e2);
    arch.write_component(1, ComponentId(0), &bytes(2.0), Tick(1));
    assert_eq!(arch.len(), 2);

    let swapped = arch.remove_row(0);
    assert_eq!(arch.len(), 1);
    assert_eq!(swapped, Some(e2));
}

#[test]
fn archetype_has_component() {
    let arch = make_arch(0, &[0, 1]);
    assert!(arch.has_component(ComponentId(0)));
    assert!(arch.has_component(ComponentId(1)));
    assert!(!arch.has_component(ComponentId(2)));
}

#[test]
fn archetype_column_index() {
    let arch = make_arch(0, &[0, 1, 2]);
    assert_eq!(arch.column_index(ComponentId(0)), Some(0));
    assert_eq!(arch.column_index(ComponentId(1)), Some(1));
    assert_eq!(arch.column_index(ComponentId(2)), Some(2));
    assert_eq!(arch.column_index(ComponentId(3)), None);
}

#[test]
fn archetype_edges() {
    let mut arch = make_arch(0, &[0]);
    arch.set_add_edge(ComponentId(1), ArchetypeId(3));
    arch.set_remove_edge(ComponentId(0), ArchetypeId(7));

    assert_eq!(arch.add_edge(ComponentId(1)), Some(ArchetypeId(3)));
    assert_eq!(arch.remove_edge(ComponentId(0)), Some(ArchetypeId(7)));
    assert_eq!(arch.add_edge(ComponentId(0)), None);
}

#[test]
fn chunk_exact_size() {
    let mut arch = make_arch(0, &[0]);
    for i in 0..10 {
        arch.allocate_row(make_entity(0, i));
    }
    let chunks = archetype_chunks(&arch, 5);
    assert_eq!(chunks.len(), 2);
    assert_eq!(chunks[0].entities.len(), 5);
    assert_eq!(chunks[0].start_row, 0);
    assert_eq!(chunks[1].entities.len(), 5);
    assert_eq!(chunks[1].start_row, 5);
}

#[test]
fn chunk_uneven() {
    let mut arch = make_arch(0, &[0]);
    for i in 0..7 {
        arch.allocate_row(make_entity(0, i));
    }
    let chunks = archetype_chunks(&arch, 3);
    assert_eq!(chunks.len(), 3);
    assert_eq!(chunks[0].entities.len(), 3);
    assert_eq!(chunks[1].entities.len(), 3);
    assert_eq!(chunks[2].entities.len(), 1);
}

#[test]
fn column_view_access() {
    let arch = make_arch(0, &[0, 1]);
    let views = arch.columns();
    assert_eq!(views.len(), 2);
    assert_eq!(views[0].id(), ComponentId(0));
    assert_eq!(views[1].id(), ComponentId(1));
}

#[test]
fn columns_are_found_beyond_the_linear_limit() {
    let ids: Vec<u32> = (0..20).map(|i| i * 3).collect();
    let arch = make_arch(5, &ids);
    for (i, id) in ids.iter().enumerate() {
        assert_eq!(arch.column_index(ComponentId(*id)), Some(i));
    }
    assert_eq!(arch.column_index(ComponentId(1)), None);
    assert_eq!(arch.id(), ArchetypeId(5));
    assert_eq!(arch.component_ids(), ids.as_slice());
}

#[test]
fn column_replaces_and_hands_out_the_old_value() {
    let mut col = Column::new(&make_info(0));
    col.push(&bytes(1.0), Tick(1));
    assert_eq!(number(&col.replace_at(0, &bytes(2.0), Tick(2))), 1.0);
    assert_eq!(number(col.get(0)), 2.0);
    assert_eq!(col.get_added_tick(0), Tick(1));
    assert_eq!(col.get_tick(0), Tick(2));
    assert_eq!(number(&col.swap_remove_and_drop(0)), 2.0);
    assert!(col.is_empty());
    assert_eq!(col.get_tick(0), Tick(0));
}

#[test]
fn column_stamps_a_range() {
    let mut col = Column::new(&make_info(0));
    for i in 0..5 {
        col.push(&bytes(i as f32), Tick(1));
    }
    col.stamp_range(1, 3, Tick(9));
    let ticks: Vec<u32> = col.ticks_ptr().iter().map(|t| t.0).collect();
    assert_eq!(ticks, vec![1, 9, 9, 1, 1]);
    assert_eq!(col.data_ptr().len(), 20);
}

#[test]
fn old_ticks_are_clamped() {
    let mut col = Column::new(&make_info(0));
    col.push(&bytes(0.0), Tick(1));
    col.push(&bytes(0.0), Tick(0x7000_0000));
    col.check_change_ticks(Tick(0x7000_0001));
    assert_eq!(col.get_tick(0), Tick(0x3000_0001));
    assert_eq!(col.get_tick(1), Tick(0x7000_0000));
    assert!(Tick(5).is_newer_than(Tick(4)));
    assert!(!Tick(4).is_newer_than(Tick(4)));
    assert!(Tick(3).is_newer_than(Tick(u32::MAX)));
    let mut t = Tick(1);
    assert!(t.check_against(Tick(0x7000_0001)));
    assert_eq!(t, Tick(0x3000_0001));
    assert!(!t.check_against(Tick(0x3000_0002)));
}
