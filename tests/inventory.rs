use elmor_studio::commands::{
    group_create, group_delete, group_lock_unlock, group_move_device_to, group_remove_from,
    group_rename, groups_fetch, CommandError,
};
use elmor_studio::devices::{Device, DeviceKind};
use elmor_studio::groups::Group;
use elmor_studio::state::StudioState;

fn device(id: u32, port: &str) -> Device {
    Device::new(id, DeviceKind::KTHUsb, port.to_string(), 5)
}

fn group(id: u32, name: &str, devices: Vec<Device>) -> Group {
    Group::new(id, name.to_string(), devices, false)
}

/// Group 1 = {Device 1, Device 2}, Group 0 = {Device 3}.
fn seeded() -> StudioState {
    StudioState::from_groups(vec![
        group(1, "Group 1", vec![device(1, "COM3"), device(2, "COM4")]),
        group(0, "Ungrouped", vec![device(3, "COM5")]),
    ])
    .expect("seed is well formed")
}

fn ids(groups: &[Group]) -> Vec<u32> {
    groups.iter().map(|g| g.id).collect()
}

fn device_ids(g: &Group) -> Vec<u32> {
    g.devices.iter().map(|d| d.id).collect()
}

fn find<'a>(groups: &'a [Group], id: u32) -> &'a Group {
    groups.iter().find(|g| g.id == id).expect("group present")
}

#[test]
fn move_then_delete_scenario() {
    let mut st = seeded();
    let snap = group_move_device_to(1, 0, 1, &mut st);
    assert_eq!(device_ids(find(&snap, 1)), vec![2]);
    assert_eq!(device_ids(find(&snap, 0)), vec![3, 1]);
    let snap = group_delete(1, &mut st);
    assert_eq!(ids(&snap), vec![0]);
    assert_eq!(device_ids(&snap[0]), vec![3, 1, 2]);
}

#[test]
fn create_on_empty_scenario() {
    let mut st = StudioState::new();
    let snap = group_create(&mut st);
    assert_eq!(ids(&snap), vec![1]);
    assert_eq!(snap[0].name, "Group 1");
    assert!(snap[0].devices.is_empty());
    assert!(!snap[0].is_locked);
    let snap = group_create(&mut st);
    assert_eq!(ids(&snap), vec![2, 1]);
    assert_eq!(snap[0].name, "Group 2");
}

#[test]
fn creates_count_up_and_stay_sorted() {
    let mut st = seeded();
    let snap = group_create(&mut st);
    assert_eq!(ids(&snap), vec![2, 1, 0]);
    let snap = group_create(&mut st);
    assert_eq!(ids(&snap), vec![3, 2, 1, 0]);
    let snap = group_create(&mut st);
    assert_eq!(ids(&snap), vec![4, 3, 2, 1, 0]);
    assert_eq!(snap[0].name, "Group 4");
}

#[test]
fn create_after_auto_created_group_takes_next_id() {
    let mut st = seeded();
    group_move_device_to(1, 7, 2, &mut st);
    let snap = group_create(&mut st);
    assert_eq!(ids(&snap), vec![8, 7, 1, 0]);
    assert_eq!(snap[0].name, "Group 8");
}

#[test]
fn device_ids_stay_unique() {
    let mut st = seeded();
    group_move_device_to(1, 5, 1, &mut st);
    group_create(&mut st);
    group_remove_from(1, 2, &mut st);
    group_move_device_to(0, 5, 3, &mut st);
    group_delete(5, &mut st);
    let snap = groups_fetch(&st);
    let mut all: Vec<u32> = snap.iter().flat_map(|g| g.devices.iter().map(|d| d.id)).collect();
    all.sort();
    assert_eq!(all, vec![1, 2, 3]);
}

#[test]
fn move_there_and_back_restores_membership() {
    let mut st = StudioState::from_groups(vec![
        group(2, "Bench", vec![device(4, "COM6")]),
        group(1, "Group 1", vec![device(1, "COM3"), device(2, "COM4")]),
    ])
    .unwrap();
    group_move_device_to(1, 2, 2, &mut st);
    group_lock_unlock(2, true, &mut st);
    let snap = group_move_device_to(2, 1, 2, &mut st);
    assert_eq!(device_ids(find(&snap, 1)), vec![1, 2]);
    assert_eq!(device_ids(find(&snap, 2)), vec![4]);
}

#[test]
fn move_back_of_a_middle_device_puts_it_last() {
    let mut st = seeded();
    group_move_device_to(1, 0, 1, &mut st);
    let snap = group_move_device_to(0, 1, 1, &mut st);
    assert_eq!(device_ids(find(&snap, 1)), vec![2, 1]);
    assert_eq!(device_ids(find(&snap, 0)), vec![3]);
}

#[test]
fn delete_moves_all_devices_to_default() {
    let mut st = seeded();
    let snap = group_delete(1, &mut st);
    assert_eq!(ids(&snap), vec![0]);
    assert_eq!(device_ids(&snap[0]), vec![3, 1, 2]);
    assert_eq!(snap[0].name, "Ungrouped");
}

#[test]
fn delete_creates_missing_default_group() {
    let mut st = StudioState::from_groups(vec![
        group(3, "Rack", vec![device(7, "COM7"), device(8, "COM8")]),
        group(4, "Desk", vec![]),
    ])
    .unwrap();
    let snap = group_delete(3, &mut st);
    assert_eq!(ids(&snap), vec![4, 0]);
    assert_eq!(snap[1].name, "Default Group");
    assert_eq!(device_ids(&snap[1]), vec![7, 8]);
    assert!(!snap[1].is_locked);
}

#[test]
fn delete_of_empty_group_creates_no_default() {
    let mut st = StudioState::from_groups(vec![group(4, "Desk", vec![])]).unwrap();
    let snap = group_delete(4, &mut st);
    assert!(snap.is_empty());
}

#[test]
fn delete_of_default_group_takes_its_devices() {
    let mut st = seeded();
    let snap = group_delete(0, &mut st);
    assert_eq!(ids(&snap), vec![1]);
    assert_eq!(device_ids(&snap[0]), vec![1, 2]);
}

#[test]
fn delete_of_unknown_group_only_sorts() {
    let mut st = StudioState::from_groups(vec![
        group(0, "Ungrouped", vec![]),
        group(2, "B", vec![device(1, "COM1")]),
        group(1, "A", vec![]),
    ])
    .unwrap();
    let snap = group_delete(9, &mut st);
    assert_eq!(ids(&snap), vec![2, 1, 0]);
    assert_eq!(device_ids(&snap[0]), vec![1]);
}

#[test]
fn locked_group_is_still_deleted() {
    let mut st = seeded();
    let snap = group_lock_unlock(1, true, &mut st);
    assert!(find(&snap, 1).is_locked);
    let snap = group_delete(1, &mut st);
    assert_eq!(ids(&snap), vec![0]);
    assert_eq!(device_ids(&snap[0]), vec![3, 1, 2]);
}

#[test]
fn rename_of_locked_group_is_refused() {
    let mut st = seeded();
    group_lock_unlock(1, true, &mut st);
    let r = group_rename(1, "Renamed".to_string(), &mut st);
    assert!(matches!(r, Err(CommandError::GroupLocked)));
    assert_eq!(find(&groups_fetch(&st), 1).name, "Group 1");
}

#[test]
fn rename_after_unlock() {
    let mut st = seeded();
    group_lock_unlock(1, true, &mut st);
    group_lock_unlock(1, false, &mut st);
    let snap = group_rename(1, "Renamed".to_string(), &mut st).unwrap();
    assert_eq!(find(&snap, 1).name, "Renamed");
    assert_eq!(find(&snap, 0).name, "Ungrouped");
}

#[test]
fn unknown_ids_change_nothing() {
    let mut st = seeded();
    let before = groups_fetch(&st);
    group_lock_unlock(9, true, &mut st);
    group_rename(9, "X".to_string(), &mut st).unwrap();
    group_move_device_to(9, 0, 1, &mut st);
    group_move_device_to(1, 0, 9, &mut st);
    group_remove_from(0, 1, &mut st);
    let after = groups_fetch(&st);
    assert_eq!(ids(&after), ids(&before));
    for (a, b) in after.iter().zip(before.iter()) {
        assert_eq!(a.name, b.name);
        assert_eq!(a.is_locked, b.is_locked);
        assert_eq!(device_ids(a), device_ids(b));
    }
}

#[test]
fn move_to_missing_group_creates_it() {
    let mut st = seeded();
    let snap = group_move_device_to(1, 5, 2, &mut st);
    assert_eq!(ids(&snap), vec![5, 1, 0]);
    assert_eq!(snap[0].name, "Group 5");
    assert_eq!(device_ids(&snap[0]), vec![2]);
    assert_eq!(snap[0].devices[0].port, "COM4");
}

#[test]
fn remove_from_creates_default_group() {
    let mut st = StudioState::from_groups(vec![group(1, "A", vec![device(1, "COM3")])]).unwrap();
    let snap = group_remove_from(1, 1, &mut st);
    assert_eq!(ids(&snap), vec![1, 0]);
    assert_eq!(snap[1].name, "Default Group");
    assert_eq!(device_ids(&snap[1]), vec![1]);
    assert!(snap[0].devices.is_empty());
}

#[test]
fn move_keeps_device_attributes() {
    let mut st = seeded();
    let snap = group_move_device_to(1, 0, 2, &mut st);
    let d = &find(&snap, 0).devices[1];
    assert_eq!(d.id, 2);
    assert_eq!(d.port, "COM4");
    assert_eq!(d.firmware, 5);
    assert!(d.is_open);
    assert_eq!(d.kind, DeviceKind::KTHUsb);
}

#[test]
fn from_groups_rejects_repeated_ids() {
    assert!(StudioState::from_groups(vec![group(1, "A", vec![]), group(1, "B", vec![])]).is_none());
    assert!(StudioState::from_groups(vec![
        group(1, "A", vec![device(1, "COM1")]),
        group(2, "B", vec![device(1, "COM2")]),
    ])
    .is_none());
    assert!(StudioState::from_groups(vec![group(
        1,
        "A",
        vec![device(4, "COM1"), device(4, "COM2")]
    )])
    .is_none());
}

#[test]
fn from_groups_sorts_by_descending_id() {
    let st = StudioState::from_groups(vec![
        group(0, "Ungrouped", vec![]),
        group(7, "Rack", vec![device(1, "COM1")]),
        group(3, "Desk", vec![]),
    ])
    .unwrap();
    let snap = groups_fetch(&st);
    assert_eq!(ids(&snap), vec![7, 3, 0]);
    assert_eq!(device_ids(&snap[0]), vec![1]);
}

#[test]
fn remove_from_sorts_the_created_default_group() {
    let mut st = StudioState::from_groups(vec![
        group(2, "B", vec![device(1, "COM3")]),
        group(1, "A", vec![]),
    ])
    .unwrap();
    let snap = group_remove_from(2, 1, &mut st);
    assert_eq!(ids(&snap), vec![2, 1, 0]);
    assert_eq!(device_ids(&snap[2]), vec![1]);
}

#[test]
fn group_label_has_all_digits() {
    let mut st = seeded();
    let snap = group_move_device_to(1, 4_000_000_123, 1, &mut st);
    assert_eq!(snap[0].id, 4_000_000_123);
    assert_eq!(snap[0].name, "Group 4000000123");
    let snap = group_move_device_to(1, 10, 2, &mut st);
    assert_eq!(snap[1].name, "Group 10");
}

#[test]
fn fetch_returns_groups_in_order() {
    let st = seeded();
    let snap = groups_fetch(&st);
    assert_eq!(ids(&snap), vec![1, 0]);
    assert_eq!(device_ids(&snap[0]), vec![1, 2]);
    assert_eq!(snap[1].name, "Ungrouped");
}

#[test]
fn group_clone_is_equal() {
    let g = group(3, "Rack", vec![device(7, "COM7")]);
    let c = g.clone();
    assert_eq!(c.id, 3);
    assert_eq!(c.name, "Rack");
    assert_eq!(device_ids(&c), vec![7]);
}

#[test]
fn round_trip_with_unrelated_commands_between() {
    let mut st = StudioState::from_groups(vec![
        group(3, "Rack", vec![device(5, "COM9")]),
        group(2, "Bench", vec![device(4, "COM6")]),
        group(1, "Group 1", vec![device(1, "COM3"), device(2, "COM4")]),
    ])
    .unwrap();
    group_move_device_to(1, 2, 2, &mut st);
    group_create(&mut st);
    group_lock_unlock(3, true, &mut st);
    group_rename(4, "New".to_string(), &mut st).unwrap();
    group_move_device_to(3, 4, 5, &mut st);
    group_delete(3, &mut st);
    let snap = group_move_device_to(2, 1, 2, &mut st);
    assert_eq!(device_ids(find(&snap, 1)), vec![1, 2]);
    assert_eq!(device_ids(find(&snap, 2)), vec![4]);
    assert_eq!(ids(&snap), vec![4, 2, 1]);
}
