use vstd::prelude::*;

use crate::devices::Device;
use crate::groups::{default_name, label_for, Group, GroupView};
use crate::model::{
    absorb, create_group, delete_group, fresh_group, group_index, has_group, inventory_wf,
    is_locked_group, lemma_create_wf, lemma_delete_wf,
    lemma_move_wf, lemma_sort_desc, lemma_take_device, lemma_views_push,
    lemma_views_remove, lemma_views_update, lemma_sorted_update_same, lemma_wf_remove, lemma_wf_update_same, max_id,
    move_command, move_device, remove_to_default, rename_group, set_lock, sort_desc, sorted_desc, views,
};
use crate::laws::create_increments_max_id;
use crate::state::{find_device, find_group, sort_groups, StudioState};

verus! {

/// Why a command was refused.
#[derive(PartialEq, Eq, Structural, Clone, Copy, Debug)]
pub enum CommandError {
    /// A locked group cannot be renamed.
    GroupLocked,
}

/// The groups, in their order.
pub fn groups_fetch(state: &StudioState) -> (r: Vec<Group>)
    ensures
        views(r@) == state@,
{
    state.snapshot()
}

/// Puts the groups in the stable order of descending id.
fn sort_state(state: &mut StudioState)
    ensures
        final(state)@ == sort_desc(old(state)@),
{
    let mut groups: Vec<Group> = Vec::new();
    std::mem::swap(&mut groups, &mut state.groups);
    state.groups = sort_groups(groups);
}

/// Adds an empty, unlocked group whose id is one above the largest (1 in an
/// empty inventory), named "Group <id>", and sorts the groups by descending id.
pub fn group_create(state: &mut StudioState) -> (r: Vec<Group>)
    requires
        old(state).wf(),
        max_id(old(state)@) < u32::MAX,
    ensures
        final(state)@ == create_group(old(state)@),
        final(state).wf(),
        views(r@) == final(state)@,
        sorted_desc(final(state)@),
        max_id(final(state)@) == max_id(old(state)@) + 1,
        final(state)@.contains(fresh_group((max_id(old(state)@) + 1) as u32)),
{
    let ghost before = state@;
    let mut top: u32 = 0;
    let mut i: usize = 0;
    while i < state.groups.len()
        invariant
            i <= state.groups.len(),
            state@ == before,
            top as nat == max_id(before.subrange(0, i as int)),
        decreases state.groups.len() - i,
    {
        assert(before.subrange(0, i + 1).drop_last() =~= before.subrange(0, i as int));
        if state.groups[i].id > top {
            top = state.groups[i].id;
        }
        i = i + 1;
    }
    assert(before.subrange(0, i as int) =~= before);
    let id = top + 1;
    let g = Group { id, name: label_for(id), devices: Vec::new(), is_locked: false };
    proof {
        lemma_views_push(state.groups@, g);
        assert(g@ == fresh_group(id));
    }
    state.groups.push(g);
    sort_state(state);
    proof {
        lemma_create_wf(before);
        create_increments_max_id(before);
    }
    state.snapshot()
}

/// Sets the lock flag of group `group_id`; an unknown id changes nothing.
pub fn group_lock_unlock(group_id: u32, lock: bool, state: &mut StudioState) -> (r: Vec<Group>)
    requires
        old(state).wf(),
    ensures
        final(state)@ == set_lock(old(state)@, group_id, lock),
        final(state).wf(),
        views(r@) == final(state)@,
{
    if let Some(i) = find_group(&state.groups, group_id) {
        let ghost before = state.groups@;
        let mut g = state.groups.remove(i);
        g.is_locked = lock;
        state.groups.insert(i, g);
        proof {
            assert(state.groups@ =~= before.update(i as int, g));
            lemma_views_update(before, i as int, g);
            lemma_wf_update_same(views(before), i as int, g@);
            lemma_sorted_update_same(views(before), i as int, g@);
        }
    }
    state.snapshot()
}

/// Names group `group_id` `new_name`; an unknown id changes nothing. A locked
/// group is refused with [`CommandError::GroupLocked`] and keeps its name.
pub fn group_rename(group_id: u32, new_name: String, state: &mut StudioState) -> (r: Result<
    Vec<Group>,
    CommandError,
>)
    requires
        old(state).wf(),
    ensures
        final(state).wf(),
        is_locked_group(old(state)@, group_id) ==> r == Err::<Vec<Group>, CommandError>(
            CommandError::GroupLocked,
        ) && final(state)@ == old(state)@,
        !is_locked_group(old(state)@, group_id) ==> r is Ok && final(state)@ == rename_group(
            old(state)@,
            group_id,
            new_name@,
        ),
        r matches Ok(v) ==> views(v@) == final(state)@,
{
    if let Some(i) = find_group(&state.groups, group_id) {
        if state.groups[i].is_locked {
            return Err(CommandError::GroupLocked);
        }
        let ghost before = state.groups@;
        let mut g = state.groups.remove(i);
        g.name = new_name;
        state.groups.insert(i, g);
        proof {
            assert(state.groups@ =~= before.update(i as int, g));
            lemma_views_update(before, i as int, g);
            lemma_wf_update_same(views(before), i as int, g@);
            lemma_sorted_update_same(views(before), i as int, g@);
        }
    }
    Ok(state.snapshot())
}

/// Takes device `device_id` out of group `source` and appends it to group
/// `target`, which is created, unlocked and named `name`, where it is missing.
fn relocate(state: &mut StudioState, source: u32, target: u32, device_id: u32, name: String)
    requires
        inventory_wf(old(state)@),
    ensures
        final(state)@ == move_device(old(state)@, source, target, device_id, name@),
        inventory_wf(final(state)@),
{
    let ghost gs = state@;
    proof {
        lemma_move_wf(gs, source, target, device_id, name@);
    }
    let s = match find_group(&state.groups, source) {
        Some(s) => s,
        None => return ,
    };
    assert(state.groups@[s as int]@ == gs[s as int]);
    assert(inventory_wf(gs) ==> crate::model::devices_distinct(gs[s as int].devices));
    let k = match find_device(&state.groups[s].devices, device_id) {
        Some(k) => k,
        None => return ,
    };
    let ghost before = state.groups@;
    let mut src = state.groups.remove(s);
    let d = src.devices.remove(k);
    state.groups.insert(s, src);
    proof {
        assert(state.groups@ =~= before.update(s as int, src));
        lemma_views_update(before, s as int, src);
        lemma_take_device(gs, s as int, k as int);
        assert(src@ == (GroupView {
            devices: gs[s as int].devices.remove(k as int),
            ..gs[s as int]
        }));
        assert(d == gs[s as int].devices[k as int]);
    }
    let ghost taken = state.groups@;
    assert(views(taken) == gs.update(
        s as int,
        GroupView { devices: gs[s as int].devices.remove(k as int), ..gs[s as int] },
    ));
    match find_group(&state.groups, target) {
        Some(t) => {
            let mut tg = state.groups.remove(t);
            tg.devices.push(d);
            state.groups.insert(t, tg);
            proof {
                assert(state.groups@ =~= taken.update(t as int, tg));
                lemma_views_update(taken, t as int, tg);
                assert(tg@ == (GroupView {
                    devices: views(taken)[t as int].devices.push(d),
                    ..views(taken)[t as int]
                }));
            }
        },
        None => {
            let g = Group { id: target, name, devices: vec![d], is_locked: false };
            proof {
                lemma_views_push(state.groups@, g);
                assert(g.devices@ =~= seq![d]);
            }
            state.groups.push(g);
        },
    }
}

/// Moves device `device_id` from group `source_group_id` to group
/// `target_group_id`, creating the target (unlocked, named "Group <id>") where
/// it is missing, and sorts the groups by descending id. A missing source group
/// or device changes nothing.
pub fn group_move_device_to(
    source_group_id: u32,
    target_group_id: u32,
    device_id: u32,
    state: &mut StudioState,
) -> (r: Vec<Group>)
    requires
        old(state).wf(),
    ensures
        final(state)@ == move_command(old(state)@, source_group_id, target_group_id, device_id),
        final(state).wf(),
        views(r@) == final(state)@,
{
    let name = label_for(target_group_id);
    relocate(state, source_group_id, target_group_id, device_id, name);
    proof {
        lemma_sort_desc(state@);
    }
    sort_state(state);
    state.snapshot()
}

/// Moves device `device_id` from group `group_id` to the default group 0,
/// creating it (unlocked, named "Default Group") where it is missing, and sorts
/// the groups by descending id.
pub fn group_remove_from(group_id: u32, device_id: u32, state: &mut StudioState) -> (r: Vec<Group>)
    requires
        old(state).wf(),
    ensures
        final(state)@ == sort_desc(remove_to_default(old(state)@, group_id, device_id)),
        final(state).wf(),
        views(r@) == final(state)@,
{
    let name = default_name();
    relocate(state, group_id, 0, device_id, name);
    proof {
        lemma_sort_desc(state@);
    }
    sort_state(state);
    state.snapshot()
}

/// Appends `devices` to the default group, creating it where it is missing.
fn absorb_into_default(groups: &mut Vec<Group>, devices: Vec<Device>)
    requires
        inventory_wf(views(old(groups)@)),
    ensures
        views(final(groups)@) == absorb(views(old(groups)@), devices@),
{
    if devices.len() == 0 {
        return ;
    }
    let mut devices = devices;
    let ghost before = groups@;
    match find_group(groups, 0) {
        Some(z) => {
            let mut g = groups.remove(z);
            g.devices.append(&mut devices);
            groups.insert(z, g);
            proof {
                assert(groups@ =~= before.update(z as int, g));
                lemma_views_update(before, z as int, g);
            }
        },
        None => {
            let g = Group { id: 0, name: default_name(), devices, is_locked: false };
            proof {
                lemma_views_push(groups@, g);
            }
            groups.push(g);
        },
    }
}

/// Deletes group `group_id` and sorts the groups by descending id. Its devices
/// are appended, in order, to the default group, which is created where it is
/// missing; deleting the default group itself takes its devices with it. An
/// unknown id only sorts.
pub fn group_delete(group_id: u32, state: &mut StudioState) -> (r: Vec<Group>)
    requires
        old(state).wf(),
    ensures
        final(state)@ == delete_group(old(state)@, group_id),
        final(state).wf(),
        sorted_desc(final(state)@),
        views(r@) == final(state)@,
{
    let ghost gs = state@;
    if let Some(t) = find_group(&state.groups, group_id) {
        let ghost before = state.groups@;
        let g = state.groups.remove(t);
        proof {
            lemma_views_remove(before, t as int);
            lemma_wf_remove(gs, t as int);
        }
        if group_id != 0 {
            absorb_into_default(&mut state.groups, g.devices);
        }
    }
    sort_state(state);
    proof {
        lemma_delete_wf(gs, group_id);
        if has_group(gs, group_id) {
            let t = group_index(gs, group_id);
            let rest = gs.remove(t);
            lemma_sort_desc(
                if group_id == 0 {
                    rest
                } else {
                    absorb(rest, gs[t].devices)
                },
            );
        } else {
            lemma_sort_desc(gs);
        }
    }
    state.snapshot()
}

} // verus!
