use vstd::prelude::*;

use crate::devices::Device;
use crate::groups::{default_group_name, group_label, GroupView};
use crate::model::{
    absorb, groups_disjoint, is_locked_group, lemma_absorb, lemma_create_wf, lemma_delete_wf,
    lemma_max_id, lemma_wf_insert, lemma_wf_remove, lemma_wf_update_same, remove_to_default,
    rename_group, set_lock,
    create_group, delete_group, device_index, devices_distinct, fresh_group, group_index,
    group_of, has_device, has_group, inventory_wf, lemma_device_index, lemma_group_index,
    lemma_max_id_members, lemma_move_group_of, lemma_removed_devices_absent, lemma_move_wf, lemma_sort_desc,
    lemma_sort_group_of, max_id, move_command, move_device, sort_desc, sorted_desc,
};

verus! {

/// Creating a group adds one whose id is one above the largest id so far,
/// which makes it the new largest id, and leaves the groups sorted by
/// descending id. Repeated creations therefore give ids that grow by one.
pub proof fn create_increments_max_id(gs: Seq<GroupView>)
    requires
        max_id(gs) < u32::MAX,
    ensures
        create_group(gs).contains(fresh_group((max_id(gs) + 1) as u32)),
        max_id(create_group(gs)) == max_id(gs) + 1,
        sorted_desc(create_group(gs)),
{
    let g = fresh_group((max_id(gs) + 1) as u32);
    let p = gs.push(g);
    lemma_sort_desc(p);
    assert(p.contains(g)) by {
        assert(p[gs.len() as int] == g);
    }
    assert(p.drop_last() =~= gs);
    lemma_max_id_members(p, create_group(gs));
}

/// Moving a device from group `a` to another group `b` and back, with the
/// move command, leaves `a` with the same devices, the moved one now last (so
/// with the same order where it was last before), and every other group that
/// existed before as it was.
pub proof fn move_round_trip(gs: Seq<GroupView>, a: u32, b: u32, dev: u32)
    requires
        inventory_wf(gs),
        has_group(gs, a),
        has_device(group_of(gs, a).devices, dev),
        a != b,
    ensures
        ({
            let ga = group_of(gs, a);
            let k = device_index(ga.devices, dev);
            let r = move_command(move_command(gs, a, b, dev), b, a, dev);
            &&& has_group(r, a)
            &&& group_of(r, a) == (GroupView {
                devices: ga.devices.remove(k).push(ga.devices[k]),
                ..ga
            })
            &&& group_of(r, a).devices.to_multiset() == ga.devices.to_multiset()
            &&& k == ga.devices.len() - 1 ==> group_of(r, a) == ga
            &&& forall|x: u32|
                #![trigger group_of(r, x)]
                #![trigger has_group(gs, x)]
                x != a && has_group(gs, x) ==> has_group(r, x) && group_of(r, x) == group_of(gs, x)
        }),
{
    let ga = group_of(gs, a);
    let devs = ga.devices;
    let k = device_index(devs, dev);
    let d = devs[k];
    let lb = group_label(b);
    let la = group_label(a);
    let g1 = move_device(gs, a, b, dev, lb);
    lemma_move_wf(gs, a, b, dev, lb);
    let s1 = sort_desc(g1);
    lemma_sort_desc(g1);
    lemma_move_group_of(gs, a, b, dev, lb, a);
    lemma_sort_group_of(g1, a);
    lemma_move_group_of(gs, a, b, dev, lb, b);
    lemma_sort_group_of(g1, b);
    let gb = group_of(s1, b);
    let last = gb.devices.len() - 1;
    assert(gb.devices[last] == d);
    assert(devices_distinct(gb.devices));
    lemma_device_index(gb.devices, dev, last);
    let g2 = move_device(s1, b, a, dev, la);
    lemma_move_wf(s1, b, a, dev, la);
    lemma_move_group_of(s1, b, a, dev, la, a);
    lemma_sort_group_of(g2, a);
    let r = move_command(move_command(gs, a, b, dev), b, a, dev);
    assert(r == sort_desc(g2));
    assert(group_of(r, a) == (GroupView { devices: devs.remove(k).push(d), ..ga }));
    assert forall|x: u32|
        #![trigger group_of(r, x)]
        #![trigger has_group(gs, x)]
        x != a && has_group(gs, x) implies has_group(r, x) && group_of(r, x) == group_of(gs, x) by {
        lemma_move_group_of(gs, a, b, dev, lb, x);
        lemma_sort_group_of(g1, x);
        lemma_move_group_of(s1, b, a, dev, la, x);
        lemma_sort_group_of(g2, x);
        if x == b {
            assert(gb.devices.remove(last) =~= group_of(gs, b).devices);
        }
    }
    vstd::seq_lib::to_multiset_remove(devs, k);
    vstd::seq_lib::to_multiset_build(devs.remove(k), d);
    devs.to_multiset_ensures();
    assert(devs.contains(d));
    assert(devs.to_multiset().remove(d).insert(d) =~= devs.to_multiset());
    if k == devs.len() - 1 {
        assert(devs.remove(k).push(d) =~= devs);
    }
}

/// The devices of the default group of `gs`, none where it is missing.
pub open spec fn default_devices(gs: Seq<GroupView>) -> Seq<Device> {
    if has_group(gs, 0) {
        gs[group_index(gs, 0)].devices
    } else {
        Seq::empty()
    }
}

/// Deleting a group other than the default one leaves no group with its id,
/// and the default group then holds the devices it held before followed by
/// every device of the deleted group, in their order.
pub proof fn delete_relocates_devices(gs: Seq<GroupView>, id: u32)
    requires
        inventory_wf(gs),
        has_group(gs, id),
        id != 0,
    ensures
        ({
            let devs = gs[group_index(gs, id)].devices;
            let r = delete_group(gs, id);
            &&& !has_group(r, id)
            &&& devs.len() > 0 || has_group(gs, 0) ==> has_group(r, 0) && default_devices(r)
                == default_devices(gs) + devs
            &&& forall|j: int| 0 <= j < devs.len() ==> default_devices(r).contains(#[trigger] devs[j])
        }),
{
    let t = group_index(gs, id);
    let devs = gs[t].devices;
    let rest = gs.remove(t);
    lemma_wf_remove(gs, t);
    lemma_removed_devices_absent(gs, t);
    lemma_absorb(rest, devs);
    let ab = absorb(rest, devs);
    let r = delete_group(gs, id);
    lemma_sort_desc(ab);
    assert(r == crate::model::sort_desc(ab));
    assert forall|i: int| 0 <= i < ab.len() implies (#[trigger] ab[i]).id != id by {
        if i < rest.len() {
            let oi = if i < t {
                i
            } else {
                i + 1
            };
            assert(groups_disjoint(gs[oi], gs[t]));
        }
    }
    if has_group(r, id) {
        let i = group_index(r, id);
        assert(r.contains(r[i]));
        assert(ab.contains(r[i]));
    }
    if devs.len() > 0 || has_group(gs, 0) {
        let z0 = group_index(gs, 0);
        let zr: int = if has_group(rest, 0) {
            group_index(rest, 0)
        } else {
            rest.len() as int
        };
        if has_group(gs, 0) {
            assert(z0 != t);
            let zi = if z0 < t {
                z0
            } else {
                z0 - 1
            };
            assert(rest[zi] == gs[z0]);
            lemma_group_index(rest, 0, zi);
        } else {
            if has_group(rest, 0) {
                let zi = group_index(rest, 0);
                let oi = if zi < t {
                    zi
                } else {
                    zi + 1
                };
                assert(rest[zi] == gs[oi]);
            }
        }
        assert(ab[zr].id == 0);
        assert(ab[zr].devices == default_devices(gs) + devs);
        assert(ab.contains(ab[zr]));
        assert(r.contains(ab[zr]));
        let i = choose|i: int| 0 <= i < r.len() && r[i] == ab[zr];
        lemma_group_index(r, 0, i);
        assert forall|j: int| 0 <= j < devs.len() implies default_devices(r).contains(
            #[trigger] devs[j],
        ) by {
            assert(default_devices(r)[default_devices(gs).len() + j] == devs[j]);
        }
    }
}

/// Locking a group does not keep it from being deleted: its devices still go
/// to the default group, as they would unlocked.
pub proof fn locked_delete_relocates_devices(gs: Seq<GroupView>, id: u32)
    requires
        inventory_wf(gs),
        has_group(gs, id),
        id != 0,
    ensures
        ({
            let devs = gs[group_index(gs, id)].devices;
            let r = delete_group(set_lock(gs, id, true), id);
            &&& !has_group(r, id)
            &&& devs.len() > 0 || has_group(gs, 0) ==> has_group(r, 0) && default_devices(r)
                == default_devices(gs) + devs
            &&& forall|j: int| 0 <= j < devs.len() ==> default_devices(r).contains(#[trigger] devs[j])
        }),
{
    let t = group_index(gs, id);
    let gl = set_lock(gs, id, true);
    lemma_wf_update_same(gs, t, GroupView { is_locked: true, ..gs[t] });
    lemma_group_index(gl, id, t);
    if has_group(gs, 0) {
        let z = group_index(gs, 0);
        lemma_group_index(gl, 0, z);
    } else {
        if has_group(gl, 0) {
            let z = group_index(gl, 0);
            assert(gs[z].id == 0);
        }
    }
    delete_relocates_devices(gl, id);
}

/// The inventory after `k` group creations in a row.
pub open spec fn create_times(gs: Seq<GroupView>, k: nat) -> Seq<GroupView>
    decreases k,
{
    if k == 0 {
        gs
    } else {
        create_group(create_times(gs, (k - 1) as nat))
    }
}

/// Over `k` creations in a row from an inventory whose largest id is `m`, the
/// `i`-th creation adds the group with id `m + i`, all of them stay, the
/// largest id ends at `m + k`, and the groups end sorted by descending id.
pub proof fn creates_count_up(gs: Seq<GroupView>, k: nat)
    requires
        max_id(gs) + k <= u32::MAX,
    ensures
        max_id(create_times(gs, k)) == max_id(gs) + k,
        forall|i: nat|
            1 <= i <= k ==> create_times(gs, k).contains(
                #[trigger] fresh_group((max_id(gs) + i) as u32),
            ),
        k > 0 ==> sorted_desc(create_times(gs, k)),
    decreases k,
{
    if k > 0 {
        let k1 = (k - 1) as nat;
        creates_count_up(gs, k1);
        let s = create_times(gs, k1);
        create_increments_max_id(s);
        let p = s.push(fresh_group((max_id(s) + 1) as u32));
        lemma_sort_desc(p);
        assert forall|i: nat| 1 <= i <= k implies create_times(gs, k).contains(
            #[trigger] fresh_group((max_id(gs) + i) as u32),
        ) by {
            if i < k {
                let g = fresh_group((max_id(gs) + i) as u32);
                assert(s.contains(g));
                let j = choose|j: int| 0 <= j < s.len() && s[j] == g;
                assert(p[j] == g);
                assert(p.contains(g));
            }
        }
    }
}

/// One command of the inventory, as a value.
pub enum CommandStep {
    Create,
    Lock { id: u32, lock: bool },
    Rename { id: u32, name: Seq<char> },
    Delete { id: u32 },
    Move { source: u32, target: u32, dev: u32 },
    RemoveFrom { source: u32, dev: u32 },
}

/// The inventory after the command `c`, as the command handlers leave it. A
/// creation with no id left is not run; a rename of a locked group is refused.
pub open spec fn apply(gs: Seq<GroupView>, c: CommandStep) -> Seq<GroupView> {
    match c {
        CommandStep::Create => if max_id(gs) < u32::MAX {
            create_group(gs)
        } else {
            gs
        },
        CommandStep::Lock { id, lock } => set_lock(gs, id, lock),
        CommandStep::Rename { id, name } => if is_locked_group(gs, id) {
            gs
        } else {
            rename_group(gs, id, name)
        },
        CommandStep::Delete { id } => delete_group(gs, id),
        CommandStep::Move { source, target, dev } => move_command(gs, source, target, dev),
        CommandStep::RemoveFrom { source, dev } => sort_desc(remove_to_default(gs, source, dev)),
    }
}

/// The inventory after the commands `cs`, in order.
pub open spec fn apply_all(gs: Seq<GroupView>, cs: Seq<CommandStep>) -> Seq<GroupView>
    decreases cs.len(),
{
    if cs.len() == 0 {
        gs
    } else {
        apply_all(apply(gs, cs[0]), cs.drop_first())
    }
}

/// The command `c` names no group `x` and moves no device into or out of it
/// (a deletion or a removal feeds the default group, so `x` is not 0 there).
pub open spec fn leaves_group(c: CommandStep, x: u32) -> bool {
    match c {
        CommandStep::Create => true,
        CommandStep::Lock { id, lock } => id != x,
        CommandStep::Rename { id, name } => id != x,
        CommandStep::Delete { id } => id != x && x != 0,
        CommandStep::Move { source, target, dev } => source != x && target != x,
        CommandStep::RemoveFrom { source, dev } => source != x && x != 0,
    }
}

/// A command that leaves group `x` alone keeps it exactly as it was, and keeps
/// the inventory well formed.
pub proof fn command_keeps_group(gs: Seq<GroupView>, c: CommandStep, x: u32)
    requires
        inventory_wf(gs),
        has_group(gs, x),
        leaves_group(c, x),
    ensures
        inventory_wf(apply(gs, c)),
        has_group(apply(gs, c), x),
        group_of(apply(gs, c), x) == group_of(gs, x),
{
    let xi = group_index(gs, x);
    match c {
        CommandStep::Create => {
            if max_id(gs) < u32::MAX {
                lemma_max_id(gs);
                let g = fresh_group((max_id(gs) + 1) as u32);
                assert forall|i: int| 0 <= i < gs.len() implies groups_disjoint(#[trigger] gs[i], g)
                    && groups_disjoint(g, gs[i]) by {}
                lemma_wf_insert(gs, gs.len() as int, g);
                let p = gs.push(g);
                assert(p =~= gs.insert(gs.len() as int, g));
                assert(p[xi] == gs[xi]);
                lemma_group_index(p, x, xi);
                lemma_sort_group_of(p, x);
                lemma_create_wf(gs);
            }
        },
        CommandStep::Lock { id, lock } => {
            if has_group(gs, id) {
                let i = group_index(gs, id);
                lemma_wf_update_same(gs, i, GroupView { is_locked: lock, ..gs[i] });
                lemma_group_index(set_lock(gs, id, lock), x, xi);
            }
        },
        CommandStep::Rename { id, name } => {
            if has_group(gs, id) && !is_locked_group(gs, id) {
                let i = group_index(gs, id);
                lemma_wf_update_same(gs, i, GroupView { name, ..gs[i] });
                lemma_group_index(rename_group(gs, id, name), x, xi);
            }
        },
        CommandStep::Delete { id } => {
            lemma_delete_wf(gs, id);
            if has_group(gs, id) {
                let t = group_index(gs, id);
                let devs = gs[t].devices;
                let rest = gs.remove(t);
                lemma_wf_remove(gs, t);
                lemma_removed_devices_absent(gs, t);
                lemma_absorb(rest, devs);
                let xr = if xi < t {
                    xi
                } else {
                    xi - 1
                };
                assert(rest[xr] == gs[xi]);
                let ab = if id == 0 {
                    rest
                } else {
                    absorb(rest, devs)
                };
                if id != 0 && devs.len() > 0 && has_group(rest, 0) {
                    let z = group_index(rest, 0);
                    assert(z != xr);
                }
                assert(ab[xr] == gs[xi]);
                lemma_group_index(ab, x, xr);
                lemma_sort_group_of(ab, x);
            } else {
                lemma_sort_group_of(gs, x);
            }
        },
        CommandStep::Move { source, target, dev } => {
            let l = group_label(target);
            lemma_move_wf(gs, source, target, dev, l);
            lemma_sort_desc(move_device(gs, source, target, dev, l));
            if has_group(gs, source) && has_device(group_of(gs, source).devices, dev) {
                lemma_move_group_of(gs, source, target, dev, l, x);
            }
            lemma_sort_group_of(move_device(gs, source, target, dev, l), x);
        },
        CommandStep::RemoveFrom { source, dev } => {
            let l = default_group_name();
            lemma_move_wf(gs, source, 0, dev, l);
            lemma_sort_desc(move_device(gs, source, 0, dev, l));
            if has_group(gs, source) && has_device(group_of(gs, source).devices, dev) {
                lemma_move_group_of(gs, source, 0, dev, l, x);
            }
            lemma_sort_group_of(move_device(gs, source, 0, dev, l), x);
        },
    }
}

/// Commands that each leave group `x` alone keep it exactly as it was.
pub proof fn commands_keep_group(gs: Seq<GroupView>, cs: Seq<CommandStep>, x: u32)
    requires
        inventory_wf(gs),
        has_group(gs, x),
        forall|i: int| 0 <= i < cs.len() ==> leaves_group(#[trigger] cs[i], x),
    ensures
        inventory_wf(apply_all(gs, cs)),
        has_group(apply_all(gs, cs), x),
        group_of(apply_all(gs, cs), x) == group_of(gs, x),
    decreases cs.len(),
{
    if cs.len() > 0 {
        command_keeps_group(gs, cs[0], x);
        let rest = cs.drop_first();
        assert forall|i: int| 0 <= i < rest.len() implies leaves_group(#[trigger] rest[i], x) by {
            assert(rest[i] == cs[i + 1]);
        }
        commands_keep_group(apply(gs, cs[0]), rest, x);
    }
}

/// Moving a device from group `a` to group `b` and back gives `a` the same
/// devices in the same order whatever commands that leave `a` and `b` alone
/// run between the two moves.
pub proof fn move_round_trip_between(
    gs: Seq<GroupView>,
    a: u32,
    b: u32,
    dev: u32,
    cs: Seq<CommandStep>,
)
    requires
        inventory_wf(gs),
        has_group(gs, a),
        has_device(group_of(gs, a).devices, dev),
        a != b,
        forall|i: int| 0 <= i < cs.len() ==> leaves_group(#[trigger] cs[i], a) && leaves_group(cs[i], b),
    ensures
        ({
            let there = move_command(gs, a, b, dev);
            let r = move_command(apply_all(there, cs), b, a, dev);
            &&& has_group(r, a)
            &&& group_of(r, a) == group_of(move_command(there, b, a, dev), a)
        }),
{
    let lb = group_label(b);
    let la = group_label(a);
    let ga = group_of(gs, a);
    let k = device_index(ga.devices, dev);
    let d = ga.devices[k];
    let g1 = move_device(gs, a, b, dev, lb);
    lemma_move_wf(gs, a, b, dev, lb);
    let there = move_command(gs, a, b, dev);
    lemma_sort_desc(g1);
    lemma_move_group_of(gs, a, b, dev, lb, a);
    lemma_sort_group_of(g1, a);
    lemma_move_group_of(gs, a, b, dev, lb, b);
    lemma_sort_group_of(g1, b);
    let gb = group_of(there, b);
    let last = gb.devices.len() - 1;
    assert(gb.devices[last] == d);
    assert(devices_distinct(gb.devices));
    lemma_device_index(gb.devices, dev, last);
    assert forall|i: int| 0 <= i < cs.len() implies leaves_group(#[trigger] cs[i], a) by {}
    assert forall|i: int| 0 <= i < cs.len() implies leaves_group(#[trigger] cs[i], b) by {}
    commands_keep_group(there, cs, a);
    commands_keep_group(there, cs, b);
    let mid = apply_all(there, cs);
    let m1 = move_device(mid, b, a, dev, la);
    let m2 = move_device(there, b, a, dev, la);
    lemma_move_wf(mid, b, a, dev, la);
    lemma_move_wf(there, b, a, dev, la);
    lemma_move_group_of(mid, b, a, dev, la, a);
    lemma_move_group_of(there, b, a, dev, la, a);
    lemma_sort_group_of(m1, a);
    lemma_sort_group_of(m2, a);
}

} // verus!
