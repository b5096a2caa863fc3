use vstd::prelude::*;

use crate::devices::Device;
use crate::groups::{default_group_name, group_label, Group, GroupView};

verus! {

/// The values of a sequence of groups.
pub open spec fn views(gs: Seq<Group>) -> Seq<GroupView> {
    gs.map_values(|g: Group| g@)
}

/// Some group of `gs` has the id `id`.
pub open spec fn has_group(gs: Seq<GroupView>, id: u32) -> bool {
    exists|i: int| 0 <= i < gs.len() && (#[trigger] gs[i]).id == id
}

/// The position of the group with id `id` (meaningful where [`has_group`] holds).
pub open spec fn group_index(gs: Seq<GroupView>, id: u32) -> int {
    choose|i: int| 0 <= i < gs.len() && (#[trigger] gs[i]).id == id
}

/// Some device of `devs` has the id `id`.
pub open spec fn has_device(devs: Seq<Device>, id: u32) -> bool {
    exists|k: int| 0 <= k < devs.len() && (#[trigger] devs[k]).id == id
}

/// The position of the device with id `id` (meaningful where [`has_device`] holds).
pub open spec fn device_index(devs: Seq<Device>, id: u32) -> int {
    choose|k: int| 0 <= k < devs.len() && (#[trigger] devs[k]).id == id
}

/// No two devices of `devs` share an id.
pub open spec fn devices_distinct(devs: Seq<Device>) -> bool {
    forall|a: int, b: int|
        0 <= a < devs.len() && 0 <= b < devs.len() && a != b ==> (#[trigger] devs[a]).id != (
        #[trigger] devs[b]).id
}

/// `g` and `h` differ in id and hold no device id in common.
pub open spec fn groups_disjoint(g: GroupView, h: GroupView) -> bool {
    &&& g.id != h.id
    &&& forall|a: int, b: int|
        0 <= a < g.devices.len() && 0 <= b < h.devices.len() ==> (#[trigger] g.devices[a]).id != (
        #[trigger] h.devices[b]).id
}

/// Group ids are unique, and every device id occurs once in the whole inventory.
pub open spec fn inventory_wf(gs: Seq<GroupView>) -> bool {
    &&& forall|i: int| 0 <= i < gs.len() ==> devices_distinct(#[trigger] gs[i].devices)
    &&& forall|i: int, j: int|
        0 <= i < gs.len() && 0 <= j < gs.len() && i != j ==> groups_disjoint(
            #[trigger] gs[i],
            #[trigger] gs[j],
        )
}

/// No device of `gs` has the id `id`.
pub open spec fn device_absent(gs: Seq<GroupView>, id: u32) -> bool {
    forall|i: int, a: int|
        0 <= i < gs.len() && 0 <= a < gs[i].devices.len() ==> (#[trigger] gs[i].devices[a]).id != id
}

/// Groups ordered by descending id.
pub open spec fn sorted_desc(gs: Seq<GroupView>) -> bool {
    forall|i: int, j: int| 0 <= i < j < gs.len() ==> (#[trigger] gs[i]).id >= (#[trigger] gs[j]).id
}

/// `g` put into `s` before the first group whose id is not greater than its own.
pub open spec fn insert_desc(s: Seq<GroupView>, g: GroupView) -> Seq<GroupView>
    decreases s.len(),
{
    if s.len() == 0 {
        seq![g]
    } else if s[0].id <= g.id {
        seq![g] + s
    } else {
        seq![s[0]] + insert_desc(s.drop_first(), g)
    }
}

/// The stable sort of `s` by descending id.
pub open spec fn sort_desc(s: Seq<GroupView>) -> Seq<GroupView>
    decreases s.len(),
{
    if s.len() == 0 {
        s
    } else {
        insert_desc(sort_desc(s.drop_first()), s[0])
    }
}

/// The largest group id of `gs`, or 0 where it is empty.
pub open spec fn max_id(gs: Seq<GroupView>) -> nat
    decreases gs.len(),
{
    if gs.len() == 0 {
        0
    } else {
        let m = max_id(gs.drop_last());
        if gs.last().id as nat > m {
            gs.last().id as nat
        } else {
            m
        }
    }
}

/// An empty, unlocked group named after its id.
pub open spec fn fresh_group(id: u32) -> GroupView {
    GroupView { id, name: group_label(id), devices: Seq::empty(), is_locked: false }
}

/// The inventory after creating a group: its id is one above the largest.
pub open spec fn create_group(gs: Seq<GroupView>) -> Seq<GroupView> {
    sort_desc(gs.push(fresh_group((max_id(gs) + 1) as u32)))
}

/// The inventory with the lock flag of group `id` set to `lock`, if it exists.
pub open spec fn set_lock(gs: Seq<GroupView>, id: u32, lock: bool) -> Seq<GroupView> {
    if has_group(gs, id) {
        let i = group_index(gs, id);
        gs.update(i, GroupView { is_locked: lock, ..gs[i] })
    } else {
        gs
    }
}

/// Group `id` exists and is locked.
pub open spec fn is_locked_group(gs: Seq<GroupView>, id: u32) -> bool {
    has_group(gs, id) && gs[group_index(gs, id)].is_locked
}

/// The inventory with group `id` named `name`, if it exists.
pub open spec fn rename_group(gs: Seq<GroupView>, id: u32, name: Seq<char>) -> Seq<GroupView> {
    if has_group(gs, id) {
        let i = group_index(gs, id);
        gs.update(i, GroupView { name, ..gs[i] })
    } else {
        gs
    }
}

/// `d` appended to group `target`; where no such group exists, a new unlocked
/// group `target` named `name` is added at the end, holding `d` alone.
pub open spec fn place_device(gs: Seq<GroupView>, target: u32, d: Device, name: Seq<char>) -> Seq<
    GroupView,
> {
    if has_group(gs, target) {
        let t = group_index(gs, target);
        gs.update(t, GroupView { devices: gs[t].devices.push(d), ..gs[t] })
    } else {
        gs.push(GroupView { id: target, name, devices: seq![d], is_locked: false })
    }
}

/// Device `dev` of group `source` taken out and placed in group `target`
/// (see [`place_device`]); nothing changes where the group or the device is missing.
pub open spec fn move_device(
    gs: Seq<GroupView>,
    source: u32,
    target: u32,
    dev: u32,
    name: Seq<char>,
) -> Seq<GroupView> {
    if has_group(gs, source) && has_device(gs[group_index(gs, source)].devices, dev) {
        let s = group_index(gs, source);
        let k = device_index(gs[s].devices, dev);
        let taken = gs.update(s, GroupView { devices: gs[s].devices.remove(k), ..gs[s] });
        place_device(taken, target, gs[s].devices[k], name)
    } else {
        gs
    }
}

/// The inventory after the move command: the move, then a sort by descending id.
pub open spec fn move_command(gs: Seq<GroupView>, source: u32, target: u32, dev: u32) -> Seq<
    GroupView,
> {
    sort_desc(move_device(gs, source, target, dev, group_label(target)))
}

/// The move of device `dev` from group `source` to the default group.
pub open spec fn remove_to_default(gs: Seq<GroupView>, source: u32, dev: u32) -> Seq<GroupView> {
    move_device(gs, source, 0, dev, default_group_name())
}

/// `devs` appended to the default group, which is added at the end where it is
/// missing and `devs` is not empty.
pub open spec fn absorb(gs: Seq<GroupView>, devs: Seq<Device>) -> Seq<GroupView> {
    if devs.len() == 0 {
        gs
    } else if has_group(gs, 0) {
        let z = group_index(gs, 0);
        gs.update(z, GroupView { devices: gs[z].devices + devs, ..gs[z] })
    } else {
        gs.push(GroupView { id: 0, name: default_group_name(), devices: devs, is_locked: false })
    }
}

/// The inventory after deleting group `id`: its devices go to the default group
/// (for the default group itself they go with it), and the groups are sorted.
pub open spec fn delete_group(gs: Seq<GroupView>, id: u32) -> Seq<GroupView> {
    if has_group(gs, id) {
        let t = group_index(gs, id);
        let rest = gs.remove(t);
        sort_desc(
            if id == 0 {
                rest
            } else {
                absorb(rest, gs[t].devices)
            },
        )
    } else {
        sort_desc(gs)
    }
}

pub proof fn lemma_group_index(gs: Seq<GroupView>, id: u32, i: int)
    requires
        inventory_wf(gs),
        0 <= i < gs.len(),
        gs[i].id == id,
    ensures
        has_group(gs, id),
        group_index(gs, id) == i,
{
    let j = group_index(gs, id);
    if j != i {
        assert(groups_disjoint(gs[i], gs[j]));
    }
}

pub proof fn lemma_device_index(devs: Seq<Device>, id: u32, k: int)
    requires
        devices_distinct(devs),
        0 <= k < devs.len(),
        devs[k].id == id,
    ensures
        has_device(devs, id),
        device_index(devs, id) == k,
{
    let j = device_index(devs, id);
    assert(devs[j].id == devs[k].id);
}

/// Where `g` is put by [`insert_desc`].
proof fn lemma_insert_desc_position(s: Seq<GroupView>, g: GroupView) -> (p: int)
    ensures
        0 <= p <= s.len(),
        insert_desc(s, g) == s.insert(p, g),
    decreases s.len(),
{
    if s.len() == 0 {
        assert(seq![g] =~= s.insert(0, g));
        0
    } else if s[0].id <= g.id {
        assert(seq![g] + s =~= s.insert(0, g));
        0
    } else {
        let q = lemma_insert_desc_position(s.drop_first(), g);
        assert(seq![s[0]] + s.drop_first().insert(q, g) =~= s.insert(q + 1, g));
        q + 1
    }
}

proof fn lemma_insert_desc_sorted(s: Seq<GroupView>, g: GroupView)
    requires
        sorted_desc(s),
    ensures
        sorted_desc(insert_desc(s, g)),
    decreases s.len(),
{
    if s.len() == 0 {
    } else if s[0].id <= g.id {
        let r = seq![g] + s;
        assert forall|i: int, j: int| 0 <= i < j < r.len() implies (#[trigger] r[i]).id >= (
        #[trigger] r[j]).id by {
            if i == 0 {
                assert(r[j] == s[j - 1]);
                assert(s[0].id >= s[j - 1].id || j - 1 == 0);
            }
        }
    } else {
        let t = s.drop_first();
        lemma_insert_desc_sorted(t, g);
        let p = lemma_insert_desc_position(t, g);
        let r = seq![s[0]] + insert_desc(t, g);
        assert forall|i: int, j: int| 0 <= i < j < r.len() implies (#[trigger] r[i]).id >= (
        #[trigger] r[j]).id by {
            if i == 0 {
                let x = r[j];
                assert(x == t.insert(p, g)[j - 1]);
                if j - 1 < p {
                    assert(x == s[j]);
                } else if j - 1 > p {
                    assert(x == s[j - 1]);
                }
            } else {
                assert(r[i] == insert_desc(t, g)[i - 1]);
                assert(r[j] == insert_desc(t, g)[j - 1]);
            }
        }
    }
}

/// Inserting a group that is disjoint from all others keeps an inventory well formed.
pub proof fn lemma_wf_insert(s: Seq<GroupView>, p: int, g: GroupView)
    requires
        inventory_wf(s),
        0 <= p <= s.len(),
        devices_distinct(g.devices),
        forall|i: int| 0 <= i < s.len() ==> groups_disjoint(#[trigger] s[i], g) && groups_disjoint(
            g,
            s[i],
        ),
    ensures
        inventory_wf(s.insert(p, g)),
{
    let r = s.insert(p, g);
    assert forall|i: int| 0 <= i < r.len() implies devices_distinct(#[trigger] r[i].devices) by {
        if i < p {
            assert(r[i] == s[i]);
        } else if i > p {
            assert(r[i] == s[i - 1]);
        }
    }
    assert forall|i: int, j: int| 0 <= i < r.len() && 0 <= j < r.len() && i != j implies groups_disjoint(
        #[trigger] r[i],
        #[trigger] r[j],
    ) by {
        let si = if i < p {
            i
        } else {
            i - 1
        };
        let sj = if j < p {
            j
        } else {
            j - 1
        };
        if i != p && j != p {
            assert(r[i] == s[si]);
            assert(r[j] == s[sj]);
        } else if i == p {
            assert(r[j] == s[sj]);
        } else {
            assert(r[i] == s[si]);
        }
    }
}

/// [`sort_desc`] orders by descending id, keeps the length and the members, and
/// keeps an inventory well formed.
pub proof fn lemma_sort_desc(s: Seq<GroupView>)
    ensures
        sorted_desc(sort_desc(s)),
        sort_desc(s).len() == s.len(),
        forall|x: GroupView| sort_desc(s).contains(x) <==> s.contains(x),
        inventory_wf(s) ==> inventory_wf(sort_desc(s)),
    decreases s.len(),
{
    if s.len() > 0 {
        let t = s.drop_first();
        lemma_sort_desc(t);
        let st = sort_desc(t);
        lemma_insert_desc_sorted(st, s[0]);
        let p = lemma_insert_desc_position(st, s[0]);
        let r = st.insert(p, s[0]);
        assert forall|x: GroupView| r.contains(x) <==> s.contains(x) by {
            if r.contains(x) {
                let i = choose|i: int| 0 <= i < r.len() && r[i] == x;
                if i < p {
                    assert(st[i] == x);
                    assert(t.contains(x));
                    let j = choose|j: int| 0 <= j < t.len() && t[j] == x;
                    assert(s[j + 1] == x);
                } else if i > p {
                    assert(st[i - 1] == x);
                    assert(t.contains(x));
                    let j = choose|j: int| 0 <= j < t.len() && t[j] == x;
                    assert(s[j + 1] == x);
                } else {
                    assert(s[0] == x);
                }
            }
            if s.contains(x) {
                let i = choose|i: int| 0 <= i < s.len() && s[i] == x;
                if i == 0 {
                    assert(r[p] == x);
                } else {
                    assert(t[i - 1] == x);
                    assert(t.contains(x));
                    assert(st.contains(x));
                    let j = choose|j: int| 0 <= j < st.len() && st[j] == x;
                    if j < p {
                        assert(r[j] == x);
                    } else {
                        assert(r[j + 1] == x);
                    }
                }
            }
        }
        if inventory_wf(s) {
            assert forall|i: int| 0 <= i < t.len() implies devices_distinct(#[trigger] t[i].devices) by {
                assert(t[i] == s[i + 1]);
            }
            assert forall|i: int, j: int|
                0 <= i < t.len() && 0 <= j < t.len() && i != j implies groups_disjoint(
                #[trigger] t[i],
                #[trigger] t[j],
            ) by {
                assert(t[i] == s[i + 1]);
                assert(t[j] == s[j + 1]);
            }
            assert forall|i: int| 0 <= i < st.len() implies groups_disjoint(#[trigger] st[i], s[0])
                && groups_disjoint(s[0], st[i]) by {
                assert(st.contains(st[i]));
                assert(t.contains(st[i]));
                let j = choose|j: int| 0 <= j < t.len() && t[j] == st[i];
                assert(s[j + 1] == st[i]);
            }
            assert(devices_distinct(s[0].devices));
            lemma_wf_insert(st, p, s[0]);
        }
    }
}

/// Replacing a group by one with the same id and devices keeps an inventory well formed.
pub proof fn lemma_wf_update_same(gs: Seq<GroupView>, i: int, g: GroupView)
    requires
        inventory_wf(gs),
        0 <= i < gs.len(),
        g.id == gs[i].id,
        g.devices == gs[i].devices,
    ensures
        inventory_wf(gs.update(i, g)),
{
    let r = gs.update(i, g);
    assert forall|a: int, b: int| 0 <= a < r.len() && 0 <= b < r.len() && a != b implies groups_disjoint(
        #[trigger] r[a],
        #[trigger] r[b],
    ) by {
        assert(groups_disjoint(gs[a], gs[b]));
    }
    assert forall|a: int| 0 <= a < r.len() implies devices_distinct(#[trigger] r[a].devices) by {
        assert(devices_distinct(gs[a].devices));
    }
}

/// Replacing a group by one with the same id keeps the groups sorted.
pub proof fn lemma_sorted_update_same(gs: Seq<GroupView>, i: int, g: GroupView)
    requires
        sorted_desc(gs),
        0 <= i < gs.len(),
        g.id == gs[i].id,
    ensures
        sorted_desc(gs.update(i, g)),
{
    let r = gs.update(i, g);
    assert forall|a: int, b: int| 0 <= a < b < r.len() implies (#[trigger] r[a]).id >= (
    #[trigger] r[b]).id by {
        assert(gs[a].id >= gs[b].id);
    }
}

/// Taking device `k` out of group `s` keeps an inventory well formed and leaves
/// its id nowhere in it.
pub proof fn lemma_take_device(gs: Seq<GroupView>, s: int, k: int)
    requires
        inventory_wf(gs),
        0 <= s < gs.len(),
        0 <= k < gs[s].devices.len(),
    ensures
        inventory_wf(gs.update(s, GroupView { devices: gs[s].devices.remove(k), ..gs[s] })),
        device_absent(
            gs.update(s, GroupView { devices: gs[s].devices.remove(k), ..gs[s] }),
            gs[s].devices[k].id,
        ),
{
    let old_devs = gs[s].devices;
    let devs = old_devs.remove(k);
    let r = gs.update(s, GroupView { devices: devs, ..gs[s] });
    let id = old_devs[k].id;
    assert(devices_distinct(old_devs));
    assert forall|a: int| 0 <= a < devs.len() implies #[trigger] devs[a] == old_devs[if a < k {
        a
    } else {
        a + 1
    }] by {}
    assert forall|a: int| 0 <= a < r.len() implies devices_distinct(#[trigger] r[a].devices) by {
        if a != s {
            assert(devices_distinct(gs[a].devices));
        } else {
            assert forall|x: int, y: int|
                0 <= x < devs.len() && 0 <= y < devs.len() && x != y implies (#[trigger] devs[x]).id
                != (#[trigger] devs[y]).id by {
                let ox = if x < k {
                    x
                } else {
                    x + 1
                };
                let oy = if y < k {
                    y
                } else {
                    y + 1
                };
                assert(devs[x] == old_devs[ox]);
                assert(devs[y] == old_devs[oy]);
            }
        }
    }
    assert forall|a: int, b: int| 0 <= a < r.len() && 0 <= b < r.len() && a != b implies groups_disjoint(
        #[trigger] r[a],
        #[trigger] r[b],
    ) by {
        assert(groups_disjoint(gs[a], gs[b]));
        if a == s {
            assert forall|x: int, y: int|
                0 <= x < r[a].devices.len() && 0 <= y < r[b].devices.len() implies (
            #[trigger] r[a].devices[x]).id != (#[trigger] r[b].devices[y]).id by {
                let ox = if x < k {
                    x
                } else {
                    x + 1
                };
                assert(devs[x] == old_devs[ox]);
            }
        }
        if b == s {
            assert forall|x: int, y: int|
                0 <= x < r[a].devices.len() && 0 <= y < r[b].devices.len() implies (
            #[trigger] r[a].devices[x]).id != (#[trigger] r[b].devices[y]).id by {
                let oy = if y < k {
                    y
                } else {
                    y + 1
                };
                assert(devs[y] == old_devs[oy]);
            }
        }
    }
    assert forall|i: int, a: int| 0 <= i < r.len() && 0 <= a < r[i].devices.len() implies (
    #[trigger] r[i].devices[a]).id != id by {
        if i == s {
            let oa = if a < k {
                a
            } else {
                a + 1
            };
            assert(devs[a] == old_devs[oa]);
        } else {
            assert(groups_disjoint(gs[i], gs[s]));
        }
    }
}

/// Placing a device whose id occurs nowhere keeps an inventory well formed.
pub proof fn lemma_place_device(gs: Seq<GroupView>, target: u32, d: Device, name: Seq<char>)
    requires
        inventory_wf(gs),
        device_absent(gs, d.id),
    ensures
        inventory_wf(place_device(gs, target, d, name)),
{
    let r = place_device(gs, target, d, name);
    if has_group(gs, target) {
        let t = group_index(gs, target);
        let devs = gs[t].devices.push(d);
        assert forall|a: int| 0 <= a < r.len() implies devices_distinct(#[trigger] r[a].devices) by {
            assert(devices_distinct(gs[a].devices));
            if a == t {
                assert forall|x: int, y: int|
                    0 <= x < devs.len() && 0 <= y < devs.len() && x != y implies (
                #[trigger] devs[x]).id != (#[trigger] devs[y]).id by {
                    if x < devs.len() - 1 {
                        assert(devs[x] == gs[t].devices[x]);
                    }
                    if y < devs.len() - 1 {
                        assert(devs[y] == gs[t].devices[y]);
                    }
                }
            }
        }
        assert forall|a: int, b: int|
            0 <= a < r.len() && 0 <= b < r.len() && a != b implies groups_disjoint(
            #[trigger] r[a],
            #[trigger] r[b],
        ) by {
            assert(groups_disjoint(gs[a], gs[b]));
            assert forall|x: int, y: int|
                0 <= x < r[a].devices.len() && 0 <= y < r[b].devices.len() implies (
            #[trigger] r[a].devices[x]).id != (#[trigger] r[b].devices[y]).id by {
                if a == t && x == devs.len() - 1 {
                    assert(gs[b].devices[y] == r[b].devices[y]);
                } else if a == t {
                    assert(r[a].devices[x] == gs[a].devices[x]);
                }
                if b == t && y == devs.len() - 1 {
                    assert(gs[a].devices[x] == r[a].devices[x]);
                } else if b == t {
                    assert(r[b].devices[y] == gs[b].devices[y]);
                }
            }
        }
    } else {
        let g = GroupView { id: target, name, devices: seq![d], is_locked: false };
        assert forall|i: int| 0 <= i < gs.len() implies groups_disjoint(#[trigger] gs[i], g)
            && groups_disjoint(g, gs[i]) by {
            assert(gs[i].id != target);
            assert(g.devices[0] == d);
        }
        lemma_wf_insert(gs, gs.len() as int, g);
        assert(r =~= gs.insert(gs.len() as int, g));
    }
}

/// Removing a group keeps an inventory well formed.
pub proof fn lemma_wf_remove(gs: Seq<GroupView>, t: int)
    requires
        inventory_wf(gs),
        0 <= t < gs.len(),
    ensures
        inventory_wf(gs.remove(t)),
{
    let r = gs.remove(t);
    assert forall|a: int| 0 <= a < r.len() implies devices_distinct(#[trigger] r[a].devices) by {
        if a < t {
            assert(r[a] == gs[a]);
        } else {
            assert(r[a] == gs[a + 1]);
        }
    }
    assert forall|a: int, b: int| 0 <= a < r.len() && 0 <= b < r.len() && a != b implies groups_disjoint(
        #[trigger] r[a],
        #[trigger] r[b],
    ) by {
        let oa = if a < t {
            a
        } else {
            a + 1
        };
        let ob = if b < t {
            b
        } else {
            b + 1
        };
        assert(r[a] == gs[oa]);
        assert(r[b] == gs[ob]);
    }
}

/// Appending to the default group devices that are distinct and occur nowhere
/// keeps an inventory well formed.
pub proof fn lemma_absorb(gs: Seq<GroupView>, devs: Seq<Device>)
    requires
        inventory_wf(gs),
        devices_distinct(devs),
        forall|a: int| 0 <= a < devs.len() ==> device_absent(gs, (#[trigger] devs[a]).id),
    ensures
        inventory_wf(absorb(gs, devs)),
{
    let r = absorb(gs, devs);
    if devs.len() == 0 {
    } else if has_group(gs, 0) {
        let z = group_index(gs, 0);
        let nd = gs[z].devices + devs;
        let n = gs[z].devices.len();
        assert forall|a: int| 0 <= a < r.len() implies devices_distinct(#[trigger] r[a].devices) by {
            assert(devices_distinct(gs[a].devices));
            if a == z {
                assert forall|x: int, y: int|
                    0 <= x < nd.len() && 0 <= y < nd.len() && x != y implies (#[trigger] nd[x]).id
                    != (#[trigger] nd[y]).id by {
                    if x < n && y >= n {
                        assert(nd[y] == devs[y - n]);
                        assert(device_absent(gs, devs[y - n].id));
                        assert(gs[z].devices[x] == nd[x]);
                    } else if x >= n && y < n {
                        assert(nd[x] == devs[x - n]);
                        assert(device_absent(gs, devs[x - n].id));
                        assert(gs[z].devices[y] == nd[y]);
                    } else if x >= n && y >= n {
                        assert(nd[x] == devs[x - n]);
                        assert(nd[y] == devs[y - n]);
                    } else {
                        assert(nd[x] == gs[z].devices[x]);
                        assert(nd[y] == gs[z].devices[y]);
                    }
                }
            }
        }
        assert forall|a: int, b: int|
            0 <= a < r.len() && 0 <= b < r.len() && a != b implies groups_disjoint(
            #[trigger] r[a],
            #[trigger] r[b],
        ) by {
            assert(groups_disjoint(gs[a], gs[b]));
            assert forall|x: int, y: int|
                0 <= x < r[a].devices.len() && 0 <= y < r[b].devices.len() implies (
            #[trigger] r[a].devices[x]).id != (#[trigger] r[b].devices[y]).id by {
                if a == z && x >= n {
                    assert(r[a].devices[x] == devs[x - n]);
                    assert(device_absent(gs, devs[x - n].id));
                    assert(r[b].devices[y] == gs[b].devices[y]);
                } else if a == z {
                    assert(r[a].devices[x] == gs[a].devices[x]);
                }
                if b == z && y >= n {
                    assert(r[b].devices[y] == devs[y - n]);
                    assert(device_absent(gs, devs[y - n].id));
                    assert(r[a].devices[x] == gs[a].devices[x]);
                } else if b == z {
                    assert(r[b].devices[y] == gs[b].devices[y]);
                }
            }
        }
    } else {
        let g = GroupView { id: 0, name: default_group_name(), devices: devs, is_locked: false };
        assert forall|i: int| 0 <= i < gs.len() implies groups_disjoint(#[trigger] gs[i], g)
            && groups_disjoint(g, gs[i]) by {
            assert(gs[i].id != 0);
            assert forall|x: int, y: int| 0 <= x < gs[i].devices.len() && 0 <= y < devs.len() implies (
            #[trigger] gs[i].devices[x]).id != (#[trigger] devs[y]).id by {
                assert(device_absent(gs, devs[y].id));
            }
        }
        lemma_wf_insert(gs, gs.len() as int, g);
        assert(r =~= gs.insert(gs.len() as int, g));
    }
}

/// Every group id is at most [`max_id`], which fits in a `u32`.
pub proof fn lemma_max_id(gs: Seq<GroupView>)
    ensures
        forall|i: int| 0 <= i < gs.len() ==> (#[trigger] gs[i]).id as nat <= max_id(gs),
        max_id(gs) <= u32::MAX,
        max_id(gs) > 0 ==> exists|i: int| 0 <= i < gs.len() && (#[trigger] gs[i]).id as nat == max_id(gs),
    decreases gs.len(),
{
    if gs.len() > 0 {
        let t = gs.drop_last();
        lemma_max_id(t);
        if max_id(t) > 0 && max_id(gs) == max_id(t) {
            let i = choose|i: int| 0 <= i < t.len() && (#[trigger] t[i]).id as nat == max_id(t);
            assert(gs[i] == t[i]);
        }
        assert forall|i: int| 0 <= i < gs.len() implies (#[trigger] gs[i]).id as nat <= max_id(gs) by {
            if i < gs.len() - 1 {
                assert(gs[i] == t[i]);
            }
        }
    }
}

/// Moving a device keeps an inventory well formed.
pub proof fn lemma_move_wf(gs: Seq<GroupView>, source: u32, target: u32, dev: u32, name: Seq<char>)
    requires
        inventory_wf(gs),
    ensures
        inventory_wf(move_device(gs, source, target, dev, name)),
{
    if has_group(gs, source) && has_device(gs[group_index(gs, source)].devices, dev) {
        let s = group_index(gs, source);
        let k = device_index(gs[s].devices, dev);
        lemma_take_device(gs, s, k);
        let taken = gs.update(s, GroupView { devices: gs[s].devices.remove(k), ..gs[s] });
        lemma_place_device(taken, target, gs[s].devices[k], name);
    }
}

/// Creating a group keeps an inventory well formed.
pub proof fn lemma_create_wf(gs: Seq<GroupView>)
    requires
        inventory_wf(gs),
        max_id(gs) < u32::MAX,
    ensures
        inventory_wf(create_group(gs)),
{
    lemma_max_id(gs);
    let g = fresh_group((max_id(gs) + 1) as u32);
    assert forall|i: int| 0 <= i < gs.len() implies groups_disjoint(#[trigger] gs[i], g)
        && groups_disjoint(g, gs[i]) by {}
    lemma_wf_insert(gs, gs.len() as int, g);
    assert(gs.push(g) =~= gs.insert(gs.len() as int, g));
    lemma_sort_desc(gs.push(g));
}

/// Once group `t` is removed, none of its devices' ids occurs in the rest.
pub proof fn lemma_removed_devices_absent(gs: Seq<GroupView>, t: int)
    requires
        inventory_wf(gs),
        0 <= t < gs.len(),
    ensures
        forall|a: int|
            0 <= a < gs[t].devices.len() ==> device_absent(gs.remove(t), (#[trigger] gs[t].devices[a]).id),
{
    let rest = gs.remove(t);
    let devs = gs[t].devices;
    assert forall|a: int| 0 <= a < devs.len() implies device_absent(rest, (#[trigger] devs[a]).id) by {
        assert forall|i: int, x: int| 0 <= i < rest.len() && 0 <= x < rest[i].devices.len() implies (
        #[trigger] rest[i].devices[x]).id != devs[a].id by {
            let oi = if i < t {
                i
            } else {
                i + 1
            };
            assert(rest[i] == gs[oi]);
            assert(groups_disjoint(gs[oi], gs[t]));
        }
    }
}

/// Deleting a group keeps an inventory well formed.
pub proof fn lemma_delete_wf(gs: Seq<GroupView>, id: u32)
    requires
        inventory_wf(gs),
    ensures
        inventory_wf(delete_group(gs, id)),
{
    if has_group(gs, id) {
        let t = group_index(gs, id);
        let rest = gs.remove(t);
        lemma_wf_remove(gs, t);
        let devs = gs[t].devices;
        lemma_removed_devices_absent(gs, t);
        assert(devices_distinct(devs));
        lemma_absorb(rest, devs);
        lemma_sort_desc(absorb(rest, devs));
        lemma_sort_desc(rest);
    } else {
        lemma_sort_desc(gs);
    }
}

/// [`insert_desc`] puts `g` before the first group whose id is not greater.
pub proof fn lemma_insert_desc_at(s: Seq<GroupView>, g: GroupView, p: int)
    requires
        0 <= p <= s.len(),
        forall|j: int| 0 <= j < p ==> (#[trigger] s[j]).id > g.id,
        p < s.len() ==> s[p].id <= g.id,
    ensures
        insert_desc(s, g) == s.insert(p, g),
    decreases s.len(),
{
    if s.len() == 0 {
        assert(seq![g] =~= s.insert(0, g));
    } else if p == 0 {
        assert(seq![g] + s =~= s.insert(0, g));
    } else {
        let t = s.drop_first();
        assert forall|j: int| 0 <= j < p - 1 implies (#[trigger] t[j]).id > g.id by {
            assert(t[j] == s[j + 1]);
        }
        lemma_insert_desc_at(t, g, p - 1);
        assert(seq![s[0]] + t.insert(p - 1, g) =~= s.insert(p, g));
    }
}

pub proof fn lemma_views_push(gs: Seq<Group>, g: Group)
    ensures
        views(gs.push(g)) == views(gs).push(g@),
{
    assert(views(gs.push(g)) =~= views(gs).push(g@));
}

pub proof fn lemma_views_update(gs: Seq<Group>, i: int, g: Group)
    requires
        0 <= i < gs.len(),
    ensures
        views(gs.update(i, g)) == views(gs).update(i, g@),
{
    assert(views(gs.update(i, g)) =~= views(gs).update(i, g@));
}

pub proof fn lemma_views_remove(gs: Seq<Group>, i: int)
    requires
        0 <= i < gs.len(),
    ensures
        views(gs.remove(i)) == views(gs).remove(i),
{
    assert(views(gs.remove(i)) =~= views(gs).remove(i));
}

/// Two sequences with the same members have the same [`max_id`].
pub proof fn lemma_max_id_members(s: Seq<GroupView>, t: Seq<GroupView>)
    requires
        forall|x: GroupView| s.contains(x) <==> t.contains(x),
    ensures
        max_id(s) == max_id(t),
{
    lemma_max_id(s);
    lemma_max_id(t);
    if max_id(s) > 0 {
        let i = choose|i: int| 0 <= i < s.len() && (#[trigger] s[i]).id as nat == max_id(s);
        assert(s.contains(s[i]));
        let j = choose|j: int| 0 <= j < t.len() && t[j] == s[i];
        assert(t[j].id as nat <= max_id(t));
    }
    if max_id(t) > 0 {
        let i = choose|i: int| 0 <= i < t.len() && (#[trigger] t[i]).id as nat == max_id(t);
        assert(t.contains(t[i]));
        let j = choose|j: int| 0 <= j < s.len() && s[j] == t[i];
        assert(s[j].id as nat <= max_id(s));
    }
}

/// The group with id `id` (meaningful where [`has_group`] holds).
pub open spec fn group_of(gs: Seq<GroupView>, id: u32) -> GroupView {
    gs[group_index(gs, id)]
}

/// Sorting changes no group: the same ids are present, each with the same group.
pub proof fn lemma_sort_group_of(gs: Seq<GroupView>, id: u32)
    requires
        inventory_wf(gs),
    ensures
        has_group(sort_desc(gs), id) == has_group(gs, id),
        has_group(gs, id) ==> group_of(sort_desc(gs), id) == group_of(gs, id),
{
    let st = sort_desc(gs);
    lemma_sort_desc(gs);
    if has_group(gs, id) {
        let i = group_index(gs, id);
        assert(gs.contains(gs[i]));
        assert(st.contains(gs[i]));
        let j = choose|j: int| 0 <= j < st.len() && st[j] == gs[i];
        lemma_group_index(st, id, j);
    }
    if has_group(st, id) {
        let j = group_index(st, id);
        assert(st.contains(st[j]));
        assert(gs.contains(st[j]));
        let i = choose|i: int| 0 <= i < gs.len() && gs[i] == st[j];
        assert(gs[i].id == id);
    }
}

/// What a move does to the group with id `x`, wherever the groups stand.
pub proof fn lemma_move_group_of(
    gs: Seq<GroupView>,
    source: u32,
    target: u32,
    dev: u32,
    name: Seq<char>,
    x: u32,
)
    requires
        inventory_wf(gs),
        has_group(gs, source),
        has_device(group_of(gs, source).devices, dev),
    ensures
        ({
            let sg = group_of(gs, source);
            let k = device_index(sg.devices, dev);
            let d = sg.devices[k];
            let r = move_device(gs, source, target, dev, name);
            &&& has_group(r, x) == (has_group(gs, x) || x == target)
            &&& x == source && source != target ==> group_of(r, x) == (GroupView {
                devices: sg.devices.remove(k),
                ..sg
            })
            &&& x == source && source == target ==> group_of(r, x) == (GroupView {
                devices: sg.devices.remove(k).push(d),
                ..sg
            })
            &&& x == target && x != source && has_group(gs, x) ==> group_of(r, x) == (GroupView {
                devices: group_of(gs, x).devices.push(d),
                ..group_of(gs, x)
            })
            &&& x == target && !has_group(gs, x) ==> group_of(r, x) == (GroupView {
                id: x,
                name,
                devices: seq![d],
                is_locked: false,
            })
            &&& x != source && x != target && has_group(gs, x) ==> group_of(r, x) == group_of(gs, x)
        }),
{
    let si = group_index(gs, source);
    let sg = gs[si];
    let k = device_index(sg.devices, dev);
    let d = sg.devices[k];
    let taken = gs.update(si, GroupView { devices: sg.devices.remove(k), ..sg });
    lemma_take_device(gs, si, k);
    lemma_move_wf(gs, source, target, dev, name);
    let r = move_device(gs, source, target, dev, name);
    assert(r == place_device(taken, target, d, name));
    assert forall|i: int| 0 <= i < gs.len() implies (#[trigger] taken[i]).id == gs[i].id by {}
    if has_group(gs, target) {
        let ti = group_index(gs, target);
        lemma_group_index(taken, target, ti);
        assert(r == taken.update(ti, GroupView { devices: taken[ti].devices.push(d), ..taken[ti] }));
    } else {
        if has_group(taken, target) {
            let ti = group_index(taken, target);
            assert(gs[ti].id == target);
        }
        assert(r == taken.push(GroupView { id: target, name, devices: seq![d], is_locked: false }));
    }
    assert forall|i: int| 0 <= i < gs.len() implies (#[trigger] r[i]).id == gs[i].id by {}
    if has_group(gs, x) {
        let xi = group_index(gs, x);
        lemma_group_index(r, x, xi);
    } else if x == target {
        lemma_group_index(r, x, gs.len() as int);
    }
    if has_group(r, x) {
        let j = group_index(r, x);
        if j < gs.len() {
            assert(gs[j].id == x);
        }
    }
}

} // verus!
