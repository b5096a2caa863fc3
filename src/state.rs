use vstd::prelude::*;

use crate::devices::Device;
use crate::groups::{Group, GroupView};
use crate::model::{
    device_index, devices_distinct, group_index, groups_disjoint, has_device, has_group, inventory_wf,
    lemma_device_index, lemma_group_index, lemma_insert_desc_at, lemma_sort_desc, lemma_views_push, sort_desc, sorted_desc, views,
};

verus! {

/// The inventory: every group, each with its devices.
///
/// It is well formed when group ids are unique, every device id occurs once
/// over all groups, and the groups are sorted by descending id; each command
/// keeps it so.
pub struct StudioState {
    pub groups: Vec<Group>,
}

impl View for StudioState {
    type V = Seq<GroupView>;

    open spec fn view(&self) -> Seq<GroupView> {
        views(self.groups@)
    }
}

impl StudioState {
    pub open spec fn wf(&self) -> bool {
        inventory_wf(self@) && sorted_desc(self@)
    }

    /// An inventory without groups.
    pub fn new() -> (r: Self)
        ensures
            r@ == Seq::<GroupView>::empty(),
            r.wf(),
    {
        let r = StudioState { groups: Vec::new() };
        assert(r@ =~= Seq::<GroupView>::empty());
        r
    }

    /// An inventory of `groups` sorted by descending id, where their ids are
    /// unique and every device id occurs once over all of them; `None` otherwise.
    pub fn from_groups(groups: Vec<Group>) -> (r: Option<Self>)
        ensures
            r is Some <==> inventory_wf(views(groups@)),
            r matches Some(st) ==> st@ == sort_desc(views(groups@)) && st.wf(),
    {
        let ghost gs = views(groups@);
        let mut i: usize = 0;
        while i < groups.len()
            invariant
                i <= groups.len(),
                gs == views(groups@),
                forall|a: int| 0 <= a < i ==> devices_distinct(#[trigger] gs[a].devices),
                forall|a: int, b: int|
                    0 <= a < i && 0 <= b < groups.len() && a != b ==> groups_disjoint(
                        #[trigger] gs[a],
                        #[trigger] gs[b],
                    ),
            decreases groups.len() - i,
        {
            if !devices_unique(&groups[i].devices) {
                assert(gs[i as int] == groups@[i as int]@);
                assert(!devices_distinct(gs[i as int].devices));
                return None;
            }
            let mut j: usize = 0;
            while j < groups.len()
                invariant
                    i < groups.len(),
                    j <= groups.len(),
                    gs == views(groups@),
                    forall|b: int| 0 <= b < j && b != i ==> groups_disjoint(gs[i as int], #[trigger] gs[b]),
                decreases groups.len() - j,
            {
                if j != i && !groups_apart(&groups[i], &groups[j]) {
                    assert(gs[i as int] == groups@[i as int]@);
                    assert(gs[j as int] == groups@[j as int]@);
                    assert(!groups_disjoint(gs[i as int], gs[j as int]));
                    return None;
                }
                j = j + 1;
            }
            i = i + 1;
        }
        proof {
            lemma_sort_desc(gs);
        }
        Some(StudioState { groups: sort_groups(groups) })
    }

    /// A read-only copy of the groups, in their order.
    pub fn snapshot(&self) -> (r: Vec<Group>)
        ensures
            views(r@) == self@,
    {
        let mut r: Vec<Group> = Vec::new();
        let mut i: usize = 0;
        while i < self.groups.len()
            invariant
                i <= self.groups.len(),
                views(r@) == views(self.groups@).subrange(0, i as int),
            decreases self.groups.len() - i,
        {
            let g = self.groups[i].clone();
            proof {
                lemma_views_push(r@, g);
            }
            r.push(g);
            i = i + 1;
            assert(views(r@) =~= views(self.groups@).subrange(0, i as int));
        }
        assert(views(self.groups@).subrange(0, i as int) =~= self@);
        r
    }
}

/// The position of the group with id `id`.
pub(crate) fn find_group(groups: &Vec<Group>, id: u32) -> (r: Option<usize>)
    requires
        inventory_wf(views(groups@)),
    ensures
        r is None <==> !has_group(views(groups@), id),
        r matches Some(i) ==> i < groups.len() && groups@[i as int].id == id && group_index(
            views(groups@),
            id,
        ) == i,
{
    let mut i: usize = 0;
    while i < groups.len()
        invariant
            i <= groups.len(),
            inventory_wf(views(groups@)),
            forall|j: int| 0 <= j < i ==> (#[trigger] groups@[j]).id != id,
        decreases groups.len() - i,
    {
        if groups[i].id == id {
            proof {
                lemma_group_index(views(groups@), id, i as int);
            }
            return Some(i);
        }
        i = i + 1;
    }
    assert forall|j: int| 0 <= j < groups.len() implies (#[trigger] views(groups@)[j]).id != id by {
        assert(views(groups@)[j] == groups@[j]@);
    }
    None
}

/// The position of the device with id `id`.
pub(crate) fn find_device(devices: &Vec<Device>, id: u32) -> (r: Option<usize>)
    requires
        devices_distinct(devices@),
    ensures
        r is None <==> !has_device(devices@, id),
        r matches Some(k) ==> k < devices.len() && device_index(devices@, id) == k,
{
    let mut k: usize = 0;
    while k < devices.len()
        invariant
            k <= devices.len(),
            devices_distinct(devices@),
            forall|j: int| 0 <= j < k ==> (#[trigger] devices@[j]).id != id,
        decreases devices.len() - k,
    {
        if devices[k].id == id {
            proof {
                lemma_device_index(devices@, id, k as int);
            }
            return Some(k);
        }
        k = k + 1;
    }
    None
}

/// The groups in the stable order of descending id.
pub(crate) fn sort_groups(groups: Vec<Group>) -> (r: Vec<Group>)
    ensures
        views(r@) == sort_desc(views(groups@)),
{
    let ghost all = views(groups@);
    let ghost n = groups.len() as int;
    let mut rest = groups;
    let mut out: Vec<Group> = Vec::new();
    assert(all.subrange(n, n) =~= Seq::<GroupView>::empty());
    assert(views(out@) =~= Seq::<GroupView>::empty());
    while rest.len() > 0
        invariant
            rest.len() <= n,
            all.len() == n,
            views(rest@) == all.subrange(0, rest.len() as int),
            views(out@) == sort_desc(all.subrange(rest.len() as int, n)),
        decreases rest.len(),
    {
        let ghost before = views(out@);
        let ghost m = rest.len() as int;
        let g = rest.pop().unwrap();
        proof {
            lemma_views_push(rest@, g);
            assert(views(rest@).push(g@) =~= all.subrange(0, m));
            assert(views(rest@) =~= views(rest@).push(g@).drop_last());
            assert(views(rest@) =~= all.subrange(0, m - 1));
            assert(g@ == views(rest@).push(g@)[m - 1]);
        }
        let mut p: usize = 0;
        while p < out.len() && out[p].id > g.id
            invariant
                p <= out.len(),
                views(out@) == before,
                forall|j: int| 0 <= j < p ==> (#[trigger] before[j]).id > g.id,
            decreases out.len() - p,
        {
            p = p + 1;
        }
        proof {
            lemma_insert_desc_at(before, g@, p as int);
            let suffix = all.subrange(m - 1, n);
            assert(suffix.drop_first() =~= all.subrange(m, n));
            assert(suffix[0] == g@);
        }
        out.insert(p, g);
        assert(views(out@) =~= before.insert(p as int, g@));
    }
    assert(all.subrange(0, n) =~= all);
    out
}

/// Whether no two devices of `devices` share an id.
fn devices_unique(devices: &Vec<Device>) -> (r: bool)
    ensures
        r == devices_distinct(devices@),
{
    let mut a: usize = 0;
    while a < devices.len()
        invariant
            a <= devices.len(),
            forall|x: int, y: int|
                0 <= x < a && x < y < devices.len() ==> (#[trigger] devices@[x]).id != (
                #[trigger] devices@[y]).id,
        decreases devices.len() - a,
    {
        let mut b: usize = a + 1;
        while b < devices.len()
            invariant
                a < b <= devices.len() || (a < devices.len() && b == a + 1),
                forall|y: int| a < y < b ==> devices@[a as int].id != (#[trigger] devices@[y]).id,
            decreases devices.len() - b,
        {
            if devices[a].id == devices[b].id {
                return false;
            }
            b = b + 1;
        }
        a = a + 1;
    }
    assert forall|x: int, y: int|
        0 <= x < devices.len() && 0 <= y < devices.len() && x != y implies (#[trigger] devices@[x]).id
        != (#[trigger] devices@[y]).id by {
        if y < x {
            assert(devices@[y].id != devices@[x].id);
        }
    }
    true
}

/// Whether `g` and `h` differ in id and share no device id.
fn groups_apart(g: &Group, h: &Group) -> (r: bool)
    ensures
        r == groups_disjoint(g@, h@),
{
    if g.id == h.id {
        return false;
    }
    let mut a: usize = 0;
    while a < g.devices.len()
        invariant
            a <= g.devices.len(),
            forall|x: int, y: int|
                0 <= x < a && 0 <= y < h.devices.len() ==> (#[trigger] g.devices@[x]).id != (
                #[trigger] h.devices@[y]).id,
        decreases g.devices.len() - a,
    {
        let mut b: usize = 0;
        while b < h.devices.len()
            invariant
                a < g.devices.len(),
                b <= h.devices.len(),
                forall|y: int| 0 <= y < b ==> g.devices@[a as int].id != (#[trigger] h.devices@[y]).id,
            decreases h.devices.len() - b,
        {
            if g.devices[a].id == h.devices[b].id {
                return false;
            }
            b = b + 1;
        }
        a = a + 1;
    }
    true
}

} // verus!
