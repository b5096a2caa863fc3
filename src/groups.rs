use vstd::prelude::*;
use vstd::string::StringExecFns;

use crate::devices::Device;

verus! {

/// A named, lockable collection of devices.
///
/// The group with id 0 is the default home of devices whose group is deleted.
#[derive(Debug)]
pub struct Group {
    pub id: u32,
    pub name: String,
    pub devices: Vec<Device>,
    pub is_locked: bool,
}

/// The mathematical value of a [`Group`].
pub struct GroupView {
    pub id: u32,
    pub name: Seq<char>,
    pub devices: Seq<Device>,
    pub is_locked: bool,
}

impl View for Group {
    type V = GroupView;

    open spec fn view(&self) -> GroupView {
        GroupView {
            id: self.id,
            name: self.name@,
            devices: self.devices@,
            is_locked: self.is_locked,
        }
    }
}

impl Group {
    pub fn new(id: u32, name: String, devices: Vec<Device>, is_locked: bool) -> (r: Self)
        ensures
            r@ == (GroupView { id, name: name@, devices: devices@, is_locked }),
    {
        Group { id, name, devices, is_locked }
    }
}

impl Clone for Group {
    fn clone(&self) -> (r: Self)
        ensures
            r@ == self@,
    {
        let devices = self.devices.clone();
        assert(devices@ == self.devices@);
        Group { id: self.id, name: self.name.clone(), devices, is_locked: self.is_locked }
    }
}

/// The decimal digits of `n`, most significant first, without leading zeros.
pub open spec fn decimal(n: nat) -> Seq<char>
    decreases n,
{
    let digit = seq!['0', '1', '2', '3', '4', '5', '6', '7', '8', '9'][(n % 10) as int];
    if n < 10 {
        seq![digit]
    } else {
        decimal(n / 10).push(digit)
    }
}

/// The name given to a group that is created without one: "Group " and its id.
pub open spec fn group_label(id: u32) -> Seq<char> {
    seq!['G', 'r', 'o', 'u', 'p', ' '] + decimal(id as nat)
}

/// The name of a default group created on demand.
pub open spec fn default_group_name() -> Seq<char> {
    seq!['D', 'e', 'f', 'a', 'u', 'l', 't', ' ', 'G', 'r', 'o', 'u', 'p']
}

/// The digit of `d`, a number below ten.
fn digit(d: u32) -> (r: &'static str)
    requires
        d < 10,
    ensures
        r@ == seq![seq!['0', '1', '2', '3', '4', '5', '6', '7', '8', '9'][d as int]],
{
    let r = if d == 0 {
        proof {
            reveal_strlit("0");
        }
        "0"
    } else if d == 1 {
        proof {
            reveal_strlit("1");
        }
        "1"
    } else if d == 2 {
        proof {
            reveal_strlit("2");
        }
        "2"
    } else if d == 3 {
        proof {
            reveal_strlit("3");
        }
        "3"
    } else if d == 4 {
        proof {
            reveal_strlit("4");
        }
        "4"
    } else if d == 5 {
        proof {
            reveal_strlit("5");
        }
        "5"
    } else if d == 6 {
        proof {
            reveal_strlit("6");
        }
        "6"
    } else if d == 7 {
        proof {
            reveal_strlit("7");
        }
        "7"
    } else if d == 8 {
        proof {
            reveal_strlit("8");
        }
        "8"
    } else {
        proof {
            reveal_strlit("9");
        }
        "9"
    };
    assert(r@ =~= seq![seq!['0', '1', '2', '3', '4', '5', '6', '7', '8', '9'][d as int]]);
    r
}

/// Appends the decimal digits of `n` to `s`.
fn push_decimal(s: &mut String, n: u32)
    ensures
        final(s)@ == old(s)@ + decimal(n as nat),
    decreases n,
{
    if n >= 10 {
        push_decimal(s, n / 10);
    }
    let ghost mid = s@;
    s.append(digit(n % 10));
    proof {
        if n >= 10 {
            assert(mid + seq![decimal(n as nat).last()] =~= old(s)@ + decimal(n as nat));
        } else {
            assert(s@ =~= old(s)@ + decimal(n as nat));
        }
    }
}

/// "Group " followed by the id in decimal.
pub(crate) fn label_for(id: u32) -> (r: String)
    ensures
        r@ == group_label(id),
{
    let mut s = "Group ".to_string();
    proof {
        reveal_strlit("Group ");
    }
    assert(s@ =~= seq!['G', 'r', 'o', 'u', 'p', ' ']);
    push_decimal(&mut s, id);
    s
}

pub(crate) fn default_name() -> (r: String)
    ensures
        r@ == default_group_name(),
{
    let s = "Default Group".to_string();
    proof {
        reveal_strlit("Default Group");
    }
    assert(s@ =~= default_group_name());
    s
}

} // verus!
