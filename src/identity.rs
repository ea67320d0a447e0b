use vstd::prelude::*;
use crate::db::clone_opt_string;
use crate::text::{
    alnum_only, contains_text, decimal, lower_of, push_alnum, push_decimal, text_contains, to_lower,
};
use crate::usb_monitor::{DiskInfo, UsbDevice};

verus! {

/// The identity made up for a volume without a serial number.
pub open spec fn synthesized_identity(mount: Seq<char>, capacity: nat) -> Seq<char> {
    "DISK_"@ + alnum_only(mount) + "_"@ + decimal(capacity)
}

/// The stable identity of a device: its serial number when it has a
/// non-empty one, else one made of its mount point and capacity.
pub open spec fn identity_of(d: UsbDevice) -> Seq<char> {
    match d.serial_number {
        Some(s) if s@.len() > 0 => s@,
        _ => synthesized_identity(
            match d.mount_point {
                Some(m) => m@,
                None => Seq::empty(),
            },
            match d.total_space {
                Some(t) => t as nat,
                None => 0,
            },
        ),
    }
}

/// Computes the stable identity of `d`.
pub fn device_identity(d: &UsbDevice) -> (r: String)
    ensures
        r@ == identity_of(*d),
{
    if let Some(s) = &d.serial_number {
        if s.as_str().unicode_len() > 0 {
            return s.clone();
        }
    }
    let mut r = String::from_str("DISK_");
    if let Some(m) = &d.mount_point {
        push_alnum(&mut r, m.as_str());
    } else {
        push_alnum(&mut r, "");
        proof {
            assert(""@.len() == 0) by {
                reveal_strlit("");
            }
            assert(""@ =~= Seq::<char>::empty());
        }
    }
    r.append("_");
    let cap: u64 = match d.total_space {
        Some(t) => t,
        None => 0,
    };
    push_decimal(&mut r, cap);
    r
}

/// A lowered serial number and a lowered volume name match when either
/// contains the other.
pub open spec fn names_match(serial_lower: Seq<char>, name_lower: Seq<char>) -> bool {
    text_contains(serial_lower, name_lower) || text_contains(name_lower, serial_lower)
}

/// Whether a lowered serial number and a lowered volume name match.
pub fn serial_matches_name(serial_lower: &str, name_lower: &str) -> (r: bool)
    ensures
        r == names_match(serial_lower@, name_lower@),
{
    contains_text(serial_lower, name_lower) || contains_text(name_lower, serial_lower)
}

/// The USB node `n` belongs to the volume named `name`.
pub open spec fn node_matches(n: UsbDevice, name: Seq<char>) -> bool {
    match n.serial_number {
        Some(s) => names_match(lower_of(s@), lower_of(name)),
        None => false,
    }
}

/// Index of the first node of `nodes` that belongs to the volume `name`, or -1.
pub open spec fn first_match(nodes: Seq<UsbDevice>, name: Seq<char>) -> int
    decreases nodes.len(),
{
    if nodes.len() == 0 {
        -1
    } else {
        let r = first_match(nodes.drop_last(), name);
        if r >= 0 {
            r
        } else if node_matches(nodes.last(), name) {
            nodes.len() - 1
        } else {
            -1
        }
    }
}

/// The removable volumes of `disks`, in order.
pub open spec fn removable(disks: Seq<DiskInfo>) -> Seq<DiskInfo>
    decreases disks.len(),
{
    if disks.len() == 0 {
        disks
    } else if disks.last().is_removable {
        removable(disks.drop_last()).push(disks.last())
    } else {
        removable(disks.drop_last())
    }
}

/// `d` is the device record for the volume `disk`: the first USB node that
/// matches it lends its descriptor fields; without one the record is
/// generic and carries no serial number.
pub open spec fn describes_disk(d: UsbDevice, nodes: Seq<UsbDevice>, disk: DiskInfo) -> bool {
    let k = first_match(nodes, disk.name@);
    &&& d.mount_point == Some(disk.mount_point)
    &&& d.total_space == Some(disk.total_space)
    &&& if k >= 0 {
        &&& d.id == nodes[k].id
        &&& d.vendor_id == nodes[k].vendor_id
        &&& d.product_id == nodes[k].product_id
        &&& d.product_name == nodes[k].product_name
        &&& d.manufacturer_name == nodes[k].manufacturer_name
        &&& d.serial_number == nodes[k].serial_number
    } else {
        &&& d.id == 0
        &&& d.vendor_id == 0
        &&& d.product_id == 0
        &&& (if disk.name@.len() > 0 {
            d.product_name == Some(disk.name)
        } else {
            d.product_name.is_none()
        })
        &&& d.manufacturer_name.is_some() && d.manufacturer_name.unwrap()@ == "Generic"@
        &&& d.serial_number.is_none()
    }
}

/// Index of the first node that belongs to the volume named `name`.
pub(crate) fn find_node(nodes: &Vec<UsbDevice>, name: &str) -> (r: Option<usize>)
    ensures
        first_match(nodes@, name@) == match r {
            Some(k) => k as int,
            None => -1,
        },
        r.is_some() ==> r.unwrap() < nodes@.len(),
{
    let name_lower = to_lower(name);
    let mut j: usize = 0;
    assert(nodes@.subrange(0, 0) =~= Seq::<UsbDevice>::empty());
    while j < nodes.len()
        invariant
            j <= nodes@.len(),
            name_lower@ == lower_of(name@),
            first_match(nodes@.subrange(0, j as int), name@) == -1,
        decreases nodes@.len() - j,
    {
        assert(nodes@.subrange(0, j + 1).drop_last() =~= nodes@.subrange(0, j as int));
        if let Some(serial) = &nodes[j].serial_number {
            let serial_lower = to_lower(serial.as_str());
            if serial_matches_name(serial_lower.as_str(), name_lower.as_str()) {
                proof {
                    lemma_first_match_stays(nodes@, name@, j as int + 1);
                }
                return Some(j);
            }
        }
        j += 1;
    }
    assert(nodes@.subrange(0, nodes@.len() as int) =~= nodes@);
    None
}

pub(crate) proof fn lemma_first_match_stays(nodes: Seq<UsbDevice>, name: Seq<char>, i: int)
    requires
        0 <= i <= nodes.len(),
        first_match(nodes.subrange(0, i), name) >= 0,
    ensures
        first_match(nodes, name) == first_match(nodes.subrange(0, i), name),
    decreases nodes.len() - i,
{
    if i < nodes.len() {
        assert(nodes.subrange(0, i + 1).drop_last() =~= nodes.subrange(0, i));
        lemma_first_match_stays(nodes, name, i + 1);
    } else {
        assert(nodes.subrange(0, i) =~= nodes);
    }
}

/// The device record for one removable volume.
pub(crate) fn device_for_disk(nodes: &Vec<UsbDevice>, disk: &DiskInfo) -> (r: UsbDevice)
    ensures
        describes_disk(r, nodes@, *disk),
{
    match find_node(nodes, disk.name.as_str()) {
        Some(k) => {
            let n = &nodes[k];
            UsbDevice {
                id: n.id,
                vendor_id: n.vendor_id,
                product_id: n.product_id,
                product_name: clone_opt_string(&n.product_name),
                manufacturer_name: clone_opt_string(&n.manufacturer_name),
                serial_number: clone_opt_string(&n.serial_number),
                mount_point: Some(disk.mount_point.clone()),
                total_space: Some(disk.total_space),
            }
        },
        None => {
            let product_name = if disk.name.as_str().unicode_len() > 0 {
                Some(disk.name.clone())
            } else {
                None
            };
            UsbDevice {
                id: 0,
                vendor_id: 0,
                product_id: 0,
                product_name,
                manufacturer_name: Some(String::from_str("Generic")),
                serial_number: None,
                mount_point: Some(disk.mount_point.clone()),
                total_space: Some(disk.total_space),
            }
        },
    }
}

/// A device whose USB node reports a non-empty serial number gets that
/// serial as its identity in every enumeration, whatever the other
/// devices, its mount point or its capacity.
pub proof fn lemma_identity_stable(
    nodes1: Seq<UsbDevice>,
    disk1: DiskInfo,
    d1: UsbDevice,
    nodes2: Seq<UsbDevice>,
    disk2: DiskInfo,
    d2: UsbDevice,
)
    requires
        describes_disk(d1, nodes1, disk1),
        describes_disk(d2, nodes2, disk2),
        first_match(nodes1, disk1.name@) >= 0,
        first_match(nodes2, disk2.name@) >= 0,
        nodes1[first_match(nodes1, disk1.name@)].serial_number.is_some(),
        nodes2[first_match(nodes2, disk2.name@)].serial_number.is_some(),
        nodes1[first_match(nodes1, disk1.name@)].serial_number.unwrap()@ == nodes2[first_match(
            nodes2,
            disk2.name@,
        )].serial_number.unwrap()@,
        nodes1[first_match(nodes1, disk1.name@)].serial_number.unwrap()@.len() > 0,
    ensures
        identity_of(d1) == identity_of(d2),
        identity_of(d1) == nodes1[first_match(nodes1, disk1.name@)].serial_number.unwrap()@,
{
}

} // verus!
