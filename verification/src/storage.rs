//! Physical disk / APFS container / volume topology.
//!
//! APFS shares capacity across the volumes of a container, so per-volume
//! "free" must never be summed.  The three layers are modelled explicitly
//! and a container is attributed to exactly one physical disk, the one its
//! physical store lives on.
//!
//! The property lists `diskutil` prints are read here: the disk listing
//! gives the device identifiers, `diskutil info` the fields of one disk
//! ([`RawDiskInfo`]), and the APFS listing the fields of each container
//! ([`RawContainer`]); this module turns them into the topology.

use crate::property_list::{
    dicts_in, document_of, field, field_in, is_dict, items, items_in, parse_output, text,
    text_in, text_matches, unsigned, unsigned_in, PlistValue,
};
use crate::text::{
    all_digits, chars_of, push_str, rfind_char, rfind_char_in, string_from, string_of_range,
};
use vstd::prelude::*;

verus! {

pub struct VolumeInfo {
    pub id: String,
    pub name: String,
    pub role: String,
    /// Bytes this volume actually consumes within the shared container.
    pub capacity_consumed: Option<u64>,
}

pub struct ContainerInfo {
    pub container_ref: String,
    /// Physical store device identifier backing this container (e.g. disk0s2).
    pub physical_store: Option<String>,
    pub capacity_ceiling: Option<u64>,
    pub capacity_free: Option<u64>,
    pub capacity_in_use: Option<u64>,
    pub volumes: Vec<VolumeInfo>,
}

pub struct PhysicalDisk {
    pub device: String,
    pub name: String,
    pub size_bytes: u64,
    pub smart_status: String,
    /// SMART temperature in kelvin, kept only when it lies in 0..=150 °C.
    pub temperature_kelvin: Option<u64>,
    pub power_on_hours: Option<u64>,
    /// APFS containers whose physical store lives on this disk.
    pub containers: Vec<ContainerInfo>,
    /// Anonymous identity assigned by the device registry.
    pub device_uid: Option<String>,
    /// Generation of `device_uid` (bumped on device-address reuse).
    pub generation: u32,
}

/// The fields `diskutil info` reports for one disk; `None` where a field is
/// missing or of the wrong kind.
pub struct RawDiskInfo {
    pub media_name: Option<String>,
    pub total_size: Option<u64>,
    pub smart_status: Option<String>,
    /// SMART `TEMPERATURE`, in kelvin.
    pub temperature_kelvin: Option<u64>,
    /// SMART `POWER_ON_HOURS_0`.
    pub power_on_hours: Option<u64>,
}

/// The fields `diskutil apfs list` reports for one volume.
pub struct RawVolume {
    pub device_identifier: Option<String>,
    pub name: Option<String>,
    pub role: Option<String>,
    pub capacity_in_use: Option<u64>,
}

/// The fields `diskutil apfs list` reports for one container.
pub struct RawContainer {
    pub container_reference: Option<String>,
    /// Device identifier of the first physical store.
    pub first_physical_store: Option<String>,
    pub capacity_ceiling: Option<u64>,
    pub capacity_free: Option<u64>,
    pub capacity_in_use: Option<u64>,
    pub volumes: Vec<RawVolume>,
}

/// A device identifier with its partition suffix removed: the part before
/// the last `s`, when everything after that `s` is one or more ASCII digits.
pub open spec fn base_disk(d: Seq<char>) -> Seq<char> {
    match rfind_char(d, 's', d.len() as int) {
        Some(i) => if i + 1 < d.len() && all_digits(d, i + 1, d.len() as int) {
            d.take(i)
        } else {
            d
        },
        None => d,
    }
}

/// Strip the partition suffix: "disk0s2" → "disk0", "disk10" → "disk10".
/// The scan starts from the end, so the `s` of the "disk" prefix is never
/// taken for the partition separator.
pub fn base_disk_id(device: &str) -> (r: String)
    ensures
        r@ == base_disk(device@),
{
    let v = chars_of(device);
    if let Some(idx) = rfind_char_in(&v, 's', v.len()) {
        if idx + 1 < v.len() {
            let mut k = idx + 1;
            while k < v.len()
                invariant
                    idx + 1 <= k <= v.len(),
                    idx + 1 < v.len(),
                    v@ == device@,
                    rfind_char(v@, 's', v.len() as int) == Some(idx as int),
                    all_digits(v@, idx + 1, k as int),
                decreases v.len() - k,
            {
                if !('0' <= v[k] && v[k] <= '9') {
                    proof {
                        assert(!all_digits(v@, idx + 1, v.len() as int)) by {
                            assert(!crate::text::is_digit(v@[k as int]));
                        }
                    }
                    return string_from(device);
                }
                k = k + 1;
            }
            proof {
                assert(v@.take(idx as int) =~= v@.subrange(0, idx as int));
            }
            return string_of_range(&v, 0, idx);
        }
    }
    string_from(device)
}

/// Is a SMART temperature of `k` kelvin a plausible reading, i.e. does
/// `k - 273.15` lie in 0..=150 °C?  (For integer `k` that is 274..=423.)
pub open spec fn plausible_kelvin(k: u64) -> bool {
    274 <= k <= 423
}

/// A physical disk as listed, with the `diskutil info` fields filled in;
/// when that query failed the descriptive fields are empty.
pub fn physical_disk_from(device: String, info: Result<RawDiskInfo, String>) -> (d: PhysicalDisk)
    ensures
        d.device == device,
        d.containers@.len() == 0,
        d.device_uid is None,
        d.generation == 0,
        match info {
            Ok(r) => {
                &&& r.media_name matches Some(n) ==> d.name@ == n@
                &&& r.media_name is None ==> d.name@.len() == 0
                &&& d.size_bytes == match r.total_size {
                    Some(s) => s,
                    None => 0,
                }
                &&& r.smart_status matches Some(s) ==> d.smart_status@ == s@
                &&& r.smart_status is None ==> d.smart_status@.len() == 0
                &&& d.temperature_kelvin == match r.temperature_kelvin {
                    Some(k) => if plausible_kelvin(k) {
                        Some(k)
                    } else {
                        None
                    },
                    None => None,
                }
                &&& d.power_on_hours == r.power_on_hours
            },
            Err(_) => {
                &&& d.name@.len() == 0
                &&& d.size_bytes == 0
                &&& d.smart_status@.len() == 0
                &&& d.temperature_kelvin is None
                &&& d.power_on_hours is None
            },
        },
{
    match info {
        Ok(r) => {
            let temperature_kelvin = match r.temperature_kelvin {
                Some(k) => if 274 <= k && k <= 423 {
                    Some(k)
                } else {
                    None
                },
                None => None,
            };
            PhysicalDisk {
                device,
                name: match r.media_name {
                    Some(n) => n,
                    None => String::new(),
                },
                size_bytes: match r.total_size {
                    Some(s) => s,
                    None => 0,
                },
                smart_status: match r.smart_status {
                    Some(s) => s,
                    None => String::new(),
                },
                temperature_kelvin,
                power_on_hours: r.power_on_hours,
                containers: Vec::new(),
                device_uid: None,
                generation: 0,
            }
        },
        Err(_) => PhysicalDisk {
            device,
            name: String::new(),
            size_bytes: 0,
            smart_status: String::new(),
            temperature_kelvin: None,
            power_on_hours: None,
            containers: Vec::new(),
            device_uid: None,
            generation: 0,
        },
    }
}

/// The volumes of `raw` that have a device identifier, in order.
pub open spec fn listed_volumes(raw: Seq<RawVolume>) -> Seq<RawVolume>
    decreases raw.len(),
{
    if raw.len() == 0 {
        Seq::empty()
    } else if raw.last().device_identifier is Some {
        listed_volumes(raw.drop_last()).push(raw.last())
    } else {
        listed_volumes(raw.drop_last())
    }
}

/// Does `v` describe the raw volume `r` (missing name and role read as empty)?
pub open spec fn volume_describes(v: VolumeInfo, r: RawVolume) -> bool {
    &&& r.device_identifier matches Some(id) && v.id@ == id@
    &&& r.name matches Some(n) ==> v.name@ == n@
    &&& r.name is None ==> v.name@.len() == 0
    &&& r.role matches Some(n) ==> v.role@ == n@
    &&& r.role is None ==> v.role@.len() == 0
    &&& v.capacity_consumed == r.capacity_in_use
}

fn volume_from(r: RawVolume) -> (v: VolumeInfo)
    requires
        r.device_identifier is Some,
    ensures
        volume_describes(v, r),
{
    let RawVolume { device_identifier, name, role, capacity_in_use } = r;
    VolumeInfo {
        id: match device_identifier {
            Some(id) => id,
            None => String::new(),
        },
        name: match name {
            Some(n) => n,
            None => String::new(),
        },
        role: match role {
            Some(n) => n,
            None => String::new(),
        },
        capacity_consumed: capacity_in_use,
    }
}

/// Is `c` the container built from the raw fields `raw`?  Volumes without a
/// device identifier are left out; a missing reference reads as empty.
pub open spec fn container_built(c: ContainerInfo, raw: RawContainer) -> bool {
    &&& raw.container_reference matches Some(s) ==> c.container_ref@ == s@
    &&& raw.container_reference is None ==> c.container_ref@.len() == 0
    &&& c.physical_store == raw.first_physical_store
    &&& c.capacity_ceiling == raw.capacity_ceiling
    &&& c.capacity_free == raw.capacity_free
    &&& c.capacity_in_use == raw.capacity_in_use
    &&& c.volumes@.len() == listed_volumes(raw.volumes@).len()
    &&& forall|i: int|
        0 <= i < c.volumes@.len() ==> volume_describes(
            #[trigger] c.volumes@[i],
            listed_volumes(raw.volumes@)[i],
        )
}

/// A container from its `diskutil apfs list` fields.  Volumes without a
/// device identifier are skipped; a missing reference, name or role reads
/// as empty.
pub fn container_from(raw: RawContainer) -> (c: ContainerInfo)
    ensures
        container_built(c, raw),
{
    let RawContainer {
        container_reference,
        first_physical_store,
        capacity_ceiling,
        capacity_free,
        capacity_in_use,
        volumes: mut raw_volumes,
    } = raw;
    let ghost all = raw_volumes@;
    let mut volumes: Vec<VolumeInfo> = Vec::new();
    let n = raw_volumes.len();
    let mut i: usize = 0;
    while i < n
        invariant
            n == all.len(),
            i <= n,
            raw_volumes@ == all.skip(i as int),
            volumes@.len() == listed_volumes(all.take(i as int)).len(),
            forall|j: int|
                0 <= j < volumes@.len() ==> volume_describes(
                    #[trigger] volumes@[j],
                    listed_volumes(all.take(i as int))[j],
                ),
        decreases n - i,
    {
        let r = raw_volumes.remove(0);
        proof {
            assert(all.take(i + 1).drop_last() =~= all.take(i as int));
            assert(all.take(i + 1).last() == all[i as int]);
            assert(all.skip(i + 1) =~= all.skip(i as int).remove(0));
        }
        if r.device_identifier.is_some() {
            let v = volume_from(r);
            volumes.push(v);
        }
        i = i + 1;
    }
    proof {
        assert(all.take(n as int) =~= all);
    }
    ContainerInfo {
        container_ref: match container_reference {
            Some(s) => s,
            None => String::new(),
        },
        physical_store: first_physical_store,
        capacity_ceiling,
        capacity_free,
        capacity_in_use,
        volumes,
    }
}

/// First index at or after `j` of a disk whose device is `base`.
pub open spec fn owner_from(disks: Seq<PhysicalDisk>, base: Seq<char>, j: int) -> Option<int>
    decreases disks.len() - j,
{
    if j < 0 || j >= disks.len() {
        None
    } else if disks[j].device@ == base {
        Some(j)
    } else {
        owner_from(disks, base, j + 1)
    }
}

/// The disk a container belongs to: the first disk whose device is the
/// base of the container's physical store.
pub open spec fn container_owner(disks: Seq<PhysicalDisk>, c: ContainerInfo) -> Option<int> {
    match c.physical_store {
        Some(s) => owner_from(disks, base_disk(s@), 0),
        None => None,
    }
}

/// The containers of `cs` that belong to disk `i`, in order.
pub open spec fn attached(cs: Seq<ContainerInfo>, disks: Seq<PhysicalDisk>, i: int) -> Seq<
    ContainerInfo,
>
    decreases cs.len(),
{
    if cs.len() == 0 {
        Seq::empty()
    } else if container_owner(disks, cs.last()) == Some(i) {
        attached(cs.drop_last(), disks, i).push(cs.last())
    } else {
        attached(cs.drop_last(), disks, i)
    }
}

/// Same disk, same device, with other containers.
pub open spec fn same_disk_but_containers(a: PhysicalDisk, b: PhysicalDisk) -> bool {
    a == PhysicalDisk { containers: a.containers, ..b }
}

proof fn lemma_owner_from_found(disks: Seq<PhysicalDisk>, base: Seq<char>, j: int)
    ensures
        owner_from(disks, base, j) matches Some(k) ==> j <= k < disks.len() && disks[k].device@
            == base,
    decreases disks.len() - j,
{
    if !(j < 0 || j >= disks.len()) && disks[j].device@ != base {
        lemma_owner_from_found(disks, base, j + 1);
    }
}

proof fn lemma_owner_same_devices(a: Seq<PhysicalDisk>, b: Seq<PhysicalDisk>, base: Seq<char>, j: int)
    requires
        a.len() == b.len(),
        forall|k: int| 0 <= k < a.len() ==> (#[trigger] a[k]).device == b[k].device,
    ensures
        owner_from(a, base, j) == owner_from(b, base, j),
    decreases a.len() - j,
{
    if !(j < 0 || j >= a.len()) && a[j].device@ != base {
        lemma_owner_same_devices(a, b, base, j + 1);
    }
}

/// How many containers are attached over the first `n` disks.
pub open spec fn attached_total(cs: Seq<ContainerInfo>, disks: Seq<PhysicalDisk>, n: int) -> int
    decreases n,
{
    if n <= 0 {
        0
    } else {
        attached_total(cs, disks, n - 1) + attached(cs, disks, n - 1).len()
    }
}

/// How many containers have an owning disk.
pub open spec fn owned_count(cs: Seq<ContainerInfo>, disks: Seq<PhysicalDisk>) -> int
    decreases cs.len(),
{
    if cs.len() == 0 {
        0
    } else {
        owned_count(cs.drop_last(), disks) + if container_owner(disks, cs.last()) is Some {
            1int
        } else {
            0int
        }
    }
}

proof fn lemma_attached_total_none(cs: Seq<ContainerInfo>, disks: Seq<PhysicalDisk>, n: int)
    requires
        cs.len() == 0,
    ensures
        attached_total(cs, disks, n) == 0,
    decreases n,
{
    if n > 0 {
        lemma_attached_total_none(cs, disks, n - 1);
    }
}

proof fn lemma_attached_total_last(cs: Seq<ContainerInfo>, disks: Seq<PhysicalDisk>, n: int)
    requires
        cs.len() > 0,
        n >= 0,
        container_owner(disks, cs.last()) matches Some(k) ==> k >= 0,
    ensures
        attached_total(cs, disks, n) == attached_total(cs.drop_last(), disks, n) + if container_owner(
            disks,
            cs.last(),
        ) matches Some(k) && k < n {
            1int
        } else {
            0int
        },
    decreases n,
{
    if n > 0 {
        lemma_attached_total_last(cs, disks, n - 1);
        assert(attached(cs, disks, n - 1).len() == attached(cs.drop_last(), disks, n - 1).len() + if container_owner(
            disks,
            cs.last(),
        ) == Some(n - 1) {
            1int
        } else {
            0int
        });
    }
}

/// Capacity is counted once per container: every container with an owning
/// disk is attached to exactly one disk, and the others to none, so the
/// containers attached over all disks are exactly the owned ones.
pub proof fn law_each_container_attached_once(cs: Seq<ContainerInfo>, disks: Seq<PhysicalDisk>)
    ensures
        attached_total(cs, disks, disks.len() as int) == owned_count(cs, disks),
        owned_count(cs, disks) <= cs.len(),
        forall|i: int, j: int|
            0 <= i < j < disks.len() ==> attached(cs, disks, i).len() + attached(cs, disks, j).len()
                <= owned_count(cs, disks),
    decreases cs.len(),
{
    if cs.len() > 0 {
        let c = cs.last();
        let rest = cs.drop_last();
        law_each_container_attached_once(rest, disks);
        match c.physical_store {
            Some(st) => lemma_owner_from_found(disks, base_disk(st@), 0),
            None => {},
        }
        lemma_attached_total_last(cs, disks, disks.len() as int);
        assert forall|i: int, j: int| 0 <= i < j < disks.len() implies attached(cs, disks, i).len()
            + attached(cs, disks, j).len() <= owned_count(cs, disks) by {
            assert(attached(rest, disks, i).len() + attached(rest, disks, j).len() <= owned_count(
                rest,
                disks,
            ));
        }
    } else {
        lemma_attached_total_none(cs, disks, disks.len() as int);
    }
}

/// Index of the disk whose device is `base`, searching from the front.
fn find_owner(disks: &Vec<PhysicalDisk>, base: &Vec<char>) -> (r: Option<usize>)
    ensures
        r matches Some(k) ==> owner_from(disks@, base@, 0) == Some(k as int),
        r is None ==> owner_from(disks@, base@, 0) is None,
{
    let mut j: usize = 0;
    while j < disks.len()
        invariant
            j <= disks.len(),
            owner_from(disks@, base@, 0) == owner_from(disks@, base@, j as int),
        decreases disks.len() - j,
    {
        let dv = chars_of(disks[j].device.as_str());
        if same_seq(&dv, base) {
            return Some(j);
        }
        j = j + 1;
    }
    None
}

fn same_seq(a: &Vec<char>, b: &Vec<char>) -> (r: bool)
    ensures
        r == (a@ == b@),
{
    if a.len() != b.len() {
        return false;
    }
    let mut i: usize = 0;
    while i < a.len()
        invariant
            a.len() == b.len(),
            i <= a.len(),
            forall|m: int| 0 <= m < i ==> a@[m] == b@[m],
        decreases a.len() - i,
    {
        if a[i] != b[i] {
            return false;
        }
        i = i + 1;
    }
    assert(a@ =~= b@);
    true
}

/// Attach each container (in order) to the disk that owns its physical
/// store.  A container whose store names no listed disk is dropped rather
/// than attributed to another disk.
pub fn attach_containers(disks: &mut Vec<PhysicalDisk>, containers: Vec<ContainerInfo>)
    ensures
        final(disks)@.len() == old(disks)@.len(),
        forall|i: int|
            0 <= i < old(disks)@.len() ==> {
                &&& same_disk_but_containers(#[trigger] final(disks)@[i], old(disks)@[i])
                &&& final(disks)@[i].containers@ == old(disks)@[i].containers@ + attached(
                    containers@,
                    old(disks)@,
                    i,
                )
            },
{
    let ghost orig = disks@;
    let ghost all = containers@;
    let mut rest = containers;
    let n = rest.len();
    let mut i: usize = 0;
    while i < n
        invariant
            n == all.len(),
            i <= n,
            rest@ == all.skip(i as int),
            disks@.len() == orig.len(),
            forall|k: int|
                0 <= k < orig.len() ==> {
                    &&& same_disk_but_containers(#[trigger] disks@[k], orig[k])
                    &&& disks@[k].containers@ == orig[k].containers@ + attached(
                        all.take(i as int),
                        orig,
                        k,
                    )
                },
        decreases n - i,
    {
        let c = rest.remove(0);
        proof {
            assert(all.take(i + 1).drop_last() =~= all.take(i as int));
            assert(all.take(i + 1).last() == all[i as int]);
            assert(all.skip(i + 1) =~= all.skip(i as int).remove(0));
            assert forall|k: int| 0 <= k < disks@.len() implies (#[trigger] disks@[k]).device
                == orig[k].device by {
                assert(same_disk_but_containers(disks@[k], orig[k]));
            }
            lemma_owner_same_devices(disks@, orig, base_disk(c.physical_store->0@), 0);
        }
        let owner = match &c.physical_store {
            Some(store) => {
                let base = base_disk_id(store.as_str());
                let bv = chars_of(base.as_str());
                find_owner(disks, &bv)
            },
            None => None,
        };
        match owner {
            Some(j) => {
                proof {
                    lemma_owner_from_found(disks@, base_disk(c.physical_store->0@), 0);
                }
                let ghost before = disks@;
                let mut d = disks.remove(j);
                d.containers.push(c);
                disks.insert(j, d);
                proof {
                    assert forall|k: int| 0 <= k < orig.len() implies {
                        &&& same_disk_but_containers(#[trigger] disks@[k], orig[k])
                        &&& disks@[k].containers@ == orig[k].containers@ + attached(
                            all.take(i + 1),
                            orig,
                            k,
                        )
                    } by {
                        if k == j {
                            assert(disks@[k].containers@ =~= before[k].containers@.push(
                                all[i as int],
                            ));
                        } else {
                            assert(disks@[k] == before[k]);
                        }
                    }
                }
            },
            None => {},
        }
        i = i + 1;
    }
    proof {
        assert(all.take(n as int) =~= all);
    }
}

/// The storage topology from the outcome of listing the physical disks and
/// of listing the APFS containers: a failed disk listing is the error; a
/// failed container listing means no containers.
pub fn build_topology(
    disks: Result<Vec<PhysicalDisk>, String>,
    containers: Result<Vec<ContainerInfo>, String>,
) -> (r: Result<Vec<PhysicalDisk>, String>)
    ensures
        match disks {
            Err(e) => r == Err::<Vec<PhysicalDisk>, String>(e),
            Ok(ds) => r matches Ok(out) && {
                let cs = match containers {
                    Ok(cs) => cs@,
                    Err(_) => Seq::empty(),
                };
                &&& out@.len() == ds@.len()
                &&& forall|i: int|
                    0 <= i < ds@.len() ==> {
                        &&& same_disk_but_containers(#[trigger] out@[i], ds@[i])
                        &&& out@[i].containers@ == ds@[i].containers@ + attached(cs, ds@, i)
                    }
            },
        },
{
    let mut ds = match disks {
        Ok(ds) => ds,
        Err(e) => {
            return Err(e);
        },
    };
    let cs = match containers {
        Ok(cs) => cs,
        Err(_) => Vec::new(),
    };
    attach_containers(&mut ds, cs);
    Ok(ds)
}

/// The device identifiers of the entries of a disk listing, in order:
/// each entry that is a dictionary with a string `DeviceIdentifier`.
pub open spec fn listed_ids(entries: Seq<PlistValue>) -> Seq<Seq<char>>
    decreases entries.len(),
{
    if entries.len() == 0 {
        Seq::empty()
    } else {
        let rest = listed_ids(entries.drop_last());
        match text(field(Some(entries.last()), "DeviceIdentifier"@)) {
            Some(id) => rest.push(id),
            None => rest,
        }
    }
}

/// `text(field(v, key))` of a present value, copied out.
fn text_field(v: &PlistValue, key: &str) -> (r: Option<String>)
    ensures
        text_matches(r, text(field(Some(*v), key@))),
{
    text_in(field_in(Some(v), key))
}

/// `unsigned(field(v, key))` of a present value.
fn unsigned_field(v: &PlistValue, key: &str) -> (r: Option<u64>)
    ensures
        r == unsigned(field(Some(*v), key@)),
{
    unsigned_in(field_in(Some(v), key))
}

/// The physical disks named by a `diskutil list -plist physical` document:
/// the device identifiers of its `AllDisksAndPartitions` entries, in order.
pub fn physical_disk_ids(doc: &PlistValue) -> (r: Result<Vec<String>, String>)
    ensures
        match items(field(Some(*doc), "AllDisksAndPartitions"@)) {
            Some(entries) => r matches Ok(ids) && {
                &&& ids@.len() == listed_ids(entries).len()
                &&& forall|i: int| 0 <= i < ids@.len() ==> #[trigger] ids@[i]@ == listed_ids(entries)[i]
            },
            None => r matches Err(e) && e@ == "no AllDisksAndPartitions"@,
        },
{
    let entries = match items_in(field_in(Some(doc), "AllDisksAndPartitions")) {
        Some(a) => a,
        None => {
            return Err(string_from("no AllDisksAndPartitions"));
        },
    };
    let mut ids: Vec<String> = Vec::new();
    let mut i: usize = 0;
    while i < entries.len()
        invariant
            i <= entries@.len(),
            ids@.len() == listed_ids(entries@.take(i as int)).len(),
            forall|j: int|
                0 <= j < ids@.len() ==> #[trigger] ids@[j]@ == listed_ids(entries@.take(i as int))[j],
        decreases entries.len() - i,
    {
        proof {
            assert(entries@.take(i + 1).drop_last() =~= entries@.take(i as int));
            assert(entries@.take(i + 1).last() == entries@[i as int]);
        }
        match text_field(&entries[i], "DeviceIdentifier") {
            Some(id) => {
                ids.push(id);
            },
            None => {},
        }
        i = i + 1;
    }
    proof {
        assert(entries@.take(entries@.len() as int) =~= entries@);
    }
    Ok(ids)
}

/// The disk listing's device identifiers from the bytes `diskutil list
/// -plist physical` printed; a document that does not parse is reported
/// with the parser's message after "diskutil list plist parse: ".
pub fn disk_ids_from_listing(stdout: &[u8]) -> (r: Result<Vec<String>, String>)
    ensures
        match document_of(stdout@) {
            Err(m) => r matches Err(e) && e@ == "diskutil list plist parse: "@ + m,
            Ok(doc) => match items(field(Some(doc), "AllDisksAndPartitions"@)) {
                Some(entries) => r matches Ok(ids) && {
                    &&& ids@.len() == listed_ids(entries).len()
                    &&& forall|i: int|
                        0 <= i < ids@.len() ==> #[trigger] ids@[i]@ == listed_ids(entries)[i]
                },
                None => r matches Err(e) && e@ == "no AllDisksAndPartitions"@,
            },
        },
{
    match parse_output(stdout) {
        Ok(doc) => physical_disk_ids(&doc),
        Err(m) => {
            let mut e = string_from("diskutil list plist parse: ");
            push_str(&mut e, m.as_str());
            Err(e)
        },
    }
}

/// Does `r` hold what the `diskutil info -plist` dictionary `d` reports:
/// `MediaName`, `TotalSize`, `SMARTStatus`, and `TEMPERATURE` and
/// `POWER_ON_HOURS_0` of `SMARTDeviceSpecificKeysMayVaryNotGuaranteed`?
pub open spec fn disk_info_reads(d: PlistValue, r: RawDiskInfo) -> bool {
    let doc = Some(d);
    let smart = field(doc, "SMARTDeviceSpecificKeysMayVaryNotGuaranteed"@);
    &&& text_matches(r.media_name, text(field(doc, "MediaName"@)))
    &&& r.total_size == unsigned(field(doc, "TotalSize"@))
    &&& text_matches(r.smart_status, text(field(doc, "SMARTStatus"@)))
    &&& r.temperature_kelvin == unsigned(field(smart, "TEMPERATURE"@))
    &&& r.power_on_hours == unsigned(field(smart, "POWER_ON_HOURS_0"@))
}

/// The fields of a `diskutil info -plist` document; one that is not a
/// dictionary is refused with "no dict".
pub fn raw_disk_info(doc: &PlistValue) -> (r: Result<RawDiskInfo, String>)
    ensures
        if is_dict(*doc) {
            r matches Ok(info) && disk_info_reads(*doc, info)
        } else {
            r matches Err(e) && e@ == "no dict"@
        },
{
    if !matches!(doc, PlistValue::Dictionary(_)) {
        return Err(string_from("no dict"));
    }
    let smart = field_in(Some(doc), "SMARTDeviceSpecificKeysMayVaryNotGuaranteed");
    Ok(RawDiskInfo {
        media_name: text_field(doc, "MediaName"),
        total_size: unsigned_field(doc, "TotalSize"),
        smart_status: text_field(doc, "SMARTStatus"),
        temperature_kelvin: unsigned_in(field_in(smart, "TEMPERATURE")),
        power_on_hours: unsigned_in(field_in(smart, "POWER_ON_HOURS_0")),
    })
}

/// The disk's fields from the bytes `diskutil info -plist` printed; a
/// document that does not parse is reported with the parser's message.
pub fn disk_info_from_output(stdout: &[u8]) -> (r: Result<RawDiskInfo, String>)
    ensures
        match document_of(stdout@) {
            Err(m) => r matches Err(e) && e@ == m,
            Ok(doc) => if is_dict(doc) {
                r matches Ok(info) && disk_info_reads(doc, info)
            } else {
                r matches Err(e) && e@ == "no dict"@
            },
        },
{
    match parse_output(stdout) {
        Ok(doc) => raw_disk_info(&doc),
        Err(m) => Err(m),
    }
}

/// Does `r` hold what the volume dictionary `v` of an APFS listing reports:
/// `DeviceIdentifier`, `Name`, `Role` and `CapacityInUse`?
pub open spec fn raw_volume_reads(v: PlistValue, r: RawVolume) -> bool {
    let vd = Some(v);
    &&& text_matches(r.device_identifier, text(field(vd, "DeviceIdentifier"@)))
    &&& text_matches(r.name, text(field(vd, "Name"@)))
    &&& text_matches(r.role, text(field(vd, "Role"@)))
    &&& r.capacity_in_use == unsigned(field(vd, "CapacityInUse"@))
}

/// The `DeviceIdentifier` of the first `PhysicalStores` entry of the
/// container dictionary `cd`.
pub open spec fn first_store(cd: PlistValue) -> Option<Seq<char>> {
    match items(field(Some(cd), "PhysicalStores"@)) {
        Some(stores) => if stores.len() > 0 {
            text(field(Some(stores[0]), "DeviceIdentifier"@))
        } else {
            None
        },
        None => None,
    }
}

/// Does `r` hold what the container dictionary `cd` of an APFS listing
/// reports: `ContainerReference`, the first physical store, the three
/// capacities, and one raw volume per dictionary among `Volumes`?
pub open spec fn raw_container_reads(cd: PlistValue, r: RawContainer) -> bool {
    let c = Some(cd);
    &&& text_matches(r.container_reference, text(field(c, "ContainerReference"@)))
    &&& text_matches(r.first_physical_store, first_store(cd))
    &&& r.capacity_ceiling == unsigned(field(c, "CapacityCeiling"@))
    &&& r.capacity_free == unsigned(field(c, "CapacityFree"@))
    &&& r.capacity_in_use == unsigned(field(c, "CapacityInUse"@))
    &&& match items(field(c, "Volumes"@)) {
        Some(vs) => {
            &&& r.volumes@.len() == dicts_in(vs).len()
            &&& forall|i: int|
                0 <= i < r.volumes@.len() ==> raw_volume_reads(
                    dicts_in(vs)[i],
                    #[trigger] r.volumes@[i],
                )
        },
        None => r.volumes@.len() == 0,
    }
}

fn raw_volume(v: &PlistValue) -> (r: RawVolume)
    ensures
        raw_volume_reads(*v, r),
{
    RawVolume {
        device_identifier: text_field(v, "DeviceIdentifier"),
        name: text_field(v, "Name"),
        role: text_field(v, "Role"),
        capacity_in_use: unsigned_field(v, "CapacityInUse"),
    }
}

fn first_physical_store(cd: &PlistValue) -> (r: Option<String>)
    ensures
        text_matches(r, first_store(*cd)),
{
    match items_in(field_in(Some(cd), "PhysicalStores")) {
        Some(stores) => if stores.len() > 0 {
            text_field(&stores[0], "DeviceIdentifier")
        } else {
            None
        },
        None => None,
    }
}

fn raw_volumes(vs: &Vec<PlistValue>) -> (r: Vec<RawVolume>)
    ensures
        r@.len() == dicts_in(vs@).len(),
        forall|i: int|
            0 <= i < r@.len() ==> raw_volume_reads(dicts_in(vs@)[i], #[trigger] r@[i]),
{
    let mut out: Vec<RawVolume> = Vec::new();
    let mut i: usize = 0;
    while i < vs.len()
        invariant
            i <= vs@.len(),
            out@.len() == dicts_in(vs@.take(i as int)).len(),
            forall|j: int|
                0 <= j < out@.len() ==> raw_volume_reads(
                    dicts_in(vs@.take(i as int))[j],
                    #[trigger] out@[j],
                ),
        decreases vs.len() - i,
    {
        proof {
            assert(vs@.take(i + 1).drop_last() =~= vs@.take(i as int));
            assert(vs@.take(i + 1).last() == vs@[i as int]);
        }
        if matches!(&vs[i], PlistValue::Dictionary(_)) {
            out.push(raw_volume(&vs[i]));
        }
        i = i + 1;
    }
    proof {
        assert(vs@.take(vs@.len() as int) =~= vs@);
    }
    out
}

/// The raw fields of one container dictionary of an APFS listing.
pub fn raw_container(cd: &PlistValue) -> (r: RawContainer)
    ensures
        raw_container_reads(*cd, r),
{
    let volumes = match items_in(field_in(Some(cd), "Volumes")) {
        Some(vs) => raw_volumes(vs),
        None => Vec::new(),
    };
    RawContainer {
        container_reference: text_field(cd, "ContainerReference"),
        first_physical_store: first_physical_store(cd),
        capacity_ceiling: unsigned_field(cd, "CapacityCeiling"),
        capacity_free: unsigned_field(cd, "CapacityFree"),
        capacity_in_use: unsigned_field(cd, "CapacityInUse"),
        volumes,
    }
}

/// Is `c` the container that the container dictionary `cd` of an APFS
/// listing describes?
pub open spec fn container_listed(c: ContainerInfo, cd: PlistValue) -> bool {
    exists|raw: RawContainer| #[trigger] raw_container_reads(cd, raw) && container_built(c, raw)
}

/// The containers of a `diskutil apfs list -plist` document: one per
/// dictionary among its `Containers`, in order.
pub fn apfs_containers(doc: &PlistValue) -> (r: Result<Vec<ContainerInfo>, String>)
    ensures
        match items(field(Some(*doc), "Containers"@)) {
            Some(entries) => r matches Ok(cs) && {
                &&& cs@.len() == dicts_in(entries).len()
                &&& forall|i: int|
                    0 <= i < cs@.len() ==> container_listed(#[trigger] cs@[i], dicts_in(entries)[i])
            },
            None => r matches Err(e) && e@ == "no Containers"@,
        },
{
    let entries = match items_in(field_in(Some(doc), "Containers")) {
        Some(a) => a,
        None => {
            return Err(string_from("no Containers"));
        },
    };
    let mut out: Vec<ContainerInfo> = Vec::new();
    let mut i: usize = 0;
    while i < entries.len()
        invariant
            i <= entries@.len(),
            out@.len() == dicts_in(entries@.take(i as int)).len(),
            forall|j: int|
                0 <= j < out@.len() ==> container_listed(
                    #[trigger] out@[j],
                    dicts_in(entries@.take(i as int))[j],
                ),
        decreases entries.len() - i,
    {
        proof {
            assert(entries@.take(i + 1).drop_last() =~= entries@.take(i as int));
            assert(entries@.take(i + 1).last() == entries@[i as int]);
        }
        if matches!(&entries[i], PlistValue::Dictionary(_)) {
            let raw = raw_container(&entries[i]);
            let ghost graw = raw;
            let c = container_from(raw);
            proof {
                assert(raw_container_reads(entries@[i as int], graw) && container_built(c, graw));
            }
            out.push(c);
        }
        i = i + 1;
    }
    proof {
        assert(entries@.take(entries@.len() as int) =~= entries@);
    }
    Ok(out)
}

/// The containers from the bytes `diskutil apfs list -plist` printed; a
/// document that does not parse is reported with the parser's message.
pub fn containers_from_listing(stdout: &[u8]) -> (r: Result<Vec<ContainerInfo>, String>)
    ensures
        match document_of(stdout@) {
            Err(m) => r matches Err(e) && e@ == m,
            Ok(doc) => match items(field(Some(doc), "Containers"@)) {
                Some(entries) => r matches Ok(cs) && {
                    &&& cs@.len() == dicts_in(entries).len()
                    &&& forall|i: int|
                        0 <= i < cs@.len() ==> container_listed(
                            #[trigger] cs@[i],
                            dicts_in(entries)[i],
                        )
                },
                None => r matches Err(e) && e@ == "no Containers"@,
            },
        },
{
    match parse_output(stdout) {
        Ok(doc) => apfs_containers(&doc),
        Err(m) => Err(m),
    }
}

} // verus!
