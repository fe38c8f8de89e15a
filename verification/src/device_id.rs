//! Anonymous, privacy-preserving storage device identity.
//!
//! `disk0`/`disk4` are per-enumeration addresses, not durable hardware
//! identities: the same number can be reassigned to a different physical
//! device after a reboot or hot-plug.  Keying history by `diskN` would then
//! join one disk's series onto another's.
//!
//! Without serials, UUIDs or product IDs a physical device cannot be tracked
//! perfectly.  Instead a locally computed fingerprint of non-unique medium
//! descriptors (name, size, number of backing stores) keys a registry that
//! hands out
//!
//!   * `device_uid`, an opaque anonymous id ("dev-<hex>") used as the history
//!     object id, never a raw `diskN`; and
//!   * `generation`, bumped when the same device address is seen again backed
//!     by a different medium, so a reused `diskN` starts a new series.
//!
//! Two genuinely different media with the same fingerprint cannot be told
//! apart within that boundary and stay merged.

use crate::storage::{ContainerInfo, PhysicalDisk};
use crate::text::{hex_digits, push_hex, push_str, string_from};
use std::collections::hash_map::DefaultHasher;
use std::collections::HashMap;
use std::hash::Hasher;
use vstd::prelude::*;
use vstd::std_specs::hash::DefaultHasherAdditionalSpecFns;

verus! {

broadcast use vstd::std_specs::hash::group_hash_axioms;

/// The `k` least significant bytes of `n`, least significant first.
pub open spec fn le_bytes(n: nat, k: nat) -> Seq<u8>
    decreases k,
{
    if k == 0 {
        Seq::empty()
    } else {
        seq![(n % 256) as u8] + le_bytes(n / 256, (k - 1) as nat)
    }
}

/// What the fingerprint hashes, write by write: the name's UTF-8 bytes and
/// the `0xff` terminator `str` hashing appends, then the size and the store
/// count as 8 little-endian bytes each.
pub open spec fn fingerprint_writes(name: Seq<char>, size_bytes: u64, store_count: u64) -> Seq<
    Seq<u8>,
> {
    seq![
        vstd::utf8::encode_utf8(name),
        seq![0xffu8],
        le_bytes(size_bytes as nat, 8),
        le_bytes(store_count as nat, 8),
    ]
}

/// The fingerprint of a medium: `DefaultHasher` over [`fingerprint_writes`].
pub open spec fn fingerprint_of(name: Seq<char>, size_bytes: u64, store_count: u64) -> u64 {
    DefaultHasher::spec_finish(fingerprint_writes(name, size_bytes, store_count))
}

/// `256` to the power `k`.
pub open spec fn pow256(k: nat) -> nat
    decreases k,
{
    if k == 0 {
        1
    } else {
        256 * pow256((k - 1) as nat)
    }
}

/// Below `256^k`, the `k` little-endian bytes determine the number.
proof fn lemma_le_bytes_injective(a: nat, b: nat, k: nat)
    requires
        a < pow256(k),
        b < pow256(k),
        le_bytes(a, k) == le_bytes(b, k),
    ensures
        a == b,
    decreases k,
{
    if k > 0 {
        let p = pow256((k - 1) as nat);
        assert(le_bytes(a, k)[0] == le_bytes(b, k)[0]);
        assert(le_bytes(a, k).drop_first() =~= le_bytes(a / 256, (k - 1) as nat));
        assert(le_bytes(b, k).drop_first() =~= le_bytes(b / 256, (k - 1) as nat));
        assert(a / 256 < p) by (nonlinear_arith)
            requires
                a < 256 * p,
        ;
        assert(b / 256 < p) by (nonlinear_arith)
            requires
                b < 256 * p,
        ;
        lemma_le_bytes_injective(a / 256, b / 256, (k - 1) as nat);
        let ra = a % 256;
        let rb = b % 256;
        assert(le_bytes(a, k)[0] == ra as u8);
        assert(le_bytes(b, k)[0] == rb as u8);
        assert(ra as u8 == ra && rb as u8 == rb);
        assert(a % 256 == b % 256);
        assert(a == 256 * (a / 256) + a % 256) by (nonlinear_arith);
        assert(b == 256 * (b / 256) + b % 256) by (nonlinear_arith);
    } else {
        assert(pow256(0) == 1);
    }
}

/// Media whose name, size or store count differ feed the hasher different
/// inputs, so only a hash collision could give them one fingerprint; in
/// particular a single-store medium and a multi-store pool of the same name
/// and size are hashed apart.
pub proof fn law_fingerprint_separates_descriptors(
    name1: Seq<char>,
    size1: u64,
    count1: u64,
    name2: Seq<char>,
    size2: u64,
    count2: u64,
)
    requires
        name1 != name2 || size1 != size2 || count1 != count2,
    ensures
        fingerprint_writes(name1, size1, count1) != fingerprint_writes(name2, size2, count2),
{
    let w1 = fingerprint_writes(name1, size1, count1);
    let w2 = fingerprint_writes(name2, size2, count2);
    if w1 == w2 {
        assert(pow256(8) == 0x1_0000_0000_0000_0000) by {
            reveal_with_fuel(pow256, 9);
        }
        assert(w1[0] == w2[0]);
        vstd::utf8::encode_utf8_decode_utf8(name1);
        vstd::utf8::encode_utf8_decode_utf8(name2);
        assert(w1[2] == w2[2]);
        lemma_le_bytes_injective(size1 as nat, size2 as nat, 8);
        assert(w1[3] == w2[3]);
        lemma_le_bytes_injective(count1 as nat, count2 as nat, 8);
    }
}

fn le_bytes_of(n: u64) -> (b: Vec<u8>)
    ensures
        b@ == le_bytes(n as nat, 8),
{
    let mut b: Vec<u8> = Vec::new();
    let mut x = n;
    let mut k: usize = 0;
    while k < 8
        invariant
            k <= 8,
            b@ + le_bytes(x as nat, (8 - k) as nat) == le_bytes(n as nat, 8),
        decreases 8 - k,
    {
        proof {
            assert(le_bytes(x as nat, (8 - k) as nat) == seq![(x as nat % 256) as u8] + le_bytes(
                (x / 256) as nat,
                (8 - k - 1) as nat,
            ));
        }
        b.push((x % 256) as u8);
        proof {
            assert(b@ + le_bytes((x / 256) as nat, (8 - (k + 1)) as nat) =~= (b@.drop_last() + seq![
                (x as nat % 256) as u8,
            ]) + le_bytes((x / 256) as nat, (8 - k - 1) as nat));
        }
        x = x / 256;
        k = k + 1;
    }
    assert(b@ + le_bytes(x as nat, 0) =~= b@);
    b
}

/// Stable, anonymous medium fingerprint from non-unique descriptors only.
/// It never includes serials, UUIDs or product IDs, nor the volatile `diskN`
/// address, so the same medium keeps one uid across re-enumeration.  The
/// store count is mixed in so a single-disk medium and a multi-disk pool of
/// the same nominal name and size do not collide.
///
/// The writes are those that hashing the name (`str`), the size (`u64`) and
/// the store count (`usize`) makes on the little-endian 64-bit targets the
/// monitor runs on; on another target the value differs, but it is as stable
/// and as descriptor-sensitive, and it never leaves the process.
pub fn medium_fingerprint(name: &str, size_bytes: u64, store_count: usize) -> (f: u64)
    ensures
        f == fingerprint_of(name@, size_bytes, store_count as u64),
{
    let mut h = DefaultHasher::new();
    let nb = name.as_bytes();
    assert(nb@ == vstd::utf8::encode_utf8(name@));
    h.write(nb);
    let terminator: Vec<u8> = vec![0xffu8];
    assert(terminator@ =~= seq![0xffu8]);
    h.write(terminator.as_slice());
    let size = le_bytes_of(size_bytes);
    h.write(size.as_slice());
    let count = le_bytes_of(store_count as u64);
    h.write(count.as_slice());
    proof {
        assert(h@ =~= fingerprint_writes(name@, size_bytes, store_count as u64));
    }
    h.finish()
}

/// One registered medium: its anonymous uid, generation, and the device
/// address it was last seen at.
pub struct DeviceRecord {
    device_uid: String,
    generation: u32,
    last_device: String,
}

/// A registered medium, abstractly.
pub struct RecordView {
    pub uid: Seq<char>,
    pub generation: u32,
    pub last_device: Seq<char>,
}

impl View for DeviceRecord {
    type V = RecordView;

    closed spec fn view(&self) -> RecordView {
        RecordView {
            uid: self.device_uid@,
            generation: self.generation,
            last_device: self.last_device@,
        }
    }
}

/// The registry, abstractly: records by fingerprint, the fingerprint last
/// seen at each device address, and the number of uids minted so far.
pub struct RegistryView {
    pub records: Map<u64, RecordView>,
    pub devices: Map<Seq<char>, u64>,
    pub next_uid: u32,
}

/// The uid minted as number `k`: "dev-" and eight lowercase hex digits.
pub open spec fn uid_text(k: u32) -> Seq<char> {
    "dev-"@ + hex_digits(k as nat, 8)
}

/// Was `uid` minted as one of the numbers `1..=bound`?
pub open spec fn minted_within(uid: Seq<char>, bound: u32) -> bool {
    exists|k: u32| 1 <= k <= bound && uid == uid_text(k)
}

/// The registry's invariant: the counter is the number of media
/// registered, every uid was minted by the counter, and no two fingerprints
/// share a uid.
pub open spec fn registry_wf(m: RegistryView) -> bool {
    &&& m.records.dom().finite()
    &&& m.records.dom().len() == m.next_uid
    &&& forall|fp: u64| #[trigger]
        m.records.contains_key(fp) ==> minted_within(m.records[fp].uid, m.next_uid)
    &&& forall|a: u64, b: u64|
        #![trigger m.records[a], m.records[b]]
        m.records.contains_key(a) && m.records.contains_key(b) && a != b ==> m.records[a].uid
            != m.records[b].uid
}

/// Would [`DeviceRegistry::assign`] need to bump the generation of the
/// medium previously seen at `device`, and which one is it?
pub open spec fn reused_owner(m: RegistryView, device: Seq<char>, fp: u64) -> Option<u64> {
    if m.devices.contains_key(device) && m.devices[device] != fp && m.records.contains_key(
        m.devices[device],
    ) {
        Some(m.devices[device])
    } else {
        None
    }
}

/// The registry after assigning the medium with fingerprint `fp` seen at
/// `device`, with the uid and generation handed out.
pub open spec fn assign_step(m: RegistryView, device: Seq<char>, fp: u64) -> (
    RegistryView,
    Seq<char>,
    u32,
) {
    let recs = match reused_owner(m, device, fp) {
        Some(p) => m.records.insert(
            p,
            RecordView { generation: (m.records[p].generation + 1) as u32, ..m.records[p] },
        ),
        None => m.records,
    };
    let devices = m.devices.insert(device, fp);
    if recs.contains_key(fp) {
        let r = recs[fp];
        (
            RegistryView {
                records: recs.insert(fp, RecordView { last_device: device, ..r }),
                devices,
                next_uid: m.next_uid,
            },
            r.uid,
            r.generation,
        )
    } else {
        let n = (m.next_uid + 1) as u32;
        (
            RegistryView {
                records: recs.insert(fp, RecordView { uid: uid_text(n), generation: 0, last_device: device }),
                devices,
                next_uid: n,
            },
            uid_text(n),
            0,
        )
    }
}

/// The counters [`assign_step`] increments have room: a new medium needs a
/// fresh uid number, and a reused address bumps its previous medium's
/// generation.
pub open spec fn assign_has_room(m: RegistryView, device: Seq<char>, fp: u64) -> bool {
    &&& !m.records.contains_key(fp) ==> m.next_uid < u32::MAX
    &&& reused_owner(m, device, fp) matches Some(p) ==> m.records[p].generation < u32::MAX
}

pub struct DeviceRegistry {
    /// fingerprint -> record
    by_fingerprint: HashMap<u64, DeviceRecord>,
    /// device address -> fingerprint, to detect address reuse by a new
    /// medium.  vstd specifies `HashMap` only for keys with a key model
    /// (integers, `bool` and boxes of them), not for `String`, so the
    /// addresses are kept in a list with one entry per address, looked up by
    /// its first match; its view is the map `devices`.
    by_device: Vec<(String, u64)>,
    /// number of uids minted so far (the uid is stable per fingerprint; the
    /// counter only mints new ones)
    next_uid: u32,
}

/// The fingerprint first listed for `d` in an association list.
pub open spec fn assoc(s: Seq<(Seq<char>, u64)>, d: Seq<char>) -> Option<u64>
    decreases s.len(),
{
    if s.len() == 0 {
        None
    } else if s[0].0 == d {
        Some(s[0].1)
    } else {
        assoc(s.drop_first(), d)
    }
}

pub open spec fn assoc_map(s: Seq<(Seq<char>, u64)>) -> Map<Seq<char>, u64> {
    Map::new(|d: Seq<char>| assoc(s, d) is Some, |d: Seq<char>| assoc(s, d)->0)
}

pub open spec fn pairs_view(s: Seq<(String, u64)>) -> Seq<(Seq<char>, u64)> {
    s.map_values(|p: (String, u64)| (p.0@, p.1))
}

impl View for DeviceRegistry {
    type V = RegistryView;

    closed spec fn view(&self) -> RegistryView {
        RegistryView {
            records: self.by_fingerprint@.map_values(|r: DeviceRecord| r@),
            devices: assoc_map(pairs_view(self.by_device@)),
            next_uid: self.next_uid,
        }
    }
}

proof fn lemma_assoc_first(s: Seq<(Seq<char>, u64)>, d: Seq<char>, i: int)
    requires
        0 <= i < s.len(),
        s[i].0 == d,
        forall|j: int| 0 <= j < i ==> s[j].0 != d,
    ensures
        assoc(s, d) == Some(s[i].1),
    decreases i,
{
    if i > 0 {
        lemma_assoc_first(s.drop_first(), d, i - 1);
    }
}

proof fn lemma_assoc_absent(s: Seq<(Seq<char>, u64)>, d: Seq<char>)
    requires
        forall|j: int| 0 <= j < s.len() ==> s[j].0 != d,
    ensures
        assoc(s, d) is None,
    decreases s.len(),
{
    if s.len() > 0 {
        lemma_assoc_absent(s.drop_first(), d);
    }
}

/// Updating the first entry for `d` maps `d` to `v` and leaves other keys alone.
proof fn lemma_assoc_update(s: Seq<(Seq<char>, u64)>, d: Seq<char>, i: int, v: u64, x: Seq<char>)
    requires
        0 <= i < s.len(),
        s[i].0 == d,
        forall|j: int| 0 <= j < i ==> s[j].0 != d,
    ensures
        assoc(s.update(i, (d, v)), x) == if x == d {
            Some(v)
        } else {
            assoc(s, x)
        },
    decreases i,
{
    if i == 0 {
        assert(s.update(0, (d, v)).drop_first() =~= s.drop_first());
    } else {
        assert(s.update(i, (d, v)).drop_first() =~= s.drop_first().update(i - 1, (d, v)));
        lemma_assoc_update(s.drop_first(), d, i - 1, v, x);
    }
}

/// Appending `(d, v)` when `d` is absent maps `d` to `v` and leaves other keys alone.
proof fn lemma_assoc_push(s: Seq<(Seq<char>, u64)>, d: Seq<char>, v: u64, x: Seq<char>)
    requires
        assoc(s, d) is None,
    ensures
        assoc(s.push((d, v)), x) == if x == d {
            Some(v)
        } else {
            assoc(s, x)
        },
    decreases s.len(),
{
    if s.len() == 0 {
        assert(s.push((d, v)).drop_first() =~= Seq::<(Seq<char>, u64)>::empty());
    } else {
        assert(s.push((d, v)).drop_first() =~= s.drop_first().push((d, v)));
        lemma_assoc_push(s.drop_first(), d, v, x);
    }
}

/// Fingerprints first: the record of a hex digit determines the digit.
proof fn lemma_hex_char_injective(a: nat, b: nat)
    requires
        a < 16,
        b < 16,
        crate::text::hex_char(a) == crate::text::hex_char(b),
    ensures
        a == b,
{
    assert(crate::text::hex_char(a) as u32 as int == if a < 10 {
        48 + a as int
    } else {
        97 + a - 10
    });
    assert(crate::text::hex_char(b) as u32 as int == if b < 10 {
        48 + b as int
    } else {
        97 + b - 10
    });
}

pub open spec fn pow16(w: nat) -> nat
    decreases w,
{
    if w == 0 {
        1
    } else {
        16 * pow16((w - 1) as nat)
    }
}

proof fn lemma_hex_digits_injective(a: nat, b: nat, w: nat)
    requires
        a < pow16(w),
        b < pow16(w),
        hex_digits(a, w) == hex_digits(b, w),
    ensures
        a == b,
    decreases w,
{
    if w > 0 {
        let ha = hex_digits((a / 16) as nat, (w - 1) as nat);
        let hb = hex_digits((b / 16) as nat, (w - 1) as nat);
        assert(hex_digits(a, w) == ha.push(crate::text::hex_char(a % 16)));
        assert(hex_digits(b, w) == hb.push(crate::text::hex_char(b % 16)));
        assert(ha.push(crate::text::hex_char(a % 16)).last() == crate::text::hex_char(a % 16));
        assert(ha =~= hex_digits(a, w).drop_last());
        assert(hb =~= hex_digits(b, w).drop_last());
        lemma_hex_char_injective(a % 16, b % 16);
        assert(a / 16 < pow16((w - 1) as nat)) by (nonlinear_arith)
            requires
                a < 16 * pow16((w - 1) as nat),
        ;
        assert(b / 16 < pow16((w - 1) as nat)) by (nonlinear_arith)
            requires
                b < 16 * pow16((w - 1) as nat),
        ;
        lemma_hex_digits_injective((a / 16) as nat, (b / 16) as nat, (w - 1) as nat);
        assert(a == 16 * (a / 16) + a % 16) by (nonlinear_arith);
        assert(b == 16 * (b / 16) + b % 16) by (nonlinear_arith);
    }
}

/// Different uid numbers give different uid texts.
pub proof fn lemma_uid_text_injective(j: u32, k: u32)
    requires
        j != k,
    ensures
        uid_text(j) != uid_text(k),
{
    if uid_text(j) == uid_text(k) {
        let p = "dev-"@;
        assert(uid_text(j).subrange(p.len() as int, uid_text(j).len() as int) =~= hex_digits(
            j as nat,
            8,
        ));
        assert(uid_text(k).subrange(p.len() as int, uid_text(k).len() as int) =~= hex_digits(
            k as nat,
            8,
        ));
        assert(pow16(8) == 0x1_0000_0000) by {
            reveal_with_fuel(pow16, 9);
        }
        lemma_hex_digits_injective(j as nat, k as nat, 8);
    }
}

/// Assigning keeps the registry's invariant.
pub proof fn lemma_assign_keeps_wf(m: RegistryView, device: Seq<char>, fp: u64)
    requires
        registry_wf(m),
        assign_has_room(m, device, fp),
    ensures
        registry_wf(assign_step(m, device, fp).0),
{
    let recs = match reused_owner(m, device, fp) {
        Some(p) => m.records.insert(
            p,
            RecordView { generation: (m.records[p].generation + 1) as u32, ..m.records[p] },
        ),
        None => m.records,
    };
    assert(recs.dom() =~= m.records.dom());
    assert(forall|x: u64| #[trigger] recs.contains_key(x) ==> recs[x].uid == m.records[x].uid);
    let m2 = assign_step(m, device, fp).0;
    if !recs.contains_key(fp) {
        let n = (m.next_uid + 1) as u32;
        assert(m2.records.dom() =~= m.records.dom().insert(fp));
        assert forall|x: u64| #[trigger] m2.records.contains_key(x) implies minted_within(
            m2.records[x].uid,
            m2.next_uid,
        ) by {
            if x != fp {
                let k = choose|k: u32| 1 <= k <= m.next_uid && m.records[x].uid == uid_text(k);
                assert(1 <= k <= m2.next_uid && m2.records[x].uid == uid_text(k));
            } else {
                assert(m2.records[x].uid == uid_text(n));
            }
        }
        assert forall|a: u64, b: u64|
            m2.records.contains_key(a) && m2.records.contains_key(b) && a != b implies #[trigger] m2.records[a].uid
            != #[trigger] m2.records[b].uid by {
            if a == fp {
                let k = choose|k: u32| 1 <= k <= m.next_uid && m.records[b].uid == uid_text(k);
                lemma_uid_text_injective(n, k);
            } else if b == fp {
                let k = choose|k: u32| 1 <= k <= m.next_uid && m.records[a].uid == uid_text(k);
                lemma_uid_text_injective(n, k);
            } else {
                assert(m.records[a].uid != m.records[b].uid);
            }
        }
    } else {
        assert(m2.records.dom() =~= m.records.dom());
        assert forall|x: u64| #[trigger] m2.records.contains_key(x) implies minted_within(
            m2.records[x].uid,
            m2.next_uid,
        ) by {
            assert(m2.records[x].uid == m.records[x].uid);
        }
        assert forall|a: u64, b: u64|
            m2.records.contains_key(a) && m2.records.contains_key(b) && a != b implies #[trigger] m2.records[a].uid
            != #[trigger] m2.records[b].uid by {
            assert(m2.records[a].uid == m.records[a].uid);
            assert(m2.records[b].uid == m.records[b].uid);
        }
    }
}


/// A medium already registered keeps its uid wherever it is seen again:
/// re-enumeration at another address does not change the history key.
pub proof fn law_known_medium_keeps_uid(m: RegistryView, device: Seq<char>, fp: u64)
    requires
        m.records.contains_key(fp),
    ensures
        assign_step(m, device, fp).1 == m.records[fp].uid,
        assign_step(m, device, fp).0.records[fp].uid == m.records[fp].uid,
{
}

/// Seeing the same medium at the same address again hands out the same
/// uid and generation.
pub proof fn law_reassign_is_stable(m: RegistryView, device: Seq<char>, fp: u64)
    ensures
        ({
            let (m2, uid, generation) = assign_step(m, device, fp);
            &&& assign_step(m2, device, fp).1 == uid
            &&& assign_step(m2, device, fp).2 == generation
        }),
{
    let m2 = assign_step(m, device, fp).0;
    assert(m2.devices[device] == fp);
    assert(reused_owner(m2, device, fp) is None);
}

/// A medium not seen before gets generation 0 and the uid minted from the
/// number of media seen so far, counting itself (the `k`-th new medium is
/// "dev-" and `k` in eight hex digits); no other registered medium has that
/// uid, so distinct media never share one.
pub proof fn law_new_medium_gets_fresh_uid(m: RegistryView, device: Seq<char>, fp: u64)
    requires
        registry_wf(m),
        assign_has_room(m, device, fp),
        !m.records.contains_key(fp),
    ensures
        assign_step(m, device, fp).2 == 0,
        assign_step(m, device, fp).1 == uid_text((m.records.dom().len() + 1) as u32),
        assign_step(m, device, fp).0.records.dom().len() == m.records.dom().len() + 1,
        forall|x: u64| #[trigger]
            m.records.contains_key(x) ==> m.records[x].uid != assign_step(m, device, fp).1,
        registry_wf(assign_step(m, device, fp).0),
{
    lemma_assign_keeps_wf(m, device, fp);
    let n = (m.next_uid + 1) as u32;
    assert forall|x: u64| #[trigger] m.records.contains_key(x) implies m.records[x].uid
        != assign_step(m, device, fp).1 by {
        let k = choose|k: u32| 1 <= k <= m.next_uid && m.records[x].uid == uid_text(k);
        lemma_uid_text_injective(n, k);
    }
}

/// When an address that belonged to one medium shows up backed by another,
/// the previous medium's generation goes up by one (its uid stays), so the
/// reused address does not continue the previous owner's series.
pub proof fn law_address_reuse_bumps_generation(m: RegistryView, device: Seq<char>, fp: u64)
    requires
        m.devices.contains_key(device),
        m.devices[device] != fp,
        m.records.contains_key(m.devices[device]),
        assign_has_room(m, device, fp),
    ensures
        ({
            let p = m.devices[device];
            let m2 = assign_step(m, device, fp).0;
            &&& m2.records[p].generation == m.records[p].generation + 1
            &&& m2.records[p].uid == m.records[p].uid
        }),
{
}

/// Assignment never forgets a medium, never changes a uid, and never
/// lowers a generation.
pub proof fn law_generations_never_decrease(m: RegistryView, device: Seq<char>, fp: u64)
    requires
        assign_has_room(m, device, fp),
    ensures
        forall|x: u64| #[trigger]
            m.records.contains_key(x) ==> {
                let m2 = assign_step(m, device, fp).0;
                &&& m2.records.contains_key(x)
                &&& m2.records[x].uid == m.records[x].uid
                &&& m2.records[x].generation >= m.records[x].generation
            },
{
}

/// The generation bookkeeping of one assignment: the medium previously
/// seen at a reused address goes up by exactly one generation, no other
/// generation changes, the address now maps to the assigned medium, and
/// the generation handed out is that medium's current one (0 for a medium
/// seen for the first time).
pub proof fn law_generation_bookkeeping(m: RegistryView, device: Seq<char>, fp: u64)
    requires
        assign_has_room(m, device, fp),
    ensures
        ({
            let (m2, uid, generation) = assign_step(m, device, fp);
            &&& m2.devices[device] == fp
            &&& m2.records.contains_key(fp)
            &&& generation == m2.records[fp].generation
            &&& !m.records.contains_key(fp) ==> generation == 0
            &&& forall|x: u64| #[trigger]
                m.records.contains_key(x) ==> m2.records[x].generation == if reused_owner(
                    m,
                    device,
                    fp,
                ) == Some(x) {
                    m.records[x].generation + 1
                } else {
                    m.records[x].generation as int
                }
        }),
{
}

/// A sequence of assignments, each a device address and a medium
/// fingerprint, applied in order from `m`: the registry afterwards and the
/// `(uid, generation)` each of them handed out.
pub open spec fn assign_run(m: RegistryView, calls: Seq<(Seq<char>, u64)>) -> (
    RegistryView,
    Seq<(Seq<char>, u32)>,
)
    decreases calls.len(),
{
    if calls.len() == 0 {
        (m, Seq::empty())
    } else {
        let (m1, outs) = assign_run(m, calls.drop_last());
        let (m2, uid, generation) = assign_step(m1, calls.last().0, calls.last().1);
        (m2, outs.push((uid, generation)))
    }
}

/// Every assignment of the sequence finds room in the counters it
/// increments.
pub open spec fn run_has_room(m: RegistryView, calls: Seq<(Seq<char>, u64)>) -> bool
    decreases calls.len(),
{
    calls.len() == 0 || (run_has_room(m, calls.drop_last()) && assign_has_room(
        assign_run(m, calls.drop_last()).0,
        calls.last().0,
        calls.last().1,
    ))
}

/// The fingerprints the assignments in `calls` name.
pub open spec fn fingerprints(calls: Seq<(Seq<char>, u64)>) -> Set<u64> {
    Set::new(|fp: u64| exists|i: int| 0 <= i < calls.len() && calls[i].1 == fp)
}

proof fn lemma_run(m: RegistryView, calls: Seq<(Seq<char>, u64)>)
    requires
        registry_wf(m),
        run_has_room(m, calls),
    ensures
        ({
            let (m2, outs) = assign_run(m, calls);
            &&& outs.len() == calls.len()
            &&& registry_wf(m2)
            &&& m2.records.dom() == m.records.dom() + fingerprints(calls)
            &&& forall|x: u64| #[trigger]
                m.records.contains_key(x) ==> m2.records[x].uid == m.records[x].uid
            &&& forall|i: int|
                0 <= i < calls.len() ==> m2.records.contains_key(calls[i].1) && (
                #[trigger] outs[i]).0 == m2.records[calls[i].1].uid
            &&& forall|i: int|
                0 <= i < calls.len() && !m.records.contains_key(calls[i].1) && (forall|j: int|
                    0 <= j < i ==> calls[j].1 != calls[i].1) ==> #[trigger] outs[i] == (
                    uid_text((m.records.dom() + fingerprints(calls.take(i + 1))).len() as u32),
                    0u32,
                )
        }),
    decreases calls.len(),
{
    if calls.len() == 0 {
        assert(fingerprints(calls) =~= Set::empty());
        assert(m.records.dom() + fingerprints(calls) =~= m.records.dom());
    } else {
        let pre = calls.drop_last();
        lemma_run(m, pre);
        let (m1, outs1) = assign_run(m, pre);
        let (device, fp) = calls.last();
        let st = assign_step(m1, device, fp);
        let outs = assign_run(m, calls).1;
        assert(assign_run(m, calls) == (st.0, outs1.push((st.1, st.2))));
        lemma_assign_keeps_wf(m1, device, fp);
        law_generations_never_decrease(m1, device, fp);
        assert(fingerprints(calls) =~= fingerprints(pre).insert(fp)) by {
            assert forall|x: u64| fingerprints(calls).contains(x) implies #[trigger] fingerprints(
                pre,
            ).insert(fp).contains(x) by {
                let i = choose|i: int| 0 <= i < calls.len() && calls[i].1 == x;
                if i < pre.len() {
                    assert(pre[i] == calls[i]);
                }
            }
            assert forall|x: u64| #[trigger] fingerprints(pre).insert(fp).contains(x) implies fingerprints(
                calls,
            ).contains(x) by {
                if x == fp {
                    assert(calls[calls.len() - 1].1 == x);
                } else {
                    let i = choose|i: int| 0 <= i < pre.len() && pre[i].1 == x;
                    assert(calls[i] == pre[i]);
                }
            }
        }
        assert(st.0.records.dom() =~= m1.records.dom().insert(fp));
        assert(st.0.records.dom() =~= m.records.dom() + fingerprints(calls));
        assert(st.0.records.contains_key(fp) && st.0.records[fp].uid == st.1);
        assert forall|i: int| 0 <= i < calls.len() implies st.0.records.contains_key(calls[i].1) && (
        #[trigger] outs[i]).0 == st.0.records[calls[i].1].uid by {
            if i < pre.len() {
                assert(calls[i] == pre[i]);
                assert(outs[i] == outs1[i]);
            }
        }
        assert forall|i: int|
            0 <= i < calls.len() && !m.records.contains_key(calls[i].1) && (forall|j: int|
                0 <= j < i ==> calls[j].1 != calls[i].1) implies #[trigger] outs[i] == (
            uid_text((m.records.dom() + fingerprints(calls.take(i + 1))).len() as u32),
            0u32,
        ) by {
            if i < pre.len() {
                assert(calls[i] == pre[i]);
                assert(outs[i] == outs1[i]);
                assert(calls.take(i + 1) =~= pre.take(i + 1));
                assert forall|j: int| 0 <= j < i implies pre[j].1 != pre[i].1 by {
                    assert(pre[j] == calls[j]);
                }
            } else {
                assert(calls.take(i + 1) =~= calls);
                assert(!fingerprints(pre).contains(fp)) by {
                    if fingerprints(pre).contains(fp) {
                        let j = choose|j: int| 0 <= j < pre.len() && pre[j].1 == fp;
                        assert(calls[j] == pre[j]);
                    }
                }
                assert(!m1.records.contains_key(fp));
                assert(reused_owner(m1, device, fp) is Some ==> reused_owner(m1, device, fp)->0 != fp);
                assert(st.1 == uid_text((m1.next_uid + 1) as u32));
                assert(m1.records.dom().insert(fp).len() == m1.records.dom().len() + 1);
            }
        }
    }
}

/// Across any sequence of assignments starting from a valid registry: two
/// assignments hand out the same uid exactly when they name the same
/// medium fingerprint, whatever their device addresses; a medium already
/// registered gets the uid it was registered under; and a medium seen for
/// the first time gets generation 0 and the uid minted from the number of
/// distinct media seen so far, itself included.
pub proof fn law_uids_across_assignments(m: RegistryView, calls: Seq<(Seq<char>, u64)>)
    requires
        registry_wf(m),
        run_has_room(m, calls),
    ensures
        ({
            let outs = assign_run(m, calls).1;
            &&& outs.len() == calls.len()
            &&& forall|i: int, j: int|
                0 <= i < calls.len() && 0 <= j < calls.len() ==> ((#[trigger] outs[i]).0 == (
                #[trigger] outs[j]).0 <==> calls[i].1 == calls[j].1)
            &&& forall|i: int|
                0 <= i < calls.len() && m.records.contains_key(calls[i].1) ==> (
                #[trigger] outs[i]).0 == m.records[calls[i].1].uid
            &&& forall|i: int|
                0 <= i < calls.len() && !m.records.contains_key(calls[i].1) && (forall|j: int|
                    0 <= j < i ==> calls[j].1 != calls[i].1) ==> #[trigger] outs[i] == (
                    uid_text((m.records.dom() + fingerprints(calls.take(i + 1))).len() as u32),
                    0u32,
                )
        }),
{
    lemma_run(m, calls);
    let (m2, outs) = assign_run(m, calls);
    assert forall|i: int, j: int|
        0 <= i < calls.len() && 0 <= j < calls.len() implies ((#[trigger] outs[i]).0 == (
    #[trigger] outs[j]).0 <==> calls[i].1 == calls[j].1) by {
        if calls[i].1 != calls[j].1 {
            assert(m2.records[calls[i].1].uid != m2.records[calls[j].1].uid);
        }
    }
}

impl DeviceRegistry {
    pub open spec fn wf(&self) -> bool {
        registry_wf(self@)
    }

    /// An empty registry.
    pub fn new() -> (r: Self)
        ensures
            r.wf(),
            r@.records == Map::<u64, RecordView>::empty(),
            r@.devices == Map::<Seq<char>, u64>::empty(),
            r@.next_uid == 0,
    {
        let r = DeviceRegistry { by_fingerprint: HashMap::new(), by_device: Vec::new(), next_uid: 0 };
        proof {
            assert(r@.records =~= Map::<u64, RecordView>::empty());
            assert(r@.devices =~= Map::<Seq<char>, u64>::empty());
        }
        r
    }

    /// Index of the first entry for `device` in `by_device`.
    fn device_index(&self, device: &str) -> (r: Option<usize>)
        ensures
            r matches Some(i) ==> i < self.by_device@.len() && self.by_device@[i as int].0@
                == device@ && forall|j: int| 0 <= j < i ==> self.by_device@[j].0@ != device@,
            r is None ==> forall|j: int|
                0 <= j < self.by_device@.len() ==> self.by_device@[j].0@ != device@,
    {
        let mut i: usize = 0;
        while i < self.by_device.len()
            invariant
                i <= self.by_device@.len(),
                forall|j: int| 0 <= j < i ==> self.by_device@[j].0@ != device@,
            decreases self.by_device.len() - i,
        {
            if crate::text::str_eq(self.by_device[i].0.as_str(), device) {
                return Some(i);
            }
            i = i + 1;
        }
        None
    }

    /// Can [`Self::assign`] run on these inputs without a counter overflowing?
    pub fn can_assign(&self, device: &str, name: &str, size_bytes: u64, store_ids: &[String]) -> (b:
        bool)
        ensures
            b == assign_has_room(
                self@,
                device@,
                fingerprint_of(name@, size_bytes, store_ids@.len() as u64),
            ),
    {
        let fp = medium_fingerprint(name, size_bytes, store_ids.len());
        let known = self.by_fingerprint.get(&fp).is_some();
        if !known && self.next_uid == u32::MAX {
            return false;
        }
        match self.device_index(device) {
            Some(i) => {
                let prev = self.by_device[i].1;
                proof {
                    let s = pairs_view(self.by_device@);
                    lemma_assoc_first(s, device@, i as int);
                }
                if prev != fp {
                    match self.by_fingerprint.get(&prev) {
                        Some(rec) => rec.generation < u32::MAX,
                        None => true,
                    }
                } else {
                    true
                }
            },
            None => {
                proof {
                    lemma_assoc_absent(pairs_view(self.by_device@), device@);
                }
                true
            },
        }
    }

    /// Assign (or reconfirm) the anonymous identity for one physical disk.
    ///
    /// `device` is the current enumeration address; `name`, `size_bytes` and
    /// `store_ids` are the privacy-safe medium descriptors.  Returns
    /// `(device_uid, generation)`.
    pub fn assign(&mut self, device: &str, name: &str, size_bytes: u64, store_ids: &[String]) -> (r: (
        String,
        u32,
    ))
        requires
            old(self).wf(),
            assign_has_room(
                old(self)@,
                device@,
                fingerprint_of(name@, size_bytes, store_ids@.len() as u64),
            ),
        ensures
            final(self).wf(),
            ({
                let (m, uid, generation) = assign_step(
                    old(self)@,
                    device@,
                    fingerprint_of(name@, size_bytes, store_ids@.len() as u64),
                );
                &&& final(self)@ == m
                &&& r.0@ == uid
                &&& r.1 == generation
            }),
    {
        let fp = medium_fingerprint(name, size_bytes, store_ids.len());
        let ghost m0 = self@;
        proof {
            lemma_assign_keeps_wf(m0, device@, fp);
        }
        // Address reuse: if this device address was previously a different
        // medium, that medium's generation is bumped so the reused address
        // does not continue the old owner's series.
        let di = self.device_index(device);
        let ghost pv0 = pairs_view(self.by_device@);
        match di {
            Some(i) => {
                proof {
                    lemma_assoc_first(pv0, device@, i as int);
                }
                let prev = self.by_device[i].1;
                if prev != fp {
                    let bumped = match self.by_fingerprint.get(&prev) {
                        Some(rec) => Some(
                            DeviceRecord {
                                device_uid: rec.device_uid.clone(),
                                generation: rec.generation + 1,
                                last_device: rec.last_device.clone(),
                            },
                        ),
                        None => None,
                    };
                    if let Some(b) = bumped {
                        self.by_fingerprint.insert(prev, b);
                    }
                }
                self.by_device.set(i, (string_from(device), fp));
                proof {
                    assert forall|x: Seq<char>| true implies assoc(pairs_view(self.by_device@), x)
                        == if x == device@ {
                        Some(fp)
                    } else {
                        assoc(pv0, x)
                    } by {
                        assert(pairs_view(self.by_device@) =~= pv0.update(i as int, (device@, fp)));
                        lemma_assoc_update(pv0, device@, i as int, fp, x);
                    }
                }
            },
            None => {
                proof {
                    lemma_assoc_absent(pv0, device@);
                }
                self.by_device.push((string_from(device), fp));
                proof {
                    assert forall|x: Seq<char>| true implies assoc(pairs_view(self.by_device@), x)
                        == if x == device@ {
                        Some(fp)
                    } else {
                        assoc(pv0, x)
                    } by {
                        assert(pairs_view(self.by_device@) =~= pv0.push((device@, fp)));
                        lemma_assoc_push(pv0, device@, fp, x);
                    }
                }
            },
        }
        proof {
            assert(self@.devices =~= m0.devices.insert(device@, fp));
        }
        let found = match self.by_fingerprint.get(&fp) {
            Some(rec) => Some((rec.device_uid.clone(), rec.generation)),
            None => None,
        };
        let out = match found {
            Some((uid, generation)) => {
                let rec = DeviceRecord {
                    device_uid: uid.clone(),
                    generation,
                    last_device: string_from(device),
                };
                self.by_fingerprint.insert(fp, rec);
                (uid, generation)
            },
            None => {
                self.next_uid = self.next_uid + 1;
                let mut uid = string_from("dev-");
                push_hex(&mut uid, self.next_uid as u64, 8);
                let rec = DeviceRecord {
                    device_uid: uid.clone(),
                    generation: 0,
                    last_device: string_from(device),
                };
                self.by_fingerprint.insert(fp, rec);
                (uid, 0)
            },
        };
        proof {
            let (m, uid, generation) = assign_step(m0, device@, fp);
            assert(self@.records =~= m.records);
            assert(self@ == m);
        }
        out
    }
}

/// Number of containers in `cs` that name a physical store.
pub open spec fn store_count(cs: Seq<ContainerInfo>) -> nat
    decreases cs.len(),
{
    if cs.len() == 0 {
        0
    } else {
        store_count(cs.drop_last()) + if cs.last().physical_store is Some {
            1nat
        } else {
            0nat
        }
    }
}

/// The fingerprint of a listed disk: its name, size and number of backing
/// stores (the physical stores of its containers).
pub open spec fn disk_fingerprint(d: PhysicalDisk) -> u64 {
    fingerprint_of(d.name@, d.size_bytes, store_count(d.containers@) as u64)
}

/// Assigning identities to the disks of `ds` in order, starting from `m`:
/// the registry afterwards and the `(uid, generation)` of each disk
/// assigned.  Assignment stops at the first disk whose counters have no
/// room left.
pub open spec fn topology_ids(m: RegistryView, ds: Seq<PhysicalDisk>) -> (
    RegistryView,
    Seq<(Seq<char>, u32)>,
)
    decreases ds.len(),
{
    if ds.len() == 0 {
        (m, Seq::empty())
    } else {
        let (m1, ids) = topology_ids(m, ds.drop_last());
        let d = ds.last();
        if ids.len() < ds.len() - 1 || !assign_has_room(m1, d.device@, disk_fingerprint(d)) {
            (m1, ids)
        } else {
            let (m2, uid, generation) = assign_step(m1, d.device@, disk_fingerprint(d));
            (m2, ids.push((uid, generation)))
        }
    }
}

proof fn lemma_topology_ids_len(m: RegistryView, ds: Seq<PhysicalDisk>)
    ensures
        topology_ids(m, ds).1.len() <= ds.len(),
    decreases ds.len(),
{
    if ds.len() > 0 {
        lemma_topology_ids_len(m, ds.drop_last());
    }
}

/// A pass over a topology never forgets a medium or changes its uid.
proof fn lemma_topology_keeps_uids(m: RegistryView, ds: Seq<PhysicalDisk>)
    ensures
        forall|x: u64| #[trigger]
            m.records.contains_key(x) ==> {
                let m2 = topology_ids(m, ds).0;
                &&& m2.records.contains_key(x)
                &&& m2.records[x].uid == m.records[x].uid
            },
    decreases ds.len(),
{
    if ds.len() > 0 {
        let pre = ds.drop_last();
        lemma_topology_keeps_uids(m, pre);
        let (m1, ids) = topology_ids(m, pre);
        let d = ds.last();
        if !(ids.len() < ds.len() - 1 || !assign_has_room(m1, d.device@, disk_fingerprint(d))) {
            law_generations_never_decrease(m1, d.device@, disk_fingerprint(d));
        }
    }
}

/// Every disk a pass assigned is registered afterwards under the uid the
/// pass handed out for it.
proof fn lemma_topology_registers_assigned(m: RegistryView, ds: Seq<PhysicalDisk>)
    ensures
        forall|i: int|
            #![trigger topology_ids(m, ds).1[i]]
            #![trigger disk_fingerprint(ds[i])]
            0 <= i < topology_ids(m, ds).1.len() ==> {
                &&& topology_ids(m, ds).0.records.contains_key(disk_fingerprint(ds[i]))
                &&& topology_ids(m, ds).0.records[disk_fingerprint(ds[i])].uid == topology_ids(
                    m,
                    ds,
                ).1[i].0
            },
    decreases ds.len(),
{
    lemma_topology_ids_len(m, ds);
    if ds.len() > 0 {
        let pre = ds.drop_last();
        lemma_topology_registers_assigned(m, pre);
        lemma_topology_ids_len(m, pre);
        let m1 = topology_ids(m, pre).0;
        let ids = topology_ids(m, pre).1;
        let d = ds.last();
        let fp = disk_fingerprint(d);
        if !(ids.len() < ds.len() - 1 || !assign_has_room(m1, d.device@, fp)) {
            let st = assign_step(m1, d.device@, fp);
            assert(topology_ids(m, ds) == (st.0, ids.push((st.1, st.2))));
            law_generations_never_decrease(m1, d.device@, fp);
            assert(st.0.records.contains_key(fp) && st.0.records[fp].uid == st.1);
            assert forall|i: int|
                #![trigger topology_ids(m, ds).1[i]]
                #![trigger disk_fingerprint(ds[i])]
                0 <= i < topology_ids(m, ds).1.len() implies {
                &&& topology_ids(m, ds).0.records.contains_key(disk_fingerprint(ds[i]))
                &&& topology_ids(m, ds).0.records[disk_fingerprint(ds[i])].uid == topology_ids(
                    m,
                    ds,
                ).1[i].0
            } by {
                if i < ids.len() {
                    assert(ds[i] == pre[i]);
                    assert(topology_ids(m, ds).1[i] == topology_ids(m, pre).1[i]);
                    assert(m1.records.contains_key(disk_fingerprint(pre[i])));
                } else {
                    assert(ds[i] == d);
                }
            }
        } else {
            assert(topology_ids(m, ds) == (m1, ids));
            assert forall|i: int|
                #![trigger topology_ids(m, ds).1[i]]
                #![trigger disk_fingerprint(ds[i])]
                0 <= i < topology_ids(m, ds).1.len() implies {
                &&& topology_ids(m, ds).0.records.contains_key(disk_fingerprint(ds[i]))
                &&& topology_ids(m, ds).0.records[disk_fingerprint(ds[i])].uid == topology_ids(
                    m,
                    ds,
                ).1[i].0
            } by {
                assert(ds[i] == pre[i]);
                assert(topology_ids(m, ds).1[i] == topology_ids(m, pre).1[i]);
            }
        }
    } else {
        assert(topology_ids(m, ds).1.len() == 0);
    }
}

/// A pass hands a medium that is already registered the uid it is
/// registered under.
proof fn lemma_topology_known_uids(m: RegistryView, ds: Seq<PhysicalDisk>)
    ensures
        forall|i: int|
            0 <= i < topology_ids(m, ds).1.len() && m.records.contains_key(disk_fingerprint(ds[i]))
                ==> (#[trigger] topology_ids(m, ds).1[i]).0 == m.records[disk_fingerprint(ds[i])].uid,
    decreases ds.len(),
{
    lemma_topology_ids_len(m, ds);
    if ds.len() > 0 {
        let pre = ds.drop_last();
        lemma_topology_known_uids(m, pre);
        lemma_topology_keeps_uids(m, pre);
        lemma_topology_ids_len(m, pre);
        let m1 = topology_ids(m, pre).0;
        let ids = topology_ids(m, pre).1;
        let d = ds.last();
        let fp = disk_fingerprint(d);
        let assigned = !(ids.len() < ds.len() - 1 || !assign_has_room(m1, d.device@, fp));
        if assigned {
            let st = assign_step(m1, d.device@, fp);
            assert(topology_ids(m, ds) == (st.0, ids.push((st.1, st.2))));
        } else {
            assert(topology_ids(m, ds) == (m1, ids));
        }
        assert forall|i: int|
            0 <= i < topology_ids(m, ds).1.len() && m.records.contains_key(disk_fingerprint(ds[i]))
                implies (#[trigger] topology_ids(m, ds).1[i]).0 == m.records[disk_fingerprint(
            ds[i],
        )].uid by {
            if i < ids.len() {
                assert(ds[i] == pre[i]);
                assert(topology_ids(m, ds).1[i] == topology_ids(m, pre).1[i]);
            } else {
                assert(assigned);
                assert(ds[i] == d);
                assert(m1.records.contains_key(fp));
                law_known_medium_keeps_uid(m1, d.device@, fp);
            }
        }
    }
}

/// Running the identity pass again over the same topology hands every disk
/// the uid it got the first time: history keyed by uid stays put from one
/// sampling pass to the next.
pub proof fn law_topology_uids_are_stable_across_passes(m: RegistryView, ds: Seq<PhysicalDisk>)
    ensures
        forall|i: int|
            0 <= i < topology_ids(m, ds).1.len() && 0 <= i < topology_ids(
                topology_ids(m, ds).0,
                ds,
            ).1.len() ==> (#[trigger] topology_ids(topology_ids(m, ds).0, ds).1[i]).0 == topology_ids(
                m,
                ds,
            ).1[i].0,
{
    let m1 = topology_ids(m, ds).0;
    lemma_topology_ids_len(m, ds);
    lemma_topology_ids_len(m1, ds);
    lemma_topology_registers_assigned(m, ds);
    lemma_topology_known_uids(m1, ds);
    assert forall|i: int|
        0 <= i < topology_ids(m, ds).1.len() && 0 <= i < topology_ids(m1, ds).1.len() implies (
    #[trigger] topology_ids(m1, ds).1[i]).0 == topology_ids(m, ds).1[i].0 by {
        assert(m1.records.contains_key(disk_fingerprint(ds[i])));
    }
}

/// The two registries hand out the same identities: the same media with
/// the same uids and generations, the same address book and counter (the
/// address a medium was last seen at may differ).
pub open spec fn same_identities(a: RegistryView, b: RegistryView) -> bool {
    &&& a.devices == b.devices
    &&& a.next_uid == b.next_uid
    &&& forall|x: u64| #[trigger] a.records.contains_key(x) <==> b.records.contains_key(x)
    &&& forall|x: u64|
        #[trigger] a.records.contains_key(x) ==> a.records[x].uid == b.records[x].uid
            && a.records[x].generation == b.records[x].generation
}

/// Every disk of `ds` is registered in `m` under its own address.
pub open spec fn addresses_recorded(m: RegistryView, ds: Seq<PhysicalDisk>) -> bool {
    forall|j: int|
        0 <= j < ds.len() ==> {
            &&& m.devices.contains_key(#[trigger] ds[j].device@)
            &&& m.devices[ds[j].device@] == disk_fingerprint(ds[j])
            &&& m.records.contains_key(disk_fingerprint(ds[j]))
        }
}

/// No two disks of `ds` share an address.
pub open spec fn distinct_addresses(ds: Seq<PhysicalDisk>) -> bool {
    forall|i: int, j: int| 0 <= i < j < ds.len() ==> #[trigger] ds[i].device@ != #[trigger] ds[j].device@
}

/// A pass that assigned every disk of a topology with distinct addresses
/// leaves each disk recorded under its own address.
proof fn lemma_full_pass_records_addresses(m: RegistryView, ds: Seq<PhysicalDisk>)
    requires
        distinct_addresses(ds),
        topology_ids(m, ds).1.len() == ds.len(),
    ensures
        addresses_recorded(topology_ids(m, ds).0, ds),
    decreases ds.len(),
{
    lemma_topology_registers_assigned(m, ds);
    if ds.len() > 0 {
        let pre = ds.drop_last();
        lemma_topology_ids_len(m, pre);
        let m1 = topology_ids(m, pre).0;
        let ids = topology_ids(m, pre).1;
        let d = ds.last();
        let fp = disk_fingerprint(d);
        assert(!(ids.len() < ds.len() - 1 || !assign_has_room(m1, d.device@, fp)));
        assert(distinct_addresses(pre)) by {
            assert forall|i: int, j: int| 0 <= i < j < pre.len() implies #[trigger] pre[i].device@
                != #[trigger] pre[j].device@ by {
                assert(pre[i] == ds[i] && pre[j] == ds[j]);
            }
        }
        lemma_full_pass_records_addresses(m, pre);
        let m2 = topology_ids(m, ds).0;
        assert(m2 == assign_step(m1, d.device@, fp).0);
        assert forall|j: int| 0 <= j < ds.len() implies {
            &&& m2.devices.contains_key(#[trigger] ds[j].device@)
            &&& m2.devices[ds[j].device@] == disk_fingerprint(ds[j])
            &&& m2.records.contains_key(disk_fingerprint(ds[j]))
        } by {
            assert(m2.records.contains_key(disk_fingerprint(ds[j])));
            if j < pre.len() {
                assert(ds[j] == pre[j]);
                assert(ds[j].device@ != d.device@);
            }
        }
    }
}

/// Passing over a topology whose disks are all recorded under their own
/// addresses assigns every disk the identity recorded for it and changes no
/// identity.
proof fn lemma_recorded_pass_is_identity(m: RegistryView, ds: Seq<PhysicalDisk>)
    requires
        addresses_recorded(m, ds),
    ensures
        topology_ids(m, ds).1.len() == ds.len(),
        same_identities(topology_ids(m, ds).0, m),
        forall|j: int|
            0 <= j < ds.len() ==> (#[trigger] topology_ids(m, ds).1[j]) == (
                m.records[disk_fingerprint(ds[j])].uid,
                m.records[disk_fingerprint(ds[j])].generation,
            ),
    decreases ds.len(),
{
    if ds.len() > 0 {
        let pre = ds.drop_last();
        assert(addresses_recorded(m, pre)) by {
            assert forall|j: int| 0 <= j < pre.len() implies {
                &&& m.devices.contains_key(#[trigger] pre[j].device@)
                &&& m.devices[pre[j].device@] == disk_fingerprint(pre[j])
                &&& m.records.contains_key(disk_fingerprint(pre[j]))
            } by {
                assert(pre[j] == ds[j]);
            }
        }
        lemma_recorded_pass_is_identity(m, pre);
        let s = topology_ids(m, pre).0;
        let ids = topology_ids(m, pre).1;
        let d = ds.last();
        let fp = disk_fingerprint(d);
        assert(m.devices.contains_key(ds[ds.len() - 1].device@));
        assert(s.devices[d.device@] == fp);
        assert(s.records.contains_key(fp));
        assert(reused_owner(s, d.device@, fp) is None);
        assert(assign_has_room(s, d.device@, fp));
        let st = assign_step(s, d.device@, fp);
        assert(topology_ids(m, ds) == (st.0, ids.push((st.1, st.2))));
        assert(st.0.devices =~= s.devices);
        assert(same_identities(st.0, m)) by {
            assert forall|x: u64| #[trigger] st.0.records.contains_key(x) <==> m.records.contains_key(x) by {
                assert(s.records.contains_key(x) <==> m.records.contains_key(x));
            }
            assert forall|x: u64| #[trigger] st.0.records.contains_key(x) implies st.0.records[x].uid
                == m.records[x].uid && st.0.records[x].generation == m.records[x].generation by {
                assert(s.records.contains_key(x));
            }
        }
        assert forall|j: int| 0 <= j < ds.len() implies (#[trigger] topology_ids(m, ds).1[j]) == (
            m.records[disk_fingerprint(ds[j])].uid,
            m.records[disk_fingerprint(ds[j])].generation,
        ) by {
            if j < pre.len() {
                assert(ds[j] == pre[j]);
                assert(topology_ids(m, ds).1[j] == topology_ids(m, pre).1[j]);
            } else {
                assert(ds[j] == d);
                assert(m.records.contains_key(fp));
            }
        }
    }
}

/// Once a pass has assigned every disk of a topology whose disks have
/// distinct addresses, passing over the same topology again hands every
/// disk exactly the uid and generation now on record and changes none of
/// them, so repeating the pass each sample is harmless.
pub proof fn law_repeated_pass_changes_no_identity(m: RegistryView, ds: Seq<PhysicalDisk>)
    requires
        distinct_addresses(ds),
        topology_ids(m, ds).1.len() == ds.len(),
    ensures
        ({
            let m1 = topology_ids(m, ds).0;
            let (m2, again) = topology_ids(m1, ds);
            &&& again.len() == ds.len()
            &&& same_identities(m2, m1)
            &&& forall|j: int|
                0 <= j < ds.len() ==> #[trigger] again[j] == (
                    m1.records[disk_fingerprint(ds[j])].uid,
                    m1.records[disk_fingerprint(ds[j])].generation,
                )
        }),
{
    lemma_full_pass_records_addresses(m, ds);
    lemma_recorded_pass_is_identity(topology_ids(m, ds).0, ds);
}

/// Does `b` list the same disks as `a`, with at most their identity fields
/// (`device_uid`, `generation`) changed?
pub open spec fn same_disks_but_identity(a: Seq<PhysicalDisk>, b: Seq<PhysicalDisk>) -> bool {
    &&& b.len() == a.len()
    &&& forall|i: int|
        0 <= i < a.len() ==> #[trigger] b[i] == PhysicalDisk {
            device_uid: b[i].device_uid,
            generation: b[i].generation,
            ..a[i]
        }
}

/// A pass reads a disk only through its address and fingerprint, so it
/// does the same on two lists that agree on both, disk by disk.
proof fn lemma_topology_ids_reads_addresses_and_fingerprints(
    m: RegistryView,
    a: Seq<PhysicalDisk>,
    b: Seq<PhysicalDisk>,
)
    requires
        b.len() == a.len(),
        forall|i: int|
            0 <= i < a.len() ==> (#[trigger] b[i]).device@ == a[i].device@ && disk_fingerprint(b[i])
                == disk_fingerprint(a[i]),
    ensures
        topology_ids(m, b) == topology_ids(m, a),
    decreases a.len(),
{
    if a.len() > 0 {
        let pa = a.drop_last();
        let pb = b.drop_last();
        assert forall|i: int| 0 <= i < pa.len() implies (#[trigger] pb[i]).device@ == pa[i].device@
            && disk_fingerprint(pb[i]) == disk_fingerprint(pa[i]) by {
            assert(pb[i] == b[i] && pa[i] == a[i]);
        }
        lemma_topology_ids_reads_addresses_and_fingerprints(m, pa, pb);
        assert(b.last() == b[b.len() - 1] && a.last() == a[a.len() - 1]);
    }
}

/// A pass assigns a prefix of the disks: the first `k` of them, where `k`
/// is the number of identities it handed out; when it stopped early, the
/// next disk found no room in the registry the prefix left.
proof fn lemma_topology_prefix(m: RegistryView, ds: Seq<PhysicalDisk>)
    ensures
        ({
            let k = topology_ids(m, ds).1.len() as int;
            &&& k <= ds.len()
            &&& topology_ids(m, ds.take(k)) == topology_ids(m, ds)
            &&& k < ds.len() ==> !assign_has_room(
                topology_ids(m, ds).0,
                ds[k].device@,
                disk_fingerprint(ds[k]),
            )
        }),
    decreases ds.len(),
{
    lemma_topology_ids_len(m, ds);
    if ds.len() == 0 {
        assert(ds.take(0) =~= ds);
    } else {
        let pre = ds.drop_last();
        lemma_topology_prefix(m, pre);
        lemma_topology_ids_len(m, pre);
        let k1 = topology_ids(m, pre).1.len() as int;
        let k = topology_ids(m, ds).1.len() as int;
        if k1 < pre.len() {
            assert(topology_ids(m, ds) == topology_ids(m, pre));
            assert(ds.take(k) =~= pre.take(k));
            assert(ds[k] == pre[k]);
        } else if k == k1 {
            assert(topology_ids(m, ds) == topology_ids(m, pre));
            assert(ds.take(k) =~= pre);
            assert(pre.take(k1) =~= pre);
        } else {
            assert(ds.take(k) =~= ds);
        }
    }
}

/// Once a pass finds no room for disk `k` after assigning the `k` disks
/// before it, it assigns nothing more.
proof fn lemma_topology_stops(m: RegistryView, ds: Seq<PhysicalDisk>, k: int)
    requires
        0 <= k < ds.len(),
        topology_ids(m, ds.take(k)).1.len() == k,
        !assign_has_room(topology_ids(m, ds.take(k)).0, ds[k].device@, disk_fingerprint(ds[k])),
    ensures
        topology_ids(m, ds) == topology_ids(m, ds.take(k)),
    decreases ds.len(),
{
    let pre = ds.drop_last();
    if ds.len() == k + 1 {
        assert(pre =~= ds.take(k));
    } else {
        assert(pre.take(k) =~= ds.take(k));
        assert(pre[k] == ds[k]);
        lemma_topology_stops(m, pre, k);
    }
}

/// Two registries with the same identities have room for the same
/// assignments.
proof fn lemma_room_follows_identities(a: RegistryView, b: RegistryView, device: Seq<char>, fp: u64)
    requires
        same_identities(a, b),
    ensures
        assign_has_room(a, device, fp) == assign_has_room(b, device, fp),
{
    if a.devices.contains_key(device) {
        let p = a.devices[device];
        assert(a.records.contains_key(p) == b.records.contains_key(p));
    }
    assert(a.records.contains_key(fp) == b.records.contains_key(fp));
}

/// Calling [`assign_topology`] a second time, on the disks the first call
/// returned and with the registry it left, when no two disks share an
/// address: the second call assigns exactly the disks the first one did,
/// each gets the uid it got the first time and the generation now on
/// record for its medium, and no identity in the registry changes.
pub proof fn law_second_call_on_updated_disks(
    m: RegistryView,
    ds: Seq<PhysicalDisk>,
    updated: Seq<PhysicalDisk>,
)
    requires
        distinct_addresses(ds),
        same_disks_but_identity(ds, updated),
    ensures
        ({
            let (m1, first) = topology_ids(m, ds);
            let (m2, again) = topology_ids(m1, updated);
            &&& again.len() == first.len()
            &&& same_identities(m2, m1)
            &&& forall|j: int|
                0 <= j < first.len() ==> {
                    &&& (#[trigger] again[j]).0 == first[j].0
                    &&& again[j].1 == m1.records[disk_fingerprint(updated[j])].generation
                }
        }),
{
    let (m1, first) = topology_ids(m, ds);
    let k = first.len() as int;
    assert forall|i: int| 0 <= i < ds.len() implies (#[trigger] updated[i]).device@ == ds[i].device@
        && disk_fingerprint(updated[i]) == disk_fingerprint(ds[i]) by {
        assert(updated[i].name == ds[i].name && updated[i].containers == ds[i].containers);
    }
    lemma_topology_ids_reads_addresses_and_fingerprints(m1, ds, updated);
    lemma_topology_prefix(m, ds);
    let p = ds.take(k);
    assert(distinct_addresses(p)) by {
        assert forall|i: int, j: int| 0 <= i < j < p.len() implies #[trigger] p[i].device@
            != #[trigger] p[j].device@ by {
            assert(p[i] == ds[i] && p[j] == ds[j]);
        }
    }
    law_repeated_pass_changes_no_identity(m, p);
    law_topology_uids_are_stable_across_passes(m, p);
    let m2p = topology_ids(m1, p).0;
    if k < ds.len() {
        lemma_room_follows_identities(m2p, m1, ds[k].device@, disk_fingerprint(ds[k]));
        lemma_topology_stops(m1, ds, k);
    } else {
        assert(p =~= ds);
    }
    assert forall|j: int| 0 <= j < k implies disk_fingerprint(updated[j]) == disk_fingerprint(
        #[trigger] p[j],
    ) by {
        assert(p[j] == ds[j]);
    }
}

/// Do the two disks agree on what identifies their medium and where it
/// is: the address, the name, the size, and, container by container,
/// whether the container names a physical store?  Volumes and every other
/// container field may differ.
pub open spec fn same_medium_descriptors(a: PhysicalDisk, b: PhysicalDisk) -> bool {
    &&& a.device@ == b.device@
    &&& a.name@ == b.name@
    &&& a.size_bytes == b.size_bytes
    &&& a.containers@.len() == b.containers@.len()
    &&& forall|i: int|
        0 <= i < a.containers@.len() ==> ((#[trigger] a.containers@[i]).physical_store is Some
            <==> b.containers@[i].physical_store is Some)
}

proof fn lemma_store_count_reads_store_presence(a: Seq<ContainerInfo>, b: Seq<ContainerInfo>)
    requires
        a.len() == b.len(),
        forall|i: int|
            0 <= i < a.len() ==> ((#[trigger] a[i]).physical_store is Some <==> b[i].physical_store is Some),
    ensures
        store_count(a) == store_count(b),
    decreases a.len(),
{
    if a.len() > 0 {
        let pa = a.drop_last();
        let pb = b.drop_last();
        assert forall|i: int| 0 <= i < pa.len() implies ((#[trigger] pa[i]).physical_store is Some
            <==> pb[i].physical_store is Some) by {
            assert(pa[i] == a[i] && pb[i] == b[i]);
        }
        lemma_store_count_reads_store_presence(pa, pb);
        assert(a.last() == a[a.len() - 1] && b.last() == b[b.len() - 1]);
    }
}

/// The store count of a disk is the number of its containers that name a
/// physical store: containers without one, and the volumes of any
/// container, do not count.
pub proof fn law_store_count_counts_named_stores(cs: Seq<ContainerInfo>)
    ensures
        store_count(cs) == cs.filter(|c: ContainerInfo| c.physical_store is Some).len(),
    decreases cs.len(),
{
    reveal(Seq::filter);
    if cs.len() > 0 {
        law_store_count_counts_named_stores(cs.drop_last());
    }
}

/// A medium's fingerprint reads only its name, its size and how many of its
/// containers name a physical store: the volumes of its containers (and
/// their other fields) never change it.
pub proof fn law_fingerprint_ignores_volumes(a: PhysicalDisk, b: PhysicalDisk)
    requires
        same_medium_descriptors(a, b),
    ensures
        disk_fingerprint(a) == disk_fingerprint(b),
{
    lemma_store_count_reads_store_presence(a.containers@, b.containers@);
}

/// A later pass over the same media at the same addresses (their volumes
/// may have changed since) hands every disk the uid the first pass gave
/// it, when no two disks share an address; it assigns exactly the disks the
/// first pass did, and changes no identity in the registry.
pub proof fn law_second_pass_over_same_media(
    m: RegistryView,
    ds: Seq<PhysicalDisk>,
    later: Seq<PhysicalDisk>,
)
    requires
        distinct_addresses(ds),
        later.len() == ds.len(),
        forall|i: int| 0 <= i < ds.len() ==> same_medium_descriptors(#[trigger] ds[i], later[i]),
    ensures
        ({
            let (m1, first) = topology_ids(m, ds);
            let (m2, again) = topology_ids(m1, later);
            &&& again.len() == first.len()
            &&& same_identities(m2, m1)
            &&& forall|j: int| 0 <= j < first.len() ==> (#[trigger] again[j]).0 == first[j].0
        }),
{
    let (m1, first) = topology_ids(m, ds);
    assert forall|i: int| 0 <= i < ds.len() implies (#[trigger] later[i]).device@ == ds[i].device@
        && disk_fingerprint(later[i]) == disk_fingerprint(ds[i]) by {
        law_fingerprint_ignores_volumes(ds[i], later[i]);
    }
    lemma_topology_ids_reads_addresses_and_fingerprints(m1, ds, later);
    law_second_call_on_updated_disks(m, ds, ds);
}

/// The physical stores named by `cs`, cloned.
fn store_ids_of(cs: &Vec<ContainerInfo>) -> (ids: Vec<String>)
    ensures
        ids@.len() == store_count(cs@),
{
    let mut ids: Vec<String> = Vec::new();
    let mut i: usize = 0;
    while i < cs.len()
        invariant
            i <= cs.len(),
            ids@.len() == store_count(cs@.take(i as int)),
        decreases cs.len() - i,
    {
        proof {
            assert(cs@.take(i + 1).drop_last() =~= cs@.take(i as int));
        }
        match &cs[i].physical_store {
            Some(s) => ids.push(s.clone()),
            None => {},
        }
        i = i + 1;
    }
    assert(cs@.take(cs.len() as int) =~= cs@);
    ids
}

/// Assign identities for a whole topology's disks, in order.  Safe to call
/// every sample: stable fingerprints get the same uid back, and a reused
/// address bumps the previous medium's generation.  Should a counter have
/// no room left, that disk and the ones after it keep their previous
/// identity fields.
pub fn assign_topology(reg: &mut DeviceRegistry, disks: &mut Vec<PhysicalDisk>)
    requires
        old(reg).wf(),
    ensures
        final(reg).wf(),
        final(reg)@ == topology_ids(old(reg)@, old(disks)@).0,
        final(disks)@.len() == old(disks)@.len(),
        same_disks_but_identity(old(disks)@, final(disks)@),
        forall|i: int|
            0 <= i < old(disks)@.len() ==> {
                let ids = topology_ids(old(reg)@, old(disks)@).1;
                let d = #[trigger] final(disks)@[i];
                if i < ids.len() {
                    &&& d == PhysicalDisk {
                        device_uid: d.device_uid,
                        generation: d.generation,
                        ..old(disks)@[i]
                    }
                    &&& d.device_uid matches Some(u) && u@ == ids[i].0
                    &&& d.generation == ids[i].1
                } else {
                    d == old(disks)@[i]
                }
            },
{
    let ghost m0 = reg@;
    let ghost orig = disks@;
    let n = disks.len();
    let mut out: Vec<PhysicalDisk> = Vec::new();
    let mut stopped = false;
    let mut i: usize = 0;
    while i < n
        invariant
            n == orig.len(),
            i <= n,
            disks@ == orig.skip(i as int),
            out@.len() == i,
            reg.wf(),
            reg@ == topology_ids(m0, orig.take(i as int)).0,
            stopped ==> topology_ids(m0, orig.take(i as int)).1.len() < i,
            !stopped ==> topology_ids(m0, orig.take(i as int)).1.len() == i,
            forall|k: int|
                0 <= k < i ==> {
                    let ids = topology_ids(m0, orig.take(i as int)).1;
                    let d = #[trigger] out@[k];
                    if k < ids.len() {
                        &&& d == PhysicalDisk {
                            device_uid: d.device_uid,
                            generation: d.generation,
                            ..orig[k]
                        }
                        &&& d.device_uid matches Some(u) && u@ == ids[k].0
                        &&& d.generation == ids[k].1
                    } else {
                        d == orig[k]
                    }
                },
        decreases n - i,
    {
        let mut d = disks.remove(0);
        let ghost prefix = orig.take(i as int);
        proof {
            assert(orig.take(i + 1).drop_last() =~= prefix);
            assert(orig.take(i + 1).last() == orig[i as int]);
            assert(orig.skip(i + 1) =~= orig.skip(i as int).remove(0));
            assert(d == orig[i as int]);
            lemma_topology_ids_len(m0, prefix);
        }
        if !stopped {
            let stores = store_ids_of(&d.containers);
            if reg.can_assign(d.device.as_str(), d.name.as_str(), d.size_bytes, stores.as_slice()) {
                let (uid, generation) = reg.assign(
                    d.device.as_str(),
                    d.name.as_str(),
                    d.size_bytes,
                    stores.as_slice(),
                );
                d.device_uid = Some(uid);
                d.generation = generation;
            } else {
                stopped = true;
            }
        }
        out.push(d);
        i = i + 1;
    }
    proof {
        assert(orig.take(n as int) =~= orig);
    }
    *disks = out;
}

} // verus!
