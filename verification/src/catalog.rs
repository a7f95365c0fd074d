//! The live catalog of observed devices: one record per hardware address,
//! vendor-attributed at creation, updated as decoded frames arrive.

use vstd::prelude::*;
use crate::HardwareAddress;
use crate::frame::{ssid_view, Frame, FrameModel};
use crate::lookup::{VendorRecord, vendor_view, vendor_lookup, lookup_vendor};
use crate::rank::{
    ranked_before, bytes_eq, clone_bytes, pair_ranked_before, lemma_ranked_total,
    lemma_ranked_transitive,
};

verus! {

/// Whether this entry is attributed to a resolved vendor at all.
pub open spec fn has_some_vendor(d: DeviceModel) -> bool {
    d.manufacturer is Some
}

/// The short name of the vendor this entry is attributed to.
pub open spec fn vendor_name(d: DeviceModel) -> Seq<u8> {
    match d.manufacturer {
        Some(v) => v.0,
        None => Seq::empty(),
    }
}

/// Whether this entry is attributed to the vendor named `name`.
pub open spec fn has_vendor(d: DeviceModel, name: Seq<u8>) -> bool {
    has_some_vendor(d) && vendor_name(d) == name
}

/// Whether some pair in a ranking carries the given name.
pub open spec fn ranking_holds_name(v: Seq<(Vec<u8>, u64)>, n: Seq<u8>) -> bool {
    exists|j: int| 0 <= j < v.len() && (#[trigger] v[j]).0@ == n
}

/// Whether some record is attributed to the vendor named `n`.
pub open spec fn some_record_has_vendor(s: Seq<DeviceModel>, n: Seq<u8>) -> bool {
    exists|k: int| 0 <= k < s.len() && has_vendor(#[trigger] s[k], n)
}

/// How many entries are attributed to the vendor named `name`.
pub open spec fn vendor_count(s: Seq<DeviceModel>, name: Seq<u8>) -> nat
    decreases s.len(),
{
    if s.len() == 0 {
        0
    } else {
        vendor_count(s.drop_last(), name) + (if has_vendor(s.last(), name) {
            1nat
        } else {
            0nat
        })
    }
}

/// A name nothing is attributed to counts zero devices.
pub proof fn lemma_vendor_count_zero(s: Seq<DeviceModel>, name: Seq<u8>)
    requires
        forall|k: int| 0 <= k < s.len() ==> !has_vendor(#[trigger] s[k], name),
    ensures
        vendor_count(s, name) == 0,
    decreases s.len(),
{
    if s.len() > 0 {
        lemma_vendor_count_zero(s.drop_last(), name);
    }
}

/// A positive count names a vendor that some record actually carries.
pub proof fn lemma_vendor_count_positive(s: Seq<DeviceModel>, name: Seq<u8>)
    requires
        vendor_count(s, name) > 0,
    ensures
        some_record_has_vendor(s, name),
    decreases s.len(),
{
    if s.len() > 0 {
        if has_vendor(s.last(), name) {
            assert(s[s.len() - 1] == s.last());
            assert(has_vendor(s[s.len() - 1], name));
        } else {
            lemma_vendor_count_positive(s.drop_last(), name);
            let k = choose|k: int|
                0 <= k < s.drop_last().len() && has_vendor(#[trigger] s.drop_last()[k], name);
            assert(s.drop_last()[k] == s[k]);
            assert(has_vendor(s[k], name));
        }
    }
}

/// What the catalog knows about one observed device.
#[derive(Clone, Debug)]
pub struct DeviceRecord {
    /// The vendor resolved from the address when the record was created;
    /// `None` when the database has no match. Never re-queried.
    pub manufacturer: Option<VendorRecord>,
    /// The bytes of the most recent SSID this address advertised as a beacon
    /// source; `None` until such a frame is seen.
    pub last_ssid: Option<Vec<u8>>,
    /// Whether this address has ever appeared as a frame's transmitter.
    /// Monotonic: once `true`, never reverts.
    pub has_transmitted: bool,
}

/// The mathematical shape of one catalog entry.
pub struct DeviceModel {
    pub address: Seq<u8>,
    pub manufacturer: Option<(Seq<u8>, Option<Seq<u8>>)>,
    pub last_ssid: Option<Seq<u8>>,
    pub has_transmitted: bool,
}

/// The model of one stored entry.
pub open spec fn entry_model(e: (HardwareAddress, DeviceRecord)) -> DeviceModel {
    DeviceModel {
        address: e.0@,
        manufacturer: vendor_view(e.1.manufacturer),
        last_ssid: ssid_view(e.1.last_ssid),
        has_transmitted: e.1.has_transmitted,
    }
}

/// No two entries share an address.
pub open spec fn distinct_addresses(s: Seq<DeviceModel>) -> bool {
    forall|i: int, j: int| 0 <= i < j < s.len() ==> s[i].address != s[j].address
}

/// Whether some entry holds the given address.
pub open spec fn contains_address(s: Seq<DeviceModel>, a: Seq<u8>) -> bool {
    exists|i: int| 0 <= i < s.len() && s[i].address == a
}

/// The index of the entry holding the given address.
pub open spec fn address_index(s: Seq<DeviceModel>, a: Seq<u8>) -> int {
    choose|i: int| 0 <= i < s.len() && s[i].address == a
}

/// A record as first created: vendor resolved once, nothing else known yet.
pub open spec fn fresh_device(a: Seq<u8>, m: Option<(Seq<u8>, Option<Seq<u8>>)>) -> DeviceModel {
    DeviceModel { address: a, manufacturer: m, last_ssid: None, has_transmitted: false }
}

/// The catalog after making sure an entry for `a` exists: untouched when `a`
/// is already present, extended by a fresh record otherwise.
pub open spec fn ensure_device(
    s: Seq<DeviceModel>,
    a: Seq<u8>,
    m: Option<(Seq<u8>, Option<Seq<u8>>)>,
) -> Seq<DeviceModel> {
    if contains_address(s, a) {
        s
    } else {
        s.push(fresh_device(a, m))
    }
}

pub open spec fn with_transmitted_flag(d: DeviceModel) -> DeviceModel {
    DeviceModel {
        address: d.address,
        manufacturer: d.manufacturer,
        last_ssid: d.last_ssid,
        has_transmitted: true,
    }
}

pub open spec fn with_ssid_value(d: DeviceModel, ssid: Seq<u8>) -> DeviceModel {
    DeviceModel {
        address: d.address,
        manufacturer: d.manufacturer,
        last_ssid: Some(ssid),
        has_transmitted: d.has_transmitted,
    }
}

/// The catalog after marking `a` as having transmitted.
pub open spec fn set_transmitted(
    s: Seq<DeviceModel>,
    a: Seq<u8>,
    m: Option<(Seq<u8>, Option<Seq<u8>>)>,
) -> Seq<DeviceModel> {
    let t = ensure_device(s, a, m);
    let i = address_index(t, a);
    t.update(i, with_transmitted_flag(t[i]))
}

/// The catalog after recording the SSID last advertised by `a`.
pub open spec fn set_last_ssid(
    s: Seq<DeviceModel>,
    a: Seq<u8>,
    m: Option<(Seq<u8>, Option<Seq<u8>>)>,
    ssid: Seq<u8>,
) -> Seq<DeviceModel> {
    let t = ensure_device(s, a, m);
    let i = address_index(t, a);
    t.update(i, with_ssid_value(t[i], ssid))
}

/// The device table: a mapping from hardware address to record, keys unique,
/// with no ordering promised to consumers.
pub struct DeviceCatalog {
    entries: Vec<(HardwareAddress, DeviceRecord)>,
}

impl View for DeviceCatalog {
    type V = Seq<DeviceModel>;

    closed spec fn view(&self) -> Seq<DeviceModel> {
        self.entries@.map_values(|e: (HardwareAddress, DeviceRecord)| entry_model(e))
    }
}

/// The entry for an address is unique, so any index holding it is the one
/// `address_index` denotes.
pub proof fn lemma_address_index_is(s: Seq<DeviceModel>, a: Seq<u8>, i: int)
    requires
        distinct_addresses(s),
        0 <= i < s.len(),
        s[i].address == a,
    ensures
        address_index(s, a) == i,
        contains_address(s, a),
{
    assert(contains_address(s, a));
    let j = address_index(s, a);
    assert(0 <= j < s.len() && s[j].address == a);
}

impl DeviceCatalog {
    /// Keys stay unique through every operation.
    pub open spec fn wf(&self) -> bool {
        distinct_addresses(self@)
    }

    pub fn new() -> (c: DeviceCatalog)
        ensures
            c@.len() == 0,
            c.wf(),
    {
        DeviceCatalog { entries: Vec::new() }
    }

    pub fn len(&self) -> (n: usize)
        ensures
            n == self@.len(),
    {
        self.entries.len()
    }

    pub fn address_at(&self, i: usize) -> (a: &HardwareAddress)
        requires
            i < self@.len(),
        ensures
            a@ == self@[i as int].address,
    {
        &self.entries[i].0
    }

    pub fn record_at(&self, i: usize) -> (r: &DeviceRecord)
        requires
            i < self@.len(),
        ensures
            vendor_view(r.manufacturer) == self@[i as int].manufacturer,
            ssid_view(r.last_ssid) == self@[i as int].last_ssid,
            r.has_transmitted == self@[i as int].has_transmitted,
    {
        &self.entries[i].1
    }

    /// The index of the entry for `address`, if one exists.
    fn find(&self, address: &HardwareAddress) -> (r: Option<usize>)
        ensures
            match r {
                Some(i) => i < self@.len() && self@[i as int].address == address@,
                None => !contains_address(self@, address@),
            },
    {
        let mut i: usize = 0;
        while i < self.entries.len()
            invariant
                i <= self@.len(),
                forall|k: int| 0 <= k < i ==> self@[k].address != address@,
            decreases self@.len() - i,
        {
            if self.entries[i].0.same_as(address) {
                return Some(i);
            }
            i = i + 1;
        }
        None
    }

    /// Returns the index of the existing record for `address`, or inserts a
    /// new one with the vendor resolved from `db` (queried exactly once, at
    /// insertion), no SSID, and the transmitted flag clear. Calling this
    /// again with the same address finds the same entry and changes nothing.
    pub fn get_or_create(&mut self, address: &HardwareAddress, db: &oui::OuiDatabase) -> (i: usize)
        requires
            old(self).wf(),
        ensures
            final(self).wf(),
            final(self)@ == ensure_device(old(self)@, address@, vendor_lookup(*db, address@)),
            i < final(self)@.len(),
            final(self)@[i as int].address == address@,
            contains_address(old(self)@, address@) ==> final(self)@ == old(self)@,
    {
        match self.find(address) {
            Some(i) => {
                proof {
                    lemma_address_index_is(self@, address@, i as int);
                }
                i
            },
            None => {
                let manufacturer = lookup_vendor(db, address);
                let record = DeviceRecord { manufacturer, last_ssid: None, has_transmitted: false };
                let key = HardwareAddress { bytes: address.bytes };
                let i = self.entries.len();
                self.entries.push((key, record));
                proof {
                    assert(key@ =~= address@);
                    assert(self@ =~= old(self)@.push(
                        fresh_device(address@, vendor_lookup(*db, address@)),
                    ));
                    assert forall|p: int, q: int| 0 <= p < q < self@.len() implies self@[p].address
                        != self@[q].address by {
                        if q == i {
                            assert(!contains_address(old(self)@, address@));
                            assert(old(self)@[p].address != address@);
                        }
                    }
                }
                i
            },
        }
    }

    /// Makes sure the record for `address` exists, then sets its transmitted
    /// flag. Once set, no operation ever clears it; marking an already
    /// marked record changes nothing.
    pub fn mark_transmitted(&mut self, address: &HardwareAddress, db: &oui::OuiDatabase)
        requires
            old(self).wf(),
        ensures
            final(self).wf(),
            final(self)@ == set_transmitted(old(self)@, address@, vendor_lookup(*db, address@)),
    {
        let i = self.get_or_create(address, db);
        let ghost t = self@;
        self.entries[i].1.has_transmitted = true;
        proof {
            lemma_address_index_is(t, address@, i as int);
            assert(self@ =~= t.update(i as int, with_transmitted_flag(t[i as int])));
        }
    }

    /// Makes sure the record for `address` exists, then overwrites its last
    /// advertised SSID with the given bytes: last write wins, no history.
    pub fn record_ssid(&mut self, address: &HardwareAddress, ssid: Vec<u8>, db: &oui::OuiDatabase)
        requires
            old(self).wf(),
        ensures
            final(self).wf(),
            final(self)@ == set_last_ssid(
                old(self)@,
                address@,
                vendor_lookup(*db, address@),
                ssid@,
            ),
    {
        let i = self.get_or_create(address, db);
        let ghost t = self@;
        self.entries[i].1.last_ssid = Some(ssid);
        proof {
            lemma_address_index_is(t, address@, i as int);
            assert(self@ =~= t.update(i as int, with_ssid_value(t[i as int], ssid@)));
        }
    }
    /// Counts, over all records attributed to a resolved vendor, the devices
    /// per vendor short name, and ranks the result descending by count with
    /// ties broken by ascending name — a deterministic total order. Devices
    /// whose vendor is unresolved appear nowhere in the output.
    pub fn vendor_distribution(&self) -> (r: Vec<(Vec<u8>, u64)>)
        ensures
            forall|j: int| 0 <= j < r@.len() ==> (#[trigger] r@[j]).1 as nat == vendor_count(
                self@,
                r@[j].0@,
            ) && r@[j].1 >= 1,
            forall|j1: int, j2: int| 0 <= j1 < j2 < r@.len() ==> r@[j1].0@ != r@[j2].0@,
            forall|j1: int, j2: int| 0 <= j1 < j2 < r@.len() ==> ranked_before(
                r@[j1].0@,
                r@[j1].1,
                r@[j2].0@,
                r@[j2].1,
            ),
            forall|k: int| 0 <= k < self@.len() && has_some_vendor(#[trigger] self@[k])
                ==> ranking_holds_name(r@, vendor_name(self@[k])),
            forall|j: int| 0 <= j < r@.len() ==> some_record_has_vendor(
                self@,
                (#[trigger] r@[j]).0@,
            ),
    {
        let ghost s = self@;
        let mut counts: Vec<(Vec<u8>, u64)> = Vec::new();
        let mut k: usize = 0;
        proof {
            assert(s.take(0).len() == 0);
        }
        while k < self.entries.len()
            invariant
                s == self@,
                self@.len() == self.entries@.len(),
                k <= s.len(),
                forall|j1: int, j2: int| 0 <= j1 < j2 < counts@.len() ==> counts@[j1].0@
                    != counts@[j2].0@,
                forall|j: int| 0 <= j < counts@.len() ==> (#[trigger] counts@[j]).1 as nat
                    == vendor_count(s.take(k as int), counts@[j].0@) && 1 <= counts@[j].1
                    <= k,
                forall|k0: int| 0 <= k0 < k && has_some_vendor(#[trigger] s[k0])
                    ==> exists|j: int| 0 <= j < counts@.len() && (#[trigger] counts@[j]).0@
                    == vendor_name(s[k0]),
            decreases s.len() - k,
        {
            proof {
                assert(s.take(k + 1).drop_last() =~= s.take(k as int));
                assert(s.take(k + 1).last() == s[k as int]);
                assert(s[k as int] == entry_model(self.entries@[k as int]));
            }
            match &self.entries[k].1.manufacturer {
                None => {
                    proof {
                        assert(!has_some_vendor(s[k as int]));
                        assert(forall|n: Seq<u8>| vendor_count(s.take(k + 1), n) == vendor_count(
                            s.take(k as int),
                            n,
                        ));
                    }
                },
                Some(vendor) => {
                    let name = clone_bytes(&vendor.short_name);
                    proof {
                        assert(has_some_vendor(s[k as int]));
                        assert(vendor_name(s[k as int]) == name@);
                        assert(forall|n: Seq<u8>| n != name@ ==> vendor_count(s.take(k + 1), n)
                            == vendor_count(s.take(k as int), n));
                        assert(vendor_count(s.take(k + 1), name@) == vendor_count(
                            s.take(k as int),
                            name@,
                        ) + 1);
                    }
                    let mut j: usize = 0;
                    let mut found = false;
                    while j < counts.len() && !found
                        invariant
                            j <= counts@.len(),
                            !found ==> forall|q: int| 0 <= q < j ==> (#[trigger] counts@[q]).0@
                                != name@,
                            found ==> j < counts@.len() && counts@[j as int].0@ == name@,
                        decreases counts@.len() - j + (if found { 0int } else { 1int }),
                    {
                        if bytes_eq(&counts[j].0, &name) {
                            found = true;
                        } else {
                            j = j + 1;
                        }
                    }
                    let ghost cprev = counts@;
                    if found {
                        let c = counts[j].1;
                        proof {
                            assert(counts@[j as int].1 <= k);
                        }
                        counts[j].1 = c + 1;
                        proof {
                            assert(counts@ =~= cprev.update(
                                j as int,
                                (cprev[j as int].0, (cprev[j as int].1 + 1) as u64),
                            ));
                            assert(counts@[j as int].0@ == name@);
                            assert forall|k0: int|
                                0 <= k0 < k + 1 && has_some_vendor(s[k0]) implies exists|j2: int|
                                0 <= j2 < counts@.len() && (#[trigger] counts@[j2]).0@
                                == vendor_name(s[k0]) by {
                                if k0 < k {
                                    let j2 = choose|j2: int| 0 <= j2 < cprev.len()
                                        && cprev[j2].0@ == vendor_name(s[k0]);
                                    assert(counts@[j2].0@ == vendor_name(s[k0]));
                                } else {
                                    assert(counts@[j as int].0@ == vendor_name(s[k0]));
                                }
                            }
                        }
                    } else {
                        proof {
                            assert forall|k0: int|
                                0 <= k0 < k implies !has_vendor(s.take(k as int)[k0], name@) by {
                                if has_vendor(s[k0], name@) {
                                    assert(has_some_vendor(s[k0]));
                                }
                            }
                            lemma_vendor_count_zero(s.take(k as int), name@);
                        }
                        counts.push((name, 1));
                        proof {
                            assert(counts@[cprev.len() as int].0@ == name@);
                            assert forall|k0: int|
                                0 <= k0 < k + 1 && has_some_vendor(s[k0]) implies exists|j2: int|
                                0 <= j2 < counts@.len() && (#[trigger] counts@[j2]).0@
                                == vendor_name(s[k0]) by {
                                if k0 < k {
                                    let j2 = choose|j2: int| 0 <= j2 < cprev.len()
                                        && cprev[j2].0@ == vendor_name(s[k0]);
                                    assert(counts@[j2].0@ == vendor_name(s[k0]));
                                } else {
                                    assert(counts@[cprev.len() as int].0@ == vendor_name(s[k0]));
                                }
                            }
                        }
                    }
                },
            }
            k = k + 1;
        }
        proof {
            assert(s.take(s.len() as int) =~= s);
        }
        let out = rank_pairs(&counts, Ghost(s));
        proof {
            assert forall|k0: int|
                0 <= k0 < self@.len() && has_some_vendor(#[trigger] self@[k0]) implies
                ranking_holds_name(out@, vendor_name(self@[k0])) by {
                let j0 = choose|j0: int|
                    0 <= j0 < counts@.len() && (#[trigger] counts@[j0]).0@ == vendor_name(s[k0]);
                assert(ranking_holds_name(out@, counts@[j0].0@));
            }
            assert forall|j: int| #![trigger out@[j]]
                0 <= j < out@.len() implies some_record_has_vendor(self@, out@[j].0@) by {
                assert(out@[j].1 as nat == vendor_count(s, out@[j].0@));
                assert(vendor_count(s, out@[j].0@) > 0);
                lemma_vendor_count_positive(s, out@[j].0@);
            }
        }
        out
    }

    /// Folds one decoded frame into the catalog, as the orchestration loop
    /// does on every successful decode: a beacon marks its source as
    /// transmitted, records the SSID it advertises (when it does), and makes
    /// sure the destination's record exists; an acknowledgement makes sure
    /// the receiver's record exists; an unhandled frame changes nothing.
    pub fn apply_frame(&mut self, frame: &Frame, db: &oui::OuiDatabase)
        requires
            old(self).wf(),
        ensures
            final(self).wf(),
            final(self)@ == spec_apply(old(self)@, frame@, *db),
    {
        match frame {
            Frame::Beacon { source, destination, ssid, .. } => {
                self.mark_transmitted(source, db);
                match ssid {
                    Some(name) => {
                        self.record_ssid(source, clone_bytes(name), db);
                    },
                    None => {},
                }
                self.get_or_create(destination, db);
            },
            Frame::Ack { receiver } => {
                self.get_or_create(receiver, db);
            },
            Frame::Unhandled => {},
        }
    }
}

/// The catalog after one decoded frame is applied.
pub open spec fn spec_apply(
    s: Seq<DeviceModel>,
    f: FrameModel,
    db: oui::OuiDatabase,
) -> Seq<DeviceModel> {
    match f {
        FrameModel::Beacon { source, destination, ssid, .. } => {
            let s1 = set_transmitted(s, source, vendor_lookup(db, source));
            let s2 = match ssid {
                Some(x) => set_last_ssid(s1, source, vendor_lookup(db, source), x),
                None => s1,
            };
            ensure_device(s2, destination, vendor_lookup(db, destination))
        },
        FrameModel::Ack { receiver } => ensure_device(s, receiver, vendor_lookup(db, receiver)),
        FrameModel::Unhandled => s,
    }
}

/// Orders ranked (name, count) pairs by descending count, ties broken by
/// ascending name; entries carry exact per-name device counts and distinct
/// names, and both survive the ordering.
#[verifier::rlimit(100)]
#[verifier::spinoff_prover]
fn rank_pairs(items: &Vec<(Vec<u8>, u64)>, Ghost(s): Ghost<Seq<DeviceModel>>) -> (out: Vec<
    (Vec<u8>, u64),
>)
    requires
        forall|j: int| 0 <= j < items@.len() ==> (#[trigger] items@[j]).1 as nat == vendor_count(
            s,
            items@[j].0@,
        ) && items@[j].1 >= 1,
    ensures
        forall|j: int| 0 <= j < out@.len() ==> (#[trigger] out@[j]).1 as nat == vendor_count(
            s,
            out@[j].0@,
        ) && out@[j].1 >= 1,
        forall|j1: int, j2: int| 0 <= j1 < j2 < out@.len() ==> out@[j1].0@ != out@[j2].0@,
        forall|j1: int, j2: int| 0 <= j1 < j2 < out@.len() ==> ranked_before(
            out@[j1].0@,
            out@[j1].1,
            out@[j2].0@,
            out@[j2].1,
        ),
        forall|j0: int| #![trigger items@[j0]] 0 <= j0 < items@.len() ==> ranking_holds_name(
            out@,
            items@[j0].0@,
        ),
{
    let mut out: Vec<(Vec<u8>, u64)> = Vec::new();
    let mut w: usize = 0;
    while w < items.len()
        invariant
            w <= items@.len(),
            forall|j: int| 0 <= j < items@.len() ==> (#[trigger] items@[j]).1 as nat
                == vendor_count(s, items@[j].0@) && items@[j].1 >= 1,
            forall|j: int| 0 <= j < out@.len() ==> (#[trigger] out@[j]).1 as nat == vendor_count(
                s,
                out@[j].0@,
            ) && out@[j].1 >= 1,
            forall|j1: int, j2: int| 0 <= j1 < j2 < out@.len() ==> out@[j1].0@ != out@[j2].0@,
            forall|j1: int, j2: int| 0 <= j1 < j2 < out@.len() ==> ranked_before(
                out@[j1].0@,
                out@[j1].1,
                out@[j2].0@,
                out@[j2].1,
            ),
            forall|j0: int| #![trigger items@[j0]] 0 <= j0 < w ==> ranking_holds_name(
                out@,
                items@[j0].0@,
            ),
        decreases items@.len() - w,
    {
        let name = clone_bytes(&items[w].0);
        let count = items[w].1;
        let mut dup = false;
        let mut q: usize = 0;
        while q < out.len() && !dup
            invariant
                q <= out@.len(),
                name@ == items@[w as int].0@,
                !dup ==> forall|u: int| 0 <= u < q ==> (#[trigger] out@[u]).0@ != name@,
                dup ==> exists|u: int| 0 <= u < out@.len() && (#[trigger] out@[u]).0@ == name@,
            decreases out@.len() - q + (if dup {
                0int
            } else {
                1int
            }),
        {
            if bytes_eq(&out[q].0, &name) {
                dup = true;
                proof {
                    assert(out@[q as int].0@ == name@);
                }
            } else {
                q = q + 1;
            }
        }
        if !dup {
            let entry = (name, count);
            let mut p: usize = 0;
            while p < out.len() && pair_ranked_before(&out[p], &entry)
                invariant
                    p <= out@.len(),
                    entry.1 == count,
                    forall|u: int| 0 <= u < p ==> ranked_before(
                        (#[trigger] out@[u]).0@,
                        out@[u].1,
                        entry.0@,
                        entry.1,
                    ),
                decreases out@.len() - p,
            {
                p = p + 1;
            }
            let ghost prev = out@;
            out.insert(p, entry);
            proof {
                prev.insert_ensures(p as int, entry);
                assert(out@[p as int] == entry);
                assert forall|j: int| p < j < out@.len() implies #[trigger] out@[j] == prev[j
                    - 1] by {
                    assert(prev.insert(p as int, entry)[(j - 1) + 1] == prev[j - 1]);
                }
                if p < prev.len() {
                    lemma_ranked_total(entry.0@, entry.1, prev[p as int].0@, prev[p as int].1);
                }
                assert forall|u: int| p <= u < prev.len() implies ranked_before(
                    entry.0@,
                    entry.1,
                    (#[trigger] prev[u]).0@,
                    prev[u].1,
                ) by {
                    if u > p {
                        lemma_ranked_transitive(
                            entry.0@,
                            entry.1,
                            prev[p as int].0@,
                            prev[p as int].1,
                            prev[u].0@,
                            prev[u].1,
                        );
                    }
                }
                assert forall|j1: int, j2: int|
                    0 <= j1 < j2 < out@.len() implies ranked_before(
                    (#[trigger] out@[j1]).0@,
                    out@[j1].1,
                    (#[trigger] out@[j2]).0@,
                    out@[j2].1,
                ) && out@[j1].0@ != out@[j2].0@ by {
                    if j1 < p {
                        assert(out@[j1] == prev[j1]);
                    } else if j1 == p {
                        assert(out@[j1] == entry);
                    } else {
                        assert(out@[j1] == prev[j1 - 1]);
                    }
                    if j2 < p {
                        assert(out@[j2] == prev[j2]);
                    } else if j2 == p {
                        assert(out@[j2] == entry);
                    } else {
                        assert(out@[j2] == prev[j2 - 1]);
                    }
                }
                assert forall|j: int|
                    0 <= j < out@.len() implies (#[trigger] out@[j]).1 as nat == vendor_count(
                    s,
                    out@[j].0@,
                ) && out@[j].1 >= 1 by {
                    if j < p {
                        assert(out@[j] == prev[j]);
                    } else if j == p {
                        assert(out@[j] == entry);
                        assert(entry.0@ == items@[w as int].0@);
                    } else {
                        assert(out@[j] == prev[j - 1]);
                    }
                }
                assert forall|j0: int| #![trigger items@[j0]]
                    0 <= j0 < w + 1 implies ranking_holds_name(out@, items@[j0].0@) by {
                    if j0 == w {
                        assert(out@[p as int].0@ == items@[j0].0@);
                    } else {
                        let j = choose|j: int| 0 <= j < prev.len() && (#[trigger] prev[j]).0@
                            == items@[j0].0@;
                        if j < p {
                            assert(out@[j] == prev[j]);
                            assert(out@[j].0@ == items@[j0].0@);
                        } else {
                            assert(out@[j + 1] == prev[j]);
                            assert(out@[j + 1].0@ == items@[j0].0@);
                        }
                    }
                }
            }
        } else {
            proof {
                assert forall|j0: int| #![trigger items@[j0]]
                    0 <= j0 < w + 1 implies ranking_holds_name(out@, items@[j0].0@) by {
                    if j0 == w {
                        let u = choose|u: int| 0 <= u < out@.len() && (#[trigger] out@[u]).0@
                            == name@;
                        assert(out@[u].0@ == items@[j0].0@);
                    }
                }
            }
        }
        w = w + 1;
    }
    out
}


/// Making sure a record exists leaves the address present.
pub proof fn lemma_ensure_contains(
    s: Seq<DeviceModel>,
    a: Seq<u8>,
    m: Option<(Seq<u8>, Option<Seq<u8>>)>,
)
    ensures
        contains_address(ensure_device(s, a, m), a),
{
    if !contains_address(s, a) {
        let t = ensure_device(s, a, m);
        assert(t[s.len() as int].address == a);
    }
}

/// A record is created at most once: once its address is present, a further
/// `get_or_create`, with whatever the vendor database would answer then,
/// changes nothing, so the manufacturer is never re-resolved.
pub proof fn lemma_get_or_create_idempotent(
    s: Seq<DeviceModel>,
    a: Seq<u8>,
    m1: Option<(Seq<u8>, Option<Seq<u8>>)>,
    m2: Option<(Seq<u8>, Option<Seq<u8>>)>,
)
    ensures
        ensure_device(ensure_device(s, a, m1), a, m2) == ensure_device(s, a, m1),
{
    lemma_ensure_contains(s, a, m1);
}

/// The transmitted flag is monotonic: no catalog operation clears it.
pub proof fn lemma_transmitted_monotonic(
    s: Seq<DeviceModel>,
    a: Seq<u8>,
    m: Option<(Seq<u8>, Option<Seq<u8>>)>,
    ssid: Seq<u8>,
    k: int,
)
    requires
        0 <= k < s.len(),
        s[k].has_transmitted,
    ensures
        ensure_device(s, a, m)[k].has_transmitted,
        set_transmitted(s, a, m)[k].has_transmitted,
        set_last_ssid(s, a, m, ssid)[k].has_transmitted,
{
    lemma_ensure_contains(s, a, m);
    let t = ensure_device(s, a, m);
    assert(t[k] == s[k]);
    let i = address_index(t, a);
    assert(0 <= i < t.len() && t[i].address == a);
    assert(set_transmitted(s, a, m) == t.update(i, with_transmitted_flag(t[i])));
    assert(set_last_ssid(s, a, m, ssid) == t.update(i, with_ssid_value(t[i], ssid)));
    if i == k {
        assert(with_transmitted_flag(t[i]).has_transmitted);
        assert(with_ssid_value(t[i], ssid).has_transmitted == t[k].has_transmitted);
    }
}

/// Marking an address as having transmitted is idempotent.
pub proof fn lemma_mark_transmitted_idempotent(
    s: Seq<DeviceModel>,
    a: Seq<u8>,
    m1: Option<(Seq<u8>, Option<Seq<u8>>)>,
    m2: Option<(Seq<u8>, Option<Seq<u8>>)>,
)
    requires
        distinct_addresses(s),
    ensures
        set_transmitted(set_transmitted(s, a, m1), a, m2) == set_transmitted(s, a, m1),
{
    lemma_ensure_contains(s, a, m1);
    let t = ensure_device(s, a, m1);
    lemma_ensure_distinct(s, a, m1);
    let i = address_index(t, a);
    assert(0 <= i < t.len() && t[i].address == a);
    let u = t.update(i, with_transmitted_flag(t[i]));
    assert(u[i].address == a);
    lemma_address_index_is(u, a, i);
    assert(contains_address(u, a));
    assert(ensure_device(u, a, m2) == u);
    assert(u.update(i, with_transmitted_flag(u[i])) =~= u);
}

/// Recording an SSID is last-write-wins: recording one value and then a
/// second leaves exactly the state of recording the second alone.
pub proof fn lemma_record_ssid_last_write_wins(
    s: Seq<DeviceModel>,
    a: Seq<u8>,
    m1: Option<(Seq<u8>, Option<Seq<u8>>)>,
    m2: Option<(Seq<u8>, Option<Seq<u8>>)>,
    x: Seq<u8>,
    y: Seq<u8>,
)
    requires
        distinct_addresses(s),
    ensures
        set_last_ssid(set_last_ssid(s, a, m1, x), a, m2, y) == set_last_ssid(s, a, m1, y),
{
    lemma_ensure_contains(s, a, m1);
    let t = ensure_device(s, a, m1);
    lemma_ensure_distinct(s, a, m1);
    let i = address_index(t, a);
    assert(0 <= i < t.len() && t[i].address == a);
    let u = t.update(i, with_ssid_value(t[i], x));
    assert(u[i].address == a);
    lemma_address_index_is(u, a, i);
    assert(ensure_device(u, a, m2) == u);
    assert(u.update(i, with_ssid_value(u[i], y)) =~= t.update(i, with_ssid_value(t[i], y)));
}

/// Ensuring an entry keeps the addresses pairwise distinct.
pub proof fn lemma_ensure_distinct(
    s: Seq<DeviceModel>,
    a: Seq<u8>,
    m: Option<(Seq<u8>, Option<Seq<u8>>)>,
)
    requires
        distinct_addresses(s),
    ensures
        distinct_addresses(ensure_device(s, a, m)),
{
    let t = ensure_device(s, a, m);
    if !contains_address(s, a) {
        assert forall|i: int, j: int| 0 <= i < j < t.len() implies t[i].address
            != t[j].address by {
            if j == s.len() {
                assert(t[i] == s[i]);
                assert(!contains_address(s, a));
            }
        }
    }
}

} // verus!
