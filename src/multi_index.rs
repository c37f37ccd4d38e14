//! A multi-pack index held as plain values, and the verification of its integrity
//! against the per-pack indices it names.
use vstd::prelude::*;
use std::sync::atomic::AtomicBool;
use crate::checksum::{ChecksumError, HASH_LEN, sha1_of, sha1_digest, compare_checksums};

verus! {

/// Number of entries of the fan table.
pub const FAN_LEN: usize = 256;

/// One object of a multi-pack index: its id, the pack holding it and its offset there.
#[derive(Debug, Clone)]
pub struct Entry {
    pub oid: Vec<u8>,
    pub pack_id: u32,
    pub pack_offset: u64,
}

/// A parsed multi-pack index.
///
/// `entries` are in file order; position `i` of `index_names` is pack id `i`.
/// `data` is the whole file, trailing checksum included.
pub struct File {
    pub data: Vec<u8>,
    pub index_names: Vec<String>,
    pub fan: [u32; 256],
    pub entries: Vec<Entry>,
}

/// Strict lexicographic order of two ids of one length, from position `k` on.
pub open spec fn oid_less_from(a: Seq<u8>, b: Seq<u8>, k: int) -> bool
    decreases a.len() - k,
{
    if k < 0 || k >= a.len() || k >= b.len() {
        false
    } else if a[k] != b[k] {
        a[k] < b[k]
    } else {
        oid_less_from(a, b, k + 1)
    }
}

/// Strict lexicographic order of two ids of one length.
pub open spec fn oid_less(a: Seq<u8>, b: Seq<u8>) -> bool {
    oid_less_from(a, b, 0)
}

/// The first `i >= from` with `fan[i] > fan[i + 1]`.
pub open spec fn first_fan_violation(fan: Seq<u32>, from: int) -> Option<int>
    decreases fan.len() - from,
{
    if from < 0 || from + 1 >= fan.len() {
        None
    } else if fan[from] > fan[from + 1] {
        Some(from)
    } else {
        first_fan_violation(fan, from + 1)
    }
}

/// The first `i >= from` whose id is not smaller than the id of entry `i + 1`.
pub open spec fn first_order_violation(oids: Seq<Seq<u8>>, from: int) -> Option<int>
    decreases oids.len() - from,
{
    if from < 0 || from + 1 >= oids.len() {
        None
    } else if !oid_less(oids[from], oids[from + 1]) {
        Some(from)
    } else {
        first_order_violation(oids, from + 1)
    }
}

/// Whether each id is smaller than the next one.
pub open spec fn strictly_ascending(oids: Seq<Seq<u8>>) -> bool {
    forall|i: int| 0 <= i < oids.len() - 1 ==> #[trigger] oid_less(oids[i], oids[i + 1])
}

/// Whether the fan table never decreases.
pub open spec fn fan_monotone(fan: Seq<u32>) -> bool {
    forall|i: int| 0 <= i < fan.len() - 1 ==> #[trigger] fan[i] <= fan[i + 1]
}

/// The positions among the first `k` entries whose pack id is `p`, in order.
pub open spec fn entries_of(pack_ids: Seq<u32>, p: int, k: int) -> Seq<u32>
    decreases k,
{
    if k <= 0 {
        Seq::empty()
    } else if pack_ids[k - 1] == p {
        entries_of(pack_ids, p, k - 1).push((k - 1) as u32)
    } else {
        entries_of(pack_ids, p, k - 1)
    }
}

/// How many of the first `k` entries name a pack id below `m`.
pub open spec fn count_below(pack_ids: Seq<u32>, m: int, k: int) -> int
    decreases k,
{
    if k <= 0 {
        0
    } else {
        count_below(pack_ids, m, k - 1) + if pack_ids[k - 1] < m { 1int } else { 0int }
    }
}

impl File {
    /// The shape that a parser of the file guarantees.
    pub open spec fn wf(&self) -> bool {
        &&& self.data@.len() >= HASH_LEN
        &&& self.entries@.len() <= u32::MAX
        &&& self.index_names@.len() <= u32::MAX
    }

    pub open spec fn oids(&self) -> Seq<Seq<u8>> {
        self.entries@.map_values(|e: Entry| e.oid@)
    }

    pub open spec fn pack_ids(&self) -> Seq<u32> {
        self.entries@.map_values(|e: Entry| e.pack_id)
    }

    /// The bytes that the trailing checksum covers.
    pub open spec fn hashed(&self) -> Seq<u8> {
        self.data@.subrange(0, self.data@.len() - HASH_LEN)
    }

    /// The trailing checksum stored in the file.
    pub open spec fn stored_checksum(&self) -> Seq<u8> {
        self.data@.subrange(self.data@.len() - HASH_LEN, self.data@.len() as int)
    }

    /// The number of objects.
    pub fn num_objects(&self) -> (r: u32)
        requires
            self.wf(),
        ensures
            r == self.entries@.len(),
    {
        self.entries.len() as u32
    }

    /// The number of per-pack indices.
    pub fn num_indices(&self) -> (r: u32)
        requires
            self.wf(),
        ensures
            r == self.index_names@.len(),
    {
        self.index_names.len() as u32
    }

    /// The trailing checksum stored in the file.
    pub fn checksum(&self) -> (r: Vec<u8>)
        requires
            self.wf(),
        ensures
            r@ == self.stored_checksum(),
    {
        let len = self.data.len();
        vstd::slice::slice_to_vec(vstd::slice::slice_subrange(self.data.as_slice(), len - HASH_LEN, len))
    }

    /// The id of entry `index`.
    pub fn oid_at_index(&self, index: u32) -> (r: &Vec<u8>)
        requires
            index < self.entries@.len(),
        ensures
            r@ == self.oids()[index as int],
    {
        &self.entries[index as usize].oid
    }

    /// The pack id and pack offset of entry `index`.
    pub fn pack_id_and_pack_offset_at_index(&self, index: u32) -> (r: (u32, u64))
        requires
            index < self.entries@.len(),
        ensures
            r.0 == self.entries@[index as int].pack_id,
            r.1 == self.entries@[index as int].pack_offset,
    {
        let e = &self.entries[index as usize];
        (e.pack_id, e.pack_offset)
    }

    /// Recomputes the checksum over the file's contents and returns it where it
    /// matches the stored one.
    pub fn verify_checksum(&self, should_interrupt: &AtomicBool) -> (r: Result<Vec<u8>, ChecksumError>)
        requires
            self.wf(),
        ensures
            r matches Err(ChecksumError::Interrupted) || checksum_result(
                r,
                self.stored_checksum(),
                sha1_of(self.hashed()),
            ),
    {
        self.verify_checksum_with(should_interrupt.load(std::sync::atomic::Ordering::Relaxed))
    }

    /// Recomputes the checksum over the file's contents and returns it where it
    /// matches the stored one, unless `interrupted`.
    pub fn verify_checksum_with(&self, interrupted: bool) -> (r: Result<Vec<u8>, ChecksumError>)
        requires
            self.wf(),
        ensures
            interrupted ==> r == Err::<Vec<u8>, ChecksumError>(ChecksumError::Interrupted),
            !interrupted ==> checksum_result(r, self.stored_checksum(), sha1_of(self.hashed())),
    {
        if interrupted {
            return Err(ChecksumError::Interrupted);
        }
        let len = self.data.len();
        let actual = sha1_digest(vstd::slice::slice_subrange(self.data.as_slice(), 0, len - HASH_LEN));
        let expected = vstd::slice::slice_subrange(self.data.as_slice(), len - HASH_LEN, len);
        compare_checksums(expected, actual)
    }
}

/// `r` is what a comparison of the stored checksum `expected` with the computed
/// checksum `actual` yields.
pub open spec fn checksum_result(
    r: Result<Vec<u8>, ChecksumError>,
    expected: Seq<u8>,
    actual: Seq<u8>,
) -> bool {
    if expected == actual {
        r is Ok && r->Ok_0@ == actual
    } else {
        r is Err && r->Err_0 is Mismatch && r->Err_0->Mismatch_expected@ == expected
            && r->Err_0->Mismatch_actual@ == actual
    }
}

/// One object of a per-pack index: its id and its offset in the pack.
#[derive(Debug, Clone)]
pub struct IndexEntry {
    pub oid: Vec<u8>,
    pub pack_offset: u64,
}

/// A parsed per-pack index, entries in file order.
pub struct PackIndex {
    pub entries: Vec<IndexEntry>,
}

/// The first position `i >= from` of `oid` in `oids`.
pub open spec fn find_oid(oids: Seq<Seq<u8>>, oid: Seq<u8>, from: int) -> Option<int>
    decreases oids.len() - from,
{
    if from < 0 || from >= oids.len() {
        None
    } else if oids[from] == oid {
        Some(from)
    } else {
        find_oid(oids, oid, from + 1)
    }
}

impl PackIndex {
    pub open spec fn oids(&self) -> Seq<Seq<u8>> {
        self.entries@.map_values(|e: IndexEntry| e.oid@)
    }

    /// The position of the entry for `id`, if any.
    pub fn lookup(&self, id: &[u8]) -> (r: Option<usize>)
        ensures
            r matches Some(j) ==> find_oid(self.oids(), id@, 0) == Some(j as int) && j < self.entries@.len(),
            r is None ==> find_oid(self.oids(), id@, 0) is None,
    {
        let mut j: usize = 0;
        while j < self.entries.len()
            invariant
                0 <= j <= self.entries@.len(),
                find_oid(self.oids(), id@, 0) == find_oid(self.oids(), id@, j as int),
            decreases self.entries@.len() - j,
        {
            if crate::checksum::bytes_equal(self.entries[j].oid.as_slice(), id) {
                return Some(j);
            }
            j = j + 1;
        }
        None
    }

    /// The pack offset of the entry at `index`.
    pub fn pack_offset_at_index(&self, index: usize) -> (r: u64)
        requires
            index < self.entries@.len(),
        ensures
            r == self.entries@[index as int].pack_offset,
    {
        self.entries[index].pack_offset
    }
}

/// Failure to open a per-pack index or its pack.
#[derive(Debug, PartialEq, Eq, Clone)]
pub enum InitError {
    Index(String),
    Pack(String),
}

/// Failure of a multi-pack index's verification.
#[derive(Debug, PartialEq, Eq, Clone)]
pub enum Error {
    /// An object is recorded at another offset in its pack's index.
    PackOffsetMismatch { id: Vec<u8>, expected_pack_offset: u64, actual_pack_offset: u64 },
    /// The trailing checksum does not match the contents.
    MultiIndexChecksum(ChecksumError),
    /// The verification of a pack reported a failure of its index.
    IndexIntegrity(String),
    /// A referenced index or pack could not be opened.
    BundleInit(InitError),
    /// Not every object was checked against a per-pack index.
    UnexpectedObjectCount { actual: usize, expected: usize },
    /// An object is missing from the index its entry names.
    OidNotFound { id: Vec<u8> },
    /// The id at this entry is not smaller than the next one.
    OutOfOrder { index: u32 },
    /// The fan table is larger at this position than at the next.
    Fan { index: usize },
    /// The multi-pack index holds no objects.
    Empty,
    /// The cancellation flag was observed.
    Interrupted,
}

/// What a verification finds wrong first, stated over positions.
pub enum Fault {
    Checksum,
    Fan(int),
    Empty,
    OutOfOrder(int),
    /// The pack with this id could not be opened.
    BundleInit(int),
    /// The entry at this position is missing from its pack's index.
    OidNotFound(int),
    /// The entry at this position is recorded at the given offset in its pack's index.
    OffsetMismatch(int, u64),
    /// This many objects were checked.
    ObjectCount(int),
    /// The own verification of the pack with this id failed.
    Traversal(int),
}

/// Whether every pack's own verification passed, for a verification that runs none.
pub open spec fn all_passed(n: int) -> Seq<bool> {
    Seq::new(n as nat, |i: int| true)
}

impl File {
    /// What the checks of the fan table and of the id order find first.
    pub open spec fn structure_fault(&self) -> Option<Fault> {
        match first_fan_violation(self.fan@, 0) {
            Some(i) => Some(Fault::Fan(i)),
            None => if self.entries@.len() == 0 {
                Some(Fault::Empty)
            } else {
                match first_order_violation(self.oids(), 0) {
                    Some(i) => Some(Fault::OutOfOrder(i)),
                    None => None,
                }
            },
        }
    }

    /// What is wrong with entry `e` as seen by the per-pack index `index`.
    pub open spec fn entry_fault(&self, index: PackIndex, e: int) -> Option<Fault> {
        match find_oid(index.oids(), self.oids()[e], 0) {
            None => Some(Fault::OidNotFound(e)),
            Some(j) => if index.entries@[j].pack_offset != self.entries@[e].pack_offset {
                Some(Fault::OffsetMismatch(e, index.entries@[j].pack_offset))
            } else {
                None
            },
        }
    }

    /// The first fault among the entries `list[from..]`.
    pub open spec fn first_entry_fault(&self, index: PackIndex, list: Seq<u32>, from: int) -> Option<Fault>
        decreases list.len() - from,
    {
        if from < 0 || from >= list.len() {
            None
        } else {
            match self.entry_fault(index, list[from] as int) {
                Some(f) => Some(f),
                None => self.first_entry_fault(index, list, from + 1),
            }
        }
    }

    /// The entries whose pack id is `p`, in order.
    pub open spec fn entries_of_pack(&self, p: int) -> Seq<u32> {
        entries_of(self.pack_ids(), p, self.entries@.len() as int)
    }

    /// The first fault of pack `p`, given what opening its index gave and
    /// whether the pack's own verification passed.
    pub open spec fn pack_fault(&self, opened: Result<PackIndex, InitError>, passed: bool, p: int) -> Option<Fault> {
        match opened {
            Err(_) => Some(Fault::BundleInit(p)),
            Ok(index) => match self.first_entry_fault(index, self.entries_of_pack(p), 0) {
                Some(f) => Some(f),
                None => if passed {
                    None
                } else {
                    Some(Fault::Traversal(p))
                },
            },
        }
    }

    /// The first fault among the packs `from..`.
    pub open spec fn first_pack_fault(
        &self,
        opened: Seq<Result<PackIndex, InitError>>,
        passed: Seq<bool>,
        from: int,
    ) -> Option<Fault>
        decreases opened.len() - from,
    {
        if from < 0 || from >= opened.len() {
            None
        } else {
            match self.pack_fault(opened[from], passed[from], from) {
                Some(f) => Some(f),
                None => self.first_pack_fault(opened, passed, from + 1),
            }
        }
    }

    /// How many entries name one of the packs.
    pub open spec fn num_assigned(&self) -> int {
        count_below(self.pack_ids(), self.index_names@.len() as int, self.entries@.len() as int)
    }

    /// What a verification finds first, with `actual` the checksum computed over the
    /// contents, `opened` what opening each pack's index gave and `passed` whether
    /// each pack's own verification passed.
    pub open spec fn fault(
        &self,
        actual: Seq<u8>,
        opened: Seq<Result<PackIndex, InitError>>,
        passed: Seq<bool>,
    ) -> Option<Fault> {
        if actual != self.stored_checksum() {
            Some(Fault::Checksum)
        } else {
            match self.structure_fault() {
                Some(f) => Some(f),
                None => match self.first_pack_fault(opened, passed, 0) {
                    Some(f) => Some(f),
                    None => if self.num_assigned() != self.entries@.len() {
                        Some(Fault::ObjectCount(self.num_assigned()))
                    } else {
                        None
                    },
                },
            }
        }
    }

    /// `e` reports the fault `f`, where `actual` is the computed checksum and
    /// `opened` what opening each pack's index gave.
    pub open spec fn describes(
        &self,
        e: Error,
        f: Fault,
        actual: Seq<u8>,
        opened: Seq<Result<PackIndex, InitError>>,
    ) -> bool {
        match f {
            Fault::Checksum => e is MultiIndexChecksum && checksum_result(
                Err(e->MultiIndexChecksum_0),
                self.stored_checksum(),
                actual,
            ),
            Fault::Fan(i) => e is Fan && e->Fan_index == i,
            Fault::Empty => e is Empty,
            Fault::OutOfOrder(i) => e is OutOfOrder && e->OutOfOrder_index == i,
            Fault::BundleInit(p) => e is BundleInit && e->BundleInit_0 == opened[p]->Err_0,
            Fault::OidNotFound(x) => e is OidNotFound && e->OidNotFound_id@ == self.oids()[x],
            Fault::OffsetMismatch(x, offset) => e is PackOffsetMismatch
                && e->PackOffsetMismatch_id@ == self.oids()[x]
                && e->PackOffsetMismatch_expected_pack_offset == self.entries@[x].pack_offset
                && e->PackOffsetMismatch_actual_pack_offset == offset,
            Fault::ObjectCount(c) => e is UnexpectedObjectCount && e->UnexpectedObjectCount_actual
                == c && e->UnexpectedObjectCount_expected == self.entries@.len(),
            Fault::Traversal(_) => false,
        }
    }

    /// Finds the first `i` with `fan[i] > fan[i + 1]`.
    fn check_fan(&self) -> (r: Option<usize>)
        ensures
            r matches Some(i) ==> first_fan_violation(self.fan@, 0) == Some(i as int),
            r is None ==> first_fan_violation(self.fan@, 0) is None,
    {
        let mut i: usize = 0;
        while i + 1 < FAN_LEN
            invariant
                0 <= i < FAN_LEN,
                self.fan@.len() == FAN_LEN,
                first_fan_violation(self.fan@, 0) == first_fan_violation(self.fan@, i as int),
            decreases FAN_LEN - i,
        {
            if self.fan[i] > self.fan[i + 1] {
                return Some(i);
            }
            i = i + 1;
        }
        None
    }

    /// Finds the first entry whose id is not smaller than the next one.
    fn check_order(&self) -> (r: Option<u32>)
        requires
            self.wf(),
        ensures
            r matches Some(i) ==> first_order_violation(self.oids(), 0) == Some(i as int),
            r is None ==> first_order_violation(self.oids(), 0) is None,
    {
        let n = self.entries.len();
        let mut i: usize = 0;
        while i + 1 < n
            invariant
                n == self.entries@.len(),
                n <= u32::MAX,
                0 <= i,
                i <= n,
                i < n || n == 0,
                first_order_violation(self.oids(), 0) == first_order_violation(self.oids(), i as int),
            decreases n - i,
        {
            if !oid_less_exec(self.entries[i].oid.as_slice(), self.entries[i + 1].oid.as_slice()) {
                return Some(i as u32);
            }
            i = i + 1;
        }
        None
    }

    /// Checks the fan table, that there are objects, and the order of the ids.
    pub fn verify_structure(&self) -> (r: Result<(), Error>)
        requires
            self.wf(),
        ensures
            match self.structure_fault() {
                None => r is Ok,
                Some(f) => r is Err && self.describes(r->Err_0, f, Seq::empty(), Seq::empty()),
            },
    {
        if let Some(index) = self.check_fan() {
            return Err(Error::Fan { index });
        }
        if self.entries.len() == 0 {
            return Err(Error::Empty);
        }
        if let Some(index) = self.check_order() {
            return Err(Error::OutOfOrder { index });
        }
        Ok(())
    }
}

/// Each position that `entries_of` lists is below `k`.
pub proof fn lemma_entries_of_bounded(pack_ids: Seq<u32>, p: int, k: int)
    requires
        0 <= k <= pack_ids.len(),
        k <= u32::MAX + 1,
    ensures
        forall|j: int| 0 <= j < entries_of(pack_ids, p, k).len() ==> #[trigger] entries_of(pack_ids, p, k)[j] < k,
    decreases k,
{
    if k > 0 {
        lemma_entries_of_bounded(pack_ids, p, k - 1);
        let prev = entries_of(pack_ids, p, k - 1);
        if pack_ids[k - 1] == p {
            let x = (k - 1) as u32;
            assert(x == k - 1);
            assert forall|j: int| 0 <= j < prev.push(x).len() implies #[trigger] prev.push(x)[j] < k by {
                if j < prev.len() {
                    assert(prev.push(x)[j] == prev[j]);
                }
            }
        }
    }
}

impl File {
    /// A fault found among entries is a missing id or a wrong offset.
    pub proof fn lemma_entry_fault_kind(&self, index: PackIndex, list: Seq<u32>, from: int)
        ensures
            match self.first_entry_fault(index, list, from) {
                None => true,
                Some(f) => f is OidNotFound || f is OffsetMismatch,
            },
        decreases list.len() - from,
    {
        if 0 <= from < list.len() {
            self.lemma_entry_fault_kind(index, list, from + 1);
        }
    }

    /// Groups the entry positions by pack id, each group in entry order, and counts
    /// the entries whose pack id names one of the packs.
    pub(crate) fn group_by_pack(&self) -> (r: (Vec<Vec<u32>>, usize))
        requires
            self.wf(),
        ensures
            r.0@.len() == self.index_names@.len(),
            forall|p: int| 0 <= p < r.0@.len() ==> #[trigger] r.0@[p]@ == self.entries_of_pack(p),
            r.1 == self.num_assigned(),
    {
        let m = self.index_names.len();
        let n = self.entries.len();
        let mut groups: Vec<Vec<u32>> = Vec::new();
        let mut p: usize = 0;
        while p < m
            invariant
                p <= m,
                groups@.len() == p,
                forall|q: int| 0 <= q < p ==> #[trigger] groups@[q]@ == Seq::<u32>::empty(),
            decreases m - p,
        {
            groups.push(Vec::new());
            p = p + 1;
        }
        let mut assigned: usize = 0;
        let mut e: usize = 0;
        while e < n
            invariant
                self.wf(),
                m == self.index_names@.len(),
                n == self.entries@.len(),
                e <= n,
                groups@.len() == m,
                forall|q: int| 0 <= q < m ==> #[trigger] groups@[q]@ == entries_of(self.pack_ids(), q, e as int),
                assigned == count_below(self.pack_ids(), m as int, e as int),
                assigned <= e,
            decreases n - e,
        {
            let pid = self.entries[e].pack_id;
            assert(self.pack_ids()[e as int] == pid);
            if (pid as usize) < m {
                groups[pid as usize].push(e as u32);
                assigned = assigned + 1;
            }
            e = e + 1;
        }
        (groups, assigned)
    }

    /// Checks the entries at the positions `list` against the per-pack index `index`.
    pub fn verify_pack_entries(&self, list: &Vec<u32>, index: &PackIndex) -> (r: Result<(), Error>)
        requires
            forall|j: int| 0 <= j < list@.len() ==> #[trigger] list@[j] < self.entries@.len(),
        ensures
            match self.first_entry_fault(*index, list@, 0) {
                None => r is Ok,
                Some(f) => r is Err && self.describes(r->Err_0, f, Seq::empty(), Seq::empty()),
            },
    {
        let mut j: usize = 0;
        while j < list.len()
            invariant
                forall|j: int| 0 <= j < list@.len() ==> #[trigger] list@[j] < self.entries@.len(),
                j <= list@.len(),
                self.first_entry_fault(*index, list@, 0) == self.first_entry_fault(*index, list@, j as int),
            decreases list@.len() - j,
        {
            let e = list[j] as usize;
            let entry = &self.entries[e];
            assert(self.oids()[e as int] == entry.oid@);
            match index.lookup(entry.oid.as_slice()) {
                None => {
                    return Err(Error::OidNotFound { id: vstd::slice::slice_to_vec(entry.oid.as_slice()) });
                },
                Some(k) => {
                    let actual = index.pack_offset_at_index(k);
                    if actual != entry.pack_offset {
                        return Err(
                            Error::PackOffsetMismatch {
                                id: vstd::slice::slice_to_vec(entry.oid.as_slice()),
                                expected_pack_offset: entry.pack_offset,
                                actual_pack_offset: actual,
                            },
                        );
                    }
                },
            }
            j = j + 1;
        }
        Ok(())
    }
}

/// Counters gathered by the verification of one pack.
#[derive(Debug, Clone, Copy, PartialEq, Eq)]
pub struct Statistics {
    pub pack_size: u64,
    pub num_commits: u32,
    pub num_trees: u32,
    pub num_tags: u32,
    pub num_blobs: u32,
    pub total_compressed_entries_size: u64,
    pub total_decompressed_entries_size: u64,
    pub total_object_size: u64,
}

/// Failure of the verification of one pack against its index.
#[derive(Debug, PartialEq, Eq, Clone)]
pub enum BundleError<T> {
    /// A failure of the index's own integrity.
    Processor(String),
    /// Any other failure: decoding, checksums, CRC32, trees, traversal.
    Traversal(T),
}

/// What opening and verifying one pack of a multi-pack index gave.
pub struct BundleReport<T> {
    /// Opening the pack's index and the pack.
    pub index: Result<PackIndex, InitError>,
    /// The pack's own verification.
    pub traversal: Result<Statistics, BundleError<T>>,
}

/// Failure of a deep verification.
#[derive(Debug, PartialEq, Eq, Clone)]
pub enum TraverseError<T> {
    /// A failure of the multi-pack index itself, or of a pack's index.
    Processor(Error),
    /// A failure of a pack's verification, passed on unchanged.
    Traversal(T),
}

/// The result of a successful deep verification.
pub struct Outcome {
    /// The computed checksum, which matched the stored one.
    pub actual_index_checksum: Vec<u8>,
    /// The statistics of each pack, in pack id order.
    pub pack_traverse_statistics: Vec<Statistics>,
}

/// How thoroughly each pack is verified.
#[derive(Debug, Clone, Copy, PartialEq, Eq)]
pub enum Mode {
    /// Check the pack's checksum and each object's CRC32.
    HashCrc32,
    /// Also decode each object.
    HashCrc32Decode,
    /// Also re-encode each decoded object and compare.
    HashCrc32DecodeEncode,
}

/// How the objects of a pack are traversed.
#[derive(Debug, Clone, Copy, PartialEq, Eq)]
pub enum Algorithm {
    /// Look each object up on its own.
    Lookup,
    /// Resolve delta chains as a tree.
    DeltaTreeLookup,
}

/// A pack-decoding cache factory that makes no cache.
#[derive(Debug, Clone, Copy, PartialEq, Eq)]
pub struct NeverCache;

/// How the packs of a multi-pack index are verified.
pub struct Options<F> {
    /// The thoroughness of the verification.
    pub verify_mode: Mode,
    /// The way to traverse packs.
    pub traversal: Algorithm,
    /// At most this many threads; `None` or `Some(0)` for all available cores.
    pub thread_limit: Option<usize>,
    /// Makes a pack-decoding cache for each thread.
    pub make_pack_lookup_cache: F,
}

impl Default for Options<NeverCache> {
    fn default() -> (r: Self)
        ensures
            r.verify_mode == Mode::HashCrc32DecodeEncode,
            r.traversal == Algorithm::DeltaTreeLookup,
            r.thread_limit is None,
    {
        Options {
            verify_mode: Mode::HashCrc32DecodeEncode,
            traversal: Algorithm::DeltaTreeLookup,
            thread_limit: None,
            make_pack_lookup_cache: NeverCache,
        }
    }
}

/// What the cancellation flag reads now; never set where there is none.
fn interrupted_now(flag: Option<&AtomicBool>) -> (r: bool)
    ensures
        flag is None ==> !r,
{
    match flag {
        Some(f) => f.load(std::sync::atomic::Ordering::Relaxed),
        None => false,
    }
}

/// Whether `e` signals that the cancellation flag was observed.
pub open spec fn is_interruption(e: Error) -> bool {
    e matches Error::Interrupted || e matches Error::MultiIndexChecksum(ChecksumError::Interrupted)
}

/// What opening each pack's index gave.
pub open spec fn opened_of<T>(bundles: Seq<BundleReport<T>>) -> Seq<Result<PackIndex, InitError>> {
    bundles.map_values(|b: BundleReport<T>| b.index)
}

/// Whether each pack's own verification passed.
pub open spec fn passed_of<T>(bundles: Seq<BundleReport<T>>) -> Seq<bool> {
    bundles.map_values(|b: BundleReport<T>| b.traversal is Ok)
}

/// The statistics of each pack whose verification passed.
pub open spec fn statistics_of<T>(bundles: Seq<BundleReport<T>>) -> Seq<Statistics> {
    bundles.map_values(|b: BundleReport<T>| b.traversal->Ok_0)
}

impl File {
    /// `r` is what a verification of the contents and of the indices `opened` yields,
    /// with `actual` the checksum computed over the contents.
    pub open spec fn fast_result(
        &self,
        r: Result<Vec<u8>, Error>,
        actual: Seq<u8>,
        opened: Seq<Result<PackIndex, InitError>>,
    ) -> bool {
        match self.fault(actual, opened, all_passed(opened.len() as int)) {
            None => r is Ok && r->Ok_0@ == actual,
            Some(f) => r is Err && self.describes(r->Err_0, f, actual, opened),
        }
    }

    /// `r` is what a verification of the contents, of the indices and of the packs
    /// in `bundles` yields, with `actual` the checksum computed over the contents.
    pub open spec fn deep_result<T>(
        &self,
        r: Result<Outcome, TraverseError<T>>,
        actual: Seq<u8>,
        bundles: Seq<BundleReport<T>>,
    ) -> bool {
        match self.fault(actual, opened_of(bundles), passed_of(bundles)) {
            None => r is Ok && r->Ok_0.actual_index_checksum@ == actual
                && r->Ok_0.pack_traverse_statistics@ == statistics_of(bundles),
            Some(Fault::Traversal(p)) => r is Err && match bundles[p].traversal->Err_0 {
                BundleError::Processor(m) => r->Err_0 == TraverseError::<T>::Processor(Error::IndexIntegrity(m)),
                BundleError::Traversal(t) => r->Err_0 == TraverseError::<T>::Traversal(t),
            },
            Some(f) => r is Err && r->Err_0 is Processor
                && self.describes(r->Err_0->Processor_0, f, actual, opened_of(bundles)),
        }
    }

    /// Checks the checksum, the fan table, the order of the ids and, for each pack,
    /// that its index `opened[p]` holds each of the pack's objects at the recorded
    /// offset. Returns the computed checksum.
    pub fn verify_integrity_fast(
        &self,
        opened: Vec<Result<PackIndex, InitError>>,
        should_interrupt: &AtomicBool,
    ) -> (r: Result<Vec<u8>, Error>)
        requires
            self.wf(),
            opened@.len() == self.index_names@.len(),
        ensures
            (r is Err && is_interruption(r->Err_0)) || self.fast_result(r, sha1_of(self.hashed()), opened@),
            r is Ok ==> r->Ok_0@ == sha1_of(self.hashed()) && r->Ok_0@ == self.stored_checksum(),
            r == Err::<Vec<u8>, Error>(Error::Interrupted) ==> sha1_of(self.hashed()) == self.stored_checksum()
                && self.structure_fault() is None,
    {
        self.fast_core(opened, Some(should_interrupt))
    }

    /// `verify_integrity_fast` where the cancellation flag reads `interrupted`
    /// throughout.
    pub fn verify_integrity_fast_with(&self, opened: Vec<Result<PackIndex, InitError>>, interrupted: bool) -> (r: Result<
        Vec<u8>,
        Error,
    >)
        requires
            self.wf(),
            opened@.len() == self.index_names@.len(),
        ensures
            interrupted ==> r == Err::<Vec<u8>, Error>(Error::MultiIndexChecksum(ChecksumError::Interrupted)),
            !interrupted ==> self.fast_result(r, sha1_of(self.hashed()), opened@),
    {
        if interrupted {
            return Err(Error::MultiIndexChecksum(ChecksumError::Interrupted));
        }
        self.fast_core(opened, None)
    }

    fn fast_core(&self, opened: Vec<Result<PackIndex, InitError>>, should_interrupt: Option<&AtomicBool>) -> (r: Result<
        Vec<u8>,
        Error,
    >)
        requires
            self.wf(),
            opened@.len() == self.index_names@.len(),
        ensures
            should_interrupt is None ==> self.fast_result(r, sha1_of(self.hashed()), opened@),
            (r is Err && is_interruption(r->Err_0)) || self.fast_result(r, sha1_of(self.hashed()), opened@),
            r is Ok ==> r->Ok_0@ == sha1_of(self.hashed()) && r->Ok_0@ == self.stored_checksum(),
            r == Err::<Vec<u8>, Error>(Error::Interrupted) ==> sha1_of(self.hashed()) == self.stored_checksum()
                && self.structure_fault() is None,
    {
        let ghost opened0 = opened@;
        let ghost passed = all_passed(opened@.len() as int);
        let actual = match self.verify_checksum_with(interrupted_now(should_interrupt)) {
            Ok(a) => a,
            Err(e) => {
                return Err(Error::MultiIndexChecksum(e));
            },
        };
        match self.verify_structure() {
            Ok(()) => {},
            Err(e) => {
                return Err(e);
            },
        }
        let (groups, assigned) = self.group_by_pack();
        let mut packs = opened;
        let m = self.index_names.len();
        let mut p: usize = 0;
        while p < m
            invariant
                self.wf(),
                m == self.index_names@.len(),
                p <= m,
                packs@ == opened0,
                opened0 == opened@,
                opened0.len() == m,
                actual@ == self.stored_checksum(),
                actual@ == sha1_of(self.hashed()),
                self.structure_fault() is None,
                assigned == self.num_assigned(),
                passed == all_passed(m as int),
                groups@.len() == m,
                forall|q: int| 0 <= q < m ==> #[trigger] groups@[q]@ == self.entries_of_pack(q),
                self.first_pack_fault(opened0, passed, 0) == self.first_pack_fault(opened0, passed, p as int),
            decreases m - p,
        {
            let is_open = match &packs[p] {
                Ok(_) => true,
                Err(_) => false,
            };
            if !is_open {
                if let Err(e) = packs.swap_remove(p) {
                    proof {
                        assert(self.pack_fault(opened0[p as int], passed[p as int], p as int) == Some(Fault::BundleInit(p as int)));
                    }
                    return Err(Error::BundleInit(e));
                }
            }
            proof {
                lemma_entries_of_bounded(self.pack_ids(), p as int, self.entries@.len() as int);
            }
            match &packs[p] {
                Ok(index) => match self.verify_pack_entries(&groups[p], index) {
                    Ok(()) => {},
                    Err(e) => {
                        proof {
                            assert(opened0[p as int] == Ok::<PackIndex, InitError>(*index));
                            let f = self.first_entry_fault(*index, self.entries_of_pack(p as int), 0);
                            assert(f is Some);
                            self.lemma_entry_fault_kind(*index, self.entries_of_pack(p as int), 0);
                            assert(self.pack_fault(opened0[p as int], passed[p as int], p as int) == f);
                            assert(self.first_pack_fault(opened0, passed, p as int) == f);
                        }
                        return Err(e);
                    },
                },
                Err(_) => {},
            }
            if interrupted_now(should_interrupt) {
                return Err(Error::Interrupted);
            }
            p = p + 1;
        }
        if assigned != self.entries.len() {
            return Err(Error::UnexpectedObjectCount { actual: assigned, expected: self.entries.len() });
        }
        Ok(actual)
    }
}

impl File {
    /// Checks what `verify_integrity_fast` checks and, pack by pack after the
    /// pack's objects, that the pack's own verification passed, collecting its
    /// statistics. Each pack's report in `bundles` holds what opening its index and
    /// pack gave and what its verification gave.
    pub fn verify_integrity<T>(
        &self,
        bundles: Vec<BundleReport<T>>,
        should_interrupt: &AtomicBool,
    ) -> (r: Result<Outcome, TraverseError<T>>)
        requires
            self.wf(),
            bundles@.len() == self.index_names@.len(),
        ensures
            (r is Err && r->Err_0 is Processor && is_interruption(r->Err_0->Processor_0))
                || self.deep_result(r, sha1_of(self.hashed()), bundles@),
            r is Ok ==> r->Ok_0.actual_index_checksum@ == self.stored_checksum()
                && r->Ok_0.pack_traverse_statistics@.len() == self.index_names@.len(),
            r == Err::<Outcome, TraverseError<T>>(TraverseError::Processor(Error::Interrupted)) ==> sha1_of(
                self.hashed(),
            ) == self.stored_checksum() && self.structure_fault() is None,
    {
        self.deep_core(bundles, Some(should_interrupt))
    }

    /// `verify_integrity` where the cancellation flag reads `interrupted`
    /// throughout.
    pub fn verify_integrity_with<T>(&self, bundles: Vec<BundleReport<T>>, interrupted: bool) -> (r: Result<
        Outcome,
        TraverseError<T>,
    >)
        requires
            self.wf(),
            bundles@.len() == self.index_names@.len(),
        ensures
            interrupted ==> r == Err::<Outcome, TraverseError<T>>(
                TraverseError::Processor(Error::MultiIndexChecksum(ChecksumError::Interrupted)),
            ),
            !interrupted ==> self.deep_result(r, sha1_of(self.hashed()), bundles@),
    {
        if interrupted {
            return Err(TraverseError::Processor(Error::MultiIndexChecksum(ChecksumError::Interrupted)));
        }
        self.deep_core(bundles, None)
    }

    fn deep_core<T>(&self, bundles: Vec<BundleReport<T>>, should_interrupt: Option<&AtomicBool>) -> (r: Result<
        Outcome,
        TraverseError<T>,
    >)
        requires
            self.wf(),
            bundles@.len() == self.index_names@.len(),
        ensures
            should_interrupt is None ==> self.deep_result(r, sha1_of(self.hashed()), bundles@),
            (r is Err && r->Err_0 is Processor && is_interruption(r->Err_0->Processor_0))
                || self.deep_result(r, sha1_of(self.hashed()), bundles@),
            r is Ok ==> r->Ok_0.actual_index_checksum@ == self.stored_checksum()
                && r->Ok_0.pack_traverse_statistics@.len() == self.index_names@.len(),
            r == Err::<Outcome, TraverseError<T>>(TraverseError::Processor(Error::Interrupted)) ==> sha1_of(
                self.hashed(),
            ) == self.stored_checksum() && self.structure_fault() is None,
    {
        let ghost reports = bundles@;
        let ghost opened = opened_of(bundles@);
        let ghost passed = passed_of(bundles@);
        let actual = match self.verify_checksum_with(interrupted_now(should_interrupt)) {
            Ok(a) => a,
            Err(e) => {
                return Err(TraverseError::Processor(Error::MultiIndexChecksum(e)));
            },
        };
        match self.verify_structure() {
            Ok(()) => {},
            Err(e) => {
                return Err(TraverseError::Processor(e));
            },
        }
        let (groups, assigned) = self.group_by_pack();
        let mut packs = bundles;
        let mut statistics: Vec<Statistics> = Vec::new();
        let m = self.index_names.len();
        let mut p: usize = 0;
        while p < m
            invariant
                self.wf(),
                m == self.index_names@.len(),
                p <= m,
                packs@ == reports,
                reports == bundles@,
                opened == opened_of(reports),
                passed == passed_of(reports),
                reports.len() == m,
                actual@ == self.stored_checksum(),
                actual@ == sha1_of(self.hashed()),
                self.structure_fault() is None,
                assigned == self.num_assigned(),
                groups@.len() == m,
                forall|q: int| 0 <= q < m ==> #[trigger] groups@[q]@ == self.entries_of_pack(q),
                self.first_pack_fault(opened, passed, 0) == self.first_pack_fault(opened, passed, p as int),
                statistics@ == statistics_of(reports).subrange(0, p as int),
            decreases m - p,
        {
            let is_open = match &packs[p].index {
                Ok(_) => true,
                Err(_) => false,
            };
            if !is_open {
                if let Err(e) = packs.swap_remove(p).index {
                    proof {
                        assert(self.pack_fault(opened[p as int], passed[p as int], p as int) == Some(Fault::BundleInit(p as int)));
                    }
                    return Err(TraverseError::Processor(Error::BundleInit(e)));
                }
            }
            proof {
                lemma_entries_of_bounded(self.pack_ids(), p as int, self.entries@.len() as int);
            }
            match &packs[p].index {
                Ok(index) => match self.verify_pack_entries(&groups[p], index) {
                    Ok(()) => {},
                    Err(e) => {
                        proof {
                            let f = self.first_entry_fault(*index, self.entries_of_pack(p as int), 0);
                            self.lemma_entry_fault_kind(*index, self.entries_of_pack(p as int), 0);
                            assert(self.pack_fault(opened[p as int], passed[p as int], p as int) == f);
                        }
                        return Err(TraverseError::Processor(e));
                    },
                },
                Err(_) => {},
            }
            if interrupted_now(should_interrupt) {
                return Err(TraverseError::Processor(Error::Interrupted));
            }
            let passed_here = match &packs[p].traversal {
                Ok(s) => {
                    statistics.push(*s);
                    true
                },
                Err(_) => false,
            };
            if !passed_here {
                let report = packs.swap_remove(p);
                proof {
                    assert(self.pack_fault(opened[p as int], passed[p as int], p as int) == Some(Fault::Traversal(p as int)));
                }
                match report.traversal {
                    Err(BundleError::Processor(message)) => {
                        return Err(TraverseError::Processor(Error::IndexIntegrity(message)));
                    },
                    Err(BundleError::Traversal(t)) => {
                        return Err(TraverseError::Traversal(t));
                    },
                    Ok(_) => {},
                }
            }
            proof {
                assert(statistics_of(reports).subrange(0, p + 1) == statistics_of(reports).subrange(0, p as int).push(statistics_of(reports)[p as int]));
            }
            p = p + 1;
        }
        if assigned != self.entries.len() {
            return Err(
                TraverseError::Processor(
                    Error::UnexpectedObjectCount { actual: assigned, expected: self.entries.len() },
                ),
            );
        }
        proof {
            assert(statistics_of(reports).subrange(0, m as int) == statistics_of(reports));
        }
        Ok(Outcome { actual_index_checksum: actual, pack_traverse_statistics: statistics })
    }
}

/// Strict lexicographic order of two ids of one length.
pub fn oid_less_exec(a: &[u8], b: &[u8]) -> (r: bool)
    ensures
        r == oid_less(a@, b@),
{
    let mut k: usize = 0;
    while k < a.len() && k < b.len()
        invariant
            oid_less_from(a@, b@, 0) == oid_less_from(a@, b@, k as int),
        decreases a@.len() - k,
    {
        if a[k] != b[k] {
            return a[k] < b[k];
        }
        k = k + 1;
    }
    false
}

} // verus!

verus! {

impl File {
    /// Every pack's index could be opened, and every object is held, at its
    /// recorded offset, by the index of the pack it names.
    pub open spec fn consistent_with(&self, opened: Seq<Result<PackIndex, InitError>>) -> bool {
        &&& forall|p: int| 0 <= p < opened.len() ==> (#[trigger] opened[p]) is Ok
        &&& forall|e: int| 0 <= e < self.entries@.len() ==> #[trigger] self.held_by(opened, e)
    }

    /// Entry `e` names an opened pack whose index holds its id at its offset.
    pub open spec fn held_by(&self, opened: Seq<Result<PackIndex, InitError>>, e: int) -> bool {
        let p = self.entries@[e].pack_id as int;
        &&& p < opened.len()
        &&& opened[p] is Ok
        &&& find_oid(opened[p]->Ok_0.oids(), self.oids()[e], 0) is Some
        &&& opened[p]->Ok_0.entries@[find_oid(opened[p]->Ok_0.oids(), self.oids()[e], 0)->Some_0].pack_offset
            == self.entries@[e].pack_offset
    }
}

proof fn lemma_fan_none(fan: Seq<u32>, from: int)
    requires
        0 <= from,
    ensures
        first_fan_violation(fan, from) is None <==> forall|i: int|
            from <= i < fan.len() - 1 ==> #[trigger] fan[i] <= fan[i + 1],
    decreases fan.len() - from,
{
    if from + 1 < fan.len() {
        lemma_fan_none(fan, from + 1);
    }
}

proof fn lemma_order_none(oids: Seq<Seq<u8>>, from: int)
    requires
        0 <= from,
    ensures
        first_order_violation(oids, from) is None <==> forall|i: int|
            from <= i < oids.len() - 1 ==> #[trigger] oid_less(oids[i], oids[i + 1]),
    decreases oids.len() - from,
{
    if from + 1 < oids.len() {
        lemma_order_none(oids, from + 1);
    }
}

/// Every position that `entries_of` lists has pack id `p`.
proof fn lemma_entries_of_pack_id(pack_ids: Seq<u32>, p: int, k: int)
    requires
        0 <= k <= pack_ids.len(),
        k <= u32::MAX + 1,
    ensures
        forall|j: int| 0 <= j < entries_of(pack_ids, p, k).len()
            ==> pack_ids[#[trigger] entries_of(pack_ids, p, k)[j] as int] == p,
    decreases k,
{
    if k > 0 {
        lemma_entries_of_pack_id(pack_ids, p, k - 1);
        let prev = entries_of(pack_ids, p, k - 1);
        if pack_ids[k - 1] == p {
            let x = (k - 1) as u32;
            assert forall|j: int| 0 <= j < prev.push(x).len() implies pack_ids[#[trigger] prev.push(x)[j] as int] == p by {
                if j < prev.len() {
                    assert(prev.push(x)[j] == prev[j]);
                }
            }
        }
    }
}

/// A position with pack id `p` below `k` is listed by `entries_of`.
proof fn lemma_entries_of_contains(pack_ids: Seq<u32>, p: int, k: int, e: int)
    requires
        0 <= e < k <= pack_ids.len(),
        k <= u32::MAX + 1,
        pack_ids[e] == p,
    ensures
        exists|j: int| 0 <= j < entries_of(pack_ids, p, k).len() && #[trigger] entries_of(pack_ids, p, k)[j] == e,
    decreases k,
{
    let prev = entries_of(pack_ids, p, k - 1);
    if e == k - 1 {
        assert(entries_of(pack_ids, p, k)[prev.len() as int] == e);
    } else {
        lemma_entries_of_contains(pack_ids, p, k - 1, e);
        let j = choose|j: int| 0 <= j < prev.len() && #[trigger] prev[j] == e;
        if pack_ids[k - 1] == p {
            assert(entries_of(pack_ids, p, k)[j] == e);
        } else {
            assert(entries_of(pack_ids, p, k)[j] == e);
        }
    }
}

proof fn lemma_count_all(pack_ids: Seq<u32>, m: int, k: int)
    requires
        0 <= k <= pack_ids.len(),
    ensures
        count_below(pack_ids, m, k) <= k,
        count_below(pack_ids, m, k) == k <==> forall|i: int| 0 <= i < k ==> #[trigger] pack_ids[i] < m,
    decreases k,
{
    if k > 0 {
        lemma_count_all(pack_ids, m, k - 1);
    }
}

impl File {
    proof fn lemma_entries_clean(&self, index: PackIndex, list: Seq<u32>, from: int)
        requires
            0 <= from,
        ensures
            self.first_entry_fault(index, list, from) is None <==> forall|j: int|
                from <= j < list.len() ==> (#[trigger] self.entry_fault(index, list[j] as int)) is None,
        decreases list.len() - from,
    {
        if from < list.len() {
            self.lemma_entries_clean(index, list, from + 1);
        }
    }

    pub proof fn lemma_packs_clean(&self, opened: Seq<Result<PackIndex, InitError>>, passed: Seq<bool>, from: int)
        requires
            0 <= from,
        ensures
            self.first_pack_fault(opened, passed, from) is None <==> forall|p: int|
                from <= p < opened.len() ==> (#[trigger] self.pack_fault(opened[p], passed[p], p)) is None,
        decreases opened.len() - from,
    {
        if from < opened.len() {
            self.lemma_packs_clean(opened, passed, from + 1);
        }
    }

    /// No pack or entry fault, and no uncounted entry, exactly where every entry is
    /// held by its pack's index and every pack's own verification passed.
    proof fn lemma_packs_clean_iff_consistent(&self, opened: Seq<Result<PackIndex, InitError>>, passed: Seq<bool>)
        requires
            self.wf(),
            opened.len() == self.index_names@.len(),
            passed.len() == opened.len(),
        ensures
            (self.first_pack_fault(opened, passed, 0) is None && self.num_assigned() == self.entries@.len())
                <==> (self.consistent_with(opened) && forall|p: int| 0 <= p < passed.len() ==> #[trigger] passed[p]),
    {
        let n = self.entries@.len() as int;
        let m = opened.len() as int;
        let pids = self.pack_ids();
        self.lemma_packs_clean(opened, passed, 0);
        lemma_count_all(pids, m, n);
        if self.first_pack_fault(opened, passed, 0) is None && self.num_assigned() == n {
            assert forall|e: int| 0 <= e < n implies #[trigger] self.held_by(opened, e) by {
                let p = pids[e] as int;
                assert(pids[e] < m);
                assert(self.pack_fault(opened[p], passed[p], p) is None);
                lemma_entries_of_contains(pids, p, n, e);
                let list = self.entries_of_pack(p);
                let j = choose|j: int| 0 <= j < list.len() && #[trigger] list[j] == e;
                self.lemma_entries_clean(opened[p]->Ok_0, list, 0);
                assert(self.entry_fault(opened[p]->Ok_0, list[j] as int) is None);
            }
            assert forall|p: int| 0 <= p < m implies (#[trigger] opened[p]) is Ok by {
                assert(self.pack_fault(opened[p], passed[p], p) is None);
            }
            assert forall|p: int| 0 <= p < passed.len() implies #[trigger] passed[p] by {
                assert(self.pack_fault(opened[p], passed[p], p) is None);
                self.lemma_entries_clean(opened[p]->Ok_0, self.entries_of_pack(p), 0);
            }
        }
        if self.consistent_with(opened) && forall|p: int| 0 <= p < passed.len() ==> #[trigger] passed[p] {
            assert forall|i: int| 0 <= i < n implies #[trigger] pids[i] < m by {
                assert(self.held_by(opened, i));
            }
            assert forall|p: int| 0 <= p < m implies (#[trigger] self.pack_fault(opened[p], passed[p], p)) is None by {
                let list = self.entries_of_pack(p);
                lemma_entries_of_pack_id(pids, p, n);
                lemma_entries_of_bounded(pids, p, n);
                assert(opened[p] is Ok);
                self.lemma_entries_clean(opened[p]->Ok_0, list, 0);
                assert forall|j: int| 0 <= j < list.len() implies (#[trigger] self.entry_fault(opened[p]->Ok_0, list[j] as int)) is None by {
                    assert(self.held_by(opened, list[j] as int));
                }
            }
        }
    }
}

} // verus!

verus! {

/// How many of the first `k` ids start with a byte no larger than `b`.
pub open spec fn count_first_byte_at_most(oids: Seq<Seq<u8>>, b: int, k: int) -> int
    decreases k,
{
    if k <= 0 {
        0
    } else {
        count_first_byte_at_most(oids, b, k - 1) + if oids[k - 1].len() > 0 && oids[k - 1][0] <= b {
            1int
        } else {
            0int
        }
    }
}

/// Whether each fan entry counts the ids whose first byte is at most its position.
pub open spec fn fan_agrees(fan: Seq<u32>, oids: Seq<Seq<u8>>) -> bool {
    forall|i: int| 0 <= i < fan.len() ==> #[trigger] fan[i] == count_first_byte_at_most(oids, i, oids.len() as int)
}

/// With at least two objects, a stored checksum that matches the contents, every
/// pack's index opened and holding each of its objects at the recorded offset, and
/// a fan table that, where it never decreases, counts the ids by first byte: the
/// fast verification succeeds exactly when the ids ascend strictly and the fan
/// table never decreases and counts the ids by first byte.
pub proof fn law_fast_verification_decided_by_order(
    midx: File,
    opened: Seq<Result<PackIndex, InitError>>,
    r: Result<Vec<u8>, Error>,
)
    requires
        midx.wf(),
        midx.entries@.len() >= 2,
        opened.len() == midx.index_names@.len(),
        sha1_of(midx.hashed()) == midx.stored_checksum(),
        midx.consistent_with(opened),
        fan_monotone(midx.fan@) ==> fan_agrees(midx.fan@, midx.oids()),
        midx.fast_result(r, sha1_of(midx.hashed()), opened),
    ensures
        r is Ok <==> (strictly_ascending(midx.oids()) && fan_monotone(midx.fan@) && fan_agrees(
            midx.fan@,
            midx.oids(),
        )),
{
    lemma_fan_none(midx.fan@, 0);
    lemma_order_none(midx.oids(), 0);
    midx.lemma_packs_clean_iff_consistent(opened, all_passed(opened.len() as int));
}

/// A multi-pack index with at least one object, whose stored checksum matches its
/// contents, whose fan table never decreases, whose ids ascend strictly and whose
/// objects are each held by their pack's index at the recorded offset passes the
/// fast verification, which returns the stored checksum.
pub proof fn law_good_index_passes(midx: File, opened: Seq<Result<PackIndex, InitError>>, r: Result<Vec<u8>, Error>)
    requires
        midx.wf(),
        midx.entries@.len() >= 1,
        opened.len() == midx.index_names@.len(),
        sha1_of(midx.hashed()) == midx.stored_checksum(),
        fan_monotone(midx.fan@),
        strictly_ascending(midx.oids()),
        midx.consistent_with(opened),
        midx.fast_result(r, sha1_of(midx.hashed()), opened),
    ensures
        r is Ok,
        r->Ok_0@ == midx.stored_checksum(),
{
    lemma_fan_none(midx.fan@, 0);
    lemma_order_none(midx.oids(), 0);
    midx.lemma_packs_clean_iff_consistent(opened, all_passed(opened.len() as int));
}

/// After a deep verification succeeds, the index of each object's pack holds the
/// object's id, at the offset that the multi-pack index records.
pub proof fn law_verified_offsets_agree<T>(
    midx: File,
    bundles: Seq<BundleReport<T>>,
    r: Result<Outcome, TraverseError<T>>,
    e: int,
)
    requires
        midx.wf(),
        bundles.len() == midx.index_names@.len(),
        midx.deep_result(r, sha1_of(midx.hashed()), bundles),
        r is Ok,
        0 <= e < midx.entries@.len(),
    ensures
        midx.held_by(opened_of(bundles), e),
{
    midx.lemma_packs_clean_iff_consistent(opened_of(bundles), passed_of(bundles));
}

/// Two deep verifications of one multi-pack index over the same packs agree: both
/// succeed or both fail, and on success they give the same checksum and the same
/// statistics for each pack.
pub proof fn law_deep_verification_repeatable<T>(
    midx: File,
    bundles: Seq<BundleReport<T>>,
    r1: Result<Outcome, TraverseError<T>>,
    r2: Result<Outcome, TraverseError<T>>,
)
    requires
        midx.deep_result(r1, sha1_of(midx.hashed()), bundles),
        midx.deep_result(r2, sha1_of(midx.hashed()), bundles),
    ensures
        r1 is Ok <==> r2 is Ok,
        r1 is Ok ==> r1->Ok_0.actual_index_checksum@ == r2->Ok_0.actual_index_checksum@
            && r1->Ok_0.pack_traverse_statistics@ == r2->Ok_0.pack_traverse_statistics@,
{
}

} // verus!

verus! {

/// What the caller of a step-by-step verification does next.
#[derive(Debug, PartialEq, Eq)]
pub enum Step {
    /// Open the index (and, for a deep verification, the pack) of this pack id
    /// and hand the result to `pack_opened`.
    OpenIndex(u32),
    /// Verify the opened pack with these settings and hand the result to
    /// `pack_verified`.
    VerifyPack { pack: u32, verify_mode: Mode, traversal: Algorithm, thread_limit: Option<usize> },
    /// Every pack was checked: call `finish`.
    Finish,
    /// A step failed: nothing more is to be done.
    Stop,
}

/// The state of a verification that opens and verifies one pack at a time.
pub struct Verification {
    actual: Vec<u8>,
    groups: Vec<Vec<u32>>,
    assigned: usize,
    pack: usize,
    awaiting: bool,
    failed: bool,
    deep: Option<(Mode, Algorithm, Option<usize>)>,
    statistics: Vec<Statistics>,
    opened: Ghost<Seq<Result<PackIndex, InitError>>>,
    passed: Ghost<Seq<bool>>,
}

impl Verification {
    /// The pack reached.
    pub closed spec fn pack(&self) -> int {
        self.pack as int
    }

    /// Whether the pack reached was opened and waits for its own verification.
    pub closed spec fn awaiting(&self) -> bool {
        self.awaiting
    }

    pub closed spec fn failed(&self) -> bool {
        self.failed
    }

    /// The settings of each pack's verification; `None` for a verification of the
    /// indices alone.
    pub closed spec fn deep(&self) -> Option<(Mode, Algorithm, Option<usize>)> {
        self.deep
    }

    /// The checksum computed over the contents.
    pub closed spec fn actual(&self) -> Seq<u8> {
        self.actual@
    }

    /// The statistics of the packs verified so far.
    pub closed spec fn statistics(&self) -> Seq<Statistics> {
        self.statistics@
    }

    /// What opening each pack reached gave.
    pub closed spec fn opened(&self) -> Seq<Result<PackIndex, InitError>> {
        self.opened@
    }

    /// Whether each pack passed its own verification.
    pub closed spec fn passed(&self) -> Seq<bool> {
        self.passed@
    }

    /// The state agrees with the multi-pack index `file`.
    pub closed spec fn inv(&self, file: &File) -> bool {
        let m = file.index_names@.len() as int;
        &&& file.wf()
        &&& self.actual@ == file.stored_checksum()
        &&& self.actual@ == sha1_of(file.hashed())
        &&& file.structure_fault() is None
        &&& self.groups@.len() == m
        &&& forall|q: int| 0 <= q < m ==> #[trigger] self.groups@[q]@ == file.entries_of_pack(q)
        &&& self.assigned == file.num_assigned()
        &&& self.pack <= m
        &&& (self.awaiting ==> self.deep is Some && self.pack < m)
        &&& (self.deep is None ==> self.statistics@.len() == 0)
        &&& (!self.failed ==> {
            &&& self.opened@.len() == self.pack + if self.awaiting { 1int } else { 0int }
            &&& self.passed@.len() == self.pack
            &&& (self.deep is Some ==> self.statistics@.len() == self.pack)
            &&& forall|q: int| 0 <= q < self.pack ==> (#[trigger] file.pack_fault(self.opened@[q], self.passed@[q], q)) is None
            &&& (self.awaiting ==> self.opened@[self.pack as int] is Ok && file.first_entry_fault(
                self.opened@[self.pack as int]->Ok_0,
                file.entries_of_pack(self.pack as int),
                0,
            ) is None)
        })
    }
}

/// The settings of each pack's verification that `options` give.
pub open spec fn deep_of<F>(options: Option<&Options<F>>) -> Option<(Mode, Algorithm, Option<usize>)> {
    match options {
        Some(o) => Some((o.verify_mode, o.traversal, o.thread_limit)),
        None => None,
    }
}

impl File {
    /// What opening pack `p` and checking its objects finds first.
    pub open spec fn opened_fault(&self, opened: Result<PackIndex, InitError>, p: int) -> Option<Fault> {
        match opened {
            Err(_) => Some(Fault::BundleInit(p)),
            Ok(index) => self.first_entry_fault(index, self.entries_of_pack(p), 0),
        }
    }

    /// Checks the checksum, the fan table and the order of the ids, and on success
    /// starts a verification of the packs, one at a time: of their indices alone
    /// where `options` is `None`, else of the packs too, with these options.
    pub fn begin_verification<F>(&self, options: Option<&Options<F>>, interrupted: bool) -> (r: Result<
        Verification,
        Error,
    >)
        requires
            self.wf(),
        ensures
            interrupted ==> r == Err::<Verification, Error>(Error::MultiIndexChecksum(ChecksumError::Interrupted)),
            !interrupted ==> match (if sha1_of(self.hashed()) != self.stored_checksum() {
                Some(Fault::Checksum)
            } else {
                self.structure_fault()
            }) {
                Some(f) => r is Err && self.describes(r->Err_0, f, sha1_of(self.hashed()), Seq::empty()),
                None => r matches Ok(v) && {
                    &&& v.inv(self)
                    &&& v.pack() == 0
                    &&& !v.awaiting()
                    &&& !v.failed()
                    &&& v.actual() == sha1_of(self.hashed())
                    &&& v.deep() == deep_of(options)
                    &&& v.opened() == Seq::<Result<PackIndex, InitError>>::empty()
                    &&& v.passed() == Seq::<bool>::empty()
                    &&& v.statistics() == Seq::<Statistics>::empty()
                },
            },
    {
        let actual = match self.verify_checksum_with(interrupted) {
            Ok(a) => a,
            Err(e) => {
                return Err(Error::MultiIndexChecksum(e));
            },
        };
        match self.verify_structure() {
            Ok(()) => {},
            Err(e) => {
                return Err(e);
            },
        }
        let (groups, assigned) = self.group_by_pack();
        let deep = match options {
            Some(o) => Some((o.verify_mode, o.traversal, o.thread_limit)),
            None => None,
        };
        Ok(
            Verification {
                actual,
                groups,
                assigned,
                pack: 0,
                awaiting: false,
                failed: false,
                deep,
                statistics: Vec::new(),
                opened: Ghost(Seq::empty()),
                passed: Ghost(Seq::empty()),
            },
        )
    }

    /// What the verification `v` asks for next.
    pub fn next_step(&self, v: &Verification) -> (r: Step)
        requires
            v.inv(self),
        ensures
            v.failed() ==> r == Step::Stop,
            !v.failed() && v.awaiting() ==> r == (Step::VerifyPack {
                pack: v.pack() as u32,
                verify_mode: v.deep()->Some_0.0,
                traversal: v.deep()->Some_0.1,
                thread_limit: v.deep()->Some_0.2,
            }),
            !v.failed() && !v.awaiting() && v.pack() < self.index_names@.len() ==> r == Step::OpenIndex(
                v.pack() as u32,
            ),
            !v.failed() && !v.awaiting() && v.pack() >= self.index_names@.len() ==> r == Step::Finish,
    {
        if v.failed {
            Step::Stop
        } else if v.awaiting {
            match v.deep {
                Some((verify_mode, traversal, thread_limit)) => Step::VerifyPack {
                    pack: v.pack as u32,
                    verify_mode,
                    traversal,
                    thread_limit,
                },
                None => Step::Stop,
            }
        } else if v.pack < self.index_names.len() {
            Step::OpenIndex(v.pack as u32)
        } else {
            Step::Finish
        }
    }

    /// Takes what opening the index of the pack reached gave, and checks each of
    /// the pack's objects against it. A failure ends the verification.
    pub fn pack_opened(
        &self,
        v: &mut Verification,
        opened: Result<PackIndex, InitError>,
        interrupted: bool,
    ) -> (r: Result<(), Error>)
        requires
            old(v).inv(self),
            !old(v).failed(),
            !old(v).awaiting(),
            old(v).pack() < self.index_names@.len(),
        ensures
            final(v).inv(self),
            final(v).failed() == r is Err,
            final(v).opened() == old(v).opened().push(opened),
            final(v).deep() == old(v).deep(),
            final(v).actual() == old(v).actual(),
            final(v).statistics() == old(v).statistics(),
            match self.opened_fault(opened, old(v).pack()) {
                Some(f) => r is Err && self.describes(r->Err_0, f, old(v).actual(), final(v).opened()),
                None => if interrupted {
                    r == Err::<(), Error>(Error::Interrupted)
                } else {
                    r is Ok
                },
            },
            r is Ok && old(v).deep() is Some ==> final(v).awaiting() && final(v).pack() == old(v).pack()
                && final(v).passed() == old(v).passed(),
            r is Ok && old(v).deep() is None ==> !final(v).awaiting() && final(v).pack() == old(v).pack() + 1
                && final(v).passed() == old(v).passed().push(true),
    {
        let p = v.pack;
        proof {
            lemma_entries_of_bounded(self.pack_ids(), p as int, self.entries@.len() as int);
        }
        v.opened = Ghost(v.opened@.push(opened));
        let result = match &opened {
            Err(_) => Err(()),
            Ok(index) => match self.verify_pack_entries(&v.groups[p], index) {
                Ok(()) => Ok(()),
                Err(e) => {
                    proof {
                        self.lemma_entry_fault_kind(*index, self.entries_of_pack(p as int), 0);
                    }
                    v.failed = true;
                    return Err(e);
                },
            },
        };
        if result.is_err() {
            if let Err(e) = opened {
                v.failed = true;
                return Err(Error::BundleInit(e));
            }
        }
        if interrupted {
            v.failed = true;
            return Err(Error::Interrupted);
        }
        if v.deep.is_some() {
            v.awaiting = true;
        } else {
            v.passed = Ghost(v.passed@.push(true));
            v.pack = p + 1;
        }
        Ok(())
    }

    /// Takes what the verification of the pack reached gave. A failure ends the
    /// verification: a failure of the pack's index is reported as `IndexIntegrity`,
    /// any other is passed on unchanged.
    pub fn pack_verified<T>(&self, v: &mut Verification, result: Result<Statistics, BundleError<T>>) -> (r: Result<
        (),
        TraverseError<T>,
    >)
        requires
            old(v).inv(self),
            !old(v).failed(),
            old(v).awaiting(),
        ensures
            final(v).inv(self),
            final(v).failed() == r is Err,
            final(v).opened() == old(v).opened(),
            final(v).deep() == old(v).deep(),
            final(v).actual() == old(v).actual(),
            match result {
                Ok(s) => {
                    &&& r is Ok
                    &&& !final(v).awaiting()
                    &&& final(v).pack() == old(v).pack() + 1
                    &&& final(v).passed() == old(v).passed().push(true)
                    &&& final(v).statistics() == old(v).statistics().push(s)
                },
                Err(BundleError::Processor(m)) => r == Err::<(), TraverseError<T>>(
                    TraverseError::Processor(Error::IndexIntegrity(m)),
                ),
                Err(BundleError::Traversal(t)) => r == Err::<(), TraverseError<T>>(TraverseError::Traversal(t)),
            },
    {
        match result {
            Ok(s) => {
                v.statistics.push(s);
                v.passed = Ghost(v.passed@.push(true));
                v.awaiting = false;
                v.pack = v.pack + 1;
                proof {
                    assert(self.pack_fault(v.opened@[v.pack - 1], v.passed@[v.pack - 1], v.pack - 1) is None);
                }
                Ok(())
            },
            Err(BundleError::Processor(m)) => {
                v.failed = true;
                Err(TraverseError::Processor(Error::IndexIntegrity(m)))
            },
            Err(BundleError::Traversal(t)) => {
                v.failed = true;
                Err(TraverseError::Traversal(t))
            },
        }
    }

    /// Ends a verification that went through every pack: checks that every object
    /// was checked, and returns the checksum and the statistics of each pack.
    pub fn finish(&self, v: Verification) -> (r: Result<Outcome, Error>)
        requires
            v.inv(self),
            !v.failed(),
            !v.awaiting(),
            v.pack() == self.index_names@.len(),
        ensures
            match self.fault(v.actual(), v.opened(), v.passed()) {
                None => r matches Ok(o) && o.actual_index_checksum@ == v.actual()
                    && o.pack_traverse_statistics@ == v.statistics(),
                Some(f) => r is Err && self.describes(r->Err_0, f, v.actual(), v.opened()),
            },
    {
        proof {
            self.lemma_packs_clean(v.opened@, v.passed@, 0);
        }
        if v.assigned != self.entries.len() {
            return Err(Error::UnexpectedObjectCount { actual: v.assigned, expected: self.entries.len() });
        }
        Ok(Outcome { actual_index_checksum: v.actual, pack_traverse_statistics: v.statistics })
    }
}

} // verus!
