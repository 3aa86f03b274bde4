//! Snapshot-isolated transactions over an ordered key-value backing.
//!
//! Each write is stored under an encoded composite key carrying the raw key
//! and the writing transaction's version: a big-endian length prefix, the
//! raw key bytes, then the big-endian version. Within one raw key, encoded
//! keys sort by version, so a descending scan meets the newest record for a
//! key first. The manager owns the backing, the registry of active
//! transactions with their write sets, and the monotonic version counter.
use vstd::prelude::*;

use crate::Error;
use crate::bytes::{be64_at, bytes_eq, clone_bytes, copy_range, lemma_be64_order,
    lemma_be64_roundtrip, lemma_lex_lt_asym, lemma_lex_lt_irrefl, lemma_lex_lt_prefix, lex_lt,
    push_be32, push_be64, push_bytes, spec_be32, spec_be64};
use crate::omap::{OrderedMap, has_key, index_of, lemma_entry_in_map};

verus! {

/// The ordered byte-keyed backing the transaction layer runs over; a value
/// of `None` is a tombstone.
pub type KVEngine = OrderedMap<Option<Vec<u8>>>;

/// The encoded composite key of a versioned record.
pub open spec fn enc_key(k: Seq<u8>, v: u64) -> Seq<u8> {
    spec_be32(k.len() as u32) + k + spec_be64(v)
}

/// The raw key of an encoded key.
pub open spec fn dec_key(b: Seq<u8>) -> Seq<u8> {
    b.subrange(4, b.len() - 8)
}

/// The version of an encoded key.
pub open spec fn dec_ver(b: Seq<u8>) -> u64 {
    crate::bytes::be64_val(b.subrange(b.len() - 8, b.len() as int))
}

/// A byte string that is the encoding of its own decoded parts.
pub open spec fn enc_wf(b: Seq<u8>) -> bool {
    &&& b.len() >= 12
    &&& b == enc_key(dec_key(b), dec_ver(b))
    &&& dec_key(b).len() <= 0xFFFF_FFFF
}

/// Encoding round-trips: the decoded parts of `enc_key(k, v)` are `(k, v)`.
pub proof fn lemma_enc_roundtrip(k: Seq<u8>, v: u64)
    requires
        k.len() <= 0xFFFF_FFFF,
    ensures
        enc_wf(enc_key(k, v)),
        dec_key(enc_key(k, v)) == k,
        dec_ver(enc_key(k, v)) == v,
{
    let b = enc_key(k, v);
    assert(b.len() == 12 + k.len());
    assert(b.subrange(4, b.len() - 8) =~= k);
    assert(b.subrange(b.len() - 8, b.len() as int) =~= spec_be64(v));
    lemma_be64_roundtrip(v);
}

/// Encoding is injective.
pub proof fn lemma_enc_injective(k1: Seq<u8>, v1: u64, k2: Seq<u8>, v2: u64)
    requires
        enc_key(k1, v1) == enc_key(k2, v2),
    ensures
        k1 == k2,
        v1 == v2,
{
    let b = enc_key(k1, v1);
    assert(b.len() == 12 + k1.len());
    assert(b.len() == 12 + k2.len());
    assert(k1 =~= b.subrange(4, b.len() - 8));
    assert(k2 =~= b.subrange(4, b.len() - 8));
    assert(b.subrange(b.len() - 8, b.len() as int) =~= spec_be64(v1));
    assert(b.subrange(b.len() - 8, b.len() as int) =~= spec_be64(v2));
    lemma_be64_roundtrip(v1);
    lemma_be64_roundtrip(v2);
}

/// For one raw key, encoded keys sort by version.
pub proof fn lemma_enc_version_order(k: Seq<u8>, v1: u64, v2: u64)
    requires
        v1 < v2,
    ensures
        lex_lt(enc_key(k, v1), enc_key(k, v2)),
{
    let p = spec_be32(k.len() as u32) + k;
    lemma_be64_order(v1, v2);
    lemma_lex_lt_prefix(p, spec_be64(v1), spec_be64(v2));
    assert(enc_key(k, v1) == p + spec_be64(v1));
    assert(enc_key(k, v2) == p + spec_be64(v2));
}

/// Builds the encoded composite key of `(key, version)`.
fn encode_key(key: &[u8], version: u64) -> (r: Vec<u8>)
    requires
        key@.len() <= 0xFFFF_FFFF,
    ensures
        r@ == enc_key(key@, version),
{
    let mut out: Vec<u8> = Vec::new();
    push_be32(&mut out, key.len() as u32);
    push_bytes(&mut out, key);
    push_be64(&mut out, version);
    assert(out@ =~= enc_key(key@, version));
    out
}

/// Splits an encoded composite key into its raw key and version.
fn decode_key(b: &Vec<u8>) -> (r: (Vec<u8>, u64))
    requires
        enc_wf(b@),
    ensures
        r.0@ == dec_key(b@),
        r.1 == dec_ver(b@),
{
    let n: usize = b.len();
    let key = copy_range(b, 4, n - 12);
    let ver = be64_at(b, n - 8);
    assert(b@.subrange(4, 4 + (n - 12)) =~= dec_key(b@));
    assert(b@.subrange(n - 8, n as int) =~= b@.subrange(b@.len() - 8, b@.len() as int));
    (key, ver)
}

/// The deep view of a stored optional value.
pub open spec fn opt_view(o: Option<Vec<u8>>) -> Option<Seq<u8>> {
    match o {
        Some(v) => Some(v@),
        None => None,
    }
}

/// The deep view of a list of keys.
pub open spec fn keys_view(s: Seq<Vec<u8>>) -> Seq<Seq<u8>> {
    s.map_values(|k: Vec<u8>| k@)
}

/// Whether the registry sequence holds an entry for version `v`.
pub open spec fn reg_has(s: Seq<(u64, Seq<Seq<u8>>)>, v: u64) -> bool {
    exists|i: int| 0 <= i < s.len() && (#[trigger] s[i]).0 == v
}

/// The position of version `v` in the registry sequence.
pub open spec fn reg_index_of(s: Seq<(u64, Seq<Seq<u8>>)>, v: u64) -> int {
    choose|i: int| 0 <= i < s.len() && (#[trigger] s[i]).0 == v
}

/// The write set recorded for version `v`.
pub open spec fn reg_writes(s: Seq<(u64, Seq<Seq<u8>>)>, v: u64) -> Seq<Seq<u8>> {
    s[reg_index_of(s, v)].1
}

/// Registry versions are pairwise distinct.
pub open spec fn reg_unique(s: Seq<(u64, Seq<Seq<u8>>)>) -> bool {
    forall|i: int, j: int| 0 <= i < j < s.len() ==> (#[trigger] s[i]).0 != (#[trigger] s[j]).0
}

/// In a registry with distinct versions, each entry is the one its version
/// looks up.
pub proof fn lemma_reg_at(s: Seq<(u64, Seq<Seq<u8>>)>, i: int)
    requires
        reg_unique(s),
        0 <= i < s.len(),
    ensures
        reg_has(s, s[i].0),
        reg_index_of(s, s[i].0) == i,
        reg_writes(s, s[i].0) == s[i].1,
{
    assert(reg_has(s, s[i].0));
    let j = reg_index_of(s, s[i].0);
    if i != j {
        assert(s[i].0 != s[j].0);
    }
}

/// The transaction manager: the backing engine, the registry of active
/// transactions and their write sets, and the version counter.
pub struct MVCC {
    kv: KVEngine,
    registry: Vec<(u64, Vec<Vec<u8>>)>,
    next_version: u64,
}

/// One transaction: its version and the set of versions that were active
/// when it began.
pub struct Transaction {
    version: u64,
    active_xid: Vec<u64>,
}

impl MVCC {
    /// The backing's entries as mathematical pairs, ascending by encoded
    /// key.
    pub closed spec fn kv_seq(self) -> Seq<(Seq<u8>, Option<Vec<u8>>)> {
        self.kv.entry_seq()
    }

    /// The registry as mathematical pairs.
    pub closed spec fn reg_seq(self) -> Seq<(u64, Seq<Seq<u8>>)> {
        self.registry@.map_values(|e: (u64, Vec<Vec<u8>>)| (e.0, keys_view(e.1@)))
    }

    /// The next version the counter will hand out.
    pub closed spec fn next_version_spec(self) -> u64 {
        self.next_version
    }

    /// Whether a transaction with version `v` is in flight.
    pub open spec fn is_active(self, v: u64) -> bool {
        reg_has(self.reg_seq(), v)
    }

    /// The keys the in-flight transaction `v` has written.
    pub open spec fn writes(self, v: u64) -> Seq<Seq<u8>> {
        reg_writes(self.reg_seq(), v)
    }

    /// The versioned records: each pair `(raw key, version)` maps to the
    /// stored value, `None` standing for a tombstone.
    pub closed spec fn versions(self) -> Map<(Seq<u8>, u64), Option<Seq<u8>>> {
        Map::new(
            |p: (Seq<u8>, u64)| self.kv.as_map().contains_key(enc_key(p.0, p.1)),
            |p: (Seq<u8>, u64)| opt_view(self.kv.as_map()[enc_key(p.0, p.1)]),
        )
    }

    /// The conditions on one backing entry: a valid encoding of a version
    /// the counter has handed out, and listed in its writer's write set
    /// while that writer is active.
    pub closed spec fn kv_entry_ok(self, i: int) -> bool {
        let b = self.kv_seq()[i].0;
        &&& enc_wf(b)
        &&& dec_ver(b) < self.next_version
        &&& (reg_has(self.reg_seq(), dec_ver(b)) ==> reg_writes(
            self.reg_seq(),
            dec_ver(b),
        ).contains(dec_key(b)))
    }

    /// The conditions on one registry entry: a version below the counter
    /// and a repeat-free write list whose records are all present.
    pub closed spec fn reg_entry_ok(self, e: (u64, Seq<Seq<u8>>)) -> bool {
        &&& e.0 < self.next_version
        &&& forall|a: int, b: int| 0 <= a < b < e.1.len() ==> e.1[a] != e.1[b]
        &&& forall|a: int| 0 <= a < e.1.len() ==> (#[trigger] e.1[a]).len() <= 0xFFFF_FFFF
            && self.kv.as_map().contains_key(enc_key(e.1[a], e.0))
    }

    /// Well-formed: the backing is sorted and holds only valid encodings of
    /// versions the counter has handed out; the registry has one entry per
    /// active version, versions below the counter, write lists without
    /// repeats whose records are present; and every record of an active
    /// version is in that version's write list.
    pub closed spec fn wf(self) -> bool {
        &&& self.kv.wf()
        &&& forall|i: int| 0 <= i < self.kv_seq().len() ==> #[trigger] self.kv_entry_ok(i)
        &&& reg_unique(self.reg_seq())
        &&& forall|i: int| 0 <= i < self.reg_seq().len() ==> self.reg_entry_ok(
            #[trigger] self.reg_seq()[i],
        )
        &&& self.next_version >= 1
    }

    /// A new manager over an empty backing; the version counter starts
    /// at 1.
    pub fn new(kv: KVEngine) -> (r: MVCC)
        requires
            kv.wf(),
            kv.entry_seq().len() == 0,
        ensures
            r.wf(),
            r.versions() == Map::<(Seq<u8>, u64), Option<Seq<u8>>>::empty(),
            forall|v: u64| !r.is_active(v),
            r.next_version_spec() == 1,
    {
        let r = MVCC { kv, registry: Vec::new(), next_version: 1 };
        proof {
            assert(r.reg_seq() =~= Seq::<(u64, Seq<Seq<u8>>)>::empty());
            assert(r.versions() =~= Map::<(Seq<u8>, u64), Option<Seq<u8>>>::empty());
        }
        r
    }

    /// Starts a transaction; equivalent to `Transaction::begin`.
    pub fn begin_transaction(&mut self) -> (t: Transaction)
        requires
            old(self).wf(),
            old(self).next_version_spec() < 0xFFFF_FFFF_FFFF_FFFF,
        ensures
            t.wf_for(*final(self)),
            final(self).wf(),
            t.spec_version() == old(self).next_version_spec(),
            final(self).next_version_spec() == old(self).next_version_spec() + 1,
            forall|v: u64| t.snapshot_xids().contains(v) == old(self).is_active(v),
            forall|v: u64| final(self).is_active(v) == (old(self).is_active(v) || v
                == t.spec_version()),
            final(self).versions() == old(self).versions(),
            final(self).writes(t.spec_version()) == Seq::<Seq<u8>>::empty(),
            forall|v: u64| v != t.spec_version() && old(self).is_active(v)
                ==> final(self).writes(v) == old(self).writes(v),
    {
        Transaction::begin(self)
    }

    /// The registry position of the entry for active version `v`.
    fn reg_index(&self, v: u64) -> (i: usize)
        requires
            self.wf(),
            self.is_active(v),
        ensures
            i < self.reg_seq().len(),
            self.reg_seq()[i as int].0 == v,
            reg_index_of(self.reg_seq(), v) == i,
    {
        let ghost s = self.reg_seq();
        let n = self.registry.len();
        let mut i: usize = 0;
        while i < n
            invariant
                self.wf(),
                s == self.reg_seq(),
                n == s.len(),
                i <= n,
                reg_has(s, v),
                forall|j: int| 0 <= j < i ==> (#[trigger] s[j]).0 != v,
            decreases n - i,
        {
            if self.registry[i].0 == v {
                proof {
                    lemma_reg_at(s, i as int);
                }
                return i;
            }
            i = i + 1;
        }
        proof {
            let j = reg_index_of(s, v);
            assert(0 <= j < s.len() && s[j].0 == v);
            assert(false);
        }
        0
    }
}

/// `v` is the highest version under which `k` has a record.
pub open spec fn is_latest_version(m: MVCC, k: Seq<u8>, v: u64) -> bool {
    &&& m.versions().contains_key((k, v))
    &&& forall|w: u64| #[trigger] m.versions().contains_key((k, w)) ==> w <= v
}

/// A write of `k` by `t` must fail: the nearest preceding record for `k`
/// is not visible to `t`.
pub open spec fn spec_conflict(m: MVCC, t: Transaction, k: Seq<u8>) -> bool {
    exists|v: u64| #[trigger] is_latest_version(m, k, v) && !spec_visible(t, v)
}

/// `v` is the highest version visible to `t` under which `k` has a record.
pub open spec fn is_latest_visible(m: MVCC, t: Transaction, k: Seq<u8>, v: u64) -> bool {
    &&& m.versions().contains_key((k, v))
    &&& spec_visible(t, v)
    &&& forall|w: u64|
        #[trigger] m.versions().contains_key((k, w)) && spec_visible(t, w) ==> w <= v
}

impl MVCC {
    /// In a well-formed backing, the position of a record for `(k, w)`
    /// decodes back to `(k, w)`.
    proof fn lemma_version_entry(self, k: Seq<u8>, w: u64)
        requires
            self.wf(),
            k.len() <= 0xFFFF_FFFF,
            self.versions().contains_key((k, w)),
        ensures
            has_key(self.kv_seq(), enc_key(k, w)),
            0 <= index_of(self.kv_seq(), enc_key(k, w)) < self.kv_seq().len(),
            self.kv_seq()[index_of(self.kv_seq(), enc_key(k, w))].0 == enc_key(k, w),
            dec_key(enc_key(k, w)) == k,
            dec_ver(enc_key(k, w)) == w,
    {
        lemma_enc_roundtrip(k, w);
        assert(self.kv.as_map().contains_key(enc_key(k, w)));
        let j = index_of(self.kv_seq(), enc_key(k, w));
        assert(0 <= j < self.kv_seq().len() && self.kv_seq()[j].0 == enc_key(k, w));
    }

    /// Entries of one raw key ascend by version with their position.
    proof fn lemma_same_key_order(self, i: int, j: int)
        requires
            self.wf(),
            0 <= i < j < self.kv_seq().len(),
            dec_key(self.kv_seq()[i].0) == dec_key(self.kv_seq()[j].0),
        ensures
            dec_ver(self.kv_seq()[i].0) < dec_ver(self.kv_seq()[j].0),
    {
        let bi = self.kv_seq()[i].0;
        let bj = self.kv_seq()[j].0;
        assert(self.kv_entry_ok(i) && self.kv_entry_ok(j));
        let k = dec_key(bi);
        let vi = dec_ver(bi);
        let vj = dec_ver(bj);
        assert(lex_lt(bi, bj));
        if vi == vj {
            lemma_lex_lt_irrefl(bi);
        } else if vi > vj {
            lemma_enc_version_order(k, vj, vi);
            lemma_lex_lt_asym(bj, bi);
        }
    }

    /// The version of the newest record for `key`, found by one descending
    /// pass that stops at the first record whose raw key matches.
    fn latest_version_of(&self, key: &[u8]) -> (r: Option<u64>)
        requires
            self.wf(),
            key@.len() <= 0xFFFF_FFFF,
        ensures
            match r {
                Some(v) => is_latest_version(*self, key@, v),
                None => forall|v: u64| !(#[trigger] self.versions().contains_key((key@, v))),
            },
    {
        let ghost s = self.kv_seq();
        let n = self.kv.len();
        let mut i: usize = n;
        while i > 0
            invariant
                self.wf(),
                s == self.kv_seq(),
                n == s.len(),
                i <= n,
                forall|j: int| i <= j < n ==> dec_key((#[trigger] s[j]).0) != key@,
            decreases i,
        {
            i = i - 1;
            proof {
                assert(self.kv_entry_ok(i as int));
            }
            let (rk, ver) = decode_key(self.kv.key_at(i));
            if bytes_eq(rk.as_slice(), key) {
                proof {
                    let b0 = s[i as int].0;
                    assert(b0 == enc_key(key@, ver));
                    lemma_entry_in_map(s, i as int);
                    assert(self.versions().contains_key((key@, ver)));
                    assert forall|w: u64|
                        #[trigger] self.versions().contains_key((key@, w)) implies w <= ver by {
                        self.lemma_version_entry(key@, w);
                        let j = index_of(s, enc_key(key@, w));
                        if j > i {
                            assert(dec_key(s[j].0) != key@);
                        } else if j == i {
                            lemma_enc_injective(key@, w, key@, ver);
                        } else {
                            self.lemma_same_key_order(j, i as int);
                        }
                    }
                }
                return Some(ver);
            }
        }
        proof {
            assert forall|v: u64| !(#[trigger] self.versions().contains_key((key@, v))) by {
                if self.versions().contains_key((key@, v)) {
                    self.lemma_version_entry(key@, v);
                    let j = index_of(s, enc_key(key@, v));
                    assert(dec_key(s[j].0) != key@);
                }
            }
        }
        None
    }
}

/// After replacing the write list at position `i`, the registry keeps the
/// same active versions; only that version's list changes.
proof fn lemma_reg_update(
    s0: Seq<(u64, Seq<Seq<u8>>)>,
    s1: Seq<(u64, Seq<Seq<u8>>)>,
    i: int,
    wl: Seq<Seq<u8>>,
)
    requires
        reg_unique(s0),
        0 <= i < s0.len(),
        s1 == s0.update(i, (s0[i].0, wl)),
    ensures
        reg_unique(s1),
        forall|v: u64| #[trigger] reg_has(s1, v) == reg_has(s0, v),
        forall|v: u64| v != s0[i].0 && reg_has(s0, v) ==> reg_writes(s1, v) == reg_writes(s0, v),
        reg_writes(s1, s0[i].0) == wl,
{
    assert(forall|j: int| 0 <= j < s1.len() ==> (#[trigger] s1[j]).0 == s0[j].0);
    assert forall|v: u64| #[trigger] reg_has(s1, v) == reg_has(s0, v) by {
        if reg_has(s1, v) {
            let j = reg_index_of(s1, v);
            assert(s0[j].0 == v);
        }
        if reg_has(s0, v) {
            let j = reg_index_of(s0, v);
            assert(s1[j].0 == v);
        }
    }
    assert forall|v: u64| v != s0[i].0 && reg_has(s0, v) implies reg_writes(s1, v) == reg_writes(
        s0,
        v,
    ) by {
        let j = reg_index_of(s0, v);
        lemma_reg_at(s0, j);
        assert(j != i);
        assert(s1[j] == s0[j]);
        lemma_reg_at(s1, j);
    }
    lemma_reg_at(s1, i);
}

/// Whether one of `keys` holds exactly the bytes of `k`.
fn contains_bytes(keys: &Vec<Vec<u8>>, k: &[u8]) -> (r: bool)
    ensures
        r == keys_view(keys@).contains(k@),
{
    let n = keys.len();
    let mut i: usize = 0;
    while i < n
        invariant
            n == keys@.len(),
            i <= n,
            forall|j: int| 0 <= j < i ==> keys_view(keys@)[j] != k@,
        decreases n - i,
    {
        if bytes_eq(keys[i].as_slice(), k) {
            assert(keys_view(keys@)[i as int] == k@);
            return true;
        }
        i = i + 1;
    }
    assert(!keys_view(keys@).contains(k@));
    false
}

/// A version `v` is visible to `t` iff it is no newer than `t`'s own
/// version and was not in flight when `t` began.
pub open spec fn spec_visible(t: Transaction, v: u64) -> bool {
    v <= t.spec_version() && !t.snapshot_xids().contains(v)
}

impl Transaction {
    /// This transaction's version.
    pub closed spec fn spec_version(self) -> u64 {
        self.version
    }

    /// The versions that were in flight when this transaction began.
    pub closed spec fn snapshot_xids(self) -> Seq<u64> {
        self.active_xid@
    }

    /// This transaction is in flight in `m`, its snapshot holds exactly the
    /// older versions still active, and never its own version.
    pub open spec fn wf_for(self, m: MVCC) -> bool {
        &&& m.wf()
        &&& m.is_active(self.spec_version())
        &&& self.spec_version() < m.next_version_spec()
        &&& !self.snapshot_xids().contains(self.spec_version())
        &&& forall|v: u64| #[trigger] self.snapshot_xids().contains(v) ==> v < self.spec_version()
        &&& forall|v: u64| #[trigger] m.is_active(v) && v < self.spec_version()
            ==> self.snapshot_xids().contains(v)
    }

    /// Begins a transaction: takes the next version, snapshots the active
    /// set, and registers itself with an empty write set.
    pub fn begin(m: &mut MVCC) -> (t: Transaction)
        requires
            old(m).wf(),
            old(m).next_version_spec() < 0xFFFF_FFFF_FFFF_FFFF,
        ensures
            t.wf_for(*final(m)),
            final(m).wf(),
            t.spec_version() == old(m).next_version_spec(),
            final(m).next_version_spec() == old(m).next_version_spec() + 1,
            forall|v: u64| t.snapshot_xids().contains(v) == old(m).is_active(v),
            forall|v: u64| final(m).is_active(v) == (old(m).is_active(v) || v
                == t.spec_version()),
            final(m).versions() == old(m).versions(),
            final(m).writes(t.spec_version()) == Seq::<Seq<u8>>::empty(),
            forall|v: u64| v != t.spec_version() && old(m).is_active(v) ==> final(m).writes(v)
                == old(m).writes(v),
    {
        let ghost s0 = m.reg_seq();
        let version = m.next_version;
        m.next_version = m.next_version + 1;
        let n = m.registry.len();
        let mut active_xid: Vec<u64> = Vec::new();
        let mut i: usize = 0;
        while i < n
            invariant
                s0 == m.reg_seq(),
                n == s0.len(),
                i <= n,
                active_xid@ == s0.subrange(0, i as int).map_values(
                    |e: (u64, Seq<Seq<u8>>)| e.0,
                ),
            decreases n - i,
        {
            active_xid.push(m.registry[i].0);
            assert(active_xid@ =~= s0.subrange(0, i + 1).map_values(
                |e: (u64, Seq<Seq<u8>>)| e.0,
            ));
            i = i + 1;
        }
        proof {
            assert(s0.subrange(0, n as int) =~= s0);
        }
        m.registry.push((version, Vec::new()));
        let t = Transaction { version, active_xid };
        proof {
            let s1 = m.reg_seq();
            assert(keys_view(Seq::<Vec<u8>>::empty()) =~= Seq::<Seq<u8>>::empty());
            assert(s1 =~= s0.push((version, Seq::<Seq<u8>>::empty())));
            // The snapshot holds exactly the versions of the old registry.
            assert forall|v: u64| #[trigger] t.snapshot_xids().contains(v) == reg_has(s0, v) by {
                if t.snapshot_xids().contains(v) {
                    let j = choose|j: int| 0 <= j < t.snapshot_xids().len() && t.snapshot_xids()[j] == v;
                    assert(s0[j].0 == v);
                }
                if reg_has(s0, v) {
                    let j = reg_index_of(s0, v);
                    assert(t.snapshot_xids()[j] == v);
                }
            }
            assert forall|v: u64| #[trigger] reg_has(s1, v) == (reg_has(s0, v) || v
                == version) by {
                if reg_has(s1, v) {
                    let j = reg_index_of(s1, v);
                    if j < s0.len() {
                        assert(s0[j].0 == v);
                    }
                }
                if reg_has(s0, v) {
                    let j = reg_index_of(s0, v);
                    assert(s1[j].0 == v);
                }
                if v == version {
                    assert(s1[s1.len() - 1].0 == v);
                }
            }
            lemma_reg_at(s1, s1.len() - 1);
            assert forall|v: u64| v != version && reg_has(s0, v) implies reg_writes(s1, v)
                == reg_writes(s0, v) by {
                let j = reg_index_of(s0, v);
                assert(s1[j].0 == v);
                lemma_reg_at(s1, j);
                lemma_reg_at(s0, j);
            }
            assert(m.versions() =~= old(m).versions());
            assert forall|j: int| 0 <= j < m.kv_seq().len() implies #[trigger] m.kv_entry_ok(
                j,
            ) by {
                let b = m.kv_seq()[j].0;
                assert(old(m).kv_entry_ok(j));
                assert(old(m).kv_seq()[j].0 == b);
                assert(enc_wf(b) && dec_ver(b) < version);
                if reg_has(s1, dec_ver(b)) {
                    assert(reg_has(s0, dec_ver(b)));
                }
            }
            assert forall|j: int| 0 <= j < s1.len() implies m.reg_entry_ok(#[trigger] s1[j]) by {
                if j < s0.len() {
                    assert(s1[j] == s0[j]);
                    assert(old(m).reg_entry_ok(s0[j]));
                } else {
                    assert(s1[j] == (version, Seq::<Seq<u8>>::empty()));
                }
            }
            assert(m.wf());
        }
        t
    }

    /// Whether a record written at `version` is visible to this
    /// transaction.
    pub fn is_visible(&self, version: u64) -> (r: bool)
        ensures
            r == spec_visible(*self, version),
    {
        let n = self.active_xid.len();
        let mut i: usize = 0;
        while i < n
            invariant
                n == self.active_xid@.len(),
                i <= n,
                forall|j: int| 0 <= j < i ==> self.active_xid@[j] != version,
            decreases n - i,
        {
            if self.active_xid[i] == version {
                return false;
            }
            i = i + 1;
        }
        assert(!self.snapshot_xids().contains(version));
        version <= self.version
    }

    /// Ends the transaction, keeping its writes: deregisters it, so its
    /// version becomes visible to transactions that begin later.
    pub fn commit(self, m: &mut MVCC)
        requires
            self.wf_for(*old(m)),
        ensures
            final(m).wf(),
            final(m).versions() == old(m).versions(),
            final(m).next_version_spec() == old(m).next_version_spec(),
            forall|v: u64| final(m).is_active(v) == (old(m).is_active(v) && v
                != self.spec_version()),
            forall|v: u64| v != self.spec_version() && old(m).is_active(v)
                ==> final(m).writes(v) == old(m).writes(v),
    {
        let ghost s0 = m.reg_seq();
        let i = m.reg_index(self.version);
        m.registry.remove(i);
        proof {
            let s1 = m.reg_seq();
            assert(s1 =~= s0.remove(i as int));
            lemma_reg_remove(s0, s1, i as int, self.version);
            assert(m.versions() =~= old(m).versions());
            assert forall|j: int| 0 <= j < m.kv_seq().len() implies #[trigger] m.kv_entry_ok(
                j,
            ) by {
                let b = m.kv_seq()[j].0;
                assert(old(m).kv_entry_ok(j));
                assert(old(m).kv_seq()[j].0 == b);
                if reg_has(s1, dec_ver(b)) {
                    assert(reg_has(s0, dec_ver(b)) && dec_ver(b) != self.version);
                    assert(reg_writes(s1, dec_ver(b)) == reg_writes(s0, dec_ver(b)));
                }
            }
            assert forall|j: int| 0 <= j < s1.len() implies m.reg_entry_ok(#[trigger] s1[j]) by {
                if j < i {
                    assert(s1[j] == s0[j]);
                    assert(old(m).reg_entry_ok(s0[j]));
                } else {
                    assert(s1[j] == s0[j + 1]);
                    assert(old(m).reg_entry_ok(s0[j + 1]));
                }
            }
            assert(m.wf());
        }
    }
}

impl Transaction {
    /// Writes `key -> value` (or a tombstone) under this transaction's
    /// version after checking the nearest preceding record for a conflict,
    /// and records the key in the write set.
    fn write(&self, m: &mut MVCC, key: &[u8], value: Option<Vec<u8>>) -> (r: Result<(), Error>)
        requires
            self.wf_for(*old(m)),
            key@.len() <= 0xFFFF_FFFF,
        ensures
            match r {
                Ok(u) => {
                    &&& final(m).wf()
                    &&& self.wf_for(*final(m))
                    &&& !spec_conflict(*old(m), *self, key@)
                    &&& final(m).versions() == old(m).versions().insert(
                        (key@, self.spec_version()),
                        opt_view(value),
                    )
                    &&& final(m).next_version_spec() == old(m).next_version_spec()
                    &&& forall|v: u64| final(m).is_active(v) == old(m).is_active(v)
                    &&& final(m).writes(self.spec_version()) == (if old(m).writes(
                        self.spec_version(),
                    ).contains(key@) {
                        old(m).writes(self.spec_version())
                    } else {
                        old(m).writes(self.spec_version()).push(key@)
                    })
                    &&& forall|v: u64| v != self.spec_version() && old(m).is_active(v)
                        ==> final(m).writes(v) == old(m).writes(v)
                },
                Err(e) => {
                    &&& e == Error::Conflict
                    &&& spec_conflict(*old(m), *self, key@)
                    &&& *final(m) == *old(m)
                },
            },
    {
        match m.latest_version_of(key) {
            Some(v) => {
                if !self.is_visible(v) {
                    return Err(Error::Conflict);
                }
                proof {
                    assert forall|w: u64| #[trigger] is_latest_version(*m, key@, w) implies
                        spec_visible(*self, w) by {
                        assert(m.versions().contains_key((key@, v)));
                        assert(m.versions().contains_key((key@, w)));
                        assert(w <= v && v <= w);
                    }
                }
            },
            None => {
                proof {
                    assert forall|w: u64| !(#[trigger] is_latest_version(*m, key@, w)) by {
                        assert(!m.versions().contains_key((key@, w)));
                    }
                }
            },
        }
        let ghost s0 = m.reg_seq();
        let ghost wl0 = m.writes(self.version);
        let ri = m.reg_index(self.version);
        let mut entry = m.registry.remove(ri);
        let present = contains_bytes(&entry.1, key);
        if !present {
            entry.1.push(vstd::slice::slice_to_vec(key));
        }
        m.registry.insert(ri, entry);
        let ghost wl1 = if wl0.contains(key@) {
            wl0
        } else {
            wl0.push(key@)
        };
        proof {
            let s1 = m.reg_seq();
            lemma_reg_at(s0, ri as int);
            assert(wl0 == s0[ri as int].1);
            if !present {
                assert(keys_view(entry.1@) =~= wl0.push(key@));
            }
            assert(s1 =~= s0.update(ri as int, (self.version, wl1)));
            lemma_reg_update(s0, s1, ri as int, wl1);
        }
        let ghost kv0 = m.kv_seq();
        let ek = encode_key(key, self.version);
        m.kv.insert(ek, value);
        proof {
            let s1 = m.reg_seq();
            lemma_enc_roundtrip(key@, self.version);
            assert(m.kv.as_map() == old(m).kv.as_map().insert(enc_key(key@, self.version), value));
            // The versioned-record map gains exactly this one pair.
            assert forall|p: (Seq<u8>, u64)| true implies #[trigger] m.versions().contains_key(p)
                == (old(m).versions().contains_key(p) || p == (key@, self.spec_version())) by {
                if enc_key(p.0, p.1) == enc_key(key@, self.spec_version()) {
                    lemma_enc_injective(p.0, p.1, key@, self.spec_version());
                }
            }
            assert forall|p: (Seq<u8>, u64)| #[trigger] m.versions().contains_key(p) implies
                m.versions()[p] == old(m).versions().insert(
                (key@, self.spec_version()),
                opt_view(value),
            )[p] by {
                if enc_key(p.0, p.1) == enc_key(key@, self.spec_version()) {
                    lemma_enc_injective(p.0, p.1, key@, self.spec_version());
                }
            }
            assert(m.versions() =~= old(m).versions().insert(
                (key@, self.spec_version()),
                opt_view(value),
            ));
            // Well-formedness: each backing entry is the new record or one
            // carried over, and the registry still covers them all.
            assert forall|j: int| 0 <= j < m.kv_seq().len() implies #[trigger] m.kv_entry_ok(
                j,
            ) by {
                let e = m.kv_seq()[j];
                if e == (enc_key(key@, self.spec_version()), value) {
                    assert(reg_writes(s1, self.spec_version()) == wl1);
                    if !wl0.contains(key@) {
                        assert(wl1[wl1.len() - 1] == key@);
                    }
                    assert(wl1.contains(key@));
                } else {
                    assert(kv0.contains(e));
                    let x = choose|x: int| 0 <= x < kv0.len() && kv0[x] == e;
                    assert(old(m).kv_entry_ok(x));
                    let b = e.0;
                    if reg_has(s1, dec_ver(b)) {
                        if dec_ver(b) == self.spec_version() {
                            assert(reg_writes(s0, dec_ver(b)).contains(dec_key(b)));
                            let y = choose|y: int|
                                0 <= y < wl0.len() && #[trigger] wl0[y] == dec_key(b);
                            assert(wl1[y] == dec_key(b));
                        } else {
                            assert(reg_writes(s1, dec_ver(b)) == reg_writes(s0, dec_ver(b)));
                        }
                    }
                }
            }
            assert forall|j: int| 0 <= j < s1.len() implies m.reg_entry_ok(#[trigger] s1[j]) by {
                assert(old(m).reg_entry_ok(s0[j]));
                if j == ri {
                    assert(s1[j] == (self.spec_version(), wl1));
                    assert forall|a: int| 0 <= a < wl1.len() implies (#[trigger] wl1[a]).len()
                        <= 0xFFFF_FFFF && m.kv.as_map().contains_key(
                        enc_key(wl1[a], self.spec_version()),
                    ) by {
                        if a < wl0.len() {
                            assert(wl1[a] == wl0[a]);
                        } else {
                            assert(wl1[a] == key@);
                        }
                    }
                    assert forall|a: int, b: int| 0 <= a < b < wl1.len() implies wl1[a]
                        != wl1[b] by {
                        if b == wl1.len() - 1 && wl1.len() > wl0.len() {
                            assert(!wl0.contains(key@));
                            assert(wl1[a] == wl0[a]);
                        }
                    }
                } else {
                    assert(s1[j] == s0[j]);
                }
            }
            assert(m.wf());
            assert forall|v: u64| #[trigger] m.is_active(v) && v < self.spec_version() implies
                self.snapshot_xids().contains(v) by {
                assert(old(m).is_active(v));
            }
            assert(self.wf_for(*m));
        }
        Ok(())
    }

    /// Writes `key -> value`; fails with a conflict when the newest record
    /// for the key is not visible to this transaction.
    pub fn set(&self, m: &mut MVCC, key: &[u8], value: Vec<u8>) -> (r: Result<(), Error>)
        requires
            self.wf_for(*old(m)),
            key@.len() <= 0xFFFF_FFFF,
        ensures
            match r {
                Ok(u) => {
                    &&& final(m).wf()
                    &&& self.wf_for(*final(m))
                    &&& !spec_conflict(*old(m), *self, key@)
                    &&& final(m).versions() == old(m).versions().insert(
                        (key@, self.spec_version()),
                        Some(value@),
                    )
                    &&& final(m).next_version_spec() == old(m).next_version_spec()
                    &&& forall|v: u64| final(m).is_active(v) == old(m).is_active(v)
                },
                Err(e) => {
                    &&& e == Error::Conflict
                    &&& spec_conflict(*old(m), *self, key@)
                    &&& *final(m) == *old(m)
                },
            },
    {
        self.write(m, key, Some(value))
    }

    /// Deletes `key` by writing a versioned tombstone; conflicts exactly as
    /// `set` does.
    pub fn delete(&self, m: &mut MVCC, key: &[u8]) -> (r: Result<(), Error>)
        requires
            self.wf_for(*old(m)),
            key@.len() <= 0xFFFF_FFFF,
        ensures
            match r {
                Ok(u) => {
                    &&& final(m).wf()
                    &&& self.wf_for(*final(m))
                    &&& !spec_conflict(*old(m), *self, key@)
                    &&& final(m).versions() == old(m).versions().insert(
                        (key@, self.spec_version()),
                        None,
                    )
                    &&& final(m).next_version_spec() == old(m).next_version_spec()
                    &&& forall|v: u64| final(m).is_active(v) == old(m).is_active(v)
                },
                Err(e) => {
                    &&& e == Error::Conflict
                    &&& spec_conflict(*old(m), *self, key@)
                    &&& *final(m) == *old(m)
                },
            },
    {
        self.write(m, key, None)
    }

    /// Reads the value of `key` at the newest version visible to this
    /// transaction; absent keys and tombstones read as `None`.
    pub fn get(&self, m: &MVCC, key: &[u8]) -> (r: Option<Vec<u8>>)
        requires
            self.wf_for(*m),
            key@.len() <= 0xFFFF_FFFF,
        ensures
            forall|v: u64| #[trigger] is_latest_visible(*m, *self, key@, v) ==> opt_view(r)
                == m.versions()[(key@, v)],
            (exists|v: u64| #[trigger] is_latest_visible(*m, *self, key@, v)) || (forall|v: u64|
                !(#[trigger] m.versions().contains_key((key@, v)) && spec_visible(*self, v))),
            r is Some ==> exists|v: u64| #[trigger] is_latest_visible(*m, *self, key@, v),
    {
        let ghost s = m.kv_seq();
        let n = m.kv.len();
        let mut i: usize = n;
        while i > 0
            invariant
                self.wf_for(*m),
                s == m.kv_seq(),
                n == s.len(),
                i <= n,
                forall|j: int| i <= j < n ==> !(dec_key((#[trigger] s[j]).0) == key@
                    && spec_visible(*self, dec_ver(s[j].0))),
            decreases i,
        {
            i = i - 1;
            proof {
                assert(m.kv_entry_ok(i as int));
            }
            let (rk, ver) = decode_key(m.kv.key_at(i));
            if bytes_eq(rk.as_slice(), key) && self.is_visible(ver) {
                proof {
                    let b0 = s[i as int].0;
                    assert(b0 == enc_key(key@, ver));
                    lemma_entry_in_map(s, i as int);
                    assert(m.versions().contains_key((key@, ver)));
                    assert forall|w: u64|
                        #[trigger] m.versions().contains_key((key@, w)) && spec_visible(
                            *self,
                            w,
                        ) implies w <= ver by {
                        m.lemma_version_entry(key@, w);
                        let j = index_of(s, enc_key(key@, w));
                        if j > i {
                            assert(!(dec_key(s[j].0) == key@ && spec_visible(*self, dec_ver(
                                s[j].0,
                            ))));
                        } else if j == i {
                            lemma_enc_injective(key@, w, key@, ver);
                        } else {
                            m.lemma_same_key_order(j, i as int);
                        }
                    }
                    assert(is_latest_visible(*m, *self, key@, ver));
                    assert forall|v: u64| #[trigger] is_latest_visible(*m, *self, key@, v) implies
                        v == ver by {
                        assert(m.versions().contains_key((key@, v)));
                    }
                    assert(m.versions()[(key@, ver)] == opt_view(s[i as int].1));
                }
                let stored = m.kv.val_at(i);
                let r = match stored {
                    Some(v) => Some(clone_bytes(v)),
                    None => None,
                };
                return r;
            }
            proof {
                if dec_key(s[i as int].0) == key@ {
                    assert(!spec_visible(*self, dec_ver(s[i as int].0)));
                }
            }
        }
        proof {
            assert forall|v: u64|
                !(#[trigger] m.versions().contains_key((key@, v)) && spec_visible(
                    *self,
                    v,
                )) by {
                if m.versions().contains_key((key@, v)) && spec_visible(*self, v) {
                    m.lemma_version_entry(key@, v);
                    let j = index_of(s, enc_key(key@, v));
                    assert(!(dec_key(s[j].0) == key@ && spec_visible(*self, dec_ver(s[j].0))));
                }
            }
            assert forall|v: u64| !(#[trigger] is_latest_visible(*m, *self, key@, v)) by {
                assert(!(m.versions().contains_key((key@, v)) && spec_visible(*self, v)));
            }
        }
        None
    }
}

impl Transaction {
    /// Ends the transaction and discards its work: removes every versioned
    /// record it wrote, then deregisters it. Afterwards no record under
    /// this transaction's version remains in the backing.
    pub fn rollback(self, m: &mut MVCC)
        requires
            self.wf_for(*old(m)),
        ensures
            final(m).wf(),
            forall|p: (Seq<u8>, u64)| #[trigger] final(m).versions().contains_key(p) == (old(
                m,
            ).versions().contains_key(p) && p.1 != self.spec_version()),
            forall|p: (Seq<u8>, u64)| #[trigger] final(m).versions().contains_key(p)
                ==> final(m).versions()[p] == old(m).versions()[p],
            final(m).next_version_spec() == old(m).next_version_spec(),
            forall|v: u64| final(m).is_active(v) == (old(m).is_active(v) && v
                != self.spec_version()),
            forall|v: u64| v != self.spec_version() && old(m).is_active(v)
                ==> final(m).writes(v) == old(m).writes(v),
    {
        let ghost s0 = m.reg_seq();
        let ghost kvm0 = m.kv.as_map();
        let ghost kvs0 = m.kv_seq();
        let ghost wl = m.writes(self.spec_version());
        let i = m.reg_index(self.version);
        let entry = m.registry.remove(i);
        let ghost s1 = m.reg_seq();
        proof {
            lemma_reg_at(s0, i as int);
            assert(wl =~= keys_view(entry.1@));
            assert(s1 =~= s0.remove(i as int));
            lemma_reg_remove(s0, s1, i as int, self.spec_version());
            assert(old(m).reg_entry_ok(s0[i as int]));
        }
        let keys = entry.1;
        let nk = keys.len();
        let mut j: usize = 0;
        while j < nk
            invariant
                m.kv.wf(),
                nk == keys@.len(),
                j <= nk,
                wl == keys_view(keys@),
                m.reg_seq() == s1,
                m.next_version_spec() == old(m).next_version_spec(),
                forall|a: int, b: int| 0 <= a < b < wl.len() ==> wl[a] != wl[b],
                forall|a: int| 0 <= a < wl.len() ==> (#[trigger] wl[a]).len() <= 0xFFFF_FFFF
                    && kvm0.contains_key(enc_key(wl[a], self.spec_version())),
                forall|b: Seq<u8>| #[trigger] m.kv.as_map().contains_key(b) == (
                kvm0.contains_key(b) && !(exists|x: int|
                    0 <= x < j && b == enc_key(#[trigger] wl[x], self.spec_version()))),
                forall|b: Seq<u8>| #[trigger] m.kv.as_map().contains_key(b)
                    ==> m.kv.as_map()[b] == kvm0[b],
                forall|x: int| 0 <= x < m.kv_seq().len() ==> kvs0.contains(
                    #[trigger] m.kv_seq()[x],
                ),
            decreases nk - j,
        {
            proof {
                assert(keys_view(keys@)[j as int] == keys@[j as int]@);
                assert(keys@[j as int]@.len() <= 0xFFFF_FFFF);
            }
            let ek = encode_key(keys[j].as_slice(), self.version);
            let ghost kvpre = m.kv_seq();
            proof {
                assert(kvm0.contains_key(enc_key(wl[j as int], self.spec_version())));
                assert forall|x: int| 0 <= x < j implies ek@ != enc_key(
                    #[trigger] wl[x],
                    self.spec_version(),
                ) by {
                    if ek@ == enc_key(wl[x], self.spec_version()) {
                        lemma_enc_injective(
                            wl[j as int],
                            self.spec_version(),
                            wl[x],
                            self.spec_version(),
                        );
                    }
                }
            }
            let removed = m.kv.remove(ek.as_slice());
            proof {
                assert(removed is Some);
                assert forall|x: int| 0 <= x < m.kv_seq().len() implies kvs0.contains(
                    #[trigger] m.kv_seq()[x],
                ) by {
                    let e = m.kv_seq()[x];
                    assert(kvpre.contains(e));
                    let y = choose|y: int| 0 <= y < kvpre.len() && #[trigger] kvpre[y] == e;
                    assert(kvs0.contains(kvpre[y]));
                }
            }
            j = j + 1;
            proof {
                assert forall|b: Seq<u8>| #[trigger] m.kv.as_map().contains_key(b) == (
                kvm0.contains_key(b) && !(exists|x: int|
                    0 <= x < j && b == enc_key(#[trigger] wl[x], self.spec_version()))) by {
                    if b == enc_key(wl[j - 1], self.spec_version()) {
                        assert(enc_key(wl[j - 1], self.spec_version()) == enc_key(
                            #[trigger] wl[j - 1],
                            self.spec_version(),
                        ));
                    }
                }
            }
        }
        proof {
            assert(wl.len() == nk);
            // The backing lost exactly this transaction's records.
            assert forall|p: (Seq<u8>, u64)| true implies #[trigger] m.versions().contains_key(p)
                == (old(m).versions().contains_key(p) && p.1 != self.spec_version()) by {
                if p.1 == self.spec_version() && kvm0.contains_key(enc_key(p.0, p.1)) {
                    let y = index_of(kvs0, enc_key(p.0, p.1));
                    assert(0 <= y < kvs0.len() && kvs0[y].0 == enc_key(p.0, p.1));
                    assert(old(m).kv_entry_ok(y));
                    lemma_enc_roundtrip(p.0, p.1);
                    assert(reg_has(s0, self.spec_version()));
                    assert(reg_writes(s0, self.spec_version()).contains(p.0));
                    let x = choose|x: int| 0 <= x < wl.len() && #[trigger] wl[x] == p.0;
                    assert(enc_key(p.0, p.1) == enc_key(wl[x], self.spec_version()));
                }
                if p.1 != self.spec_version() {
                    assert forall|x: int| 0 <= x < nk implies enc_key(p.0, p.1) != enc_key(
                        #[trigger] wl[x],
                        self.spec_version(),
                    ) by {
                        if enc_key(p.0, p.1) == enc_key(wl[x], self.spec_version()) {
                            lemma_enc_injective(p.0, p.1, wl[x], self.spec_version());
                        }
                    }
                }
            }
            // Well-formedness of what remains.
            assert forall|x: int| 0 <= x < m.kv_seq().len() implies #[trigger] m.kv_entry_ok(
                x,
            ) by {
                let e = m.kv_seq()[x];
                let y = choose|y: int| 0 <= y < kvs0.len() && #[trigger] kvs0[y] == e;
                assert(old(m).kv_entry_ok(y));
                let b = e.0;
                if reg_has(s1, dec_ver(b)) {
                    assert(reg_has(s0, dec_ver(b)) && dec_ver(b) != self.spec_version());
                    assert(reg_writes(s1, dec_ver(b)) == reg_writes(s0, dec_ver(b)));
                }
            }
            assert forall|x: int| 0 <= x < s1.len() implies m.reg_entry_ok(#[trigger] s1[x]) by {
                let e = s1[x];
                assert(e == if x < i {
                    s0[x]
                } else {
                    s0[x + 1]
                });
                assert(old(m).reg_entry_ok(e));
                assert(reg_has(s1, e.0));
                assert(e.0 != self.spec_version());
                assert forall|a: int| 0 <= a < e.1.len() implies (#[trigger] e.1[a]).len()
                    <= 0xFFFF_FFFF && m.kv.as_map().contains_key(enc_key(e.1[a], e.0)) by {
                    assert(kvm0.contains_key(enc_key(e.1[a], e.0)));
                    assert forall|x2: int| 0 <= x2 < nk implies enc_key(e.1[a], e.0) != enc_key(
                        #[trigger] wl[x2],
                        self.spec_version(),
                    ) by {
                        if enc_key(e.1[a], e.0) == enc_key(wl[x2], self.spec_version()) {
                            lemma_enc_injective(e.1[a], e.0, wl[x2], self.spec_version());
                        }
                    }
                }
            }
            assert(m.wf());
        }
    }
}

/// `k` currently reads as the value `val` for `t`: its newest visible
/// record holds `val`.
pub open spec fn reads_as(m: MVCC, t: Transaction, k: Seq<u8>, val: Seq<u8>) -> bool {
    exists|v: u64| #[trigger] is_latest_visible(m, t, k, v) && m.versions()[(k, v)] == Some(val)
}

/// `k` currently reads as some value (not absent, not a tombstone) for `t`.
pub open spec fn reads_some(m: MVCC, t: Transaction, k: Seq<u8>) -> bool {
    exists|v: u64| #[trigger] is_latest_visible(m, t, k, v) && m.versions()[(k, v)] is Some
}

impl Transaction {
    /// The full visible state: for every key, the value at its newest
    /// visible version, skipping tombstones, in ascending raw-key order.
    /// The shell prints these pairs.
    #[verifier::rlimit(50)]
    pub fn snapshot(&self, m: &MVCC) -> (r: Vec<(Vec<u8>, Vec<u8>)>)
        requires
            self.wf_for(*m),
        ensures
            forall|p: int, q: int| 0 <= p < q < r@.len() ==> lex_lt(
                (#[trigger] r@[p]).0@,
                (#[trigger] r@[q]).0@,
            ),
            forall|j: int| 0 <= j < r@.len() ==> reads_as(
                *m,
                *self,
                (#[trigger] r@[j]).0@,
                r@[j].1@,
            ),
            forall|k: Seq<u8>| #[trigger] reads_some(*m, *self, k) ==> exists|j: int|
                0 <= j < r@.len() && (#[trigger] r@[j]).0@ == k,
    {
        let ghost s = m.kv_seq();
        // First pass: the set of raw keys that have any versioned record.
        let mut keyset: OrderedMap<()> = OrderedMap::new();
        let n = m.kv.len();
        let mut i: usize = 0;
        while i < n
            invariant
                self.wf_for(*m),
                s == m.kv_seq(),
                n == s.len(),
                i <= n,
                keyset.wf(),
                forall|e: int| 0 <= e < i ==> keyset.as_map().contains_key(
                    dec_key((#[trigger] s[e]).0),
                ),
                forall|k: Seq<u8>| #[trigger] keyset.as_map().contains_key(k) ==> k.len()
                    <= 0xFFFF_FFFF,
            decreases n - i,
        {
            proof {
                assert(m.kv_entry_ok(i as int));
            }
            let (rk, _ver) = decode_key(m.kv.key_at(i));
            keyset.insert(rk, ());
            i = i + 1;
        }
        // Second pass: read each key through the visibility rule, keeping
        // the keys that currently read as a value.
        let ghost ks = keyset.entry_seq();
        let kn = keyset.len();
        let mut out: Vec<(Vec<u8>, Vec<u8>)> = Vec::new();
        let mut i2: usize = 0;
        while i2 < kn
            invariant
                self.wf_for(*m),
                keyset.wf(),
                ks == keyset.entry_seq(),
                kn == ks.len(),
                i2 <= kn,
                forall|k: Seq<u8>| #[trigger] keyset.as_map().contains_key(k) ==> k.len()
                    <= 0xFFFF_FFFF,
                forall|j: int| 0 <= j < out@.len() ==> exists|e: int|
                    0 <= e < i2 && (#[trigger] ks[e]).0 == (#[trigger] out@[j]).0@,
                forall|p: int, q: int| 0 <= p < q < out@.len() ==> lex_lt(
                    (#[trigger] out@[p]).0@,
                    (#[trigger] out@[q]).0@,
                ),
                forall|j: int| 0 <= j < out@.len() ==> reads_as(
                    *m,
                    *self,
                    (#[trigger] out@[j]).0@,
                    out@[j].1@,
                ),
                forall|e: int|
                    0 <= e < i2 && reads_some(*m, *self, (#[trigger] ks[e]).0) ==> exists|j: int|
                        0 <= j < out@.len() && (#[trigger] out@[j]).0@ == ks[e].0,
            decreases kn - i2,
        {
            let ghost o0 = out@;
            let k = clone_bytes(keyset.key_at(i2));
            proof {
                lemma_entry_in_map(ks, i2 as int);
                assert(keyset.as_map().contains_key(k@));
            }
            match self.get(m, k.as_slice()) {
                Some(val) => {
                    let ghost valv = val@;
                    let ghost kk = ks[i2 as int].0;
                    out.push((k, val));
                    proof {
                        assert(out@ =~= o0.push((k, val)));
                        assert(out@[out@.len() - 1].0@ == kk && out@[out@.len() - 1].1@ == valv);
                        let w = choose|v: u64| #[trigger] is_latest_visible(*m, *self, kk, v);
                        assert(m.versions()[(kk, w)] == Some(valv));
                        assert(reads_as(*m, *self, kk, valv));
                        assert forall|j: int| 0 <= j < out@.len() implies reads_as(
                            *m,
                            *self,
                            (#[trigger] out@[j]).0@,
                            out@[j].1@,
                        ) by {
                            if j < o0.len() {
                                assert(out@[j] == o0[j]);
                            } else {
                                assert(out@[j].0@ == kk && out@[j].1@ == valv);
                            }
                        }
                        assert forall|p: int, q: int| 0 <= p < q < out@.len() implies lex_lt(
                            (out@[p]).0@,
                            (out@[q]).0@,
                        ) by {
                            if q == out@.len() - 1 {
                                let e = choose|e: int|
                                    0 <= e < i2 && (#[trigger] ks[e]).0 == o0[p].0@;
                                assert(lex_lt(ks[e].0, kk));
                            } else {
                                assert(out@[p] == o0[p] && out@[q] == o0[q]);
                            }
                        }
                        assert forall|e: int|
                            0 <= e < i2 + 1 && reads_some(*m, *self, (#[trigger] ks[e]).0) implies
                            exists|j: int|
                            0 <= j < out@.len() && (#[trigger] out@[j]).0@ == ks[e].0 by {
                            if e == i2 {
                                assert(out@[out@.len() - 1].0@ == ks[e].0);
                            } else {
                                let j = choose|j: int|
                                    0 <= j < o0.len() && (#[trigger] o0[j]).0@ == ks[e].0;
                                assert(out@[j].0@ == ks[e].0);
                            }
                        }
                    }
                },
                None => {
                    proof {
                        assert forall|v: u64|
                            #[trigger] is_latest_visible(*m, *self, ks[i2 as int].0, v) implies
                            !(m.versions()[(ks[i2 as int].0, v)] is Some) by {
                            assert(opt_view(None::<Vec<u8>>) == m.versions()[(
                                ks[i2 as int].0,
                                v,
                            )]);
                        }
                        assert(!reads_some(*m, *self, ks[i2 as int].0));
                        assert(out@ == o0);
                    }
                },
            }
            i2 = i2 + 1;
        }
        proof {
            // Every key with a visible value was collected in the first
            // pass and so considered in the second.
            assert forall|k: Seq<u8>| #[trigger] reads_some(*m, *self, k) implies exists|j: int|
                0 <= j < out@.len() && (#[trigger] out@[j]).0@ == k by {
                let v = choose|v: u64|
                    #[trigger] is_latest_visible(*m, *self, k, v) && m.versions()[(k, v)] is Some;
                assert(has_key(s, enc_key(k, v)));
                let j0 = index_of(s, enc_key(k, v));
                assert(0 <= j0 < s.len() && s[j0].0 == enc_key(k, v));
                assert(m.kv_entry_ok(j0));
                assert(enc_key(k, v).len() == 12 + k.len());
                assert(k.len() <= 0xFFFF_FFFF);
                m.lemma_version_entry(k, v);
                assert(keyset.as_map().contains_key(dec_key(s[j0].0)));
                assert(has_key(ks, k));
                let e = index_of(ks, k);
                assert(0 <= e < kn && ks[e].0 == k);
            }
        }
        out
    }
}

/// A transaction observes the current record for a key exactly when the
/// visibility rule admits it: the record's version is at most the reader's
/// own and was not in flight when the reader began.
pub proof fn lemma_mvcc_visibility(m: MVCC, t: Transaction, k: Seq<u8>, v_w: u64)
    requires
        t.wf_for(m),
        is_latest_version(m, k, v_w),
    ensures
        is_latest_visible(m, t, k, v_w) <==> (v_w <= t.spec_version() && !t.snapshot_xids().contains(
            v_w,
        )),
{
}

/// Two in-flight transactions that write one key cannot both succeed:
/// whichever writes second finds the other's record newest and not
/// visible, and fails, in either order.
pub proof fn lemma_write_conflict(m: MVCC, t1: Transaction, t2: Transaction, k: Seq<u8>)
    requires
        t1.wf_for(m),
        t2.wf_for(m),
        t1.spec_version() < t2.spec_version(),
    ensures
        is_latest_version(m, k, t1.spec_version()) ==> spec_conflict(m, t2, k),
        is_latest_version(m, k, t2.spec_version()) ==> spec_conflict(m, t1, k),
{
    if is_latest_version(m, k, t1.spec_version()) {
        assert(m.is_active(t1.spec_version()));
        assert(t2.snapshot_xids().contains(t1.spec_version()));
        assert(!spec_visible(t2, t1.spec_version()));
    }
    if is_latest_version(m, k, t2.spec_version()) {
        assert(!spec_visible(t1, t2.spec_version()));
    }
}

/// After removing the entry at `i`, the registry loses exactly version
/// `ver`; other versions keep their positions' contents.
proof fn lemma_reg_remove(s0: Seq<(u64, Seq<Seq<u8>>)>, s1: Seq<(u64, Seq<Seq<u8>>)>, i: int, ver: u64)
    requires
        reg_unique(s0),
        0 <= i < s0.len(),
        s0[i].0 == ver,
        s1 == s0.remove(i),
    ensures
        reg_unique(s1),
        forall|v: u64| #[trigger] reg_has(s1, v) == (reg_has(s0, v) && v != ver),
        forall|v: u64| v != ver && reg_has(s0, v) ==> reg_writes(s1, v) == reg_writes(s0, v),
{
    assert forall|p: int, q: int| 0 <= p < q < s1.len() implies (#[trigger] s1[p]).0 != (
    #[trigger] s1[q]).0 by {
        assert(s1[p] == if p < i {
            s0[p]
        } else {
            s0[p + 1]
        });
        assert(s1[q] == if q < i {
            s0[q]
        } else {
            s0[q + 1]
        });
    }
    assert forall|v: u64| #[trigger] reg_has(s1, v) == (reg_has(s0, v) && v != ver) by {
        if reg_has(s1, v) {
            let j = reg_index_of(s1, v);
            if j < i {
                assert(s0[j].0 == v);
                if v == ver {
                    assert(s0[j].0 == s0[i].0);
                }
            } else {
                assert(s0[j + 1].0 == v);
                if v == ver {
                    assert(s0[j + 1].0 == s0[i].0);
                }
            }
        }
        if reg_has(s0, v) && v != ver {
            let j = reg_index_of(s0, v);
            assert(0 <= j < s0.len() && s0[j].0 == v);
            if j == i {
                assert(false);
            } else if j < i {
                assert(s1[j].0 == v);
            } else {
                assert(s1[j - 1].0 == v);
            }
        }
    }
    assert forall|v: u64| v != ver && reg_has(s0, v) implies reg_writes(s1, v) == reg_writes(
        s0,
        v,
    ) by {
        let j = reg_index_of(s0, v);
        lemma_reg_at(s0, j);
        if j < i {
            assert(s1[j].0 == v && s1[j].1 == s0[j].1);
            lemma_reg_at(s1, j);
        } else {
            assert(j > i);
            assert(s1[j - 1].0 == v && s1[j - 1].1 == s0[j].1);
            lemma_reg_at(s1, j - 1);
        }
    }
}

} // verus!
