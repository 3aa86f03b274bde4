//! The append-only log store: record framing, index rebuild, and the
//! get/set/delete/scan interface.
//!
//! A log is a byte string holding a sequence of records, each an 8-byte
//! header (big-endian key length, then a value-length field whose high bit
//! marks a tombstone) followed by the key bytes and, for live records, the
//! value bytes. The store keeps the log together with the KeyDir, an ordered
//! index from each live key to the byte range of its current value. The
//! unverified shell around the library owns the log file itself: it hands the
//! file's bytes in at open and appends the same bytes the store appends.
use vstd::prelude::*;

use crate::Error;
use crate::bytes::{be32_at, clone_bytes, copy_range, lemma_be32_roundtrip, push_be32, push_bytes,
    spec_be32, be32_val};
use crate::omap::OrderedMap;

verus! {

/// The in-memory index: key bytes to `(value_offset, value_length)`.
pub type KeyDir = OrderedMap<(u64, u32)>;

/// The value-length header field of a tombstone record.
pub const TOMBSTONE_VL: u32 = 0xFFFF_FFFF;

/// Header fields at or above this value have the sign bit set and mark a
/// tombstone; below it they are a value length.
pub const VL_TOMBSTONE_MIN: u32 = 0x8000_0000;

/// The bytes of one record: key length, value length or tombstone mark,
/// key bytes, then value bytes when the record carries a value.
pub open spec fn record_bytes(key: Seq<u8>, value: Option<Seq<u8>>) -> Seq<u8> {
    match value {
        Some(v) => spec_be32(key.len() as u32) + spec_be32(v.len() as u32) + key + v,
        None => spec_be32(key.len() as u32) + spec_be32(TOMBSTONE_VL) + key,
    }
}

/// One decoded record: its key, its value (`None` for a tombstone), and the
/// log offset of its value bytes (of the byte after the key, for a
/// tombstone).
pub ghost struct LogRecord {
    pub key: Seq<u8>,
    pub value: Option<Seq<u8>>,
    pub value_pos: int,
}

/// Decodes the records of `log` from `pos` to the end; `None` when a header
/// or a record body runs past the end of the log.
pub open spec fn parse_from(log: Seq<u8>, pos: int) -> Option<Seq<LogRecord>>
    decreases log.len() - pos,
    when 0 <= pos <= log.len()
{
    if pos == log.len() {
        Some(Seq::empty())
    } else if pos + 8 > log.len() {
        None
    } else {
        let kl = be32_val(log.subrange(pos, pos + 4)) as int;
        let vl_raw = be32_val(log.subrange(pos + 4, pos + 8));
        let vl = if vl_raw >= VL_TOMBSTONE_MIN {
            0
        } else {
            vl_raw as int
        };
        if pos + 8 + kl + vl > log.len() {
            None
        } else {
            let rec = LogRecord {
                key: log.subrange(pos + 8, pos + 8 + kl),
                value: if vl_raw >= VL_TOMBSTONE_MIN {
                    None
                } else {
                    Some(log.subrange(pos + 8 + kl, pos + 8 + kl + vl))
                },
                value_pos: pos + 8 + kl,
            };
            match parse_from(log, pos + 8 + kl + vl) {
                None => None,
                Some(rest) => Some(seq![rec] + rest),
            }
        }
    }
}

/// The effect of one record on the live key-value mapping: a value wins the
/// key, a tombstone clears it.
pub open spec fn replay_step(m: Map<Seq<u8>, Seq<u8>>, r: LogRecord) -> Map<Seq<u8>, Seq<u8>> {
    match r.value {
        Some(v) => m.insert(r.key, v),
        None => m.remove(r.key),
    }
}

/// Folds `replay_step` over the records, oldest first: last writer wins.
pub open spec fn replay_from(m: Map<Seq<u8>, Seq<u8>>, recs: Seq<LogRecord>) -> Map<
    Seq<u8>,
    Seq<u8>,
>
    decreases recs.len(),
{
    if recs.len() == 0 {
        m
    } else {
        replay_from(replay_step(m, recs[0]), recs.subrange(1, recs.len() as int))
    }
}

/// The live key-value mapping that a record sequence denotes.
pub open spec fn replay(recs: Seq<LogRecord>) -> Map<Seq<u8>, Seq<u8>> {
    replay_from(Map::empty(), recs)
}

/// The effect of one record on the index: a value maps the key to its byte
/// range, a tombstone clears the key.
pub open spec fn index_step(ix: Map<Seq<u8>, (u64, u32)>, r: LogRecord) -> Map<Seq<u8>, (u64, u32)> {
    match r.value {
        Some(v) => ix.insert(r.key, (r.value_pos as u64, v.len() as u32)),
        None => ix.remove(r.key),
    }
}

/// Folds `index_step` over the records, oldest first.
pub open spec fn index_from(ix: Map<Seq<u8>, (u64, u32)>, recs: Seq<LogRecord>) -> Map<
    Seq<u8>,
    (u64, u32),
>
    decreases recs.len(),
{
    if recs.len() == 0 {
        ix
    } else {
        index_from(index_step(ix, recs[0]), recs.subrange(1, recs.len() as int))
    }
}

/// The index that rebuilding from a record sequence produces.
pub open spec fn log_index(recs: Seq<LogRecord>) -> Map<Seq<u8>, (u64, u32)> {
    index_from(Map::empty(), recs)
}

/// The index and the live mapping agree: same keys, and each index entry
/// points at the bytes of the key's current value within the log.
pub open spec fn index_consistent(
    log: Seq<u8>,
    m: Map<Seq<u8>, Seq<u8>>,
    ix: Map<Seq<u8>, (u64, u32)>,
) -> bool {
    &&& ix.dom() == m.dom()
    &&& forall|k: Seq<u8>| #[trigger] ix.contains_key(k) ==> ix[k].0 + ix[k].1 <= log.len()
        && m[k] == log.subrange(ix[k].0 as int, ix[k].0 + ix[k].1) && m[k].len() == ix[k].1
}

/// Appending records commutes with the replay fold.
pub proof fn lemma_replay_from_push(m: Map<Seq<u8>, Seq<u8>>, rs: Seq<LogRecord>, r: LogRecord)
    ensures
        replay_from(m, rs.push(r)) == replay_step(replay_from(m, rs), r),
    decreases rs.len(),
{
    if rs.len() == 0 {
        assert(rs.push(r)[0] == r);
        assert(rs.push(r).subrange(1, 1) =~= Seq::<LogRecord>::empty());
        assert(replay_from(m, rs.push(r)) == replay_from(
            replay_step(m, r),
            Seq::<LogRecord>::empty(),
        ));
        assert(replay_from(replay_step(m, r), Seq::<LogRecord>::empty()) == replay_step(m, r));
    } else {
        let tail = rs.subrange(1, rs.len() as int);
        assert(rs.push(r)[0] == rs[0]);
        assert(rs.push(r).subrange(1, rs.len() as int + 1) =~= tail.push(r));
        assert(replay_from(m, rs.push(r)) == replay_from(replay_step(m, rs[0]), tail.push(r)));
        lemma_replay_from_push(replay_step(m, rs[0]), tail, r);
        assert(replay_from(m, rs) == replay_from(replay_step(m, rs[0]), tail));
    }
}

/// Appending records commutes with the index fold.
pub proof fn lemma_index_from_push(ix: Map<Seq<u8>, (u64, u32)>, rs: Seq<LogRecord>, r: LogRecord)
    ensures
        index_from(ix, rs.push(r)) == index_step(index_from(ix, rs), r),
    decreases rs.len(),
{
    if rs.len() == 0 {
        assert(rs.push(r)[0] == r);
        assert(rs.push(r).subrange(1, 1) =~= Seq::<LogRecord>::empty());
        assert(index_from(ix, rs.push(r)) == index_from(
            index_step(ix, r),
            Seq::<LogRecord>::empty(),
        ));
        assert(index_from(index_step(ix, r), Seq::<LogRecord>::empty()) == index_step(ix, r));
    } else {
        let tail = rs.subrange(1, rs.len() as int);
        assert(rs.push(r)[0] == rs[0]);
        assert(rs.push(r).subrange(1, rs.len() as int + 1) =~= tail.push(r));
        assert(index_from(ix, rs.push(r)) == index_from(index_step(ix, rs[0]), tail.push(r)));
        lemma_index_from_push(index_step(ix, rs[0]), tail, r);
        assert(index_from(ix, rs) == index_from(index_step(ix, rs[0]), tail));
    }
}

/// A subrange that lies within `a` is unchanged by appending `b`.
pub proof fn lemma_prefix_subrange(a: Seq<u8>, b: Seq<u8>, i: int, j: int)
    requires
        0 <= i <= j <= a.len(),
    ensures
        (a + b).subrange(i, j) == a.subrange(i, j),
{
    assert((a + b).subrange(i, j) =~= a.subrange(i, j));
}

/// Appending one well-formed record to a parseable log parses to the old
/// records plus that one, with its value positioned after the old end.
pub proof fn lemma_parse_append(log: Seq<u8>, pos: int, key: Seq<u8>, value: Option<Seq<u8>>)
    requires
        0 <= pos <= log.len(),
        parse_from(log, pos) is Some,
        key.len() <= 0xFFFF_FFFF,
        value is Some ==> value->0.len() < VL_TOMBSTONE_MIN,
    ensures
        parse_from(log + record_bytes(key, value), pos) == Some(
            (parse_from(log, pos)->0).push(
                LogRecord { key, value, value_pos: log.len() as int + 8 + key.len() as int },
            ),
        ),
    decreases log.len() - pos,
{
    let rb = record_bytes(key, value);
    let log2 = log + rb;
    let rec = LogRecord { key, value, value_pos: log.len() as int + 8 + key.len() as int };
    let kl32 = key.len() as u32;
    lemma_be32_roundtrip(kl32);
    let vl32 = match value {
        Some(v) => v.len() as u32,
        None => TOMBSTONE_VL,
    };
    lemma_be32_roundtrip(vl32);
    if pos == log.len() {
        let vlen: int = match value {
            Some(v) => v.len() as int,
            None => 0,
        };
        assert(rb.len() == 8 + key.len() + vlen);
        assert(log2.subrange(pos, pos + 4) =~= spec_be32(kl32));
        assert(log2.subrange(pos + 4, pos + 8) =~= spec_be32(vl32));
        let kl = be32_val(log2.subrange(pos, pos + 4)) as int;
        let vl_raw = be32_val(log2.subrange(pos + 4, pos + 8));
        assert(kl == key.len());
        assert(vl_raw == vl32);
        let vl = if vl_raw >= VL_TOMBSTONE_MIN {
            0
        } else {
            vl_raw as int
        };
        assert(vl == vlen);
        assert(pos + 8 + kl + vl == log2.len());
        assert(log2.subrange(pos + 8, pos + 8 + kl) =~= key);
        if value is Some {
            assert(log2.subrange(pos + 8 + kl, pos + 8 + kl + vl) =~= value->0);
        }
        assert(parse_from(log2, pos + 8 + kl + vl) == Some(Seq::<LogRecord>::empty()));
        assert(parse_from(log2, pos) == Some(seq![rec] + Seq::<LogRecord>::empty()));
        assert(parse_from(log, pos) == Some(Seq::<LogRecord>::empty()));
        assert(seq![rec] + Seq::<LogRecord>::empty() =~= Seq::<LogRecord>::empty().push(rec));
    } else {
        // The record at `pos` decodes identically in `log` and `log2`.
        assert(pos + 8 <= log.len());
        lemma_prefix_subrange(log, rb, pos, pos + 4);
        lemma_prefix_subrange(log, rb, pos + 4, pos + 8);
        let kl = be32_val(log.subrange(pos, pos + 4)) as int;
        let vl_raw = be32_val(log.subrange(pos + 4, pos + 8));
        let vl = if vl_raw >= VL_TOMBSTONE_MIN {
            0
        } else {
            vl_raw as int
        };
        assert(pos + 8 + kl + vl <= log.len());
        lemma_prefix_subrange(log, rb, pos + 8, pos + 8 + kl);
        lemma_prefix_subrange(log, rb, pos + 8 + kl, pos + 8 + kl + vl);
        let rest = parse_from(log, pos + 8 + kl + vl)->0;
        lemma_parse_append(log, pos + 8 + kl + vl, key, value);
        assert(parse_from(log2, pos) == Some(seq![parse_from(log, pos)->0[0]] + rest.push(rec)));
        assert(seq![parse_from(log, pos)->0[0]] + rest.push(rec) =~= (seq![
            parse_from(log, pos)->0[0],
        ] + rest).push(rec));
        assert(parse_from(log, pos)->0 == seq![parse_from(log, pos)->0[0]] + rest);
    }
}

/// The Bitcask-style store: the log bytes and the KeyDir over them.
pub struct MiniBitcask {
    log: Vec<u8>,
    keydir: KeyDir,
}

impl MiniBitcask {
    /// The bytes of the append-only log.
    pub closed spec fn log_bytes(self) -> Seq<u8> {
        self.log@
    }

    /// The KeyDir as a mapping from key bytes to value byte ranges.
    pub closed spec fn index(self) -> Map<Seq<u8>, (u64, u32)> {
        self.keydir.as_map()
    }

    /// The records of the log, meaningful when the log parses.
    pub open spec fn records(self) -> Seq<LogRecord> {
        parse_from(self.log_bytes(), 0)->0
    }

    /// The live key-value mapping: the last-writer-wins projection of the
    /// log's records.
    pub open spec fn contents(self) -> Map<Seq<u8>, Seq<u8>> {
        replay(self.records())
    }

    /// Well-formed: the log parses, and the KeyDir is exactly the index that
    /// rebuilding from the log produces, consistent with the live mapping.
    pub closed spec fn wf(self) -> bool {
        &&& self.log@.len() <= usize::MAX
        &&& parse_from(self.log@, 0) is Some
        &&& self.keydir.wf()
        &&& self.keydir.as_map() == log_index(self.records())
        &&& index_consistent(self.log@, self.contents(), self.keydir.as_map())
    }

    /// Exposes to callers that a well-formed store's log parses.
    pub proof fn lemma_wf_parses(self)
        requires
            self.wf(),
        ensures
            parse_from(self.log_bytes(), 0) == Some(self.records()),
            self.log_bytes().len() <= usize::MAX,
            self.index() == log_index(self.records()),
            index_consistent(self.log_bytes(), self.contents(), self.index()),
    {
    }

    /// Opens a store over the given log bytes, rebuilding the KeyDir by one
    /// pass over the records; rejects a log with a truncated record.
    pub fn new(log: Vec<u8>) -> (r: Result<MiniBitcask, Error>)
        ensures
            match r {
                Ok(s) => {
                    &&& parse_from(log@, 0) is Some
                    &&& s.wf()
                    &&& s.log_bytes() == log@
                },
                Err(e) => {
                    &&& e == Error::CorruptRecord
                    &&& parse_from(log@, 0) is None
                },
            },
    {
        let n: usize = log.len();
        let mut kd: KeyDir = OrderedMap::new();
        let mut pos: usize = 0;
        let ghost mut done: Seq<LogRecord> = Seq::empty();
        while pos < n
            invariant
                n == log@.len(),
                pos <= n,
                kd.wf(),
                kd.as_map() == index_from(Map::<Seq<u8>, (u64, u32)>::empty(), done),
                index_consistent(
                    log@,
                    replay_from(Map::<Seq<u8>, Seq<u8>>::empty(), done),
                    kd.as_map(),
                ),
                parse_from(log@, pos as int) is Some ==> parse_from(log@, 0) == Some(
                    done + (parse_from(log@, pos as int)->0),
                ),
                parse_from(log@, 0) is Some ==> parse_from(log@, pos as int) is Some,
            decreases n - pos,
        {
            if n - pos < 8 {
                assert(parse_from(log@, pos as int) is None);
                return Err(Error::CorruptRecord);
            }
            let kl32 = be32_at(&log, pos);
            let vl32 = be32_at(&log, pos + 4);
            let tomb = vl32 >= VL_TOMBSTONE_MIN;
            let rem = n - pos - 8;
            let kl = kl32 as usize;
            if kl > rem {
                assert(parse_from(log@, pos as int) is None);
                return Err(Error::CorruptRecord);
            }
            let vl: usize = if tomb {
                0
            } else {
                vl32 as usize
            };
            if vl > rem - kl {
                assert(parse_from(log@, pos as int) is None);
                return Err(Error::CorruptRecord);
            }
            let key = copy_range(&log, pos + 8, kl);
            let vpos = pos + 8 + kl;
            let ghost rec = LogRecord {
                key: log@.subrange(pos + 8, pos + 8 + kl),
                value: if tomb {
                    None
                } else {
                    Some(log@.subrange(pos + 8 + kl, pos + 8 + kl + vl))
                },
                value_pos: pos + 8 + kl,
            };
            proof {
                assert(parse_from(log@, pos as int) matches Some(rs) ==> rs == seq![rec]
                    + (parse_from(log@, pos + 8 + kl + vl)->0));
                lemma_index_from_push(Map::<Seq<u8>, (u64, u32)>::empty(), done, rec);
                lemma_replay_from_push(Map::<Seq<u8>, Seq<u8>>::empty(), done, rec);
                if parse_from(log@, (pos + 8 + kl + vl) as int) is Some {
                    let rest = parse_from(log@, (pos + 8 + kl + vl) as int)->0;
                    assert(parse_from(log@, pos as int) == Some(seq![rec] + rest));
                    assert(done + (seq![rec] + rest) =~= done.push(rec) + rest);
                }
            }
            if tomb {
                kd.remove(key.as_slice());
            } else {
                kd.insert(key, (vpos as u64, vl32));
            }
            proof {
                done = done.push(rec);
            }
            pos = vpos + vl;
        }
        assert(parse_from(log@, pos as int) == Some(Seq::<LogRecord>::empty()));
        assert(done + Seq::<LogRecord>::empty() =~= done);
        let s = MiniBitcask { log, keydir: kd };
        assert(s.wf());
        Ok(s)
    }

    /// Reserved compaction entry point; not yet available.
    pub fn merge() -> (r: Result<(), Error>)
        ensures
            r == Err::<(), Error>(Error::Unimplemented),
    {
        Err(Error::Unimplemented)
    }

    /// Appends a record for `key` (a value or a tombstone) to the log and
    /// returns the record's offset and total length.
    fn write_entry(log: &mut Vec<u8>, key: &[u8], value: Option<&Vec<u8>>) -> (r: (u64, u32))
        requires
            key@.len() <= 0xFFFF_FFFF,
            (match value {
                Some(v) => v@.len() < VL_TOMBSTONE_MIN && 8 + key@.len() + v@.len()
                    <= 0xFFFF_FFFF,
                None => 8 + key@.len() <= 0xFFFF_FFFF,
            }),
        ensures
            final(log)@ == old(log)@ + record_bytes(
                key@,
                match value {
                    Some(v) => Some(v@),
                    None => None,
                },
            ),
            r.0 == old(log)@.len(),
            r.1 == 8 + key@.len() + (match value {
                Some(v) => v@.len() as int,
                None => 0int,
            }),
    {
        let offset: usize = log.len();
        let kl32: u32 = key.len() as u32;
        let (vl_field, vlen): (u32, u32) = match value {
            Some(v) => (v.len() as u32, v.len() as u32),
            None => (TOMBSTONE_VL, 0),
        };
        push_be32(log, kl32);
        push_be32(log, vl_field);
        push_bytes(log, key);
        match value {
            Some(v) => {
                push_bytes(log, v.as_slice());
                assert(log@ =~= old(log)@ + record_bytes(key@, Some(v@)));
            },
            None => {
                assert(log@ =~= old(log)@ + record_bytes(key@, None));
            },
        }
        let total: u32 = 8 + kl32 + vlen;
        (offset as u64, total)
    }

    /// Writes `key -> value`: appends a record, then points the KeyDir entry
    /// at the appended value bytes. The newer record wins over any older one.
    pub fn set(&mut self, key: &[u8], value: Vec<u8>) -> (r: Result<(), Error>)
        requires
            old(self).wf(),
            key@.len() <= 0xFFFF_FFFF,
            value@.len() < VL_TOMBSTONE_MIN,
            8 + key@.len() + value@.len() <= 0xFFFF_FFFF,
        ensures
            r == Ok::<(), Error>(()),
            final(self).wf(),
            final(self).log_bytes() == old(self).log_bytes() + record_bytes(key@, Some(value@)),
            final(self).contents() == old(self).contents().insert(key@, value@),
    {
        let ghost oldlog = self.log@;
        let ghost oldrecs = self.records();
        let (_offset, _len) = Self::write_entry(&mut self.log, key, Some(&value));
        let value_len: u32 = value.len() as u32;
        // The value starts `value_len` bytes before the new end of the log.
        let newlen: usize = self.log.len();
        let vpos: usize = newlen - (value_len as usize);
        let ghost rec = LogRecord {
            key: key@,
            value: Some(value@),
            value_pos: oldlog.len() as int + 8 + key@.len() as int,
        };
        proof {
            lemma_parse_append(oldlog, 0, key@, Some(value@));
            lemma_replay_from_push(Map::<Seq<u8>, Seq<u8>>::empty(), oldrecs, rec);
            lemma_index_from_push(Map::<Seq<u8>, (u64, u32)>::empty(), oldrecs, rec);
            assert(vpos == rec.value_pos);
        }
        self.keydir.insert(vstd::slice::slice_to_vec(key), (vpos as u64, value_len));
        proof {
            let log2 = self.log@;
            assert(self.records() == oldrecs.push(rec));
            assert(self.contents() == old(self).contents().insert(key@, value@));
            assert(self.keydir.as_map() == log_index(self.records()));
            assert forall|k: Seq<u8>| #[trigger] self.keydir.as_map().contains_key(k) implies {
                let e = self.keydir.as_map()[k];
                e.0 + e.1 <= log2.len() && self.contents()[k] == log2.subrange(
                    e.0 as int,
                    e.0 + e.1,
                ) && self.contents()[k].len() == e.1
            } by {
                let e = self.keydir.as_map()[k];
                if k == key@ {
                    assert(log2.subrange(vpos as int, vpos + value_len) =~= value@);
                } else {
                    assert(old(self).index().contains_key(k));
                    lemma_prefix_subrange(
                        oldlog,
                        record_bytes(key@, Some(value@)),
                        e.0 as int,
                        e.0 + e.1,
                    );
                }
            }
            assert(self.keydir.as_map().dom() =~= self.contents().dom());
            assert(index_consistent(self.log@, self.contents(), self.keydir.as_map()));
        }
        Ok(())
    }

    /// Reads the current value of `key` through the KeyDir; never scans the
    /// log.
    pub fn get(&self, key: &[u8]) -> (r: Result<Option<Vec<u8>>, Error>)
        requires
            self.wf(),
        ensures
            match r {
                Ok(opt) => match opt {
                    Some(v) => self.contents().contains_key(key@) && v@ == self.contents()[key@],
                    None => !self.contents().contains_key(key@),
                },
                Err(_) => false,
            },
    {
        match self.keydir.get(key) {
            Some(entry) => {
                let vpos: u64 = entry.0;
                let vlen: u32 = entry.1;
                proof {
                    assert(self.index().contains_key(key@));
                    assert(vpos + vlen <= self.log@.len());
                }
                let p: usize = vpos as usize;
                let l: usize = vlen as usize;
                let v = copy_range(&self.log, p, l);
                Ok(Some(v))
            },
            None => {
                proof {
                    assert(self.index().dom() == self.contents().dom());
                }
                Ok(None)
            },
        }
    }

    /// Deletes `key`: appends a tombstone record, then clears the KeyDir
    /// entry. Deleting an absent key still writes the tombstone, so that
    /// replay converges.
    pub fn delete(&mut self, key: &[u8]) -> (r: Result<(), Error>)
        requires
            old(self).wf(),
            8 + key@.len() <= 0xFFFF_FFFF,
        ensures
            r == Ok::<(), Error>(()),
            final(self).wf(),
            final(self).log_bytes() == old(self).log_bytes() + record_bytes(key@, None),
            final(self).contents() == old(self).contents().remove(key@),
    {
        let ghost oldlog = self.log@;
        let ghost oldrecs = self.records();
        let (_offset, _len) = Self::write_entry(&mut self.log, key, None);
        // Reading the length as a usize shows the grown log still fits in
        // memory, which well-formedness records.
        let _newlen: usize = self.log.len();
        let ghost rec = LogRecord {
            key: key@,
            value: None,
            value_pos: oldlog.len() as int + 8 + key@.len() as int,
        };
        proof {
            lemma_parse_append(oldlog, 0, key@, None);
            lemma_replay_from_push(Map::<Seq<u8>, Seq<u8>>::empty(), oldrecs, rec);
            lemma_index_from_push(Map::<Seq<u8>, (u64, u32)>::empty(), oldrecs, rec);
        }
        self.keydir.remove(key);
        proof {
            let log2 = self.log@;
            assert(self.records() == oldrecs.push(rec));
            assert(self.contents() == old(self).contents().remove(key@));
            assert(self.keydir.as_map() == log_index(self.records()));
            assert forall|k: Seq<u8>| #[trigger] self.keydir.as_map().contains_key(k) implies {
                let e = self.keydir.as_map()[k];
                e.0 + e.1 <= log2.len() && self.contents()[k] == log2.subrange(
                    e.0 as int,
                    e.0 + e.1,
                ) && self.contents()[k].len() == e.1
            } by {
                let e = self.keydir.as_map()[k];
                assert(old(self).index().contains_key(k));
                lemma_prefix_subrange(oldlog, record_bytes(key@, None), e.0 as int, e.0 + e.1);
            }
            assert(self.keydir.as_map().dom() =~= self.contents().dom());
            assert(index_consistent(self.log@, self.contents(), self.keydir.as_map()));
        }
        Ok(())
    }

    /// The log bytes, for the shell that persists them.
    pub fn log_data(&self) -> (r: &Vec<u8>)
        ensures
            r@ == self.log_bytes(),
    {
        &self.log
    }

    /// The key-value pairs whose keys fall within `[lo, hi]` as the bounds
    /// admit, in ascending key order, values materialized from the log.
    pub fn scan(&self, lo: &ScanBound, hi: &ScanBound) -> (it: ScanIterator)
        requires
            self.wf(),
        ensures
            it.wf(),
            forall|j: int| 0 <= j < it.remaining().len() ==> {
                let kv = #[trigger] it.remaining()[j];
                &&& self.contents().contains_key(kv.0)
                &&& kv.1 == self.contents()[kv.0]
                &&& in_range(*lo, *hi, kv.0)
            },
            forall|k: Seq<u8>|
                self.contents().contains_key(k) && #[trigger] in_range(*lo, *hi, k)
                    ==> exists|j: int| 0 <= j < it.remaining().len() && (#[trigger] it.remaining()[
                    j]).0 == k,
    {
        let ghost s = self.keydir.entry_seq();
        let n = self.keydir.len();
        let mut items: Vec<(Vec<u8>, Vec<u8>)> = Vec::new();
        let mut i: usize = 0;
        while i < n
            invariant
                self.wf(),
                s == self.keydir.entry_seq(),
                n == s.len(),
                i <= n,
                forall|j: int| 0 <= j < pair_seq(items@).len() ==> {
                    let kv = #[trigger] pair_seq(items@)[j];
                    &&& self.contents().contains_key(kv.0)
                    &&& kv.1 == self.contents()[kv.0]
                    &&& in_range(*lo, *hi, kv.0)
                },
                forall|j: int| 0 <= j < pair_seq(items@).len() ==> exists|e: int|
                    0 <= e < i && (#[trigger] s[e]).0 == (#[trigger] pair_seq(items@)[j]).0,
                forall|p: int, q: int| 0 <= p < q < pair_seq(items@).len() ==> crate::bytes::lex_lt(
                    (#[trigger] pair_seq(items@)[p]).0,
                    (#[trigger] pair_seq(items@)[q]).0,
                ),
                forall|e: int|
                    0 <= e < i && in_range(*lo, *hi, (#[trigger] s[e]).0) ==> exists|j: int|
                        0 <= j < pair_seq(items@).len() && (#[trigger] pair_seq(items@)[j]).0 == s[
                        e].0,
            decreases n - i,
        {
            let ghost q0 = pair_seq(items@);
            let in_lo = lower_admits(lo, self.keydir.key_at(i).as_slice());
            let in_hi = upper_admits(hi, self.keydir.key_at(i).as_slice());
            if in_lo && in_hi {
                let entry = self.keydir.val_at(i);
                let vpos: u64 = entry.0;
                let vlen: u32 = entry.1;
                proof {
                    crate::omap::lemma_entry_in_map(s, i as int);
                    assert(self.index().contains_key(s[i as int].0));
                    assert(vpos + vlen <= self.log@.len());
                }
                let k = clone_bytes(self.keydir.key_at(i));
                let v = copy_range(&self.log, vpos as usize, vlen as usize);
                items.push((k, v));
                proof {
                    let q1 = pair_seq(items@);
                    assert(q1 =~= q0.push((s[i as int].0, v@)));
                    assert(q1[q1.len() - 1].0 == s[i as int].0);
                    assert forall|p: int, q: int| 0 <= p < q < q1.len() implies crate::bytes::lex_lt(
                        q1[p].0,
                        q1[q].0,
                    ) by {
                        if q == q1.len() - 1 {
                            let e = choose|e: int| 0 <= e < i && (#[trigger] s[e]).0 == q0[p].0;
                            assert(crate::bytes::lex_lt(s[e].0, s[i as int].0));
                        } else {
                            assert(q1[p] == q0[p] && q1[q] == q0[q]);
                        }
                    }
                    assert forall|e: int|
                        0 <= e < i + 1 && in_range(*lo, *hi, (#[trigger] s[e]).0) implies exists|
                        j: int,
                    |
                        0 <= j < q1.len() && (#[trigger] q1[j]).0 == s[e].0 by {
                        if e == i {
                            assert(q1[q1.len() - 1].0 == s[e].0);
                        } else {
                            let j = choose|j: int|
                                0 <= j < q0.len() && (#[trigger] q0[j]).0 == s[e].0;
                            assert(q1[j].0 == s[e].0);
                        }
                    }
                }
            } else {
                proof {
                    assert(!in_range(*lo, *hi, s[i as int].0));
                }
            }
            i = i + 1;
        }
        let back = items.len();
        let it = ScanIterator { items, front: 0, back };
        proof {
            assert(it.remaining() =~= pair_seq(it.items@));
            assert forall|k: Seq<u8>|
                self.contents().contains_key(k) && #[trigger] in_range(*lo, *hi, k) implies exists|
                j: int,
            | 0 <= j < it.remaining().len() && (#[trigger] it.remaining()[j]).0 == k by {
                assert(self.index().contains_key(k));
                assert(crate::omap::has_key(s, k));
                let e = crate::omap::index_of(s, k);
                assert(0 <= e < n && s[e].0 == k);
            }
        }
        it
    }

    /// The pairs whose keys extend `prefix`, in ascending key order. The
    /// upper bound increments the final prefix byte modulo 256; an empty
    /// prefix degenerates to a full scan.
    pub fn scan_prefix(&self, prefix: &[u8]) -> (it: ScanIterator)
        requires
            self.wf(),
        ensures
            it.wf(),
            forall|j: int| 0 <= j < it.remaining().len() ==> {
                let kv = #[trigger] it.remaining()[j];
                &&& self.contents().contains_key(kv.0)
                &&& kv.1 == self.contents()[kv.0]
                &&& prefix_range(prefix@, kv.0)
            },
            forall|k: Seq<u8>|
                self.contents().contains_key(k) && #[trigger] prefix_range(prefix@, k)
                    ==> exists|j: int| 0 <= j < it.remaining().len() && (#[trigger] it.remaining()[
                    j]).0 == k,
    {
        if prefix.len() == 0 {
            let lo_b = ScanBound::Included(Vec::new());
            let hi_b = ScanBound::Unbounded;
            let it = self.scan(&lo_b, &hi_b);
            proof {
                assert forall|k: Seq<u8>|
                    self.contents().contains_key(k) && #[trigger] prefix_range(prefix@, k) implies
                    exists|j: int|
                        0 <= j < it.remaining().len() && (#[trigger] it.remaining()[j]).0 == k by {
                    if k.len() == 0 {
                        assert(k =~= Seq::<u8>::empty());
                    }
                    assert(in_range(lo_b, hi_b, k));
                }
            }
            it
        } else {
            let lo_v = vstd::slice::slice_to_vec(prefix);
            let mut hi_v = vstd::slice::slice_to_vec(prefix);
            let last: u8 = hi_v[hi_v.len() - 1];
            let nb: u8 = if last == 255 {
                0
            } else {
                last + 1
            };
            hi_v.pop();
            hi_v.push(nb);
            proof {
                assert(hi_v@ =~= prefix_next(prefix@));
            }
            let lo_b = ScanBound::Included(lo_v);
            let hi_b = ScanBound::Excluded(hi_v);
            let it = self.scan(&lo_b, &hi_b);
            proof {
                assert(forall|k: Seq<u8>| #[trigger] in_range(lo_b, hi_b, k) == prefix_range(
                    prefix@,
                    k,
                ));
                assert forall|k: Seq<u8>|
                    self.contents().contains_key(k) && #[trigger] prefix_range(prefix@, k) implies
                    exists|j: int|
                        0 <= j < it.remaining().len() && (#[trigger] it.remaining()[j]).0 == k by {
                    assert(in_range(lo_b, hi_b, k));
                }
            }
            it
        }
    }
}

/// One end of a scan range over keys.
pub enum ScanBound {
    Included(Vec<u8>),
    Excluded(Vec<u8>),
    Unbounded,
}

/// Whether `k` is admitted by the lower bound `b`.
pub open spec fn lower_ok(b: ScanBound, k: Seq<u8>) -> bool {
    match b {
        ScanBound::Included(v) => v@ == k || crate::bytes::lex_lt(v@, k),
        ScanBound::Excluded(v) => crate::bytes::lex_lt(v@, k),
        ScanBound::Unbounded => true,
    }
}

/// Whether `k` is admitted by the upper bound `b`.
pub open spec fn upper_ok(b: ScanBound, k: Seq<u8>) -> bool {
    match b {
        ScanBound::Included(v) => k == v@ || crate::bytes::lex_lt(k, v@),
        ScanBound::Excluded(v) => crate::bytes::lex_lt(k, v@),
        ScanBound::Unbounded => true,
    }
}

/// Whether `k` lies within the scan range `[lo, hi]` as the bounds admit.
pub open spec fn in_range(lo: ScanBound, hi: ScanBound, k: Seq<u8>) -> bool {
    lower_ok(lo, k) && upper_ok(hi, k)
}

/// The final byte incremented by one modulo 256.
pub open spec fn wrap_inc(b: u8) -> u8 {
    if b == 255 {
        0
    } else {
        (b + 1) as u8
    }
}

/// The exclusive upper bound of a prefix scan: the prefix with its final
/// byte incremented modulo 256, without carry.
pub open spec fn prefix_next(p: Seq<u8>) -> Seq<u8>
    recommends
        p.len() > 0,
{
    p.update(p.len() - 1, wrap_inc(p[p.len() - 1]))
}

/// Whether `k` falls in the range a prefix scan over `p` covers.
pub open spec fn prefix_range(p: Seq<u8>, k: Seq<u8>) -> bool {
    if p.len() == 0 {
        true
    } else {
        (p == k || crate::bytes::lex_lt(p, k)) && crate::bytes::lex_lt(k, prefix_next(p))
    }
}

/// Tests the lower bound; true iff `lower_ok` admits the key.
fn lower_admits(b: &ScanBound, k: &[u8]) -> (r: bool)
    ensures
        r == lower_ok(*b, k@),
{
    match b {
        ScanBound::Included(v) => {
            let r = !crate::bytes::bytes_lt(k, v.as_slice());
            proof {
                crate::bytes::lemma_lex_lt_total(v@, k@);
                if crate::bytes::lex_lt(v@, k@) {
                    crate::bytes::lemma_lex_lt_asym(v@, k@);
                }
                crate::bytes::lemma_lex_lt_irrefl(k@);
            }
            r
        },
        ScanBound::Excluded(v) => crate::bytes::bytes_lt(v.as_slice(), k),
        ScanBound::Unbounded => true,
    }
}

/// Tests the upper bound; true iff `upper_ok` admits the key.
fn upper_admits(b: &ScanBound, k: &[u8]) -> (r: bool)
    ensures
        r == upper_ok(*b, k@),
{
    match b {
        ScanBound::Included(v) => {
            let r = !crate::bytes::bytes_lt(v.as_slice(), k);
            proof {
                crate::bytes::lemma_lex_lt_total(k@, v@);
                if crate::bytes::lex_lt(k@, v@) {
                    crate::bytes::lemma_lex_lt_asym(k@, v@);
                }
                crate::bytes::lemma_lex_lt_irrefl(k@);
            }
            r
        },
        ScanBound::Excluded(v) => crate::bytes::bytes_lt(k, v.as_slice()),
        ScanBound::Unbounded => true,
    }
}

/// The mathematical pairs of an owned key-value vector.
pub open spec fn pair_seq(v: Seq<(Vec<u8>, Vec<u8>)>) -> Seq<(Seq<u8>, Seq<u8>)> {
    v.map_values(|e: (Vec<u8>, Vec<u8>)| (e.0@, e.1@))
}

/// A bidirectional cursor over the pairs a scan selected, in ascending key
/// order; the pairs are materialized when the scan is made.
pub struct ScanIterator {
    items: Vec<(Vec<u8>, Vec<u8>)>,
    front: usize,
    back: usize,
}

impl ScanIterator {
    /// All pairs the scan selected, in ascending key order.
    pub closed spec fn item_seq(self) -> Seq<(Seq<u8>, Seq<u8>)> {
        pair_seq(self.items@)
    }

    /// The pairs not yet yielded from either end.
    pub closed spec fn remaining(self) -> Seq<(Seq<u8>, Seq<u8>)> {
        self.item_seq().subrange(self.front as int, self.back as int)
    }

    /// Well-formed: the cursors are in order and the keys ascend strictly.
    pub closed spec fn wf(self) -> bool {
        &&& self.front <= self.back <= self.item_seq().len()
        &&& forall|p: int, q: int| 0 <= p < q < self.item_seq().len() ==> crate::bytes::lex_lt(
            (#[trigger] self.item_seq()[p]).0,
            (#[trigger] self.item_seq()[q]).0,
        )
    }

    /// Yields the next pair in ascending order.
    pub fn next(&mut self) -> (r: Option<(Vec<u8>, Vec<u8>)>)
        requires
            old(self).wf(),
        ensures
            final(self).wf(),
            match r {
                Some(kv) => {
                    &&& old(self).remaining().len() > 0
                    &&& (kv.0@, kv.1@) == old(self).remaining()[0]
                    &&& final(self).remaining() == old(self).remaining().subrange(
                        1,
                        old(self).remaining().len() as int,
                    )
                },
                None => {
                    &&& old(self).remaining().len() == 0
                    &&& final(self).remaining() == old(self).remaining()
                },
            },
    {
        if self.front < self.back {
            let k = clone_bytes(&self.items[self.front].0);
            let v = clone_bytes(&self.items[self.front].1);
            self.front = self.front + 1;
            proof {
                assert(self.remaining() =~= old(self).remaining().subrange(
                    1,
                    old(self).remaining().len() as int,
                ));
                assert(old(self).remaining()[0] == old(self).item_seq()[old(self).front as int]);
            }
            Some((k, v))
        } else {
            proof {
                assert(self.remaining() =~= old(self).remaining());
            }
            None
        }
    }

    /// Yields the next pair in descending order, from the back.
    pub fn next_back(&mut self) -> (r: Option<(Vec<u8>, Vec<u8>)>)
        requires
            old(self).wf(),
        ensures
            final(self).wf(),
            match r {
                Some(kv) => {
                    &&& old(self).remaining().len() > 0
                    &&& (kv.0@, kv.1@) == old(self).remaining().last()
                    &&& final(self).remaining() == old(self).remaining().drop_last()
                },
                None => {
                    &&& old(self).remaining().len() == 0
                    &&& final(self).remaining() == old(self).remaining()
                },
            },
    {
        if self.front < self.back {
            let k = clone_bytes(&self.items[self.back - 1].0);
            let v = clone_bytes(&self.items[self.back - 1].1);
            self.back = self.back - 1;
            proof {
                assert(self.remaining() =~= old(self).remaining().drop_last());
                assert(old(self).remaining().last() == old(self).item_seq()[old(self).back
                    - 1]);
            }
            Some((k, v))
        } else {
            proof {
                assert(self.remaining() =~= old(self).remaining());
            }
            None
        }
    }
}

/// After any sequence of writes, the KeyDir holds exactly the keys of the
/// last-writer-wins projection of the log's records, and each entry points
/// at the bytes of that key's most recent value.
pub proof fn lemma_keydir_is_lww_projection(s: MiniBitcask)
    requires
        s.wf(),
    ensures
        s.index() == log_index(s.records()),
        s.index().dom() == s.contents().dom(),
        forall|k: Seq<u8>| #[trigger] s.contents().contains_key(k) ==> s.index()[k].0 + s.index()[
            k].1 <= s.log_bytes().len() && s.contents()[k] == s.log_bytes().subrange(
            s.index()[k].0 as int,
            s.index()[k].0 + s.index()[k].1,
        ),
{
    s.lemma_wf_parses();
}

/// Reopening from the same log bytes rebuilds an identical KeyDir and hence
/// identical contents.
pub proof fn lemma_reopen_equivalence(a: MiniBitcask, b: MiniBitcask)
    requires
        a.wf(),
        b.wf(),
        a.log_bytes() == b.log_bytes(),
    ensures
        a.index() == b.index(),
        a.contents() == b.contents(),
{
    a.lemma_wf_parses();
    b.lemma_wf_parses();
}

/// Writing a pair and then reading its key yields exactly the written value.
pub proof fn lemma_set_then_get(pre: MiniBitcask, post: MiniBitcask, k: Seq<u8>, v: Seq<u8>)
    requires
        post.contents() == pre.contents().insert(k, v),
    ensures
        post.contents().contains_key(k),
        post.contents()[k] == v,
{
}

/// Deleting a key twice leaves the same state as deleting it once, and the
/// key reads as absent.
pub proof fn lemma_delete_idempotent(
    s0: MiniBitcask,
    s1: MiniBitcask,
    s2: MiniBitcask,
    k: Seq<u8>,
)
    requires
        s1.contents() == s0.contents().remove(k),
        s2.contents() == s1.contents().remove(k),
    ensures
        !s2.contents().contains_key(k),
        s2.contents() == s0.contents().remove(k),
{
    assert(s2.contents() =~= s0.contents().remove(k));
}

/// The pairs a scan has not yet yielded ascend strictly by key, so `next`
/// yields keys in ascending order and `next_back` in descending order,
/// each pair exactly once between them.
pub proof fn lemma_scan_order(it: ScanIterator)
    requires
        it.wf(),
    ensures
        forall|p: int, q: int| 0 <= p < q < it.remaining().len() ==> crate::bytes::lex_lt(
            (#[trigger] it.remaining()[p]).0,
            (#[trigger] it.remaining()[q]).0,
        ),
{
    assert forall|p: int, q: int| 0 <= p < q < it.remaining().len() implies crate::bytes::lex_lt(
        (it.remaining()[p]).0,
        (it.remaining()[q]).0,
    ) by {
        assert(it.remaining()[p] == it.item_seq()[it.front + p]);
        assert(it.remaining()[q] == it.item_seq()[it.front + q]);
    }
}

} // verus!
