//! The store: an in-memory index over append-only segments of records.
//!
//! Segments are held in generation order; the last one is the active
//! segment, the only one still appended to.  The index maps each live
//! key to the location of its latest `Put` record.  The store's
//! observable state is `recover_map` of its segments, so the in-memory
//! index is always a faithful derivative of the persisted log.
//!
//! Reading and writing segment files, and the record codec that turns
//! records into bytes, live outside this crate; the store works on the
//! decoded records themselves.

use vstd::prelude::*;

use crate::command::{Command, Put, Remove};
use crate::model::{
    cmd_key, init_state, recover, recover_map, run_seg, run_segs, staleness_of,
    lemma_append_record, lemma_run_seg_push, lemma_run_segs_push,
};

verus! {

/// How many stale records accumulate before compaction runs.
pub const REDUNDANCY_LIMIT: usize = 2048;

/// The redundancy counter saturates at the compaction threshold:
/// past it the exact count no longer matters, only that the
/// threshold was reached.
pub open spec fn capped(n: nat) -> nat {
    if n >= REDUNDANCY_LIMIT as nat {
        REDUNDANCY_LIMIT as nat
    } else {
        n
    }
}

/// Where a live `Put` record sits: which segment, and at which
/// record position within it.
#[derive(Clone, Copy)]
pub struct Location {
    pub cask: usize,
    pub offset: usize,
}

/// The store's failure modes.  Only `KeyNotFound` arises from the
/// in-memory engine itself; the other kinds are produced by the
/// surrounding I/O and codec layer and carry its message.
#[derive(Debug)]
pub enum KVError {
    KeyNotFound(String),
    Io(String),
    MessagePack(String),
    Bincode(String),
}

/// Whether `loc` lies strictly before the scan point `(i, off)`:
/// in an earlier segment, or earlier within segment `i`.
pub open spec fn loc_in(loc: Location, i: int, off: int) -> bool {
    (loc.cask as int) < i || ((loc.cask as int) == i && (loc.offset as int) < off)
}

/// One index entry is sound: its location holds a `Put` record whose
/// key is the entry's key and whose value is the live value in `m`.
pub open spec fn entry_ok(
    segs: Seq<Vec<Command>>,
    m: Map<Seq<char>, Seq<char>>,
    key: Seq<char>,
    loc: Location,
) -> bool {
    &&& (loc.cask as int) < segs.len()
    &&& (loc.offset as int) < segs[loc.cask as int]@.len()
    &&& match segs[loc.cask as int]@[loc.offset as int] {
        Command::Put(p) => p.key@ == key && m.contains_key(key) && m[key] == p.value@,
        Command::Rm(_) => false,
    }
}

/// No two index entries share a key.
pub open spec fn unique_keys(l: Seq<(String, Location)>) -> bool {
    forall|i: int, j: int|
        0 <= i < j < l.len() ==> (#[trigger] l[i]).0@ != (#[trigger] l[j]).0@
}

/// The index is exactly the live set of `m`, with every entry's
/// location before the scan point `(i, off)` and sound for `m`.
pub open spec fn index_ok(
    lookup: Seq<(String, Location)>,
    segs: Seq<Vec<Command>>,
    m: Map<Seq<char>, Seq<char>>,
    i: int,
    off: int,
) -> bool {
    &&& unique_keys(lookup)
    &&& forall|j: int|
        0 <= j < lookup.len() ==> loc_in((#[trigger] lookup[j]).1, i, off) && entry_ok(
            segs,
            m,
            lookup[j].0@,
            lookup[j].1,
        )
    &&& forall|k: Seq<char>|
        #[trigger] m.contains_key(k) ==> exists|j: int|
            0 <= j < lookup.len() && (#[trigger] lookup[j]).0@ == k
}

/// A freshly compacted store: besides the empty active segment, the
/// log is a single segment holding exactly one live `Put` record per
/// live key, nothing else, and no record of it is stale.
pub open spec fn compacted(s: KvStore) -> bool {
    &&& s.staleness() == 0
    &&& s.log().len() == 2
    &&& s.log()[1]@.len() == 0
    &&& forall|i: int|
        0 <= i < s.log()[0]@.len() ==> match #[trigger] s.log()[0]@[i] {
            Command::Put(p) => s@.contains_key(p.key@) && s@[p.key@] == p.value@,
            Command::Rm(_) => false,
        }
    &&& forall|i: int, j: int|
        0 <= i < j < s.log()[0]@.len() ==> cmd_key(#[trigger] s.log()[0]@[i]) != cmd_key(
            #[trigger] s.log()[0]@[j],
        )
    &&& forall|k: Seq<char>|
        #[trigger] s@.contains_key(k) ==> exists|i: int|
            0 <= i < s.log()[0]@.len() && cmd_key(#[trigger] s.log()[0]@[i]) == k
}

/// The key-value store.
pub struct KvStore {
    segments: Vec<Vec<Command>>,
    active_cask: usize,
    lookup: Vec<(String, Location)>,
    current_redundancy: usize,
}

impl View for KvStore {
    type V = Map<Seq<char>, Seq<char>>;

    /// The observable state: the map the persisted log replays to.
    closed spec fn view(&self) -> Map<Seq<char>, Seq<char>> {
        recover_map(self.segments@)
    }
}

impl KvStore {
    /// The persisted log: every segment, oldest generation first.
    pub closed spec fn log(&self) -> Seq<Vec<Command>> {
        self.segments@
    }

    /// How many records of the log are stale.
    pub closed spec fn staleness(&self) -> nat {
        staleness_of(self.segments@)
    }

    /// Internal consistency: the index mirrors the log's replay, and
    /// the redundancy counter tracks its staleness (saturating at the
    /// compaction threshold, past which its exact value is moot).
    pub closed spec fn wf(&self) -> bool {
        &&& self.segments@.len() >= 1
        &&& self.active_cask + 1 == self.segments@.len()
        &&& index_ok(
            self.lookup@,
            self.segments@,
            recover_map(self.segments@),
            self.segments@.len() as int,
            0,
        )
        &&& self.current_redundancy as nat == capped(staleness_of(self.segments@))
    }
}

/// Linear search of the index for `key`.
fn find_key(lookup: &Vec<(String, Location)>, key: &String) -> (r: Option<usize>)
    ensures
        match r {
            Some(j) => j < lookup@.len() && lookup@[j as int].0@ == key@,
            None => forall|j: int| 0 <= j < lookup@.len() ==> (#[trigger] lookup@[j]).0@ != key@,
        },
{
    let mut j: usize = 0;
    while j < lookup.len()
        invariant
            j <= lookup@.len(),
            forall|t: int| 0 <= t < j ==> (#[trigger] lookup@[t]).0@ != key@,
        decreases lookup@.len() - j,
    {
        if lookup[j].0 == *key {
            return Some(j);
        }
        j += 1;
    }
    None
}

impl KvStore {
    /// Rebuild a store from its persisted segments, oldest first:
    /// scan every record in order, index the latest `Put` for each
    /// live key, count stale records, and open a fresh active segment
    /// one generation past the existing ones.  The scan advances its
    /// position after every record, tombstones included, so each
    /// indexed location points exactly at the record that wrote the
    /// live value.
    pub fn open(segments: Vec<Vec<Command>>) -> (r: Result<KvStore, KVError>)
        ensures
            r is Ok,
            (r->Ok_0).wf(),
            (r->Ok_0)@ == recover_map(segments@),
            (r->Ok_0).staleness() == staleness_of(segments@),
            (r->Ok_0).log().len() == segments@.len() + 1,
            forall|i: int| 0 <= i < segments@.len() ==> (r->Ok_0).log()[i] == segments@[i],
            (r->Ok_0).log().last()@ == Seq::<Command>::empty(),
    {
        let ghost orig = segments@;
        let mut segments = segments;
        let n = segments.len();
        let mut lookup: Vec<(String, Location)> = Vec::new();
        let mut red: usize = 0;

        let mut i: usize = 0;
        proof {
            assert(orig.take(0) =~= Seq::<Vec<Command>>::empty());
        }
        while i < n
            invariant
                n == orig.len(),
                segments@ == orig,
                i <= n,
                index_ok(
                    lookup@,
                    orig,
                    run_segs(init_state(), orig.take(i as int)).0,
                    i as int,
                    0,
                ),
                red as nat == capped(run_segs(init_state(), orig.take(i as int)).1),
            decreases n - i,
        {
            let ghost st_base = run_segs(init_state(), orig.take(i as int));
            let seg_len = segments[i].len();
            let mut off: usize = 0;
            proof {
                assert(orig[i as int]@.take(0) =~= Seq::<Command>::empty());
            }
            while off < seg_len
                invariant
                    n == orig.len(),
                    segments@ == orig,
                    i < n,
                    st_base == run_segs(init_state(), orig.take(i as int)),
                    seg_len == orig[i as int]@.len(),
                    off <= seg_len,
                    index_ok(
                        lookup@,
                        orig,
                        run_seg(st_base, orig[i as int]@.take(off as int)).0,
                        i as int,
                        off as int,
                    ),
                    red as nat == capped(run_seg(st_base, orig[i as int]@.take(off as int)).1),
                decreases seg_len - off,
            {
                let ghost pre = run_seg(st_base, orig[i as int]@.take(off as int));
                let ghost c = orig[i as int]@[off as int];
                proof {
                    assert(orig[i as int]@.take(off as int + 1) =~= orig[i as int]@.take(
                        off as int,
                    ).push(c));
                    lemma_run_seg_push(st_base, orig[i as int]@.take(off as int), c);
                }
                let ghost post = run_seg(st_base, orig[i as int]@.take(off as int + 1));
                match &segments[i][off] {
                    Command::Put(p) => {
                        let loc = Location { cask: i, offset: off };
                        match find_key(&lookup, &p.key) {
                            Some(j) => {
                                proof {
                                    assert(entry_ok(orig, pre.0, lookup@[j as int].0@,
                                        lookup@[j as int].1));
                                    assert(pre.0.contains_key(p.key@));
                                }
                                let ghost old_lookup = lookup@;
                                let e = &mut lookup[j];
                                e.1 = loc;
                                if red < REDUNDANCY_LIMIT {
                                    red += 1;
                                }
                                proof {
                                    assert(lookup@ == old_lookup.update(
                                        j as int,
                                        (old_lookup[j as int].0, loc),
                                    ));
                                    assert forall|k: Seq<char>| #[trigger] post.0.contains_key(k)
                                        implies exists|t: int|
                                            0 <= t < lookup@.len() && (#[trigger] lookup@[t]).0@
                                                == k by {
                                        if k == p.key@ {
                                            assert(lookup@[j as int].0@ == k);
                                        } else {
                                            assert(pre.0.contains_key(k));
                                            let t0 = choose|t0: int|
                                                0 <= t0 < old_lookup.len()
                                                    && (#[trigger] old_lookup[t0]).0@ == k;
                                            assert(lookup@[t0].0@ == k);
                                        }
                                    }
                                }
                            },
                            None => {
                                proof {
                                    if pre.0.contains_key(p.key@) {
                                        let t = choose|t: int|
                                            0 <= t < lookup@.len() && (#[trigger] lookup@[t]).0@
                                                == p.key@;
                                        assert(false);
                                    }
                                }
                                let ghost old_lookup = lookup@;
                                lookup.push((p.key.clone(), loc));
                                proof {
                                    assert forall|k: Seq<char>| #[trigger] post.0.contains_key(k)
                                        implies exists|t: int|
                                            0 <= t < lookup@.len() && (#[trigger] lookup@[t]).0@
                                                == k by {
                                        if k == p.key@ {
                                            assert(lookup@[lookup@.len() - 1].0@ == k);
                                        } else {
                                            assert(pre.0.contains_key(k));
                                            let t0 = choose|t0: int|
                                                0 <= t0 < old_lookup.len()
                                                    && (#[trigger] old_lookup[t0]).0@ == k;
                                            assert(lookup@[t0].0@ == k);
                                        }
                                    }
                                }
                            },
                        }
                    },
                    Command::Rm(rm) => {
                        match find_key(&lookup, &rm.key) {
                            Some(j) => {
                                proof {
                                    assert(entry_ok(orig, pre.0, lookup@[j as int].0@,
                                        lookup@[j as int].1));
                                    assert(pre.0.contains_key(rm.key@));
                                }
                                let ghost old_lookup = lookup@;
                                lookup.remove(j);
                                if red < REDUNDANCY_LIMIT {
                                    red += 1;
                                }
                                proof {
                                    assert forall|k: Seq<char>| #[trigger] post.0.contains_key(k)
                                        implies exists|t: int|
                                            0 <= t < lookup@.len() && (#[trigger] lookup@[t]).0@
                                                == k by {
                                        assert(pre.0.contains_key(k));
                                        let t0 = choose|t0: int|
                                            0 <= t0 < old_lookup.len()
                                                && (#[trigger] old_lookup[t0]).0@ == k;
                                        assert(k != rm.key@);
                                        assert(t0 != j);
                                        if t0 < j {
                                            assert(lookup@[t0].0@ == k);
                                        } else {
                                            assert(lookup@[t0 - 1].0@ == k);
                                        }
                                    }
                                }
                            },
                            None => {
                                proof {
                                    if pre.0.contains_key(rm.key@) {
                                        let t = choose|t: int|
                                            0 <= t < lookup@.len() && (#[trigger] lookup@[t]).0@
                                                == rm.key@;
                                        assert(false);
                                    }
                                    assert(post.0 =~= pre.0);
                                }
                            },
                        }
                    },
                }
                off += 1;
            }
            proof {
                assert(orig[i as int]@.take(seg_len as int) =~= orig[i as int]@);
                assert(orig.take(i as int + 1) =~= orig.take(i as int).push(orig[i as int]));
                lemma_run_segs_push(init_state(), orig.take(i as int), orig[i as int]);
            }
            i += 1;
        }
        proof {
            assert(orig.take(n as int) =~= orig);
        }
        let ghost final_state = recover(orig);
        let fresh: Vec<Command> = Vec::new();
        segments.push(fresh);
        proof {
            lemma_run_segs_push(init_state(), orig, segments@[n as int]);
            assert(segments@ =~= orig.push(segments@[n as int]));
            assert(recover(segments@) == final_state);
        }
        Ok(KvStore { segments, active_cask: n, lookup, current_redundancy: red })
    }

    /// Replace this store's whole in-memory state by re-running
    /// recovery over `segments`, rather than patching state piecemeal.
    fn build_index(&mut self, segments: Vec<Vec<Command>>) -> (r: Result<(), KVError>)
        ensures
            r is Ok,
            final(self).wf(),
            final(self)@ == recover_map(segments@),
            final(self).staleness() == staleness_of(segments@),
            final(self).log().len() == segments@.len() + 1,
            forall|i: int| 0 <= i < segments@.len() ==> final(self).log()[i] == segments@[i],
            final(self).log().last()@ == Seq::<Command>::empty(),
    {
        match Self::open(segments) {
            Ok(s) => {
                *self = s;
                Ok(())
            },
            Err(e) => {
                proof {
                    assert(false);
                }
                Err(e)
            },
        }
    }

    /// Look a key up.  Returns the value recorded by the latest live
    /// `Put` for it, or nothing when the key is unbound.  Reading a
    /// location that does not hold a `Put` — which the index
    /// invariant rules out — falls back to "not found".
    pub fn get(&self, key: String) -> (r: Result<Option<String>, KVError>)
        requires
            self.wf(),
        ensures
            match r {
                Ok(ov) => match ov {
                    Some(v) => self@.contains_key(key@) && v@ == self@[key@],
                    None => !self@.contains_key(key@),
                },
                Err(_) => false,
            },
    {
        match find_key(&self.lookup, &key) {
            Some(j) => {
                let loc = self.lookup[j].1;
                proof {
                    assert(loc_in(self.lookup@[j as int].1, self.segments@.len() as int, 0)
                        && entry_ok(
                        self.segments@,
                        recover_map(self.segments@),
                        self.lookup@[j as int].0@,
                        self.lookup@[j as int].1,
                    ));
                }
                match &self.segments[loc.cask][loc.offset] {
                    Command::Put(p) => Ok(Some(p.value.clone())),
                    Command::Rm(_) => Ok(None),
                }
            },
            None => {
                proof {
                    if self@.contains_key(key@) {
                        let t = choose|t: int|
                            0 <= t < self.lookup@.len() && (#[trigger] self.lookup@[t]).0@
                                == key@;
                        assert(false);
                    }
                }
                Ok(None)
            },
        }
    }

    /// Bind `key` to `value`: append a `Put` record to the active
    /// segment, point the index at it, and compact when enough
    /// records have gone stale.
    pub fn set(&mut self, key: String, value: String) -> (r: Result<(), KVError>)
        requires
            old(self).wf(),
        ensures
            r is Ok,
            final(self).wf(),
            final(self)@ == old(self)@.insert(key@, value@),
            ({
                let s1 = old(self).staleness() + if old(self)@.contains_key(key@) {
                    1nat
                } else {
                    0nat
                };
                if s1 >= REDUNDANCY_LIMIT as nat {
                    compacted(*final(self))
                } else {
                    &&& final(self).staleness() == s1
                    &&& final(self).log().len() == old(self).log().len()
                    &&& forall|i: int|
                        0 <= i < old(self).log().len() - 1 ==> final(self).log()[i] == old(
                            self,
                        ).log()[i]
                    &&& final(self).log().last()@ == old(self).log().last()@.push(
                        Command::Put(Put { key, value }),
                    )
                }
            }),
    {
        let ghost old_segs = self.segments@;
        let ghost old_st = recover(old_segs);
        let ghost cmd_spec = Command::Put(Put { key, value });

        let offset = self.segments[self.active_cask].len();
        let cmd = Command::Put(Put { key: key.clone(), value: value.clone() });
        proof {
            assert(cmd == cmd_spec);
        }
        self.segments[self.active_cask].push(cmd);
        proof {
            lemma_append_record(old_segs, self.segments@, cmd_spec);
        }

        let loc = Location { cask: self.active_cask, offset };
        match find_key(&self.lookup, &key) {
            Some(j) => {
                proof {
                    assert(entry_ok(old_segs, old_st.0, self.lookup@[j as int].0@,
                        self.lookup@[j as int].1));
                    assert(old_st.0.contains_key(key@));
                }
                let ghost old_lookup = self.lookup@;
                let e = &mut self.lookup[j];
                e.1 = loc;
                if self.current_redundancy < REDUNDANCY_LIMIT {
                    self.current_redundancy = self.current_redundancy + 1;
                }
                proof {
                    assert(self.lookup@ == old_lookup.update(
                        j as int,
                        (old_lookup[j as int].0, loc),
                    ));
                    assert forall|k: Seq<char>|
                        #[trigger] recover_map(self.segments@).contains_key(k) implies exists|
                            t: int,
                        |
                            0 <= t < self.lookup@.len() && (#[trigger] self.lookup@[t]).0@
                                == k by {
                        if k == key@ {
                            assert(self.lookup@[j as int].0@ == k);
                        } else {
                            assert(old_st.0.contains_key(k));
                            let t0 = choose|t0: int|
                                0 <= t0 < old_lookup.len() && (#[trigger] old_lookup[t0]).0@
                                    == k;
                            assert(self.lookup@[t0].0@ == k);
                        }
                    }
                }
            },
            None => {
                proof {
                    if old_st.0.contains_key(key@) {
                        let t = choose|t: int|
                            0 <= t < self.lookup@.len() && (#[trigger] self.lookup@[t]).0@
                                == key@;
                        assert(false);
                    }
                }
                let ghost old_lookup = self.lookup@;
                self.lookup.push((key, loc));
                proof {
                    assert forall|k: Seq<char>|
                        #[trigger] recover_map(self.segments@).contains_key(k) implies exists|
                            t: int,
                        |
                            0 <= t < self.lookup@.len() && (#[trigger] self.lookup@[t]).0@
                                == k by {
                        if k == key@ {
                            assert(self.lookup@[self.lookup@.len() - 1].0@ == k);
                        } else {
                            assert(old_st.0.contains_key(k));
                            let t0 = choose|t0: int|
                                0 <= t0 < old_lookup.len() && (#[trigger] old_lookup[t0]).0@
                                    == k;
                            assert(self.lookup@[t0].0@ == k);
                        }
                    }
                }
            },
        }
        match self.compact() {
            Ok(_) => Ok(()),
            Err(e) => {
                proof {
                    assert(false);
                }
                Err(e)
            },
        }
    }

    /// Unbind `key`.  When the key is live, append a tombstone and
    /// drop the index entry; removing an unbound key is an error and
    /// writes nothing.
    pub fn remove(&mut self, key: String) -> (r: Result<(), KVError>)
        requires
            old(self).wf(),
        ensures
            final(self).wf(),
            old(self)@.contains_key(key@) ==> r is Ok && final(self)@ == old(self)@.remove(key@)
                && ({
                let s1 = old(self).staleness() + 1;
                if s1 >= REDUNDANCY_LIMIT as nat {
                    compacted(*final(self))
                } else {
                    &&& final(self).staleness() == s1
                    &&& final(self).log().len() == old(self).log().len()
                    &&& forall|i: int|
                        0 <= i < old(self).log().len() - 1 ==> final(self).log()[i] == old(
                            self,
                        ).log()[i]
                    &&& final(self).log().last()@ == old(self).log().last()@.push(
                        Command::Rm(Remove { key }),
                    )
                }
            }),
            !old(self)@.contains_key(key@) ==> r == Err::<(), KVError>(
                KVError::KeyNotFound(key),
            ) && *final(self) == *old(self),
    {
        let ghost old_segs = self.segments@;
        let ghost old_st = recover(old_segs);
        match find_key(&self.lookup, &key) {
            Some(j) => {
                proof {
                    assert(entry_ok(old_segs, old_st.0, self.lookup@[j as int].0@,
                        self.lookup@[j as int].1));
                    assert(old_st.0.contains_key(key@));
                }
                let ghost old_lookup = self.lookup@;
                self.lookup.remove(j);
                let ghost cmd_spec = Command::Rm(Remove { key });
                let cmd = Command::Rm(Remove { key });
                self.segments[self.active_cask].push(cmd);
                proof {
                    lemma_append_record(old_segs, self.segments@, cmd_spec);
                }
                if self.current_redundancy < REDUNDANCY_LIMIT {
                    self.current_redundancy = self.current_redundancy + 1;
                }
                proof {
                    assert forall|k: Seq<char>|
                        #[trigger] recover_map(self.segments@).contains_key(k) implies exists|
                            t: int,
                        |
                            0 <= t < self.lookup@.len() && (#[trigger] self.lookup@[t]).0@
                                == k by {
                        assert(old_st.0.contains_key(k));
                        assert(k != key@);
                        let t0 = choose|t0: int|
                            0 <= t0 < old_lookup.len() && (#[trigger] old_lookup[t0]).0@ == k;
                        assert(t0 != j);
                        if t0 < j {
                            assert(self.lookup@[t0].0@ == k);
                        } else {
                            assert(self.lookup@[t0 - 1].0@ == k);
                        }
                    }
                }
                match self.compact() {
                    Ok(_) => Ok(()),
                    Err(e) => {
                        proof {
                            assert(false);
                        }
                        Err(e)
                    },
                }
            },
            None => {
                proof {
                    if old_st.0.contains_key(key@) {
                        let t = choose|t: int|
                            0 <= t < self.lookup@.len() && (#[trigger] self.lookup@[t]).0@
                                == key@;
                        assert(false);
                    }
                }
                Err(KVError::KeyNotFound(key))
            },
        }
    }

    /// When the redundancy counter has reached the threshold, rewrite
    /// every live record into one fresh segment and rebuild all
    /// in-memory state from it; otherwise do nothing.
    fn compact(&mut self) -> (r: Result<(), KVError>)
        requires
            old(self).wf(),
        ensures
            r is Ok,
            final(self).wf(),
            final(self)@ == old(self)@,
            old(self).staleness() >= REDUNDANCY_LIMIT as nat ==> compacted(*final(self)),
            old(self).staleness() < REDUNDANCY_LIMIT as nat ==> *final(self) == *old(self),
    {
        if self.current_redundancy < REDUNDANCY_LIMIT {
            return Ok(());
        }
        let ghost old_m = recover_map(self.segments@);
        let mut new_seg: Vec<Command> = Vec::new();
        let mut j: usize = 0;
        while j < self.lookup.len()
            invariant
                self.wf(),
                old_m == recover_map(self.segments@),
                j <= self.lookup@.len(),
                new_seg@.len() == j,
                forall|t: int|
                    0 <= t < j ==> cmd_key(#[trigger] new_seg@[t]) == self.lookup@[t].0@
                        && new_seg@[t] is Put,
                run_seg(init_state(), new_seg@).1 == 0,
                forall|t: int|
                    0 <= t < j ==> run_seg(init_state(), new_seg@).0.contains_key(
                        (#[trigger] self.lookup@[t]).0@,
                    ) && run_seg(init_state(), new_seg@).0[self.lookup@[t].0@]
                        == old_m[self.lookup@[t].0@],
                forall|k: Seq<char>|
                    #[trigger] run_seg(init_state(), new_seg@).0.contains_key(k) ==> exists|
                        t: int,
                    | 0 <= t < j && (#[trigger] self.lookup@[t]).0@ == k,
            decreases self.lookup@.len() - j,
        {
            let loc = self.lookup[j].1;
            proof {
                assert(loc_in(self.lookup@[j as int].1, self.segments@.len() as int, 0)
                    && entry_ok(
                    self.segments@,
                    old_m,
                    self.lookup@[j as int].0@,
                    self.lookup@[j as int].1,
                ));
            }
            let ghost old_new_seg = new_seg@;
            let ghost pre = run_seg(init_state(), old_new_seg);
            match &self.segments[loc.cask][loc.offset] {
                Command::Put(p) => {
                    let rec = Command::Put(Put { key: p.key.clone(), value: p.value.clone() });
                    proof {
                        if pre.0.contains_key(p.key@) {
                            let t0 = choose|t0: int|
                                0 <= t0 < j && (#[trigger] self.lookup@[t0]).0@ == p.key@;
                            assert(false);
                        }
                    }
                    new_seg.push(rec);
                    proof {
                        lemma_run_seg_push(init_state(), old_new_seg, rec);
                        assert forall|k: Seq<char>|
                            #[trigger] run_seg(init_state(), new_seg@).0.contains_key(k)
                            implies exists|t: int|
                                0 <= t < j + 1 && (#[trigger] self.lookup@[t]).0@ == k by {
                            if k == p.key@ {
                                assert(self.lookup@[j as int].0@ == k);
                            } else {
                                assert(pre.0.contains_key(k));
                            }
                        }
                    }
                },
                Command::Rm(_) => {
                    proof {
                        assert(false);
                    }
                },
            }
            j += 1;
        }
        let ghost m_full = run_seg(init_state(), new_seg@).0;
        proof {
            assert forall|k: Seq<char>| old_m.contains_key(k) implies m_full.contains_key(k)
                && m_full[k] == old_m[k] by {
                let t0 = choose|t0: int|
                    0 <= t0 < self.lookup@.len() && (#[trigger] self.lookup@[t0]).0@ == k;
                assert(m_full.contains_key(self.lookup@[t0].0@));
            }
            assert forall|k: Seq<char>| m_full.contains_key(k) implies old_m.contains_key(
                k,
            ) by {
                let t0 = choose|t0: int|
                    0 <= t0 < self.lookup@.len() && (#[trigger] self.lookup@[t0]).0@ == k;
                assert(entry_ok(self.segments@, old_m, self.lookup@[t0].0@,
                    self.lookup@[t0].1));
            }
            assert(m_full =~= old_m);
        }
        let mut staging: Vec<Vec<Command>> = Vec::new();
        staging.push(new_seg);
        proof {
            assert(staging@.drop_first() =~= Seq::<Vec<Command>>::empty());
            assert(run_segs(init_state(), staging@) == run_segs(
                run_seg(init_state(), staging@.first()@),
                staging@.drop_first(),
            ));
            assert(recover(staging@) == run_seg(init_state(), new_seg@));
        }
        let ghost staged = staging@;
        match self.build_index(staging) {
            Ok(_) => {
                proof {
                    assert(self.log()[0] == staged[0]);
                    assert(forall|i: int|
                        0 <= i < self.log()[0]@.len() ==> self.log()[0]@[i]
                            == #[trigger] staged[0]@[i]);
                }
                Ok(())
            },
            Err(e) => {
                proof {
                    assert(false);
                }
                Err(e)
            },
        }
    }

    /// How many stale records the counter has seen since the last
    /// compaction, saturating at the compaction threshold.
    pub fn redundancy_count(&self) -> (r: usize)
        requires
            self.wf(),
        ensures
            r as nat == capped(self.staleness()),
    {
        self.current_redundancy
    }

    /// How many segments the store holds, the active one included.
    pub fn segment_count(&self) -> (r: usize)
        ensures
            r == self.log().len(),
    {
        self.segments.len()
    }

    /// The persisted log itself: what a restart would recover from.
    pub fn segments(&self) -> (r: &Vec<Vec<Command>>)
        ensures
            r@ == self.log(),
    {
        &self.segments
    }
}

/// Durability: a store's observable state is exactly what replaying
/// its persisted log recovers.  With `open`'s contract, reopening a
/// store from its own log therefore yields the same map, the same
/// staleness count, and so the same behaviour of every operation.
pub proof fn lemma_recovery_round_trip(s: KvStore)
    requires
        s.wf(),
    ensures
        recover_map(s.log()) == s@,
        staleness_of(s.log()) == s.staleness(),
{
}

} // verus!
