//! The metadata store: one record per accepted image, with its vote
//! tallies and ranking, plus the vote state machine and the biased
//! selection of the next image to present.
//!
//! The store is an in-memory table; callers that want durability persist
//! it outside. Records are created once at first ingestion of a novel
//! content hash, mutated only by [`Store::apply_vote`], and never removed:
//! suppression from rotation is the sort key falling below a threshold.

use vstd::prelude::*;
use crate::rank::{
    confidence_micro, lemma_wilson_nonneg, lemma_wilson_upper, rank, sorting_micro, HALF_MICRO,
    SCALE, Z2_MICRO,
};
use vstd::arithmetic::div_mod::{lemma_div_pos_is_pos, lemma_div_nonincreasing};
use crate::sampler::{biased_offset, offset_spec};
use crate::{Admit, Error};

verus! {

/// One accepted image: its identity, provenance and vote state.
pub struct ImageRecord {
    /// Globally unique, sortable, immutable once assigned.
    pub id: String,
    /// The original basename, informational only.
    pub filename: String,
    /// Decimal rendering of the 64-bit content fingerprint; the canonical
    /// content key. Two records never share it.
    pub hash: String,
    pub upvotes: u32,
    pub downvotes: u32,
    /// The ranking sort key, in millionths.
    pub sorting: i64,
    /// The evidence metric, in millionths.
    pub confidence: i128,
}

/// What the read path hands out: enough to fetch the rendition.
pub struct ImageEntry {
    pub id: String,
    pub hash: String,
}

/// A record's ranking columns are never stale: they always equal the
/// ranking of the record's own tallies.
pub open spec fn rec_wf(r: ImageRecord) -> bool {
    &&& r.sorting as int == sorting_micro(r.upvotes as int, r.downvotes as int)
    &&& r.confidence as int == confidence_micro(r.upvotes as int, r.downvotes as int)
}

/// A record still in rotation: its sort key has not fallen below -3.
pub open spec fn eligible(r: ImageRecord) -> bool {
    r.sorting as int >= -3 * (SCALE as int)
}

/// The capacity bound on the table, so that pool counting fits the
/// sampler's 32-bit arithmetic.
pub const STORE_CAP: usize = 0xFFFF_FFFF;

/// The metadata store.
pub struct Store {
    pub records: Vec<ImageRecord>,
}

/// A freshly created record: zero tallies and the neutral ranking.
pub open spec fn fresh_rec(id: String, filename: String, hash: String) -> ImageRecord {
    ImageRecord {
        id: id,
        filename: filename,
        hash: hash,
        upvotes: 0,
        downvotes: 0,
        sorting: HALF_MICRO,
        confidence: 0,
    }
}

/// A record after one vote: the chosen counter is one higher and the
/// ranking columns are recomputed from the new tallies.
pub open spec fn voted_rec(r: ImageRecord, value: int) -> ImageRecord {
    let u = if value == 1 {
        r.upvotes as int + 1
    } else {
        r.upvotes as int
    };
    let d = if value == -1 {
        r.downvotes as int + 1
    } else {
        r.downvotes as int
    };
    ImageRecord {
        id: r.id,
        filename: r.filename,
        hash: r.hash,
        upvotes: u as u32,
        downvotes: d as u32,
        sorting: sorting_micro(u, d) as i64,
        confidence: confidence_micro(u, d) as i128,
    }
}

impl Store {
    /// Some record carries this id.
    pub open spec fn has_id(self, id: Seq<char>) -> bool {
        exists|i: int|
            0 <= i < self.records@.len() && #[trigger] self.records@[i].id@ == id
    }

    /// Some record carries this content hash.
    pub open spec fn has_hash(self, hash: Seq<char>) -> bool {
        exists|i: int|
            0 <= i < self.records@.len() && #[trigger] self.records@[i].hash@ == hash
    }

    /// Well-formedness: bounded size, no duplicate ids, no duplicate
    /// hashes, and no stale ranking columns.
    pub open spec fn wf(self) -> bool {
        &&& self.records@.len() <= STORE_CAP
        &&& (forall|i: int|
            0 <= i < self.records@.len() ==> rec_wf(#[trigger] self.records@[i]))
        &&& (forall|i: int, j: int|
            0 <= i < self.records@.len() && 0 <= j < self.records@.len() && i != j
                ==> (#[trigger] self.records@[i].id@) != (#[trigger] self.records@[j].id@))
        &&& (forall|i: int, j: int|
            0 <= i < self.records@.len() && 0 <= j < self.records@.len() && i != j
                ==> (#[trigger] self.records@[i].hash@) != (#[trigger] self.records@[j].hash@))
    }

    /// An empty store.
    pub fn new() -> (s: Store)
        ensures
            s.wf(),
            s.records@.len() == 0,
    {
        Store { records: Vec::new() }
    }

    /// How many records the store holds.
    pub fn len(&self) -> (n: usize)
        ensures
            n == self.records@.len(),
    {
        self.records.len()
    }

    /// The position of the record with this id, if any.
    pub fn find_index(&self, id: &String) -> (r: Option<usize>)
        ensures
            match r {
                Some(j) => 0 <= j < self.records@.len() && self.records@[j as int].id@ == id@,
                None => !self.has_id(id@),
            },
    {
        let mut i: usize = 0;
        while i < self.records.len()
            invariant
                i <= self.records@.len(),
                forall|k: int| 0 <= k < i ==> (#[trigger] self.records@[k].id@) != id@,
            decreases self.records@.len() - i,
        {
            if self.records[i].id == *id {
                return Some(i);
            }
            i = i + 1;
        }
        None
    }

    /// The position of the record with this content hash, if any.
    pub fn find_hash(&self, hash: &String) -> (r: Option<usize>)
        ensures
            match r {
                Some(j) => 0 <= j < self.records@.len()
                    && self.records@[j as int].hash@ == hash@,
                None => !self.has_hash(hash@),
            },
    {
        let mut i: usize = 0;
        while i < self.records.len()
            invariant
                i <= self.records@.len(),
                forall|k: int| 0 <= k < i ==> (#[trigger] self.records@[k].hash@) != hash@,
            decreases self.records@.len() - i,
        {
            if self.records[i].hash == *hash {
                return Some(i);
            }
            i = i + 1;
        }
        None
    }

    /// The dedup gate and record creation, with the id injected so that
    /// callers control identity. Identical content (same hash) is reported
    /// as a duplicate and changes nothing; novel content becomes one fresh
    /// record with zero tallies and the neutral ranking. A reused id or a
    /// full table is refused and changes nothing.
    pub fn ingest(&mut self, id: String, filename: String, hash: String) -> (r: Result<
        Admit,
        Error,
    >)
        requires
            old(self).wf(),
        ensures
            final(self).wf(),
            old(self).has_hash(hash@) ==> r == Ok::<Admit, Error>(Admit::Duplicate)
                && *final(self) == *old(self),
            !old(self).has_hash(hash@) && old(self).has_id(id@) ==> r == Err::<Admit, Error>(
                Error::StoreError,
            ) && *final(self) == *old(self),
            !old(self).has_hash(hash@) && !old(self).has_id(id@) && old(self).records@.len()
                >= STORE_CAP ==> r == Err::<Admit, Error>(Error::StoreError)
                && *final(self) == *old(self),
            !old(self).has_hash(hash@) && !old(self).has_id(id@) && old(self).records@.len()
                < STORE_CAP ==> r == Ok::<Admit, Error>(Admit::Inserted)
                && final(self).records@ =~= old(self).records@.push(
                fresh_rec(id, filename, hash),
            ),
            final(self).has_hash(hash@) || r == Err::<Admit, Error>(Error::StoreError),
    {
        if let Some(_) = self.find_hash(&hash) {
            return Ok(Admit::Duplicate);
        }
        if let Some(_) = self.find_index(&id) {
            return Err(Error::StoreError);
        }
        if self.records.len() >= STORE_CAP {
            return Err(Error::StoreError);
        }
        let rec = ImageRecord {
            id,
            filename,
            hash,
            upvotes: 0,
            downvotes: 0,
            sorting: HALF_MICRO,
            confidence: 0,
        };
        proof {
            assert(sorting_micro(0, 0) == HALF_MICRO as int);
            assert(confidence_micro(0, 0) == 0);
        }
        self.records.push(rec);
        proof {
            let s = self.records@;
            let n = s.len() as int - 1;
            assert forall|i: int, j: int|
                0 <= i < s.len() && 0 <= j < s.len() && i != j implies (
            #[trigger] s[i].id@) != (#[trigger] s[j].id@) by {
                if i < n && j < n {
                } else if i == n {
                    assert(!old(self).has_id(s[n].id@));
                } else {
                    assert(!old(self).has_id(s[n].id@));
                }
            }
            assert forall|i: int, j: int|
                0 <= i < s.len() && 0 <= j < s.len() && i != j implies (
            #[trigger] s[i].hash@) != (#[trigger] s[j].hash@) by {
                if i < n && j < n {
                } else if i == n {
                    assert(!old(self).has_hash(s[n].hash@));
                } else {
                    assert(!old(self).has_hash(s[n].hash@));
                }
            }
        }
        Ok(Admit::Inserted)
    }

    /// The vote state machine. A value other than `+1` or `-1` is refused
    /// with `InvalidValue` and mutates nothing; an unknown id fails with
    /// `NotFound` and creates nothing; otherwise the matching counter
    /// grows by one and both ranking columns are recomputed in the same
    /// update. A counter already at its capacity is refused with
    /// `StoreError` and mutates nothing.
    pub fn apply_vote(&mut self, id: &String, value: i8) -> (r: Result<(), Error>)
        requires
            old(self).wf(),
        ensures
            final(self).wf(),
            value != 1 && value != -1 ==> r == Err::<(), Error>(Error::InvalidValue)
                && *final(self) == *old(self),
            (value == 1 || value == -1) && !old(self).has_id(id@) ==> r == Err::<(), Error>(
                Error::NotFound,
            ) && *final(self) == *old(self),
            r == Ok::<(), Error>(()) ==> (value == 1 || value == -1) && exists|j: int|
                0 <= j < old(self).records@.len() && (#[trigger] old(self).records@[j].id@)
                    == id@ && final(self).records@ =~= old(self).records@.update(
                    j,
                    voted_rec(old(self).records@[j], value as int),
                ),
            r == Err::<(), Error>(Error::StoreError) ==> *final(self) == *old(self) && (value
                == 1 || value == -1) && exists|j: int|
                0 <= j < old(self).records@.len() && (#[trigger] old(self).records@[j].id@)
                    == id@ && (value == 1 ==> old(self).records@[j].upvotes
                    == 0xFFFF_FFFFu32) && (value == -1 ==> old(self).records@[j].downvotes
                    == 0xFFFF_FFFFu32),
            (value == 1 || value == -1) && old(self).has_id(id@) ==> r == Ok::<(), Error>(())
                || r == Err::<(), Error>(Error::StoreError),
    {
        if value != 1 && value != -1 {
            return Err(Error::InvalidValue);
        }
        let j = match self.find_index(id) {
            Some(j) => j,
            None => {
                return Err(Error::NotFound);
            },
        };
        let up = self.records[j].upvotes;
        let down = self.records[j].downvotes;
        let (new_up, new_down) = if value == 1 {
            if up == 0xFFFF_FFFFu32 {
                proof {
                    assert(0 <= j < old(self).records@.len() && old(self).records@[
                        j as int
                    ].id@ == id@ && old(self).records@[j as int].upvotes == 0xFFFF_FFFFu32);
                }
                return Err(Error::StoreError);
            }
            (up + 1, down)
        } else {
            if down == 0xFFFF_FFFFu32 {
                proof {
                    assert(0 <= j < old(self).records@.len() && old(self).records@[
                        j as int
                    ].id@ == id@ && old(self).records@[j as int].downvotes
                        == 0xFFFF_FFFFu32);
                }
                return Err(Error::StoreError);
            }
            (up, down + 1)
        };
        let score = rank(new_up, new_down);
        let old_rec = self.records.remove(j);
        let new_rec = ImageRecord {
            id: old_rec.id,
            filename: old_rec.filename,
            hash: old_rec.hash,
            upvotes: new_up,
            downvotes: new_down,
            sorting: score.sorting,
            confidence: score.confidence,
        };
        self.records.insert(j, new_rec);
        proof {
            let s = final(self).records@;
            let o = old(self).records@;
            assert(s =~= o.update(j as int, voted_rec(o[j as int], value as int)));
            assert forall|i: int| 0 <= i < s.len() implies rec_wf(#[trigger] s[i]) by {
                if i != j as int {
                    assert(s[i] == o[i]);
                }
            }
        }
        Ok(())
    }
}

/// How many of the first `upto` records are still in rotation.
pub open spec fn count_eligible_upto(s: Seq<ImageRecord>, upto: int) -> int
    decreases upto,
{
    if upto <= 0 {
        0
    } else {
        count_eligible_upto(s, upto - 1) + if eligible(s[upto - 1]) {
            1int
        } else {
            0int
        }
    }
}

/// The size of the eligible pool.
pub open spec fn count_eligible(s: Seq<ImageRecord>) -> int {
    count_eligible_upto(s, s.len() as int)
}

/// The selection order: ascending evidence, ties broken by position, a
/// strict total order over the records.
pub open spec fn pair_lt(s: Seq<ImageRecord>, i: int, j: int) -> bool {
    s[i].confidence < s[j].confidence || (s[i].confidence == s[j].confidence && i < j)
}

/// How many of the first `upto` records are eligible and come before
/// record `j` in the selection order.
pub open spec fn rank_upto(s: Seq<ImageRecord>, upto: int, j: int) -> int
    decreases upto,
{
    if upto <= 0 {
        0
    } else {
        rank_upto(s, upto - 1, j) + if eligible(s[upto - 1]) && pair_lt(s, upto - 1, j) {
            1int
        } else {
            0int
        }
    }
}

/// The position record `j` takes in the eligible pool ordered by the
/// selection order.
pub open spec fn sel_rank(s: Seq<ImageRecord>, j: int) -> int {
    rank_upto(s, s.len() as int, j)
}

proof fn lemma_count_eligible_zero(s: Seq<ImageRecord>, upto: int)
    requires
        forall|i: int| 0 <= i < upto ==> !eligible(#[trigger] s[i]),
    ensures
        count_eligible_upto(s, upto) == 0,
    decreases upto,
{
    if upto > 0 {
        lemma_count_eligible_zero(s, upto - 1);
    }
}

proof fn lemma_rank_zero(s: Seq<ImageRecord>, upto: int, j: int)
    requires
        forall|i: int| 0 <= i < upto ==> !(eligible(#[trigger] s[i]) && pair_lt(s, i, j)),
    ensures
        rank_upto(s, upto, j) == 0,
    decreases upto,
{
    if upto > 0 {
        lemma_rank_zero(s, upto - 1, j);
    }
}

proof fn lemma_rank_shift(s: Seq<ImageRecord>, upto: int, c: int, f: int)
    requires
        0 <= c < s.len(),
        eligible(s[c]),
        forall|i: int|
            0 <= i < s.len() && eligible(#[trigger] s[i]) ==> (pair_lt(s, i, f) <==> (pair_lt(
                s,
                i,
                c,
            ) || i == c)),
        upto <= s.len(),
    ensures
        rank_upto(s, upto, f) == rank_upto(s, upto, c) + if c < upto {
            1int
        } else {
            0int
        },
    decreases upto,
{
    if upto > 0 {
        lemma_rank_shift(s, upto - 1, c, f);
        assert(eligible(s[upto - 1]) ==> (pair_lt(s, upto - 1, f) <==> (pair_lt(s, upto - 1, c)
            || upto - 1 == c)));
    }
}

proof fn lemma_rank_max(s: Seq<ImageRecord>, upto: int, j: int)
    requires
        0 <= j < s.len(),
        eligible(s[j]),
        forall|i: int|
            0 <= i < s.len() && eligible(#[trigger] s[i]) && i != j ==> pair_lt(s, i, j),
        upto <= s.len(),
    ensures
        rank_upto(s, upto, j) == count_eligible_upto(s, upto) - if j < upto {
            1int
        } else {
            0int
        },
    decreases upto,
{
    if upto > 0 {
        lemma_rank_max(s, upto - 1, j);
    }
}

/// Whether record `i` comes after `prev` in the selection order (or after
/// nothing at all).
pub open spec fn above_prev(s: Seq<ImageRecord>, prev: Option<usize>, i: int) -> bool {
    match prev {
        Option::None => true,
        Option::Some(p) => pair_lt(s, p as int, i),
    }
}

impl Store {
    /// The least record, in the selection order, among the eligible ones
    /// after `prev`.
    fn next_candidate(&self, prev: Option<usize>) -> (r: Option<usize>)
        requires
            match prev {
                Option::Some(p) => 0 <= p < self.records@.len(),
                Option::None => true,
            },
        ensures
            match r {
                Option::Some(c) => {
                    let s = self.records@;
                    &&& 0 <= c < s.len()
                    &&& eligible(s[c as int])
                    &&& above_prev(s, prev, c as int)
                    &&& forall|i: int|
                        0 <= i < s.len() && eligible(#[trigger] s[i]) && above_prev(s, prev, i)
                            && i != c as int ==> pair_lt(s, c as int, i)
                },
                Option::None => forall|i: int|
                    0 <= i < self.records@.len() ==> !(eligible(#[trigger] self.records@[i])
                        && above_prev(self.records@, prev, i)),
            },
    {
        let mut best: Option<usize> = None;
        let mut i: usize = 0;
        while i < self.records.len()
            invariant
                i <= self.records@.len(),
                match prev {
                    Option::Some(p) => 0 <= p < self.records@.len(),
                    Option::None => true,
                },
                match best {
                    Option::Some(b) => {
                        let s = self.records@;
                        &&& 0 <= b < i
                        &&& eligible(s[b as int])
                        &&& above_prev(s, prev, b as int)
                        &&& forall|k: int|
                            0 <= k < i && eligible(#[trigger] s[k]) && above_prev(s, prev, k)
                                && k != b as int ==> pair_lt(s, b as int, k)
                    },
                    Option::None => forall|k: int|
                        0 <= k < i ==> !(eligible(#[trigger] self.records@[k]) && above_prev(
                            self.records@,
                            prev,
                            k,
                        )),
                },
            decreases self.records@.len() - i,
        {
            let ok_eligible = self.records[i].sorting >= -3 * SCALE;
            let ok_above = match prev {
                Option::Some(p) => {
                    let pc = self.records[p].confidence;
                    let ic = self.records[i].confidence;
                    pc < ic || (pc == ic && p < i)
                },
                Option::None => true,
            };
            if ok_eligible && ok_above {
                match best {
                    Option::Some(b) => {
                        let bc = self.records[b].confidence;
                        let ic = self.records[i].confidence;
                        if ic < bc || (ic == bc && i < b) {
                            best = Some(i);
                        }
                    },
                    Option::None => {
                        best = Some(i);
                    },
                }
            }
            i = i + 1;
        }
        best
    }

    /// How many records are still in rotation.
    pub fn count_pool(&self) -> (n: u32)
        requires
            self.wf(),
        ensures
            n as int == count_eligible(self.records@),
    {
        let mut n: u32 = 0;
        let mut i: usize = 0;
        while i < self.records.len()
            invariant
                i <= self.records@.len(),
                self.records@.len() <= STORE_CAP,
                n as int == count_eligible_upto(self.records@, i as int),
                n as int <= i as int,
            decreases self.records@.len() - i,
        {
            if self.records[i].sorting >= -3 * SCALE {
                n = n + 1;
            }
            i = i + 1;
        }
        n
    }

    /// The read path: picks the next image to present. The eligible pool
    /// is ordered ascending by evidence; a biased offset is drawn from
    /// `unif` and the record at that position is returned. Only an empty
    /// pool gives nothing.
    pub fn get_next(&self, unif: u16) -> (r: Option<ImageEntry>)
        requires
            self.wf(),
        ensures
            ({
                let s = self.records@;
                let n = count_eligible(s);
                let off = offset_spec(n, unif as int);
                match r {
                    Option::None => n == 0,
                    Option::Some(e) => exists|j: int|
                        0 <= j < s.len() && eligible(#[trigger] s[j]) && s[j].id@ == e.id@
                            && s[j].hash@ == e.hash@ && sel_rank(s, j) == off,
                }
            }),
            r.is_none() <==> count_eligible(self.records@) == 0,
    {
        let ghost s = self.records@;
        let n: u32 = self.count_pool();
        let off: u32 = biased_offset(n, unif);
        if n == 0 {
            return None;
        }
        let mut cur: usize = match self.next_candidate(None) {
            Some(c) => c,
            None => {
                proof {
                    lemma_count_eligible_zero(s, s.len() as int);
                }
                return None;
            },
        };
        proof {
            assert forall|i: int| 0 <= i < s.len() implies !(eligible(#[trigger] s[i])
                && pair_lt(s, i, cur as int)) by {
                if eligible(s[i]) && i != cur as int {
                    assert(pair_lt(s, cur as int, i));
                }
            }
            lemma_rank_zero(s, s.len() as int, cur as int);
        }
        let mut k: u32 = 0;
        while k < off
            invariant
                self.wf(),
                s == self.records@,
                0 <= (cur as int) < s.len(),
                eligible(s[cur as int]),
                sel_rank(s, cur as int) == k as int,
                k <= off,
                (off as int) < count_eligible(s),
            decreases off - k,
        {
            match self.next_candidate(Some(cur)) {
                Some(nx) => {
                    proof {
                        let c = cur as int;
                        let f = nx as int;
                        assert forall|i: int|
                            0 <= i < s.len() && eligible(#[trigger] s[i]) implies (pair_lt(
                            s,
                            i,
                            f,
                        ) <==> (pair_lt(s, i, c) || i == c)) by {
                            if pair_lt(s, i, c) {
                                assert(pair_lt(s, c, f));
                            }
                            if pair_lt(s, i, f) && i != c && !pair_lt(s, i, c) {
                                assert(pair_lt(s, c, i));
                                if i != f {
                                    assert(pair_lt(s, f, i));
                                }
                            }
                        }
                        lemma_rank_shift(s, s.len() as int, c, f);
                    }
                    cur = nx;
                    k = k + 1;
                },
                None => {
                    proof {
                        let c = cur as int;
                        assert forall|i: int|
                            0 <= i < s.len() && eligible(#[trigger] s[i]) && i != c implies
                            pair_lt(s, i, c) by {
                            assert(!(eligible(s[i]) && above_prev(s, Some(cur), i)));
                        }
                        lemma_rank_max(s, s.len() as int, c);
                        assert(false);
                    }
                    return None;
                },
            }
        }
        Some(
            ImageEntry {
                id: self.records[cur].id.clone(),
                hash: self.records[cur].hash.clone(),
            },
        )
    }
}

/// How many records carry this content hash.
pub open spec fn count_hash(s: Seq<ImageRecord>, hash: Seq<char>) -> int
    decreases s.len(),
{
    if s.len() == 0 {
        0
    } else {
        count_hash(s.drop_last(), hash) + if s.last().hash@ == hash {
            1int
        } else {
            0int
        }
    }
}

proof fn lemma_count_hash_zero(s: Seq<ImageRecord>, hash: Seq<char>)
    requires
        forall|i: int| 0 <= i < s.len() ==> (#[trigger] s[i].hash@) != hash,
    ensures
        count_hash(s, hash) == 0,
    decreases s.len(),
{
    if s.len() > 0 {
        lemma_count_hash_zero(s.drop_last(), hash);
    }
}

/// Law: content-addressed ingestion is idempotent and deduplicating.
/// Once a novel hash has been inserted the store carries it, and carries
/// it exactly once; by [`Store::ingest`]'s contract every further
/// ingestion of the same hash - whatever its filename or id - reports a
/// duplicate and changes nothing.
pub proof fn lemma_ingest_idempotent(
    pre: Store,
    post: Store,
    id: String,
    filename: String,
    hash: String,
)
    requires
        !pre.has_hash(hash@),
        post.records@ == pre.records@.push(fresh_rec(id, filename, hash)),
    ensures
        post.has_hash(hash@),
        count_hash(post.records@, hash@) == 1,
{
    let n = pre.records@.len() as int;
    assert(post.records@[n].hash@ == hash@);
    assert(post.records@.drop_last() =~= pre.records@);
    assert forall|i: int| 0 <= i < pre.records@.len() implies (
    #[trigger] pre.records@[i].hash@) != hash@ by {
        if pre.records@[i].hash@ == hash@ {
            assert(pre.has_hash(hash@));
        }
    }
    lemma_count_hash_zero(pre.records@, hash@);
}

/// Law: one upvote on a fresh record yields the tallies `(1, 0)` and
/// ranking columns that equal the ranking of those tallies.
pub proof fn lemma_vote_transition_fresh(r: ImageRecord)
    requires
        r.upvotes == 0,
        r.downvotes == 0,
    ensures
        voted_rec(r, 1).upvotes == 1,
        voted_rec(r, 1).downvotes == 0,
        voted_rec(r, 1).sorting as int == sorting_micro(1, 0),
        voted_rec(r, 1).confidence as int == confidence_micro(1, 0),
{
    lemma_wilson_nonneg(1, 0);
    lemma_wilson_upper(1, 0);
    assert(0 <= sorting_micro(1, 0) <= (SCALE as int) + (Z2_MICRO as int));
    let diff = (HALF_MICRO as int) - sorting_micro(1, 0);
    let a = if diff < 0 {
        -diff
    } else {
        diff
    };
    assert(0 <= a <= (SCALE as int) + (Z2_MICRO as int));
    lemma_div_pos_is_pos(a * 1, 10);
    lemma_div_nonincreasing(a * 1, 10);
    assert(confidence_micro(1, 0) == (a * 1) / 10);
}

impl Store {
    /// [`Store::ingest`] with a freshly minted id. A known hash reports a
    /// duplicate and changes nothing; a novel hash becomes one fresh
    /// record, unless the minted id happens to collide or the table is
    /// full, which is refused without change.
    pub fn ingest_auto(&mut self, filename: String, hash: String) -> (r: Result<Admit, Error>)
        requires
            old(self).wf(),
        ensures
            final(self).wf(),
            old(self).has_hash(hash@) ==> r == Ok::<Admit, Error>(Admit::Duplicate)
                && *final(self) == *old(self),
            !old(self).has_hash(hash@) ==> (r == Ok::<Admit, Error>(Admit::Inserted)
                && exists|id: String|
                (#[trigger] id@).len() == 26 && !old(self).has_id(id@)
                    && final(self).records@ =~= old(self).records@.push(
                    fresh_rec(id, filename, hash),
                )) || (r == Err::<Admit, Error>(Error::StoreError) && *final(self) == *old(
                self,
            )),
    {
        let id = crate::ids::new_image_id();
        let ghost idg = id;
        let res = self.ingest(id, filename, hash);
        proof {
            if !old(self).has_hash(hash@) && !old(self).has_id(idg@) && old(
                self,
            ).records@.len() < STORE_CAP {
                assert(idg@.len() == 26 && !old(self).has_id(idg@) && final(self).records@
                    =~= old(self).records@.push(fresh_rec(idg, filename, hash)));
            }
        }
        res
    }

    /// The read path with the draw taken from the process's generator.
    /// Whatever the draw, an empty pool yields nothing, a nonempty pool
    /// always yields a record, and any record handed out is an eligible
    /// one from the table.
    pub fn get_next_random(&self) -> (r: Option<ImageEntry>)
        requires
            self.wf(),
        ensures
            count_eligible(self.records@) == 0 ==> r.is_none(),
            count_eligible(self.records@) > 0 ==> r.is_some(),
            match r {
                Option::Some(e) => exists|j: int|
                    0 <= j < self.records@.len() && eligible(#[trigger] self.records@[j])
                        && self.records@[j].id@ == e.id@ && self.records@[j].hash@ == e.hash@,
                Option::None => true,
            },
    {
        let unif = crate::sampler::draw_unif();
        self.get_next(unif)
    }
}

/// The dedup gate of the raw store: bytes whose canonical path already
/// exists are a duplicate, and nothing is written; novel bytes are
/// admitted. The caller performs the existence check and the write; this
/// is the decision both follow.
pub fn dedup_gate(raw_exists: bool) -> (a: Admit)
    ensures
        a == if raw_exists {
            Admit::Duplicate
        } else {
            Admit::Inserted
        },
{
    if raw_exists {
        Admit::Duplicate
    } else {
        Admit::Inserted
    }
}

} // verus!
