//! Vector memory: an embedding store with temporal validity and FIFO
//! eviction.
//!
//! The store holds at most `MAX_MEMORY_ENTRIES` entries; storing one more
//! evicts from the front. Embedding vectors are held as the bit patterns
//! of their 32-bit float components, so the store itself is exact; the
//! host computes similarities and hands the ranking keys in, one signed
//! key per entry, ordered as the similarities are (the standard monotone
//! bit mapping of floats does this). Selection sorts by key descending,
//! stable by entry index, applies the temporal filter, and truncates.

use crate::tags;
use vstd::prelude::*;

verus! {

/// The FIFO capacity of the store.
pub const MAX_MEMORY_ENTRIES: usize = 10000;

/// Errors of the vector memory.
#[derive(Debug)]
pub enum VectorMemoryError {
    EmbedderNotConfigured,
    HttpError(String),
    JsonError(String),
    IoError(String),
    InvalidTag(String),
    EmbeddingApiError(String),
}

impl VectorMemoryError {
    /// A human-readable rendering of the error.
    pub fn message(&self) -> (r: String)
        ensures
            (self is EmbedderNotConfigured ==> r@ == "Embedder not configured"@),
            (self is HttpError ==> r@ == "HTTP request failed: "@ + self->HttpError_0@),
            (self is JsonError ==> r@ == "JSON parsing error: "@ + self->JsonError_0@),
            (self is IoError ==> r@ == "IO error: "@ + self->IoError_0@),
            (self is InvalidTag ==> r@ == "Invalid tag: "@ + self->InvalidTag_0@),
            (self is EmbeddingApiError ==> r@ == "Embedding API error: "@
                + self->EmbeddingApiError_0@),
    {
        match self {
            VectorMemoryError::EmbedderNotConfigured => String::from_str(
                "Embedder not configured",
            ),
            VectorMemoryError::HttpError(what) => String::from_str("HTTP request failed: ").concat(
                what.as_str(),
            ),
            VectorMemoryError::JsonError(what) => String::from_str("JSON parsing error: ").concat(
                what.as_str(),
            ),
            VectorMemoryError::IoError(what) => String::from_str("IO error: ").concat(
                what.as_str(),
            ),
            VectorMemoryError::InvalidTag(what) => String::from_str("Invalid tag: ").concat(
                what.as_str(),
            ),
            VectorMemoryError::EmbeddingApiError(what) => String::from_str(
                "Embedding API error: ",
            ).concat(what.as_str()),
        }
    }
}

/// One stored memory. The vector holds the bit patterns of the embedding
/// components; timestamps and the validity window are milliseconds since
/// the Unix epoch, with zero meaning "unbounded".
pub struct MemoryEntry {
    pub text: String,
    pub vector: Vec<u32>,
    pub tags: String,
    pub timestamp_ms: u64,
    pub source: String,
    pub temporal_type: String,
    pub valid_from_ms: u64,
    pub valid_to_ms: u64,
    pub entity_type: String,
    pub entity_id: String,
}

/// The in-memory store.
pub struct VectorMemory {
    pub entries: Vec<MemoryEntry>,
}

/// Well-formedness: the cap holds and every entry has the dimension fixed
/// by the first one.
pub open spec fn store_wf(v: VectorMemory) -> bool {
    &&& v.entries@.len() <= MAX_MEMORY_ENTRIES
    &&& forall|i: int|
        0 <= i < v.entries@.len() ==> #[trigger] v.entries@[i].vector@.len()
            == v.entries@[0].vector@.len()
}

/// Does the temporal filter retain the entry at time `now`? `current`
/// keeps entries whose window covers `now`, a zero bound meaning
/// unbounded; `historical` keeps entries whose window closed before
/// `now`; any other filter keeps everything.
pub open spec fn temporal_retains(e: MemoryEntry, filt: Seq<char>, now: u64) -> bool {
    if filt == "current"@ {
        (e.valid_from_ms == 0 || e.valid_from_ms <= now) && (e.valid_to_ms == 0 || e.valid_to_ms
            >= now)
    } else if filt == "historical"@ {
        e.valid_to_ms > 0 && e.valid_to_ms < now
    } else {
        true
    }
}

/// Both bounds zero mean "always valid": the `current` filter retains
/// such an entry at every time.
pub proof fn lemma_current_keeps_unbounded(e: MemoryEntry, now: u64)
    requires
        e.valid_from_ms == 0,
        e.valid_to_ms == 0,
    ensures
        temporal_retains(e, "current"@, now),
{
}

/// Ranking order: key descending, entry index ascending on equal keys.
pub open spec fn ranked_before(keys: Seq<i64>, a: int, b: int) -> bool {
    keys[a] > keys[b] || (keys[a] == keys[b] && a < b)
}

/// The entry at `idx` is a candidate: retained by the filter and not yet
/// selected.
pub open spec fn candidate(
    v: VectorMemory,
    filt: Seq<char>,
    now: u64,
    out: Seq<usize>,
    idx: int,
) -> bool {
    &&& 0 <= idx < v.entries@.len()
    &&& temporal_retains(v.entries@[idx], filt, now)
    &&& forall|k: int| 0 <= k < out.len() ==> #[trigger] out[k] != idx
}

impl VectorMemory {
    /// An empty store.
    pub fn new() -> (v: VectorMemory)
        ensures
            store_wf(v),
            v.entries@.len() == 0,
    {
        VectorMemory { entries: Vec::new() }
    }

    /// From entries already loaded (from the persistence file).
    pub fn from_entries(entries: Vec<MemoryEntry>) -> (r: Result<VectorMemory, VectorMemoryError>)
        ensures
            r is Ok <==> (entries@.len() <= MAX_MEMORY_ENTRIES && (forall|i: int|
                0 <= i < entries@.len() ==> #[trigger] entries@[i].vector@.len()
                    == entries@[0].vector@.len())),
            r is Ok ==> store_wf(r->Ok_0) && r->Ok_0.entries@ == entries@,
            r is Err ==> r->Err_0 is EmbeddingApiError,
    {
        if entries.len() > MAX_MEMORY_ENTRIES {
            return Err(
                VectorMemoryError::EmbeddingApiError(
                    String::from_str("too many entries for the store"),
                ),
            );
        }
        let mut i: usize = 0;
        while i < entries.len()
            invariant
                0 <= i <= entries@.len(),
                forall|k: int|
                    0 <= k < i ==> #[trigger] entries@[k].vector@.len()
                        == entries@[0].vector@.len(),
            decreases entries@.len() - i,
        {
            if entries[i].vector.len() != entries[0].vector.len() {
                proof {
                    assert(entries@[i as int].vector@.len() != entries@[0].vector@.len());
                }
                return Err(
                    VectorMemoryError::EmbeddingApiError(
                        String::from_str("entries disagree on the embedding dimension"),
                    ),
                );
            }
            i = i + 1;
        }
        Ok(VectorMemory { entries })
    }

    pub fn count(&self) -> (r: usize)
        ensures
            r == self.entries@.len(),
    {
        self.entries.len()
    }

    /// Drop every entry.
    pub fn clear(&mut self)
        ensures
            store_wf(*final(self)),
            final(self).entries@.len() == 0,
    {
        self.entries.clear();
    }

    /// Store one memory whose embedding the host already computed. The
    /// tag string must validate; the vector must have the dimension the
    /// store is committed to. When the store is full the oldest entries
    /// leave the front, so the cap holds afterwards. Returns the index of
    /// the new entry.
    pub fn store(&mut self, entry: MemoryEntry) -> (r: Result<usize, VectorMemoryError>)
        requires
            store_wf(*old(self)),
        ensures
            store_wf(*final(self)),
            r is Err ==> final(self).entries@ == old(self).entries@,
            r is Err ==> (r->Err_0 is InvalidTag || r->Err_0 is EmbeddingApiError),
            (r is Err && r->Err_0 is InvalidTag) <==> !tags::tags_valid(
                vstd::utf8::encode_utf8(entry.tags@),
            ),
            (r is Err && r->Err_0 is EmbeddingApiError) <==> (tags::tags_valid(
                vstd::utf8::encode_utf8(entry.tags@),
            ) && old(self).entries@.len() > 0 && entry.vector@.len() != old(
                self,
            ).entries@[0].vector@.len()),
            r is Ok ==> ({
                let dropped = if old(self).entries@.len() >= MAX_MEMORY_ENTRIES {
                    old(self).entries@.len() - (MAX_MEMORY_ENTRIES - 1)
                } else {
                    0
                };
                &&& final(self).entries@ =~= old(self).entries@.skip(dropped).push(entry)
                &&& final(self).entries@.len() <= MAX_MEMORY_ENTRIES
                &&& r->Ok_0 == final(self).entries@.len() - 1
                &&& final(self).entries@.last() == entry
            }),
    {
        let ts = entry.tags.as_str();
        let tb = ts.as_bytes();
        if !tags::validate_tags(tb) {
            return Err(VectorMemoryError::InvalidTag(entry.tags.clone()));
        }
        if self.entries.len() > 0 && entry.vector.len() != self.entries[0].vector.len() {
            return Err(
                VectorMemoryError::EmbeddingApiError(
                    String::from_str("embedding dimension does not match the store"),
                ),
            );
        }
        let ghost e0 = self.entries@;
        let mut dropped: usize = 0;
        while self.entries.len() >= MAX_MEMORY_ENTRIES
            invariant
                self.entries@ == e0.skip(dropped as int),
                0 <= dropped <= e0.len(),
                e0.len() >= MAX_MEMORY_ENTRIES ==> dropped <= e0.len() - (MAX_MEMORY_ENTRIES - 1),
                e0.len() < MAX_MEMORY_ENTRIES ==> dropped == 0,
            decreases self.entries@.len(),
        {
            let _gone = self.entries.remove(0);
            dropped = dropped + 1;
            proof {
                assert(self.entries@ =~= e0.skip(dropped as int));
            }
        }
        let ghost was_empty = self.entries@.len() == 0;
        self.entries.push(entry);
        proof {
            assert(self.entries@ =~= e0.skip(dropped as int).push(entry));
            if e0.len() >= MAX_MEMORY_ENTRIES {
                assert(dropped == e0.len() - (MAX_MEMORY_ENTRIES - 1));
            } else {
                assert(dropped == 0);
            }
            assert forall|i: int|
                0 <= i < self.entries@.len() implies #[trigger] self.entries@[i].vector@.len()
                == self.entries@[0].vector@.len() by {
                if !was_empty {
                    assert(self.entries@[0] == e0[dropped as int]);
                    assert(e0[dropped as int].vector@.len() == e0[0].vector@.len());
                    if i < self.entries@.len() - 1 {
                        assert(self.entries@[i] == e0[dropped + i]);
                        assert(e0[dropped + i].vector@.len() == e0[0].vector@.len());
                    }
                }
            }
        }
        Ok(self.entries.len() - 1)
    }

    /// Select up to `top_k` entry indices, ranked by key descending and
    /// stable by index, keeping only entries the temporal filter retains
    /// at time `now`. `keys` holds one ranking key per entry, ordered as
    /// the similarities are.
    pub fn search_select(
        &self,
        keys: &Vec<i64>,
        filter: &String,
        now: u64,
        top_k: usize,
    ) -> (r: Vec<usize>)
        requires
            keys@.len() == self.entries@.len(),
        ensures
            r@.len() <= top_k,
            // selected entries are valid, distinct and retained, in rank order
            forall|a: int|
                0 <= a < r@.len() ==> #[trigger] r@[a] < self.entries@.len() && temporal_retains(
                    self.entries@[r@[a] as int],
                    filter@,
                    now,
                ),
            forall|a: int, b: int|
                0 <= a < b < r@.len() ==> ranked_before(keys@, #[trigger] r@[a] as int, #[trigger] r@[b] as int),
            // nothing retained is overlooked: either the list is full, or
            // every retained entry is in it
            r@.len() < top_k ==> (forall|idx: int|
                (0 <= idx < self.entries@.len() && temporal_retains(
                    #[trigger] self.entries@[idx],
                    filter@,
                    now,
                )) ==> exists|a: int| 0 <= a < r@.len() && #[trigger] r@[a] == idx),
            // and whatever was left out ranks after everything selected
            forall|a: int, idx: int|
                (0 <= a < r@.len() && 0 <= idx < self.entries@.len() && temporal_retains(
                    #[trigger] self.entries@[idx],
                    filter@,
                    now,
                ) && (forall|b: int| 0 <= b < r@.len() ==> #[trigger] r@[b] != idx))
                    ==> ranked_before(keys@, #[trigger] r@[a] as int, idx),
    {
        let current = String::from_str("current");
        let historical = String::from_str("historical");
        let mut r: Vec<usize> = Vec::new();
        let mut done = false;
        while !done && r.len() < top_k
            invariant
                keys@.len() == self.entries@.len(),
                current@ == "current"@,
                historical@ == "historical"@,
                r@.len() <= top_k,
                forall|a: int|
                    0 <= a < r@.len() ==> #[trigger] r@[a] < self.entries@.len()
                        && temporal_retains(self.entries@[r@[a] as int], filter@, now),
                forall|a: int, b: int|
                    0 <= a < b < r@.len() ==> ranked_before(
                        keys@,
                        #[trigger] r@[a] as int,
                        #[trigger] r@[b] as int,
                    ),
                forall|a: int, idx: int|
                    #![trigger r@[a], candidate(*self, filter@, now, r@, idx)]
                    (0 <= a < r@.len() && candidate(*self, filter@, now, r@, idx))
                        ==> ranked_before(keys@, r@[a] as int, idx),
                done ==> (forall|idx: int| !candidate(*self, filter@, now, r@, idx)),
            decreases top_k - r@.len(), (if done {
                0int
            } else {
                1int
            }),
        {
            // find the best remaining candidate
            let mut best: Option<usize> = None;
            let mut i: usize = 0;
            while i < self.entries.len()
                invariant
                    keys@.len() == self.entries@.len(),
                    current@ == "current"@,
                    historical@ == "historical"@,
                    0 <= i <= self.entries@.len(),
                    match best {
                        Some(b) => (b as int) < i && candidate(*self, filter@, now, r@, b as int)
                            && (forall|idx: int|
                            (idx < i && candidate(*self, filter@, now, r@, idx) && idx != b as int)
                                ==> ranked_before(keys@, b as int, idx)),
                        None => (forall|idx: int|
                            idx < i ==> !candidate(*self, filter@, now, r@, idx)),
                    },
                decreases self.entries@.len() - i,
            {
                let e = &self.entries[i];
                let retained = if *filter == current {
                    (e.valid_from_ms == 0 || e.valid_from_ms <= now) && (e.valid_to_ms == 0
                        || e.valid_to_ms >= now)
                } else if *filter == historical {
                    e.valid_to_ms > 0 && e.valid_to_ms < now
                } else {
                    true
                };
                let mut in_out = false;
                let mut k: usize = 0;
                while k < r.len()
                    invariant
                        0 <= k <= r@.len(),
                        in_out == exists|k2: int| 0 <= k2 < k && #[trigger] r@[k2] == i,
                    decreases r@.len() - k,
                {
                    if r[k] == i {
                        in_out = true;
                    }
                    k = k + 1;
                }
                if retained && !in_out {
                    proof {
                        assert(candidate(*self, filter@, now, r@, i as int));
                    }
                    match best {
                        None => {
                            best = Some(i);
                        },
                        Some(b) => {
                            if keys[i] > keys[b] {
                                best = Some(i);
                                proof {
                                    assert forall|idx: int|
                                        (idx < i + 1 && candidate(*self, filter@, now, r@, idx)
                                            && idx != i as int) implies ranked_before(
                                        keys@,
                                        i as int,
                                        idx,
                                    ) by {
                                        if idx != b as int {
                                            assert(ranked_before(keys@, b as int, idx));
                                        }
                                    }
                                }
                            } else {
                                proof {
                                    assert(ranked_before(keys@, b as int, i as int));
                                    assert forall|idx: int|
                                        (idx < i + 1 && candidate(*self, filter@, now, r@, idx)
                                            && idx != b as int) implies ranked_before(
                                        keys@,
                                        b as int,
                                        idx,
                                    ) by {
                                        if idx < i as int {
                                            assert(ranked_before(keys@, b as int, idx));
                                        }
                                    }
                                }
                            }
                        },
                    }
                } else {
                    proof {
                        if !retained {
                            assert(!temporal_retains(self.entries@[i as int], filter@, now));
                        } else {
                            let kw = choose|k2: int| 0 <= k2 < r@.len() && #[trigger] r@[k2] == i;
                            assert(!candidate(*self, filter@, now, r@, i as int));
                        }
                    }
                }
                i = i + 1;
            }
            match best {
                None => {
                    proof {
                        assert forall|idx: int| !candidate(*self, filter@, now, r@, idx) by {
                            if 0 <= idx < self.entries@.len() {
                                assert(!candidate(*self, filter@, now, r@, idx));
                            }
                        }
                    }
                    done = true;
                },
                Some(b) => {
                    let ghost r0 = r@;
                    r.push(b);
                    proof {
                        assert(r@.drop_last() =~= r0);
                        assert forall|a: int, b2: int|
                            0 <= a < b2 < r@.len() implies ranked_before(
                            keys@,
                            #[trigger] r@[a] as int,
                            #[trigger] r@[b2] as int,
                        ) by {
                            if b2 < r@.len() - 1 {
                                assert(r@[a] == r0[a] && r@[b2] == r0[b2]);
                            } else {
                                assert(r@[b2] == b);
                                assert(r@[a] == r0[a]);
                                assert(candidate(*self, filter@, now, r0, b as int));
                            }
                        }
                        assert forall|a: int, idx: int|
                            #![trigger r@[a], candidate(*self, filter@, now, r@, idx)]
                            (0 <= a < r@.len() && candidate(*self, filter@, now, r@, idx)) implies
                        ranked_before(keys@, r@[a] as int, idx) by {
                            assert(candidate(*self, filter@, now, r0, idx));
                            if a < r@.len() - 1 {
                                assert(r@[a] == r0[a]);
                            } else {
                                assert(r@[a] == b);
                                assert(idx != b as int);
                            }
                        }
                    }
                },
            }
        }
        proof {
            if r@.len() < top_k {
                assert(done);
                assert forall|idx: int|
                    (0 <= idx < self.entries@.len() && temporal_retains(
                        #[trigger] self.entries@[idx],
                        filter@,
                        now,
                    )) implies exists|a: int| 0 <= a < r@.len() && #[trigger] r@[a] == idx by {
                    if forall|a: int| 0 <= a < r@.len() ==> #[trigger] r@[a] != idx {
                        assert(candidate(*self, filter@, now, r@, idx));
                        assert(false);
                    } else {
                        let aw = choose|a: int| !(0 <= a < r@.len() ==> #[trigger] r@[a] != idx);
                        assert(0 <= aw < r@.len() && r@[aw] == idx);
                    }
                }
            }
            assert forall|a: int, idx: int|
                (0 <= a < r@.len() && 0 <= idx < self.entries@.len() && temporal_retains(
                    #[trigger] self.entries@[idx],
                    filter@,
                    now,
                ) && (forall|b: int| 0 <= b < r@.len() ==> #[trigger] r@[b] != idx)) implies
            ranked_before(keys@, #[trigger] r@[a] as int, idx) by {
                assert(candidate(*self, filter@, now, r@, idx));
            }
        }
        r
    }
}

} // verus!
