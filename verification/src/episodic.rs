//! Episodic memory: importance-decayed recall with threshold eviction.
//!
//! Importance is a fixed-point number in millionths, so decay is exact
//! integer arithmetic: one unit is `IMPORTANCE_UNIT`. Search matches a
//! query as a case-insensitive substring of the content, as the embedded
//! store's `LIKE '%q%'` does for ASCII, excludes superseded entries, and
//! returns the most important matches first, older entries first on ties.

use crate::host;
use crate::scan;
use vstd::prelude::*;

verus! {

/// One unit of importance (the default for a new entry).
pub const IMPORTANCE_UNIT: u64 = 1000000;

/// The default decay rate: five percent, in millionths.
pub const DEFAULT_DECAY_MICROS: u64 = 50000;

/// The default eviction threshold: a tenth of a unit.
pub const MIN_IMPORTANCE_MICROS: u64 = 100000;

/// The default minimum age for eviction, in days.
pub const DEFAULT_MIN_AGE_DAYS: u64 = 30;

/// Milliseconds in a day.
pub const DAY_MS: u64 = 86400000;

/// Errors of the episodic memory.
#[derive(Debug)]
pub enum EpisodicMemoryError {
    DatabaseError(String),
    JsonError(String),
    NotFound(String),
}

impl EpisodicMemoryError {
    /// A human-readable rendering of the error.
    pub fn message(&self) -> (r: String)
        ensures
            (self is DatabaseError ==> r@ == "Database error: "@ + self->DatabaseError_0@),
            (self is JsonError ==> r@ == "JSON error: "@ + self->JsonError_0@),
            (self is NotFound ==> r@ == "Not found: "@ + self->NotFound_0@),
    {
        match self {
            EpisodicMemoryError::DatabaseError(what) => String::from_str(
                "Database error: ",
            ).concat(what.as_str()),
            EpisodicMemoryError::JsonError(what) => String::from_str("JSON error: ").concat(
                what.as_str(),
            ),
            EpisodicMemoryError::NotFound(what) => String::from_str("Not found: ").concat(
                what.as_str(),
            ),
        }
    }
}

/// One episodic record.
pub struct EpisodicEntry {
    pub id: String,
    pub content: String,
    pub memory_type: String,
    pub domain: Option<String>,
    pub importance_micros: u64,
    pub access_count: u64,
    pub created_at_ms: u64,
    pub created_at: String,
    pub superseded_by: Option<String>,
}

/// The in-memory model of the episodic store.
pub struct EpisodicMemory {
    pub entries: Vec<EpisodicEntry>,
}

/// The query occurs, case-insensitively over ASCII, inside the content,
/// and the entry is not superseded.
pub open spec fn search_matches(e: EpisodicEntry, query: Seq<char>) -> bool {
    &&& scan::contains_sub(
        scan::lower(vstd::utf8::encode_utf8(e.content@)),
        scan::lower(vstd::utf8::encode_utf8(query)),
    )
    &&& e.superseded_by is None
}

/// Recall order: importance descending, insertion order ascending on ties.
pub open spec fn recalled_before(es: Seq<EpisodicEntry>, a: int, b: int) -> bool {
    es[a].importance_micros > es[b].importance_micros || (es[a].importance_micros
        == es[b].importance_micros && a < b)
}

/// `e` is one of the entries, and it matches the query.
pub open spec fn is_match_of(es: Seq<EpisodicEntry>, query: Seq<char>, e: EpisodicEntry) -> bool {
    exists|idx: int|
        0 <= idx < es.len() && e == #[trigger] es[idx] && search_matches(es[idx], query)
}

/// What a recall returns, witnessed by the selected indices `picked`:
/// every pick matches and is returned verbatim in rank order (importance
/// descending, older first on ties); when fewer than `top_k` come back,
/// every match was picked; and every match left out ranks after
/// everything picked.
pub open spec fn search_post(
    es: Seq<EpisodicEntry>,
    query: Seq<char>,
    top_k: int,
    picked: Seq<usize>,
    out: Seq<EpisodicEntry>,
) -> bool {
    &&& out.len() == picked.len()
    &&& picked.len() <= top_k
    &&& (forall|a: int|
        0 <= a < picked.len() ==> #[trigger] picked[a] < es.len() && search_matches(
            es[picked[a] as int],
            query,
        ))
    &&& (forall|a: int| 0 <= a < out.len() ==> #[trigger] out[a] == es[picked[a] as int])
    &&& (forall|a: int, b: int|
        0 <= a < b < picked.len() ==> recalled_before(
            es,
            #[trigger] picked[a] as int,
            #[trigger] picked[b] as int,
        ))
    &&& (picked.len() < top_k ==> (forall|idx: int|
        (0 <= idx < es.len() && search_matches(#[trigger] es[idx], query)) ==> (exists|a: int|
            0 <= a < picked.len() && #[trigger] picked[a] == idx)))
    &&& (forall|a: int, idx: int|
        #![trigger picked[a], es[idx]]
        (0 <= a < picked.len() && 0 <= idx < es.len() && search_matches(es[idx], query) && (
        forall|b: int| 0 <= b < picked.len() ==> #[trigger] picked[b] != idx)) ==> recalled_before(
            es,
            picked[a] as int,
            idx,
        ))
}

/// The entry at `idx` matches and is not yet selected.
pub open spec fn recall_candidate(
    es: Seq<EpisodicEntry>,
    query: Seq<char>,
    out: Seq<usize>,
    idx: int,
) -> bool {
    &&& 0 <= idx < es.len()
    &&& search_matches(es[idx], query)
    &&& forall|k: int| 0 <= k < out.len() ==> #[trigger] out[k] != idx
}

/// An entry decayed by `rate` millionths: multiply by what remains of a
/// unit and round down.
pub open spec fn decayed(importance: u64, rate: u64) -> int {
    (importance * (IMPORTANCE_UNIT - rate)) / (IMPORTANCE_UNIT as int)
}

/// The decay rate actually applied, given the optional argument.
pub open spec fn keep_rate(decay_micros: Option<u64>) -> u64 {
    match decay_micros {
        Some(d) => d,
        None => DEFAULT_DECAY_MICROS,
    }
}

/// The eviction rule: importance under the threshold, created before the
/// cutoff, and not superseded.
pub open spec fn evictable(e: EpisodicEntry, min_importance: u64, cutoff_ms: u64) -> bool {
    e.importance_micros < min_importance && e.created_at_ms < cutoff_ms && e.superseded_by is None
}

/// Copy an entry, value for value.
fn duplicate_entry(e: &EpisodicEntry) -> (r: EpisodicEntry)
    ensures
        r == *e,
{
    EpisodicEntry {
        id: e.id.clone(),
        content: e.content.clone(),
        memory_type: e.memory_type.clone(),
        domain: match &e.domain {
            Some(d) => Some(d.clone()),
            None => None,
        },
        importance_micros: e.importance_micros,
        access_count: e.access_count,
        created_at_ms: e.created_at_ms,
        created_at: e.created_at.clone(),
        superseded_by: match &e.superseded_by {
            Some(d) => Some(d.clone()),
            None => None,
        },
    }
}

impl EpisodicMemory {
    /// An empty store.
    pub fn new() -> (r: EpisodicMemory)
        ensures
            r.entries@.len() == 0,
    {
        EpisodicMemory { entries: Vec::new() }
    }

    /// Insert a record with a fresh 12-character id, the given or default
    /// importance, and a zero access counter. Returns the id.
    pub fn store(
        &mut self,
        content: String,
        memory_type: String,
        domain: Option<String>,
        importance_micros: Option<u64>,
        now_ms: u64,
    ) -> (r: String)
        ensures
            final(self).entries@.len() == old(self).entries@.len() + 1,
            (forall|i: int|
                0 <= i < old(self).entries@.len() ==> #[trigger] final(self).entries@[i] == old(
                    self,
                ).entries@[i]),
            ({
                let e = final(self).entries@.last();
                &&& e.id == r
                &&& r@.len() == 12
                &&& e.content == content
                &&& e.memory_type == memory_type
                &&& e.domain == domain
                &&& e.importance_micros == (match importance_micros {
                    Some(v) => v,
                    None => IMPORTANCE_UNIT,
                })
                &&& e.access_count == 0
                &&& e.created_at_ms == now_ms
                &&& e.superseded_by is None
            }),
    {
        let id = host::fresh_short_id(12);
        let imp = match importance_micros {
            Some(v) => v,
            None => IMPORTANCE_UNIT,
        };
        let e = EpisodicEntry {
            id: id.clone(),
            content,
            memory_type,
            domain,
            importance_micros: imp,
            access_count: 0,
            created_at_ms: now_ms,
            created_at: host::now_rfc3339(),
            superseded_by: None,
        };
        self.entries.push(e);
        id
    }

    /// The non-superseded entries whose content contains the query
    /// (ASCII-case-insensitively), most important first, older first on
    /// equal importance, at most `top_k` of them; every match left out
    /// ranks below everything returned.
    pub fn search(&self, query: &String, top_k: usize) -> (r: Vec<EpisodicEntry>)
        ensures
            r@.len() <= top_k,
            forall|a: int|
                0 <= a < r@.len() ==> is_match_of(self.entries@, query@, #[trigger] r@[a]),
            exists|picked: Seq<usize>|
                #[trigger] search_post(self.entries@, query@, top_k as int, picked, r@),
    {
        let qs = query.as_str();
        let qb = qs.as_bytes();
        let ql = scan::lower_bytes(qb);
        let mut picked: Vec<usize> = Vec::new();
        let mut done = false;
        while !done && picked.len() < top_k
            invariant
                picked@.len() <= top_k,
                forall|a: int|
                    0 <= a < picked@.len() ==> #[trigger] picked@[a] < self.entries@.len()
                        && search_matches(self.entries@[picked@[a] as int], query@),
                forall|a: int, b: int|
                    0 <= a < b < picked@.len() ==> recalled_before(
                        self.entries@,
                        #[trigger] picked@[a] as int,
                        #[trigger] picked@[b] as int,
                    ),
                forall|a: int, idx: int|
                    #![trigger picked@[a], recall_candidate(self.entries@, query@, picked@, idx)]
                    (0 <= a < picked@.len() && recall_candidate(
                        self.entries@,
                        query@,
                        picked@,
                        idx,
                    )) ==> recalled_before(self.entries@, picked@[a] as int, idx),
                ql@ == scan::lower(vstd::utf8::encode_utf8(query@)),
                done ==> (forall|idx: int| !recall_candidate(self.entries@, query@, picked@, idx)),
            decreases top_k - picked@.len(), (if done {
                0int
            } else {
                1int
            }),
        {
            let mut best: Option<usize> = None;
            let mut i: usize = 0;
            while i < self.entries.len()
                invariant
                    0 <= i <= self.entries@.len(),
                    ql@ == scan::lower(vstd::utf8::encode_utf8(query@)),
                    match best {
                        Some(b) => (b as int) < i && recall_candidate(
                            self.entries@,
                            query@,
                            picked@,
                            b as int,
                        ) && (forall|idx: int|
                            (idx < i && recall_candidate(self.entries@, query@, picked@, idx)
                                && idx != b as int) ==> recalled_before(
                                self.entries@,
                                b as int,
                                idx,
                            )),
                        None => (forall|idx: int|
                            idx < i ==> !recall_candidate(self.entries@, query@, picked@, idx)),
                    },
                decreases self.entries@.len() - i,
            {
                let e = &self.entries[i];
                let cs = e.content.as_str();
                let cb = cs.as_bytes();
                let cl = scan::lower_bytes(cb);
                let matches = e.superseded_by.is_none() && scan::contains_bytes(
                    cl.as_slice(),
                    ql.as_slice(),
                );
                let mut in_out = false;
                let mut k: usize = 0;
                while k < picked.len()
                    invariant
                        0 <= k <= picked@.len(),
                        in_out == exists|k2: int| 0 <= k2 < k && #[trigger] picked@[k2] == i,
                    decreases picked@.len() - k,
                {
                    if picked[k] == i {
                        in_out = true;
                    }
                    k = k + 1;
                }
                if matches && !in_out {
                    proof {
                        assert(recall_candidate(self.entries@, query@, picked@, i as int));
                    }
                    match best {
                        None => {
                            best = Some(i);
                        },
                        Some(b) => {
                            if self.entries[i].importance_micros
                                > self.entries[b].importance_micros {
                                best = Some(i);
                                proof {
                                    assert forall|idx: int|
                                        (idx < i + 1 && recall_candidate(
                                            self.entries@,
                                            query@,
                                            picked@,
                                            idx,
                                        ) && idx != i as int) implies recalled_before(
                                        self.entries@,
                                        i as int,
                                        idx,
                                    ) by {
                                        if idx != b as int {
                                            assert(recalled_before(self.entries@, b as int, idx));
                                        }
                                    }
                                }
                            } else {
                                proof {
                                    assert(recalled_before(self.entries@, b as int, i as int));
                                    assert forall|idx: int|
                                        (idx < i + 1 && recall_candidate(
                                            self.entries@,
                                            query@,
                                            picked@,
                                            idx,
                                        ) && idx != b as int) implies recalled_before(
                                        self.entries@,
                                        b as int,
                                        idx,
                                    ) by {
                                        if idx < i as int {
                                            assert(recalled_before(self.entries@, b as int, idx));
                                        }
                                    }
                                }
                            }
                        },
                    }
                } else {
                    proof {
                        if matches {
                            let kw = choose|k2: int|
                                0 <= k2 < picked@.len() && #[trigger] picked@[k2] == i;
                            assert(!recall_candidate(self.entries@, query@, picked@, i as int));
                        } else {
                            assert(!search_matches(self.entries@[i as int], query@));
                        }
                    }
                }
                i = i + 1;
            }
            match best {
                None => {
                    done = true;
                },
                Some(b) => {
                    let ghost p0 = picked@;
                    picked.push(b);
                    proof {
                        assert(picked@.drop_last() =~= p0);
                        assert forall|a: int, b2: int|
                            0 <= a < b2 < picked@.len() implies recalled_before(
                            self.entries@,
                            #[trigger] picked@[a] as int,
                            #[trigger] picked@[b2] as int,
                        ) by {
                            if b2 < picked@.len() - 1 {
                                assert(picked@[a] == p0[a] && picked@[b2] == p0[b2]);
                            } else {
                                assert(picked@[b2] == b);
                                assert(picked@[a] == p0[a]);
                                assert(recall_candidate(self.entries@, query@, p0, b as int));
                            }
                        }
                        assert forall|a: int, idx: int|
                            #![trigger picked@[a], recall_candidate(self.entries@, query@, picked@, idx)]
                            (0 <= a < picked@.len() && recall_candidate(
                                self.entries@,
                                query@,
                                picked@,
                                idx,
                            )) implies recalled_before(self.entries@, picked@[a] as int, idx) by {
                            assert(recall_candidate(self.entries@, query@, p0, idx));
                            if a < picked@.len() - 1 {
                                assert(picked@[a] == p0[a]);
                            } else {
                                assert(picked@[a] == b);
                                assert(idx != b as int);
                            }
                        }
                    }
                },
            }
        }
        let mut out: Vec<EpisodicEntry> = Vec::new();
        let mut k: usize = 0;
        while k < picked.len()
            invariant
                0 <= k <= picked@.len(),
                out@.len() == k,
                forall|a: int|
                    0 <= a < picked@.len() ==> #[trigger] picked@[a] < self.entries@.len()
                        && search_matches(self.entries@[picked@[a] as int], query@),
                forall|a: int|
                    0 <= a < k ==> #[trigger] out@[a] == self.entries@[picked@[a] as int],
            decreases picked@.len() - k,
        {
            let e = duplicate_entry(&self.entries[picked[k]]);
            out.push(e);
            k = k + 1;
        }
        proof {
            assert forall|a: int| 0 <= a < out@.len() implies is_match_of(
                self.entries@,
                query@,
                #[trigger] out@[a],
            ) by {
                assert(out@[a] == self.entries@[picked@[a] as int]);
                assert(search_matches(self.entries@[picked@[a] as int], query@));
            }
            if picked@.len() < top_k {
                assert(done);
                assert forall|idx: int|
                    (0 <= idx < self.entries@.len() && search_matches(
                        #[trigger] self.entries@[idx],
                        query@,
                    )) implies (exists|a: int|
                    0 <= a < picked@.len() && #[trigger] picked@[a] == idx) by {
                    if forall|b: int| 0 <= b < picked@.len() ==> #[trigger] picked@[b] != idx {
                        assert(recall_candidate(self.entries@, query@, picked@, idx));
                        assert(false);
                    } else {
                        let aw = choose|b: int|
                            !(0 <= b < picked@.len() ==> #[trigger] picked@[b] != idx);
                        assert(0 <= aw < picked@.len() && picked@[aw] == idx);
                    }
                }
            }
            assert forall|a: int, idx: int|
                #![trigger picked@[a], self.entries@[idx]]
                (0 <= a < picked@.len() && 0 <= idx < self.entries@.len() && search_matches(
                    self.entries@[idx],
                    query@,
                ) && (forall|b: int| 0 <= b < picked@.len() ==> #[trigger] picked@[b] != idx))
                implies recalled_before(self.entries@, picked@[a] as int, idx) by {
                assert(recall_candidate(self.entries@, query@, picked@, idx));
            }
            assert(search_post(self.entries@, query@, top_k as int, picked@, out@));
        }
        out
    }

    /// Multiply every entry's importance by what a decay step leaves of a
    /// unit; report how many rows changed.
    pub fn decay_importance(&mut self, decay_micros: Option<u64>) -> (r: u64)
        requires
            (match decay_micros {
                Some(d) => d <= IMPORTANCE_UNIT,
                None => true,
            }),
            old(self).entries@.len() <= u64::MAX,
        ensures
            final(self).entries@.len() == old(self).entries@.len(),
            r == old(self).entries@.len(),
            ({
                let rate = (match decay_micros {
                    Some(d) => d,
                    None => DEFAULT_DECAY_MICROS,
                });
                forall|i: int|
                    0 <= i < final(self).entries@.len() ==> ({
                        let e0 = old(self).entries@[i];
                        let e1 = #[trigger] final(self).entries@[i];
                        &&& e1.importance_micros == decayed(e0.importance_micros, rate)
                        &&& e1.id == e0.id
                        &&& e1.content == e0.content
                        &&& e1.memory_type == e0.memory_type
                        &&& e1.domain == e0.domain
                        &&& e1.access_count == e0.access_count
                        &&& e1.created_at_ms == e0.created_at_ms
                        &&& e1.created_at == e0.created_at
                        &&& e1.superseded_by == e0.superseded_by
                    })
            }),
    {
        let rate = match decay_micros {
            Some(d) => d,
            None => DEFAULT_DECAY_MICROS,
        };
        let keep = IMPORTANCE_UNIT - rate;
        let mut i: usize = 0;
        while i < self.entries.len()
            invariant
                0 <= i <= self.entries@.len(),
                self.entries@.len() == old(self).entries@.len(),
                keep == IMPORTANCE_UNIT - (match decay_micros {
                    Some(d) => d,
                    None => DEFAULT_DECAY_MICROS,
                }),
                keep <= IMPORTANCE_UNIT,
                forall|j: int|
                    i <= j < self.entries@.len() ==> #[trigger] self.entries@[j] == old(
                        self,
                    ).entries@[j],
                forall|j: int|
                    0 <= j < i ==> ({
                        let e0 = old(self).entries@[j];
                        let e1 = #[trigger] self.entries@[j];
                        &&& e1.importance_micros == decayed(
                            e0.importance_micros,
                            (match decay_micros {
                                Some(d) => d,
                                None => DEFAULT_DECAY_MICROS,
                            }),
                        )
                        &&& e1.id == e0.id
                        &&& e1.content == e0.content
                        &&& e1.memory_type == e0.memory_type
                        &&& e1.domain == e0.domain
                        &&& e1.access_count == e0.access_count
                        &&& e1.created_at_ms == e0.created_at_ms
                        &&& e1.created_at == e0.created_at
                        &&& e1.superseded_by == e0.superseded_by
                    }),
            decreases self.entries@.len() - i,
        {
            let e = &self.entries[i];
            proof {
                assert((e.importance_micros as int) * (keep as int) <= (u64::MAX as int) * (
                IMPORTANCE_UNIT as int)) by (nonlinear_arith)
                    requires
                        0 <= e.importance_micros <= u64::MAX,
                        0 <= keep <= IMPORTANCE_UNIT,
                ;
            }
            let scaled = (e.importance_micros as u128) * (keep as u128);
            proof {
                assert((scaled as int) / (IMPORTANCE_UNIT as int) <= u64::MAX) by (
                nonlinear_arith)
                    requires
                        0 <= scaled <= (u64::MAX as int) * (IMPORTANCE_UNIT as int),
                ;
            }
            let newv = (scaled / (IMPORTANCE_UNIT as u128)) as u64;
            proof {
                assert(newv == decayed(e.importance_micros, keep_rate(decay_micros)));
            }
            let upd = EpisodicEntry {
                id: e.id.clone(),
                content: e.content.clone(),
                memory_type: e.memory_type.clone(),
                domain: match &e.domain {
                    Some(d) => Some(d.clone()),
                    None => None,
                },
                importance_micros: newv,
                access_count: e.access_count,
                created_at_ms: e.created_at_ms,
                created_at: e.created_at.clone(),
                superseded_by: match &e.superseded_by {
                    Some(d) => Some(d.clone()),
                    None => None,
                },
            };
            self.entries.set(i, upd);
            i = i + 1;
        }
        self.entries.len() as u64
    }

    /// Delete the entries the eviction rule selects at `now_ms` and report
    /// how many went: importance under the threshold, created before the
    /// age cutoff, not superseded.
    pub fn evict_low_importance(
        &mut self,
        min_age_days: Option<u64>,
        min_importance_micros: Option<u64>,
        now_ms: u64,
    ) -> (r: usize)
        requires
            (match min_age_days {
                Some(d) => d <= 106751991167,
                None => true,
            }),
        ensures
            ({
                let min_imp = (match min_importance_micros {
                    Some(v) => v,
                    None => MIN_IMPORTANCE_MICROS,
                });
                let days = (match min_age_days {
                    Some(d) => d,
                    None => DEFAULT_MIN_AGE_DAYS,
                });
                let cutoff = if now_ms >= days * DAY_MS {
                    (now_ms - days * DAY_MS) as u64
                } else {
                    0u64
                };
                &&& final(self).entries@ == old(self).entries@.filter(
                    |e: EpisodicEntry| !evictable(e, min_imp, cutoff),
                )
                &&& r == old(self).entries@.len() - final(self).entries@.len()
            }),
    {
        let min_imp = match min_importance_micros {
            Some(v) => v,
            None => MIN_IMPORTANCE_MICROS,
        };
        let days = match min_age_days {
            Some(d) => d,
            None => DEFAULT_MIN_AGE_DAYS,
        };
        let delta = days * DAY_MS;
        let cutoff = if now_ms >= delta {
            now_ms - delta
        } else {
            0
        };
        let ghost pred = (|e: EpisodicEntry| !evictable(e, min_imp, cutoff));
        let ghost es0 = self.entries@;
        let orig = self.entries.len();
        let mut i: usize = 0;
        let ghost mut seen: int = 0;
        proof {
            reveal(Seq::filter);
            assert(es0.take(0) =~= Seq::<EpisodicEntry>::empty());
            assert(self.entries@.take(0) =~= Seq::<EpisodicEntry>::empty());
            assert(Seq::<EpisodicEntry>::empty().filter(pred) =~= Seq::<EpisodicEntry>::empty());
            assert(self.entries@.skip(0) =~= es0.skip(0));
        }
        while i < self.entries.len()
            invariant
                0 <= i <= self.entries@.len(),
                0 <= seen <= es0.len(),
                i <= seen,
                orig == es0.len(),
                self.entries@.len() - i == es0.len() - seen,
                self.entries@.take(i as int) == es0.take(seen).filter(pred),
                self.entries@.skip(i as int) == es0.skip(seen),
                min_imp == (match min_importance_micros {
                    Some(v) => v,
                    None => MIN_IMPORTANCE_MICROS,
                }),
                cutoff == (if now_ms >= (match min_age_days {
                    Some(d) => d,
                    None => DEFAULT_MIN_AGE_DAYS,
                }) * DAY_MS {
                    (now_ms - (match min_age_days {
                        Some(d) => d,
                        None => DEFAULT_MIN_AGE_DAYS,
                    }) * DAY_MS) as u64
                } else {
                    0u64
                }),
            decreases self.entries@.len() - i,
        {
            let ghost cur = self.entries@;
            proof {
                reveal(Seq::filter);
                assert(cur.skip(i as int)[0] == cur[i as int]);
                assert(es0.skip(seen)[0] == es0[seen]);
                assert(cur[i as int] == es0[seen]);
                assert(es0.take(seen + 1).drop_last() =~= es0.take(seen));
                assert(es0.take(seen + 1).last() == es0[seen]);
            }
            let e = &self.entries[i];
            let evict = e.importance_micros < min_imp && e.created_at_ms < cutoff
                && e.superseded_by.is_none();
            if evict {
                proof {
                    assert(!pred(es0[seen]));
                    assert(es0.take(seen + 1).filter(pred) == es0.take(seen).filter(pred));
                    assert(es0.skip(seen).len() > 0);
                    assert(seen < es0.len());
                }
                let _gone = self.entries.remove(i);
                proof {
                    assert(self.entries@ =~= cur.remove(i as int));
                    assert(self.entries@.take(i as int) =~= cur.take(i as int));
                    assert(self.entries@.skip(i as int) =~= cur.skip(i as int).drop_first());
                    assert(es0.skip(seen + 1) =~= es0.skip(seen).drop_first());
                    seen = seen + 1;
                }
            } else {
                proof {
                    assert(pred(es0[seen]));
                    assert(es0.take(seen + 1).filter(pred) == es0.take(seen).filter(pred).push(
                        es0[seen],
                    ));
                    assert(cur.take(i + 1) =~= cur.take(i as int).push(cur[i as int]));
                    assert(cur.skip(i + 1) =~= cur.skip(i as int).drop_first());
                    assert(es0.skip(seen + 1) =~= es0.skip(seen).drop_first());
                }
                i = i + 1;
                proof {
                    seen = seen + 1;
                }
            }
        }
        proof {
            assert(es0.take(seen) =~= es0);
            assert(self.entries@.take(i as int) =~= self.entries@);
        }
        orig - self.entries.len()
    }

    /// How many entries the store holds.
    pub fn count(&self) -> (r: usize)
        ensures
            r == self.entries@.len(),
    {
        self.entries.len()
    }

    /// Drop every entry.
    pub fn clear(&mut self)
        ensures
            final(self).entries@.len() == 0,
    {
        self.entries.clear();
    }
}

} // verus!
