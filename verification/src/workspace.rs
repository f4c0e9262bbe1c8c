//! Shared workspace: an append-only log of agent artifacts, scoped by
//! mission. Entries are never updated; queries filter by mission and
//! optionally by author and entry type, in creation order.

use crate::host;
use vstd::prelude::*;

verus! {

/// Errors of the workspace.
#[derive(Debug)]
pub enum WorkspaceError {
    DatabaseError(String),
    JsonError(String),
}

impl WorkspaceError {
    /// A human-readable rendering of the error.
    pub fn message(&self) -> (r: String)
        ensures
            (self is DatabaseError ==> r@ == "Database error: "@ + self->DatabaseError_0@),
            (self is JsonError ==> r@ == "JSON error: "@ + self->JsonError_0@),
    {
        match self {
            WorkspaceError::DatabaseError(what) => String::from_str("Database error: ").concat(
                what.as_str(),
            ),
            WorkspaceError::JsonError(what) => String::from_str("JSON error: ").concat(
                what.as_str(),
            ),
        }
    }
}

/// One workspace record.
pub struct WorkspaceEntry {
    pub id: String,
    pub mission_id: String,
    pub agent_id: String,
    pub entry_type: String,
    pub title: String,
    pub content: String,
    pub created_at: String,
}

/// The append-only log.
pub struct SharedWorkspace {
    pub entries: Vec<WorkspaceEntry>,
}

/// Does the entry answer a query for this mission, author and type? A
/// missing author or type matches everything.
pub open spec fn query_matches(
    e: WorkspaceEntry,
    mission: Seq<char>,
    agent: Option<Seq<char>>,
    entry_type: Option<Seq<char>>,
) -> bool {
    &&& e.mission_id@ == mission
    &&& (match agent {
        Some(a) => e.agent_id@ == a,
        None => true,
    })
    &&& (match entry_type {
        Some(t) => e.entry_type@ == t,
        None => true,
    })
}

/// The spec view of an optional string argument.
pub open spec fn opt_view(o: Option<&String>) -> Option<Seq<char>> {
    match o {
        Some(s) => Some(s@),
        None => None,
    }
}

/// One rendered summary block per entry, in order.
pub open spec fn render_blocks(es: Seq<WorkspaceEntry>) -> Seq<char>
    decreases es.len(),
{
    if es.len() == 0 {
        Seq::<char>::empty()
    } else {
        render_blocks(es.drop_last()) + "### "@ + es.last().title@ + " ("@ + es.last().agent_id@
            + ")\n"@ + es.last().content@ + "\n\n"@
    }
}

/// Copy an entry, value for value.
fn duplicate_entry(e: &WorkspaceEntry) -> (r: WorkspaceEntry)
    ensures
        r == *e,
{
    WorkspaceEntry {
        id: e.id.clone(),
        mission_id: e.mission_id.clone(),
        agent_id: e.agent_id.clone(),
        entry_type: e.entry_type.clone(),
        title: e.title.clone(),
        content: e.content.clone(),
        created_at: e.created_at.clone(),
    }
}

impl SharedWorkspace {
    /// An empty workspace.
    pub fn new() -> (r: SharedWorkspace)
        ensures
            r.entries@.len() == 0,
    {
        SharedWorkspace { entries: Vec::new() }
    }

    /// Append one record with a fresh 12-character id; returns the id.
    pub fn add(
        &mut self,
        mission_id: String,
        agent_id: String,
        entry_type: String,
        title: String,
        content: String,
    ) -> (r: String)
        ensures
            final(self).entries@.len() == old(self).entries@.len() + 1,
            (forall|i: int|
                0 <= i < old(self).entries@.len() ==> #[trigger] final(self).entries@[i] == old(
                    self,
                ).entries@[i]),
            ({
                let e = final(self).entries@.last();
                &&& e.id == r
                &&& r@.len() == 12
                &&& e.mission_id == mission_id
                &&& e.agent_id == agent_id
                &&& e.entry_type == entry_type
                &&& e.title == title
                &&& e.content == content
            }),
    {
        let id = host::fresh_short_id(12);
        let e = WorkspaceEntry {
            id: id.clone(),
            mission_id,
            agent_id,
            entry_type,
            title,
            content,
            created_at: host::now_rfc3339(),
        };
        self.entries.push(e);
        id
    }

    /// The entries of a mission, optionally narrowed to one author or one
    /// entry type, in creation order.
    pub fn query(
        &self,
        mission_id: &String,
        agent_id: Option<&String>,
        entry_type: Option<&String>,
    ) -> (r: Vec<WorkspaceEntry>)
        ensures
            r@ == self.entries@.filter(
                |e: WorkspaceEntry|
                    query_matches(e, mission_id@, opt_view(agent_id), opt_view(entry_type)),
            ),
    {
        let ghost pred = (|e: WorkspaceEntry|
            query_matches(e, mission_id@, opt_view(agent_id), opt_view(entry_type)));
        let mut r: Vec<WorkspaceEntry> = Vec::new();
        let mut i: usize = 0;
        proof {
            reveal(Seq::filter);
            assert(self.entries@.take(0) =~= Seq::<WorkspaceEntry>::empty());
            assert(r@ =~= Seq::<WorkspaceEntry>::empty().filter(pred));
        }
        while i < self.entries.len()
            invariant
                0 <= i <= self.entries@.len(),
                r@ == self.entries@.take(i as int).filter(pred),
            decreases self.entries@.len() - i,
        {
            proof {
                reveal(Seq::filter);
                assert(self.entries@.take(i + 1).drop_last() =~= self.entries@.take(i as int));
                assert(self.entries@.take(i + 1).last() == self.entries@[i as int]);
            }
            let e = &self.entries[i];
            let mut keep = e.mission_id == *mission_id;
            match agent_id {
                Some(a) => {
                    if !(e.agent_id == *a) {
                        keep = false;
                    }
                },
                None => {},
            }
            match entry_type {
                Some(t) => {
                    if !(e.entry_type == *t) {
                        keep = false;
                    }
                },
                None => {},
            }
            if keep {
                proof {
                    assert(pred(self.entries@[i as int]));
                }
                r.push(duplicate_entry(e));
            } else {
                proof {
                    assert(!pred(self.entries@[i as int]));
                }
            }
            i = i + 1;
        }
        proof {
            assert(self.entries@.take(self.entries@.len() as int) =~= self.entries@);
        }
        r
    }

    /// A human-readable rendering of a mission's entries: a header, then
    /// one block per entry; or a fixed sentence when the mission has none.
    pub fn get_mission_summary(&self, mission_id: &String) -> (r: String)
        ensures
            ({
                let q = self.entries@.filter(
                    |e: WorkspaceEntry| query_matches(e, mission_id@, None, None),
                );
                if q.len() == 0 {
                    r@ == "No entries for mission "@ + mission_id@
                } else {
                    r@ == "=== Mission "@ + mission_id@ + " Summary ===\n\n"@ + render_blocks(q)
                }
            }),
    {
        let entries = self.query(mission_id, None, None);
        if entries.len() == 0 {
            return String::from_str("No entries for mission ").concat(mission_id.as_str());
        }
        let mut out = String::from_str("=== Mission ").concat(mission_id.as_str()).concat(
            " Summary ===\n\n",
        );
        let ghost header = out@;
        let mut i: usize = 0;
        proof {
            assert(render_blocks(entries@.take(0)) =~= Seq::<char>::empty());
            assert(out@ =~= header + render_blocks(entries@.take(0)));
        }
        while i < entries.len()
            invariant
                0 <= i <= entries@.len(),
                out@ == header + render_blocks(entries@.take(i as int)),
            decreases entries@.len() - i,
        {
            proof {
                assert(entries@.take(i + 1).drop_last() =~= entries@.take(i as int));
                assert(entries@.take(i + 1).last() == entries@[i as int]);
            }
            let e = &entries[i];
            out.append("### ");
            out.append(e.title.as_str());
            out.append(" (");
            out.append(e.agent_id.as_str());
            out.append(")\n");
            out.append(e.content.as_str());
            out.append("\n\n");
            proof {
                assert(out@ =~= header + render_blocks(entries@.take(i + 1)));
            }
            i = i + 1;
        }
        proof {
            assert(entries@.take(entries@.len() as int) =~= entries@);
        }
        out
    }

    /// Delete a mission's entries; report how many went.
    pub fn clear_mission(&mut self, mission_id: &String) -> (r: usize)
        ensures
            final(self).entries@ == old(self).entries@.filter(
                |e: WorkspaceEntry| e.mission_id@ != mission_id@,
            ),
            r == old(self).entries@.len() - final(self).entries@.len(),
    {
        let ghost pred = (|e: WorkspaceEntry| e.mission_id@ != mission_id@);
        let ghost es0 = self.entries@;
        let orig = self.entries.len();
        let mut i: usize = 0;
        let ghost mut seen: int = 0;
        proof {
            reveal(Seq::filter);
            assert(es0.take(0) =~= Seq::<WorkspaceEntry>::empty());
            assert(self.entries@.take(0) =~= Seq::<WorkspaceEntry>::empty());
            assert(Seq::<WorkspaceEntry>::empty().filter(pred) =~= Seq::<WorkspaceEntry>::empty());
            assert(self.entries@.skip(0) =~= es0.skip(0));
        }
        while i < self.entries.len()
            invariant
                0 <= i <= self.entries@.len(),
                0 <= seen <= es0.len(),
                i <= seen,
                orig == es0.len(),
                self.entries@.len() - i == es0.len() - seen,
                self.entries@.take(i as int) == es0.take(seen).filter(pred),
                self.entries@.skip(i as int) == es0.skip(seen),
            decreases self.entries@.len() - i,
        {
            let ghost cur = self.entries@;
            proof {
                reveal(Seq::filter);
                assert(cur.skip(i as int)[0] == cur[i as int]);
                assert(es0.skip(seen)[0] == es0[seen]);
                assert(cur[i as int] == es0[seen]);
                assert(es0.take(seen + 1).drop_last() =~= es0.take(seen));
                assert(es0.take(seen + 1).last() == es0[seen]);
            }
            if self.entries[i].mission_id == *mission_id {
                proof {
                    assert(!pred(es0[seen]));
                    assert(es0.take(seen + 1).filter(pred) == es0.take(seen).filter(pred));
                    assert(es0.skip(seen).len() > 0);
                    assert(seen < es0.len());
                }
                let _gone = self.entries.remove(i);
                proof {
                    assert(self.entries@ =~= cur.remove(i as int));
                    assert(self.entries@.take(i as int) =~= cur.take(i as int));
                    assert(self.entries@.skip(i as int) =~= cur.skip(i as int).drop_first());
                    assert(es0.skip(seen + 1) =~= es0.skip(seen).drop_first());
                    seen = seen + 1;
                }
            } else {
                proof {
                    assert(pred(es0[seen]));
                    assert(es0.take(seen + 1).filter(pred) == es0.take(seen).filter(pred).push(
                        es0[seen],
                    ));
                    assert(cur.take(i + 1) =~= cur.take(i as int).push(cur[i as int]));
                    assert(cur.skip(i + 1) =~= cur.skip(i as int).drop_first());
                    assert(es0.skip(seen + 1) =~= es0.skip(seen).drop_first());
                }
                i = i + 1;
                proof {
                    seen = seen + 1;
                }
            }
        }
        proof {
            assert(es0.take(seen) =~= es0);
            assert(self.entries@.take(i as int) =~= self.entries@);
        }
        orig - self.entries.len()
    }

    /// How many entries the workspace holds.
    pub fn count(&self) -> (r: usize)
        ensures
            r == self.entries@.len(),
    {
        self.entries.len()
    }

    /// Drop every entry.
    pub fn clear(&mut self)
        ensures
            final(self).entries@.len() == 0,
    {
        self.entries.clear();
    }
}

} // verus!
