//! Progress reports of debug adapters, keyed by adapter and by progress token.
use std::collections::HashMap;
use vstd::hash_map::StringHashMap;
use vstd::prelude::*;

verus! {

broadcast use vstd::std_specs::hash::group_hash_axioms;

/// Identifies a running debug adapter.
pub type DebugAdapterId = u64;

/// The state of one progress report.
#[derive(Debug)]
pub enum ProgressStatus {
    Started { title: String },
}

impl ProgressStatus {
    /// The title of the report.
    pub open spec fn title_view(self) -> Seq<char> {
        match self {
            ProgressStatus::Started { title } => title@,
        }
    }
}

/// The progress reports of every debug adapter.
pub struct DapProgressMap(HashMap<DebugAdapterId, StringHashMap<ProgressStatus>>);

/// The titles of the reports of one adapter, by progress token.
pub open spec fn titles_of(m: StringHashMap<ProgressStatus>) -> Map<Seq<char>, Seq<char>> {
    m@.map_values(|s: ProgressStatus| s.title_view())
}

/// The reports of `id` in `m`, or none when the adapter has no entry.
pub open spec fn reports_of(
    m: Map<DebugAdapterId, Map<Seq<char>, Seq<char>>>,
    id: DebugAdapterId,
) -> Map<Seq<char>, Seq<char>> {
    if m.contains_key(id) {
        m[id]
    } else {
        Map::empty()
    }
}

impl View for DapProgressMap {
    type V = Map<DebugAdapterId, Map<Seq<char>, Seq<char>>>;

    closed spec fn view(&self) -> Self::V {
        self.0@.map_values(|m: StringHashMap<ProgressStatus>| titles_of(m))
    }
}

impl Default for DapProgressMap {
    fn default() -> (r: DapProgressMap)
        ensures
            r@ == Map::<DebugAdapterId, Map<Seq<char>, Seq<char>>>::empty(),
    {
        DapProgressMap::new()
    }
}

impl DapProgressMap {
    /// A map without any report.
    pub fn new() -> (r: DapProgressMap)
        ensures
            r@ == Map::<DebugAdapterId, Map<Seq<char>, Seq<char>>>::empty(),
    {
        let r = DapProgressMap(HashMap::new());
        assert(r@ =~= Map::<DebugAdapterId, Map<Seq<char>, Seq<char>>>::empty());
        r
    }

    /// Whether the adapter has at least one report in progress.
    pub fn is_progressing(&self, id: DebugAdapterId) -> (r: bool)
        ensures
            r == (self@.contains_key(id) && !self@[id].is_empty()),
    {
        match self.0.get(&id) {
            Some(reports) => {
                proof {
                    assert(titles_of(*reports).dom() =~= reports@.dom());
                }
                !reports.is_empty()
            },
            None => false,
        }
    }

    /// The title of a report, if the adapter has it.
    pub fn title(&self, id: DebugAdapterId, progress_id: &str) -> (r: Option<&String>)
        ensures
            r is Some <==> reports_of(self@, id).contains_key(progress_id@),
            r matches Some(t) ==> t@ == reports_of(self@, id)[progress_id@],
    {
        match self.0.get(&id) {
            Some(reports) => match reports.get(progress_id) {
                Some(status) => match status {
                    ProgressStatus::Started { title } => Some(title),
                },
                None => None,
            },
            None => None,
        }
    }

    /// Starts a report, replacing any report of the same token.
    pub fn start(&mut self, id: DebugAdapterId, progress_id: String, title: String)
        ensures
            final(self)@ == old(self)@.insert(
                id,
                reports_of(old(self)@, id).insert(progress_id@, title@),
            ),
    {
        let mut reports = match self.0.remove(&id) {
            Some(reports) => reports,
            None => StringHashMap::new(),
        };
        let ghost before = titles_of(reports);
        proof {
            assert(before =~= reports_of(old(self)@, id));
        }
        reports.insert(progress_id, ProgressStatus::Started { title });
        proof {
            assert(titles_of(reports) =~= before.insert(progress_id@, title@));
        }
        self.0.insert(id, reports);
        proof {
            assert(self@ =~= old(self)@.insert(id, before.insert(progress_id@, title@)));
        }
    }

    /// Makes sure that a report exists, with an empty title when it is new; an existing
    /// report is left as it is.
    pub fn update(&mut self, id: DebugAdapterId, progress_id: String)
        ensures
            final(self)@ == old(self)@.insert(
                id,
                if reports_of(old(self)@, id).contains_key(progress_id@) {
                    reports_of(old(self)@, id)
                } else {
                    reports_of(old(self)@, id).insert(progress_id@, Seq::<char>::empty())
                },
            ),
    {
        let mut reports = match self.0.remove(&id) {
            Some(reports) => reports,
            None => StringHashMap::new(),
        };
        let ghost before = titles_of(reports);
        proof {
            assert(before =~= reports_of(old(self)@, id));
        }
        if !reports.contains_key(progress_id.as_str()) {
            reports.insert(progress_id, ProgressStatus::Started { title: String::new() });
        }
        let ghost after = titles_of(reports);
        proof {
            if before.contains_key(progress_id@) {
                assert(after =~= before);
            } else {
                assert(after =~= before.insert(progress_id@, Seq::<char>::empty()));
            }
        }
        self.0.insert(id, reports);
        proof {
            assert(self@ =~= old(self)@.insert(id, after));
        }
    }

    /// Ends a report and hands it back, if the adapter has it.
    pub fn end(&mut self, id: DebugAdapterId, progress_id: &str) -> (r: Option<ProgressStatus>)
        ensures
            r is Some <==> reports_of(old(self)@, id).contains_key(progress_id@),
            r matches Some(s) ==> s.title_view() == reports_of(old(self)@, id)[progress_id@],
            final(self)@ == (if old(self)@.contains_key(id) {
                old(self)@.insert(id, old(self)@[id].remove(progress_id@))
            } else {
                old(self)@
            }),
    {
        let mut reports = match self.0.remove(&id) {
            Some(reports) => reports,
            None => {
                proof {
                    assert(self@ =~= old(self)@);
                }
                return None;
            },
        };
        let ghost before = titles_of(reports);
        let ended = match reports.get(progress_id) {
            Some(status) => match status {
                ProgressStatus::Started { title } => Some(
                    ProgressStatus::Started { title: title.clone() },
                ),
            },
            None => None,
        };
        reports.remove(progress_id);
        proof {
            assert(titles_of(reports) =~= before.remove(progress_id@));
        }
        self.0.insert(id, reports);
        proof {
            assert(self@ =~= old(self)@.insert(id, before.remove(progress_id@)));
        }
        ended
    }
}

/// A report that was just started reads back with the title it was started with, and the
/// adapter counts as progressing.
pub proof fn lemma_start_then_title(
    m: Map<DebugAdapterId, Map<Seq<char>, Seq<char>>>,
    id: DebugAdapterId,
    progress_id: Seq<char>,
    title: Seq<char>,
)
    ensures
        ({
            let after = m.insert(id, reports_of(m, id).insert(progress_id, title));
            &&& reports_of(after, id).contains_key(progress_id)
            &&& reports_of(after, id)[progress_id] == title
            &&& after.contains_key(id) && !after[id].is_empty()
        }),
{
    let after = m.insert(id, reports_of(m, id).insert(progress_id, title));
    if !m.contains_key(id) {
        assert(reports_of(m, id) =~= Map::<Seq<char>, Seq<char>>::empty());
    }
    assert(after[id].dom().contains(progress_id));
    assert(!after[id].dom().is_empty()) by {
        if after[id].dom() =~= Set::<Seq<char>>::empty() {
            assert(!Set::<Seq<char>>::empty().contains(progress_id));
        }
    }
}

/// Ending a report that was just started hands back its title, and leaves no report under
/// that token.
pub proof fn lemma_start_then_end(
    m: Map<DebugAdapterId, Map<Seq<char>, Seq<char>>>,
    id: DebugAdapterId,
    progress_id: Seq<char>,
    title: Seq<char>,
)
    ensures
        ({
            let started = m.insert(id, reports_of(m, id).insert(progress_id, title));
            let ended = started.insert(id, started[id].remove(progress_id));
            &&& started.contains_key(id)
            &&& reports_of(started, id).contains_key(progress_id)
            &&& reports_of(started, id)[progress_id] == title
            &&& !reports_of(ended, id).contains_key(progress_id)
            &&& ended[id] == reports_of(m, id).remove(progress_id)
        }),
{
    let started = m.insert(id, reports_of(m, id).insert(progress_id, title));
    assert(started[id].remove(progress_id) =~= reports_of(m, id).remove(progress_id));
}

/// Updating a report that exists leaves the map as it is.
pub proof fn lemma_update_keeps_existing(
    m: Map<DebugAdapterId, Map<Seq<char>, Seq<char>>>,
    id: DebugAdapterId,
    progress_id: Seq<char>,
)
    requires
        reports_of(m, id).contains_key(progress_id),
    ensures
        m.insert(id, reports_of(m, id)) == m,
{
    assert(m.insert(id, reports_of(m, id)) =~= m);
}

} // verus!
