//! The platform grouping map and the monitor's decisions: which platform
//! group a URL joins or leaves, when a platform's polling task must be
//! spawned or cancelled, and how one inspection result is written back.
//!
//! The actor itself is a state machine over plain values. The caller resolves
//! each URL to a platform identifier (or `None` when no platform recognizes
//! it) and carries out the returned decisions: a returned task identifier
//! from `add_streamer` means "spawn the monitor task under this name", one
//! from `remove_streamer` means "cancel the task of this name".

use vstd::prelude::*;
use crate::cycle::{Cycle, has_key, key_index_of, removed, unique_keys, upsert};
use crate::status::{next_status, StreamStatus};

verus! {

/// One platform group: the shared round-robin registry of its URLs and the
/// identifier of the background task that polls them.
pub struct Group {
    /// The registry of this platform's URLs.
    pub cycle: Cycle,
    /// Identifier of the monitor task bound to this group.
    pub task: u64,
}

/// Model of one group: its registry entries and its task identifier.
pub struct GroupModel {
    pub entries: Seq<(Seq<char>, StreamStatus)>,
    pub task: u64,
}

/// Model of the whole actor state: platform identifier to group, in creation
/// order, plus the identifier the next spawned task will get.
pub struct ActorModel {
    pub groups: Seq<(u64, GroupModel)>,
    pub next_task: u64,
}

/// Some group of `gs` belongs to platform `p`.
pub open spec fn has_group(gs: Seq<(u64, GroupModel)>, p: u64) -> bool {
    exists|i: int| 0 <= i < gs.len() && (#[trigger] gs[i]).0 == p
}

/// The position of platform `p`'s group (meaningful when the platforms of
/// `gs` are unique and `p` is among them).
pub open spec fn group_index_of(gs: Seq<(u64, GroupModel)>, p: u64) -> int {
    choose|i: int| 0 <= i < gs.len() && (#[trigger] gs[i]).0 == p
}

/// No two groups share a platform.
pub open spec fn unique_platforms(gs: Seq<(u64, GroupModel)>) -> bool {
    forall|i: int, j: int| 0 <= i < j < gs.len() ==> (#[trigger] gs[i]).0 != (#[trigger] gs[j]).0
}

/// Well-formedness of the actor state: one group per platform, one task per
/// group with task identifiers distinct and below the counter, unique URLs
/// within each registry, and no group left empty (an empty group is torn
/// down, so no task ever polls an empty registry).
pub open spec fn wf_model(m: ActorModel) -> bool {
    &&& unique_platforms(m.groups)
    &&& forall|i: int, j: int|
        0 <= i < j < m.groups.len() ==> (#[trigger] m.groups[i]).1.task != (
        #[trigger] m.groups[j]).1.task
    &&& forall|i: int| 0 <= i < m.groups.len() ==> (#[trigger] m.groups[i]).1.task < m.next_task
    &&& forall|i: int| 0 <= i < m.groups.len() ==> unique_keys((#[trigger] m.groups[i]).1.entries)
    &&& forall|i: int| 0 <= i < m.groups.len() ==> (#[trigger] m.groups[i]).1.entries.len() >= 1
}

/// With unique platforms, any position holding `p` is the position
/// `group_index_of` names.
pub proof fn lemma_group_index(gs: Seq<(u64, GroupModel)>, p: u64, i: int)
    requires
        unique_platforms(gs),
        0 <= i < gs.len(),
        gs[i].0 == p,
    ensures
        has_group(gs, p),
        group_index_of(gs, p) == i,
{
    assert(has_group(gs, p));
    let j = group_index_of(gs, p);
    assert(0 <= j < gs.len() && gs[j].0 == p);
    if i < j {
        assert(gs[i].0 != gs[j].0);
    } else if j < i {
        assert(gs[j].0 != gs[i].0);
    }
}

/// The state and the spawn decision after adding one URL: an unresolved URL
/// changes nothing; a URL of an already-grouped platform is inserted into
/// that group's registry at status `Idle` (overwriting in place if already
/// tracked) and spawns nothing; the first URL of a new platform creates a
/// one-entry group bound to a freshly named task, which must be spawned.
pub open spec fn add_spec(m: ActorModel, platform: Option<u64>, url: Seq<char>) -> (
    ActorModel,
    Option<u64>,
) {
    match platform {
        None => (m, None),
        Some(p) => {
            if has_group(m.groups, p) {
                let i = group_index_of(m.groups, p);
                let g = m.groups[i].1;
                let g2 = GroupModel {
                    entries: upsert(g.entries, url, StreamStatus::Idle),
                    task: g.task,
                };
                (ActorModel { groups: m.groups.update(i, (p, g2)), next_task: m.next_task }, None)
            } else {
                let g = GroupModel {
                    entries: seq![(url, StreamStatus::Idle)],
                    task: m.next_task,
                };
                (
                    ActorModel {
                        groups: m.groups.push((p, g)),
                        next_task: (m.next_task + 1) as u64,
                    },
                    Some(m.next_task),
                )
            }
        },
    }
}

/// The state and the cancel decision after removing one URL: an unresolved
/// URL or an ungrouped platform changes nothing; when the removed URL is the
/// group's last tracked entry the whole group is torn down and its task must
/// be cancelled; otherwise the URL alone leaves the registry (a URL not
/// tracked there changes nothing) and the task keeps running — a task with
/// other URLs to service is never cancelled.
pub open spec fn remove_spec(m: ActorModel, platform: Option<u64>, url: Seq<char>) -> (
    ActorModel,
    Option<u64>,
) {
    match platform {
        None => (m, None),
        Some(p) => {
            if !has_group(m.groups, p) {
                (m, None)
            } else {
                let i = group_index_of(m.groups, p);
                let g = m.groups[i].1;
                if has_key(g.entries, url) && g.entries.len() <= 1 {
                    (
                        ActorModel { groups: m.groups.remove(i), next_task: m.next_task },
                        Some(g.task),
                    )
                } else {
                    let g2 = GroupModel { entries: removed(g.entries, url), task: g.task };
                    (
                        ActorModel { groups: m.groups.update(i, (p, g2)), next_task: m.next_task },
                        None,
                    )
                }
            }
        },
    }
}

/// URL `url` is currently monitored under platform `p`.
pub open spec fn url_monitored(m: ActorModel, p: u64, url: Seq<char>) -> bool {
    has_group(m.groups, p) && has_key(m.groups[group_index_of(m.groups, p)].1.entries, url)
}

/// Adding a URL preserves well-formedness, and afterwards its platform (when
/// resolved) is grouped.
pub proof fn lemma_add_preserves_wf(m: ActorModel, platform: Option<u64>, url: Seq<char>)
    requires
        wf_model(m),
        m.next_task < u64::MAX,
    ensures
        wf_model(add_spec(m, platform, url).0),
        platform matches Some(p) ==> has_group(add_spec(m, platform, url).0.groups, p),
{
    if let Some(p) = platform {
        let t = add_spec(m, platform, url).0.groups;
        if has_group(m.groups, p) {
            let i = group_index_of(m.groups, p);
            assert(0 <= i < m.groups.len() && m.groups[i].0 == p);
            crate::cycle::lemma_upsert_unique(m.groups[i].1.entries, url, StreamStatus::Idle);
            assert(forall|a: int| 0 <= a < t.len() ==> (#[trigger] t[a]).0 == m.groups[a].0);
            assert(forall|a: int|
                0 <= a < t.len() ==> (#[trigger] t[a]).1.task == m.groups[a].1.task);
            assert(t[i].0 == p);
            if has_key(m.groups[i].1.entries, url) {
                assert(t[i].1.entries.len() == m.groups[i].1.entries.len());
            } else {
                assert(t[i].1.entries.len() == m.groups[i].1.entries.len() + 1);
            }
        } else {
            assert(t[m.groups.len() as int].0 == p);
            assert(forall|a: int| 0 <= a < m.groups.len() ==> (#[trigger] t[a]) == m.groups[a]);
            assert forall|a: int| 0 <= a < m.groups.len() implies (#[trigger] t[a]).0 != p by {
                assert(m.groups[a].0 != p);
            }
            assert(unique_keys(seq![(url, StreamStatus::Idle)]));
        }
    }
}

/// Removing a URL preserves well-formedness and never advances the task
/// counter.
pub proof fn lemma_remove_preserves_wf(m: ActorModel, platform: Option<u64>, url: Seq<char>)
    requires
        wf_model(m),
    ensures
        wf_model(remove_spec(m, platform, url).0),
        remove_spec(m, platform, url).0.next_task == m.next_task,
{
    if let Some(p) = platform {
        if has_group(m.groups, p) {
            let i = group_index_of(m.groups, p);
            assert(0 <= i < m.groups.len() && m.groups[i].0 == p);
            let g = m.groups[i].1;
            if has_key(g.entries, url) && g.entries.len() <= 1 {
                let t = m.groups.remove(i);
                assert(forall|a: int| 0 <= a < i ==> (#[trigger] t[a]) == m.groups[a]);
                assert(forall|a: int|
                    i <= a < t.len() ==> (#[trigger] t[a]) == m.groups[a + 1]);
                assert forall|a: int, b: int| 0 <= a < b < t.len() implies (#[trigger] t[a]).0 != (
                #[trigger] t[b]).0 && t[a].1.task != t[b].1.task by {
                    let a0 = if a < i { a } else { a + 1 };
                    let b0 = if b < i { b } else { b + 1 };
                    assert(t[a] == m.groups[a0]);
                    assert(t[b] == m.groups[b0]);
                }
            } else {
                let t = remove_spec(m, platform, url).0.groups;
                assert(forall|a: int| 0 <= a < t.len() ==> (#[trigger] t[a]).0 == m.groups[a].0);
                assert(forall|a: int|
                    0 <= a < t.len() ==> (#[trigger] t[a]).1.task == m.groups[a].1.task);
                if has_key(g.entries, url) {
                    let k = key_index_of(g.entries, url);
                    assert(0 <= k < g.entries.len() && g.entries[k].0 == url);
                    crate::cycle::lemma_swap_removed_unique(g.entries, k);
                    assert(t[i].1.entries.len() == g.entries.len() - 1);
                } else {
                    assert(t[i].1.entries == g.entries);
                }
            }
        }
    }
}

/// The grouping-and-polling engine's state.
pub struct DownloadActor {
    groups: Vec<(u64, Group)>,
    next_task: u64,
}

impl View for DownloadActor {
    type V = ActorModel;

    closed spec fn view(&self) -> ActorModel {
        ActorModel {
            groups: self.groups@.map_values(
                |g: (u64, Group)| (g.0, GroupModel { entries: g.1.cycle@, task: g.1.task }),
            ),
            next_task: self.next_task,
        }
    }
}

impl DownloadActor {
    /// The actor's invariant.
    pub open spec fn wf(&self) -> bool {
        wf_model(self@)
    }

    /// A fresh actor: no groups, no tasks spawned yet.
    pub fn new() -> (a: DownloadActor)
        ensures
            a.wf(),
            a@.groups == Seq::<(u64, GroupModel)>::empty(),
            a@.next_task == 0,
    {
        let a = DownloadActor { groups: Vec::new(), next_task: 0 };
        proof {
            assert(a@.groups =~= Seq::<(u64, GroupModel)>::empty());
        }
        a
    }

    /// The position of platform `p`'s group, if any.
    fn find_group_index(&self, p: u64) -> (r: Option<usize>)
        ensures
            match r {
                Some(i) => i < self@.groups.len() && self@.groups[i as int].0 == p,
                None => !has_group(self@.groups, p),
            },
    {
        let mut i: usize = 0;
        while i < self.groups.len()
            invariant
                i <= self.groups.len(),
                self@.groups.len() == self.groups@.len(),
                forall|j: int| 0 <= j < i ==> (#[trigger] self@.groups[j]).0 != p,
            decreases self.groups.len() - i,
        {
            if self.groups[i].0 == p {
                return Some(i);
            }
            i = i + 1;
        }
        None
    }

    /// Add a URL under its resolved platform. A URL no platform recognizes is
    /// dropped and nothing changes. Otherwise the URL enters its platform's
    /// registry at status `Idle` — re-adding a tracked URL resets it to
    /// `Idle` in place — and, exactly when the platform had no group yet, a
    /// new one-entry group is created and the returned task identifier names
    /// the monitor task the caller must spawn for it.
    pub fn add_streamer(&mut self, platform: Option<u64>, url: &str) -> (spawn: Option<u64>)
        requires
            old(self).wf(),
            old(self)@.next_task < u64::MAX,
        ensures
            final(self).wf(),
            final(self)@ == add_spec(old(self)@, platform, url@).0,
            spawn == add_spec(old(self)@, platform, url@).1,
    {
        let ghost m0 = self@;
        match platform {
            None => None,
            Some(p) => {
                match self.find_group_index(p) {
                    Some(i) => {
                        proof {
                            lemma_group_index(m0.groups, p, i as int);
                        }
                        let mut g = self.groups.remove(i);
                        g.1.cycle.insert(url, StreamStatus::Idle);
                        self.groups.insert(i, g);
                        proof {
                            let gm = GroupModel {
                                entries: upsert(m0.groups[i as int].1.entries, url@, StreamStatus::Idle),
                                task: m0.groups[i as int].1.task,
                            };
                            assert(self.groups@ =~= old(self).groups@.update(
                                i as int,
                                self.groups@[i as int],
                            ));
                            assert(self@.groups =~= m0.groups.update(i as int, (p, gm)));
                            lemma_add_preserves_wf(m0, platform, url@);
                        }
                        None
                    },
                    None => {
                        let mut cycle = Cycle::new();
                        cycle.insert(url, StreamStatus::Idle);
                        let t = self.next_task;
                        self.next_task = self.next_task + 1;
                        proof {
                            assert(cycle@ =~= seq![(url@, StreamStatus::Idle)]);
                        }
                        self.groups.push((p, Group { cycle, task: t }));
                        proof {
                            let gm = GroupModel {
                                entries: seq![(url@, StreamStatus::Idle)],
                                task: t,
                            };
                            assert(self@.groups =~= m0.groups.push((p, gm)));
                            lemma_add_preserves_wf(m0, platform, url@);
                        }
                        Some(t)
                    },
                }
            },
        }
    }

    /// Remove a URL under its resolved platform. A URL no platform
    /// recognizes, one whose platform has no group, or one not tracked in its
    /// platform's registry changes nothing. When the URL is the registry's
    /// last tracked entry, the whole group is torn down and the returned task
    /// identifier names the monitor task the caller must cancel; otherwise
    /// the URL alone leaves the registry and the task — which still has other
    /// URLs to service — keeps running.
    pub fn remove_streamer(&mut self, platform: Option<u64>, url: &str) -> (cancel: Option<u64>)
        requires
            old(self).wf(),
        ensures
            final(self).wf(),
            final(self)@ == remove_spec(old(self)@, platform, url@).0,
            cancel == remove_spec(old(self)@, platform, url@).1,
    {
        let ghost m0 = self@;
        match platform {
            None => None,
            Some(p) => {
                match self.find_group_index(p) {
                    None => None,
                    Some(i) => {
                        proof {
                            lemma_group_index(m0.groups, p, i as int);
                        }
                        let size = self.groups[i].1.cycle.len();
                        let present = self.groups[i].1.cycle.status_of(url).is_some();
                        if present && size <= 1 {
                            let g = self.groups.remove(i);
                            proof {
                                assert(self@.groups =~= m0.groups.remove(i as int));
                                lemma_remove_preserves_wf(m0, platform, url@);
                            }
                            Some(g.1.task)
                        } else {
                            let mut g = self.groups.remove(i);
                            let _ = g.1.cycle.remove(url);
                            self.groups.insert(i, g);
                            proof {
                                let gm = GroupModel {
                                    entries: removed(m0.groups[i as int].1.entries, url@),
                                    task: m0.groups[i as int].1.task,
                                };
                                assert(self.groups@ =~= old(self).groups@.update(
                                    i as int,
                                    self.groups@[i as int],
                                ));
                                assert(self@.groups =~= m0.groups.update(i as int, (p, gm)));
                                lemma_remove_preserves_wf(m0, platform, url@);
                            }
                            None
                        }
                    },
                }
            },
        }
    }
}

/// A URL no platform recognizes leaves everything as it was: adding or
/// removing it changes neither the grouping map nor the task counter, and
/// neither spawns nor cancels anything.
pub proof fn lemma_unresolved_noop(m: ActorModel, url: Seq<char>)
    ensures
        add_spec(m, None, url).0 == m,
        add_spec(m, None, url).1 is None,
        remove_spec(m, None, url).0 == m,
        remove_spec(m, None, url).1 is None,
{
}

/// At most one monitor task per platform: the first URL of an ungrouped
/// platform spawns exactly one task and creates exactly one group; any
/// further add for that platform spawns nothing and creates nothing.
pub proof fn lemma_one_task_per_platform(m: ActorModel, p: u64, url1: Seq<char>, url2: Seq<char>)
    requires
        wf_model(m),
        m.next_task < u64::MAX,
    ensures
        !has_group(m.groups, p) ==> (add_spec(m, Some(p), url1).1 == Some(m.next_task)
            && add_spec(m, Some(p), url1).0.groups.len() == m.groups.len() + 1),
        has_group(m.groups, p) ==> (add_spec(m, Some(p), url1).1 is None
            && add_spec(m, Some(p), url1).0.groups.len() == m.groups.len()),
        add_spec(add_spec(m, Some(p), url1).0, Some(p), url2).1 is None,
        add_spec(add_spec(m, Some(p), url1).0, Some(p), url2).0.groups.len() == add_spec(
            m,
            Some(p),
            url1,
        ).0.groups.len(),
{
    lemma_add_preserves_wf(m, Some(p), url1);
}

/// Tearing out a platform's group leaves no group of that platform behind.
proof fn lemma_group_gone(gs: Seq<(u64, GroupModel)>, p: u64)
    requires
        unique_platforms(gs),
        has_group(gs, p),
    ensures
        !has_group(gs.remove(group_index_of(gs, p)), p),
{
    let i = group_index_of(gs, p);
    assert(0 <= i < gs.len() && gs[i].0 == p);
    let t = gs.remove(i);
    assert forall|a: int| 0 <= a < t.len() implies (#[trigger] t[a]).0 != p by {
        if a < i {
            assert(t[a] == gs[a]);
            assert(gs[a].0 != gs[i].0);
        } else {
            assert(t[a] == gs[a + 1]);
            assert(gs[i].0 != gs[a + 1].0);
        }
    }
}

/// Cancellation happens exactly once, and only for the last tracked URL: a
/// remove cancels precisely when the removed URL is tracked and is its
/// group's only entry; it then tears the group down, so a second remove for
/// the same platform finds nothing and cancels nothing.
pub proof fn lemma_cancel_once(m: ActorModel, p: u64, url1: Seq<char>, url2: Seq<char>)
    requires
        wf_model(m),
    ensures
        remove_spec(m, Some(p), url1).1 is Some <==> (url_monitored(m, p, url1)
            && m.groups[group_index_of(m.groups, p)].1.entries.len() <= 1),
        remove_spec(m, Some(p), url1).1 is Some ==> (!has_group(
            remove_spec(m, Some(p), url1).0.groups,
            p,
        ) && remove_spec(remove_spec(m, Some(p), url1).0, Some(p), url2).1 is None),
{
    if remove_spec(m, Some(p), url1).1 is Some {
        assert(has_group(m.groups, p));
        lemma_group_gone(m.groups, p);
    }
}

/// Re-adding a tracked URL resets its status to `Idle` in place: no task is
/// spawned, the grouping map and the registry keep their sizes, the URL's
/// entry becomes `Idle`, and every other entry is untouched.
pub proof fn lemma_readd_resets_status(m: ActorModel, p: u64, url: Seq<char>)
    requires
        wf_model(m),
        m.next_task < u64::MAX,
        url_monitored(m, p, url),
    ensures
        ({
            let m2 = add_spec(m, Some(p), url).0;
            let i = group_index_of(m.groups, p);
            let e = m.groups[i].1.entries;
            let e2 = m2.groups[i].1.entries;
            &&& add_spec(m, Some(p), url).1 is None
            &&& m2.groups.len() == m.groups.len()
            &&& m2.groups[i].0 == p
            &&& e2.len() == e.len()
            &&& e2[key_index_of(e, url)] == (url, StreamStatus::Idle)
            &&& forall|j: int|
                0 <= j < e.len() && j != key_index_of(e, url) ==> #[trigger] e2[j] == e[j]
        }),
{
    let i = group_index_of(m.groups, p);
    assert(0 <= i < m.groups.len() && m.groups[i].0 == p);
    let e = m.groups[i].1.entries;
    let k = key_index_of(e, url);
    assert(0 <= k < e.len() && e[k].0 == url);
}

/// A racing add and remove of the same URL serialize, under the grouping
/// map's writer exclusion, into one of the two orders. Either order leaves a
/// well-formed state — in particular no duplicate group and no leaked task:
/// when the add spawned a task, the remove that follows cancels exactly that
/// task and the grouping map returns to its prior shape. Add-then-remove
/// ends with the URL absent; remove-then-add ends with it present.
pub proof fn lemma_add_remove_race(m: ActorModel, p: u64, url: Seq<char>)
    requires
        wf_model(m),
        m.next_task < u64::MAX,
    ensures
        ({
            let m1 = add_spec(m, Some(p), url).0;
            let m_ar = remove_spec(m1, Some(p), url).0;
            let m_r = remove_spec(m, Some(p), url).0;
            let m_ra = add_spec(m_r, Some(p), url).0;
            &&& wf_model(m_ar)
            &&& wf_model(m_ra)
            &&& !url_monitored(m_ar, p, url)
            &&& url_monitored(m_ra, p, url)
            &&& (!has_group(m.groups, p) ==> (add_spec(m, Some(p), url).1 == Some(m.next_task)
                && remove_spec(m1, Some(p), url).1 == Some(m.next_task) && m_ar.groups
                == m.groups))
        }),
{
    let m1 = add_spec(m, Some(p), url).0;
    let m_ar = remove_spec(m1, Some(p), url).0;
    let m_r = remove_spec(m, Some(p), url).0;
    let m_ra = add_spec(m_r, Some(p), url).0;
    lemma_add_preserves_wf(m, Some(p), url);
    lemma_remove_preserves_wf(m1, Some(p), url);
    lemma_remove_preserves_wf(m, Some(p), url);
    lemma_add_preserves_wf(m_r, Some(p), url);

    // Add then remove: the URL ends absent.
    assert(has_group(m1.groups, p));
    let i1 = group_index_of(m1.groups, p);
    assert(0 <= i1 < m1.groups.len() && m1.groups[i1].0 == p);
    let e1 = m1.groups[i1].1.entries;
    assert(has_key(e1, url)) by {
        if has_group(m.groups, p) {
            let i0 = group_index_of(m.groups, p);
            assert(0 <= i0 < m.groups.len() && m.groups[i0].0 == p);
            lemma_group_index(m1.groups, p, i0);
            crate::cycle::lemma_upsert_unique(m.groups[i0].1.entries, url, StreamStatus::Idle);
        } else {
            lemma_group_index(m1.groups, p, m.groups.len() as int);
            assert(e1 == seq![(url, StreamStatus::Idle)]);
            assert(e1[0].0 == url);
        }
    }
    if e1.len() <= 1 {
        lemma_group_gone(m1.groups, p);
    } else {
        let k1 = key_index_of(e1, url);
        assert(0 <= k1 < e1.len() && e1[k1].0 == url);
        crate::cycle::lemma_swap_removed_unique(e1, k1);
        lemma_group_index(m_ar.groups, p, i1);
        assert(m_ar.groups[i1].1.entries == removed(e1, url));
        assert(!has_key(removed(e1, url), url));
    }

    // Remove then add: the URL ends present.
    if has_group(m_r.groups, p) {
        let ir = group_index_of(m_r.groups, p);
        assert(0 <= ir < m_r.groups.len() && m_r.groups[ir].0 == p);
        crate::cycle::lemma_upsert_unique(m_r.groups[ir].1.entries, url, StreamStatus::Idle);
        lemma_group_index(m_ra.groups, p, ir);
        assert(has_key(m_ra.groups[ir].1.entries, url));
    } else {
        lemma_group_index(m_ra.groups, p, m_r.groups.len() as int);
        let e_new = m_ra.groups[m_r.groups.len() as int].1.entries;
        assert(e_new == seq![(url, StreamStatus::Idle)]);
        assert(e_new[0].0 == url);
        assert(has_key(e_new, url));
    }

    // A spawned task is cancelled by the remove that follows, and the map
    // returns to its prior shape.
    if !has_group(m.groups, p) {
        lemma_group_index(m1.groups, p, m.groups.len() as int);
        assert(m1.groups[m.groups.len() as int].1.entries.len() == 1);
        assert(m_ar.groups =~= m.groups);
    }
}

/// One entry of the initial monitoring list: a URL together with the
/// platform the caller resolved it to, or `None` when no platform recognizes
/// it.
pub struct StreamerSource {
    pub platform: Option<u64>,
    pub url: String,
}

/// Model of a list of sources.
pub open spec fn sources_model(list: Seq<StreamerSource>) -> Seq<(Option<u64>, Seq<char>)> {
    list.map_values(|s: StreamerSource| (s.platform, s.url@))
}

/// The state after bootstrapping a list of sources, first to last.
pub open spec fn run_state(m: ActorModel, list: Seq<(Option<u64>, Seq<char>)>) -> ActorModel
    decreases list.len(),
{
    if list.len() == 0 {
        m
    } else {
        run_state(add_spec(m, list[0].0, list[0].1).0, list.drop_first())
    }
}

/// The task identifiers spawned while bootstrapping a list of sources, in
/// spawn order.
pub open spec fn run_spawns(m: ActorModel, list: Seq<(Option<u64>, Seq<char>)>) -> Seq<u64>
    decreases list.len(),
{
    if list.len() == 0 {
        Seq::<u64>::empty()
    } else {
        let step = add_spec(m, list[0].0, list[0].1);
        let rest = run_spawns(step.0, list.drop_first());
        if step.1 is Some {
            seq![step.1.unwrap()] + rest
        } else {
            rest
        }
    }
}

/// Bootstrapping one more source runs the add on the state the earlier
/// sources left behind.
proof fn lemma_run_snoc(
    m: ActorModel,
    list: Seq<(Option<u64>, Seq<char>)>,
    x: (Option<u64>, Seq<char>),
)
    ensures
        run_state(m, list.push(x)) == add_spec(run_state(m, list), x.0, x.1).0,
        run_spawns(m, list.push(x)) == run_spawns(m, list) + (
        if add_spec(run_state(m, list), x.0, x.1).1 is Some {
            seq![add_spec(run_state(m, list), x.0, x.1).1.unwrap()]
        } else {
            Seq::<u64>::empty()
        }),
    decreases list.len(),
{
    let l2 = list.push(x);
    if list.len() == 0 {
        assert(l2[0] == x);
        assert(l2.drop_first() =~= Seq::<(Option<u64>, Seq<char>)>::empty());
        let step = add_spec(m, x.0, x.1);
        assert(run_state(m, l2) == run_state(step.0, l2.drop_first()));
        assert(run_state(step.0, l2.drop_first()) == step.0);
        assert(run_state(m, list) == m);
        assert(run_spawns(m, list) == Seq::<u64>::empty());
        assert(run_spawns(step.0, l2.drop_first()) == Seq::<u64>::empty());
        assert(run_spawns(m, l2) == (if step.1 is Some {
            seq![step.1.unwrap()]
        } else {
            Seq::<u64>::empty()
        }) + run_spawns(step.0, l2.drop_first()));
        assert(run_spawns(m, l2) =~= run_spawns(m, list) + (if step.1 is Some {
            seq![step.1.unwrap()]
        } else {
            Seq::<u64>::empty()
        }));
    } else {
        assert(l2[0] == list[0]);
        assert(l2.drop_first() =~= list.drop_first().push(x));
        let m2 = add_spec(m, list[0].0, list[0].1).0;
        lemma_run_snoc(m2, list.drop_first(), x);
        assert(run_state(m, l2) == run_state(m2, l2.drop_first()));
        assert(run_state(m, list) == run_state(m2, list.drop_first()));
        let step = add_spec(run_state(m, list), x.0, x.1);
        assert(run_spawns(m, l2) == (if add_spec(m, l2[0].0, l2[0].1).1 is Some {
            seq![add_spec(m, l2[0].0, l2[0].1).1.unwrap()]
        } else {
            Seq::<u64>::empty()
        }) + run_spawns(m2, l2.drop_first()));
        assert(run_spawns(m, list) == (if add_spec(m, list[0].0, list[0].1).1 is Some {
            seq![add_spec(m, list[0].0, list[0].1).1.unwrap()]
        } else {
            Seq::<u64>::empty()
        }) + run_spawns(m2, list.drop_first()));
        assert(run_spawns(m, l2) =~= run_spawns(m, list) + (if step.1 is Some {
            seq![step.1.unwrap()]
        } else {
            Seq::<u64>::empty()
        }));
    }
}

/// Bootstrapping advances the task counter by at most one per source.
proof fn lemma_run_task_bound(m: ActorModel, list: Seq<(Option<u64>, Seq<char>)>)
    requires
        m.next_task + list.len() <= u64::MAX,
    ensures
        run_state(m, list).next_task <= m.next_task + list.len(),
    decreases list.len(),
{
    if list.len() > 0 {
        let m2 = add_spec(m, list[0].0, list[0].1).0;
        assert(m2.next_task <= m.next_task + 1);
        lemma_run_task_bound(m2, list.drop_first());
    }
}

impl DownloadActor {
    /// Bootstrap the initial monitoring list: add every source in order and
    /// return, in spawn order, the task identifiers of the monitor tasks the
    /// caller must spawn — one per platform that appears in the list.
    pub fn run(&mut self, list: Vec<StreamerSource>) -> (spawned: Vec<u64>)
        requires
            old(self).wf(),
            old(self)@.next_task + list@.len() <= u64::MAX,
        ensures
            final(self).wf(),
            final(self)@ == run_state(old(self)@, sources_model(list@)),
            spawned@ == run_spawns(old(self)@, sources_model(list@)),
    {
        let ghost m0 = self@;
        let ghost lm = sources_model(list@);
        let mut spawned: Vec<u64> = Vec::new();
        let mut k: usize = 0;
        proof {
            assert(lm.take(0) =~= Seq::<(Option<u64>, Seq<char>)>::empty());
        }
        while k < list.len()
            invariant
                k <= list.len(),
                lm == sources_model(list@),
                lm.len() == list@.len(),
                m0.next_task + lm.len() <= u64::MAX,
                self.wf(),
                self@ == run_state(m0, lm.take(k as int)),
                spawned@ == run_spawns(m0, lm.take(k as int)),
            decreases list.len() - k,
        {
            proof {
                lemma_run_task_bound(m0, lm.take(k as int));
                lemma_run_snoc(m0, lm.take(k as int), lm[k as int]);
                assert(lm.take(k as int).push(lm[k as int]) =~= lm.take(k + 1));
            }
            let source = &list[k];
            let sp = self.add_streamer(source.platform, source.url.as_str());
            if let Some(t) = sp {
                spawned.push(t);
            }
            proof {
                assert(spawned@ =~= run_spawns(m0, lm.take(k + 1)));
            }
            k = k + 1;
        }
        proof {
            assert(lm.take(list@.len() as int) =~= lm);
        }
        spawned
    }

    /// The identifier the next spawned task will get — equally, how many
    /// tasks have ever been spawned.
    pub fn next_task_id(&self) -> (t: u64)
        ensures
            t == self@.next_task,
    {
        self.next_task
    }

    /// The number of platform groups currently held — one monitor task each.
    pub fn platform_count(&self) -> (n: usize)
        ensures
            n == self@.groups.len(),
    {
        self.groups.len()
    }

    /// The number of URLs in platform `p`'s registry, or `None` if the
    /// platform has no group.
    pub fn group_size(&self, p: u64) -> (r: Option<usize>)
        requires
            self.wf(),
        ensures
            match r {
                Some(n) => has_group(self@.groups, p) && n == self@.groups[group_index_of(
                    self@.groups,
                    p,
                )].1.entries.len(),
                None => !has_group(self@.groups, p),
            },
    {
        match self.find_group_index(p) {
            Some(i) => {
                proof {
                    lemma_group_index(self@.groups, p, i as int);
                }
                Some(self.groups[i].1.cycle.len())
            },
            None => None,
        }
    }

    /// The identifier of the monitor task bound to platform `p`'s group, or
    /// `None` if the platform has no group.
    pub fn task_of(&self, p: u64) -> (r: Option<u64>)
        requires
            self.wf(),
        ensures
            match r {
                Some(t) => has_group(self@.groups, p) && t == self@.groups[group_index_of(
                    self@.groups,
                    p,
                )].1.task,
                None => !has_group(self@.groups, p),
            },
    {
        match self.find_group_index(p) {
            Some(i) => {
                proof {
                    lemma_group_index(self@.groups, p, i as int);
                }
                Some(self.groups[i].1.task)
            },
            None => None,
        }
    }

    /// Pick the next URL to poll in platform `p`'s group: the cursor advances
    /// one position round-robin, wrapping around, and the entry it lands on
    /// comes back. `None`, with the cursor untouched, when the platform has
    /// no group (its task has been torn down).
    pub fn poll_next(&self, p: u64, cursor: &mut usize) -> (r: Option<(String, StreamStatus)>)
        requires
            self.wf(),
        ensures
            has_group(self@.groups, p) ==> (r is Some && {
                let e = self@.groups[group_index_of(self@.groups, p)].1.entries;
                &&& *final(cursor) == (*old(cursor) + 1) % (e.len() as int)
                &&& r.unwrap().0@ == e[*final(cursor) as int].0
                &&& r.unwrap().1 == e[*final(cursor) as int].1
            }),
            !has_group(self@.groups, p) ==> r is None && *final(cursor) == *old(cursor),
    {
        match self.find_group_index(p) {
            Some(i) => {
                proof {
                    lemma_group_index(self@.groups, p, i as int);
                }
                Some(self.groups[i].1.cycle.get(cursor))
            },
            None => None,
        }
    }

    /// Write back one inspection result for `url` in platform `p`'s group,
    /// as `apply_inspection` does on the group's registry; a platform whose
    /// group has been torn down in the meantime changes nothing.
    pub fn record_inspection(&mut self, p: u64, url: &str, observed: StreamStatus, live: bool)
        requires
            old(self).wf(),
        ensures
            final(self).wf(),
            !has_group(old(self)@.groups, p) ==> final(self)@ == old(self)@,
            has_group(old(self)@.groups, p) ==> {
                let i = group_index_of(old(self)@.groups, p);
                let g = old(self)@.groups[i].1;
                final(self)@ == ActorModel {
                    groups: old(self)@.groups.update(
                        i,
                        (
                            p,
                            GroupModel {
                                entries: inspected(g.entries, url@, observed, live),
                                task: g.task,
                            },
                        ),
                    ),
                    next_task: old(self)@.next_task,
                }
            },
    {
        let ghost m0 = self@;
        match self.find_group_index(p) {
            None => (),
            Some(i) => {
                proof {
                    lemma_group_index(m0.groups, p, i as int);
                }
                let mut g = self.groups.remove(i);
                apply_inspection(&mut g.1.cycle, url, observed, live);
                self.groups.insert(i, g);
                proof {
                    let gm = GroupModel {
                        entries: inspected(m0.groups[i as int].1.entries, url@, observed, live),
                        task: m0.groups[i as int].1.task,
                    };
                    assert(self.groups@ =~= old(self).groups@.update(
                        i as int,
                        self.groups@[i as int],
                    ));
                    assert(self@.groups =~= m0.groups.update(i as int, (p, gm)));
                    assert forall|a: int|
                        0 <= a < self@.groups.len() implies unique_keys(
                        (#[trigger] self@.groups[a]).1.entries,
                    ) && self@.groups[a].1.entries.len() >= 1 && self@.groups[a].0 == m0.groups[a].0
                        && self@.groups[a].1.task == m0.groups[a].1.task by {
                        if a == i as int {
                            let e = m0.groups[a].1.entries;
                            if next_status(observed, live) != observed && has_key(e, url@) {
                                crate::cycle::lemma_upsert_unique(
                                    e,
                                    url@,
                                    next_status(observed, live),
                                );
                                if has_key(e, url@) {
                                    assert(upsert(e, url@, next_status(observed, live)).len()
                                        == e.len());
                                }
                            }
                        }
                    }
                }
            },
        }
    }

    /// The current status of `url` in platform `p`'s registry, or `None` if
    /// the platform has no group or the URL is not tracked there.
    pub fn status_in_group(&self, p: u64, url: &str) -> (r: Option<StreamStatus>)
        requires
            self.wf(),
        ensures
            url_monitored(self@, p, url@) ==> r == Some(
                self@.groups[group_index_of(self@.groups, p)].1.entries[key_index_of(
                    self@.groups[group_index_of(self@.groups, p)].1.entries,
                    url@,
                )].1,
            ),
            !url_monitored(self@, p, url@) ==> r is None,
    {
        match self.find_group_index(p) {
            Some(i) => {
                proof {
                    lemma_group_index(self@.groups, p, i as int);
                }
                self.groups[i].1.cycle.status_of(url)
            },
            None => None,
        }
    }
}

/// The registry entries after writing back one inspection result observed
/// for `url` while its status was `observed`: when the poll changes the
/// status and the URL is still tracked, its entry is overwritten in place;
/// otherwise — a poll that changes nothing, or a URL removed while the
/// inspection was in flight — the entries stay as they were. The write-back
/// of a removed URL is suppressed rather than re-inserting a stale entry.
pub open spec fn inspected(
    e: Seq<(Seq<char>, StreamStatus)>,
    url: Seq<char>,
    observed: StreamStatus,
    live: bool,
) -> Seq<(Seq<char>, StreamStatus)> {
    if next_status(observed, live) != observed && has_key(e, url) {
        upsert(e, url, next_status(observed, live))
    } else {
        e
    }
}

/// Write back one inspection result observed for `url` while its status was
/// `observed`: a stream seen live while `Idle` becomes `Downloading`,
/// provided the URL is still tracked; every other outcome — a failed
/// inspection, or a live stream in any other state — changes nothing.
pub fn apply_inspection(registry: &mut Cycle, url: &str, observed: StreamStatus, live: bool)
    requires
        old(registry).wf(),
    ensures
        final(registry).wf(),
        final(registry)@ == inspected(old(registry)@, url@, observed, live),
{
    if live {
        match observed {
            StreamStatus::Idle => {
                match registry.status_of(url) {
                    Some(_) => registry.insert(url, StreamStatus::Downloading),
                    None => (),
                }
            },
            _ => (),
        }
    }
}

} // verus!
