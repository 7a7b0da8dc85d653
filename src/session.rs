//! Per-run session state: the tasks and queues of this run and their shutdown
//! markers.
#![allow(non_snake_case)]

use vstd::prelude::*;
use crate::text::{clone_text, opt_view, same_text, texts};

verus! {

/// A task of this run.
pub struct SingleRow {
    pub gid: String,
    pub status: String,
    pub shutdown: Option<String>,
}

/// A queue (category) of this run.
pub struct QueueRow {
    pub category: String,
    pub shutdown: Option<String>,
}

/// Task rows as (task identifier, status, shutdown marker).
pub open spec fn single_views(s: Seq<SingleRow>) -> Seq<(Seq<char>, Seq<char>, Option<Seq<char>>)> {
    s.map_values(|r: SingleRow| (r.gid@, r.status@, opt_view(r.shutdown)))
}

/// Queue rows as (category, shutdown marker).
pub open spec fn queue_views(s: Seq<QueueRow>) -> Seq<(Seq<char>, Option<Seq<char>>)> {
    s.map_values(|r: QueueRow| (r.category@, opt_view(r.shutdown)))
}

/// Whether a task row with that identifier exists.
pub open spec fn has_single(s: Seq<(Seq<char>, Seq<char>, Option<Seq<char>>)>, g: Seq<char>) -> bool {
    exists|i: int| 0 <= i < s.len() && #[trigger] s[i].0 == g
}

/// Whether a queue row with that category exists.
pub open spec fn has_queue(s: Seq<(Seq<char>, Option<Seq<char>>)>, c: Seq<char>) -> bool {
    exists|i: int| 0 <= i < s.len() && #[trigger] s[i].0 == c
}

/// Task identifiers are unique.
pub open spec fn unique_singles(s: Seq<(Seq<char>, Seq<char>, Option<Seq<char>>)>) -> bool {
    forall|i: int, j: int| 0 <= i < j < s.len() ==> #[trigger] s[i].0 != #[trigger] s[j].0
}

/// Categories are unique.
pub open spec fn unique_queues(s: Seq<(Seq<char>, Option<Seq<char>>)>) -> bool {
    forall|i: int, j: int| 0 <= i < j < s.len() ==> #[trigger] s[i].0 != #[trigger] s[j].0
}

/// Session tables, held in memory for one run.
pub struct TempDB {
    single: Vec<SingleRow>,
    queue: Vec<QueueRow>,
}

impl TempDB {
    pub closed spec fn singles(&self) -> Seq<(Seq<char>, Seq<char>, Option<Seq<char>>)> {
        single_views(self.single@)
    }

    pub closed spec fn queues(&self) -> Seq<(Seq<char>, Option<Seq<char>>)> {
        queue_views(self.queue@)
    }

    /// Task identifiers and categories are unique.
    pub open spec fn wf(&self) -> bool {
        unique_singles(self.singles()) && unique_queues(self.queues())
    }

    /// Empty session tables.
    pub fn new() -> (r: TempDB)
        ensures
            r.wf(),
            r.singles().len() == 0,
            r.queues().len() == 0,
    {
        TempDB { single: Vec::new(), queue: Vec::new() }
    }

    fn single_index(&self, gid: &str) -> (r: Option<usize>)
        ensures
            match r {
                Some(i) => i < self.single.len() && self.singles()[i as int].0 == gid@,
                None => !has_single(self.singles(), gid@),
            },
    {
        let mut i: usize = 0;
        while i < self.single.len()
            invariant
                i <= self.single.len(),
                forall|j: int| 0 <= j < i ==> self.singles()[j].0 != gid@,
            decreases self.single.len() - i,
        {
            if same_text(self.single[i].gid.as_str(), gid) {
                return Some(i);
            }
            i = i + 1;
        }
        None
    }

    fn queue_index(&self, category: &str) -> (r: Option<usize>)
        ensures
            match r {
                Some(i) => i < self.queue.len() && self.queues()[i as int].0 == category@,
                None => !has_queue(self.queues(), category@),
            },
    {
        let mut i: usize = 0;
        while i < self.queue.len()
            invariant
                i <= self.queue.len(),
                forall|j: int| 0 <= j < i ==> self.queues()[j].0 != category@,
            decreases self.queue.len() - i,
        {
            if same_text(self.queue[i].category.as_str(), category) {
                return Some(i);
            }
            i = i + 1;
        }
        None
    }

    /// Records a task of this run as "active" with no shutdown marker; `false`,
    /// and nothing changes, where the task is already recorded.
    pub fn insertInSingleTable(&mut self, gid: &str) -> (r: bool)
        requires
            old(self).wf(),
        ensures
            final(self).wf(),
            r == !has_single(old(self).singles(), gid@),
            final(self).singles() == (if r { old(self).singles().push((gid@, "active"@, None)) } else { old(self).singles() }),
            final(self).queues() == old(self).queues(),
    {
        if self.single_index(gid).is_some() {
            return false;
        }
        proof {
            reveal_strlit("active");
        }
        let ghost before = self.singles();
        self.single.push(SingleRow { gid: String::from_str(gid), status: String::from_str("active"), shutdown: None });
        assert(self.singles() =~= before.push((gid@, "active"@, None)));
        assert forall|i: int, j: int| 0 <= i < j < self.singles().len() implies #[trigger] self.singles()[i].0 != #[trigger] self.singles()[j].0 by {
            if j < before.len() {
                assert(self.singles()[j] == before[j]);
            }
            assert(self.singles()[i] == before[i]);
        }
        true
    }

    /// Records a queue of this run with no shutdown marker; `false`, and nothing
    /// changes, where it is already recorded.
    pub fn insertInQueueTable(&mut self, category: &str) -> (r: bool)
        requires
            old(self).wf(),
        ensures
            final(self).wf(),
            r == !has_queue(old(self).queues(), category@),
            final(self).queues() == (if r { old(self).queues().push((category@, None)) } else { old(self).queues() }),
            final(self).singles() == old(self).singles(),
    {
        if self.queue_index(category).is_some() {
            return false;
        }
        let ghost before = self.queues();
        self.queue.push(QueueRow { category: String::from_str(category), shutdown: None });
        assert(self.queues() =~= before.push((category@, None)));
        assert forall|i: int, j: int| 0 <= i < j < self.queues().len() implies #[trigger] self.queues()[i].0 != #[trigger] self.queues()[j].0 by {
            if j < before.len() {
                assert(self.queues()[j] == before[j]);
            }
            assert(self.queues()[i] == before[i]);
        }
        true
    }

    /// Sets the shutdown marker and the status of a task, each where supplied.
    pub fn updateSingleTable(&mut self, gid: &str, shutdown: Option<String>, status: Option<String>)
        requires
            old(self).wf(),
        ensures
            final(self).wf(),
            final(self).singles() == old(self).singles().map_values(
                |r: (Seq<char>, Seq<char>, Option<Seq<char>>)| if r.0 == gid@ {
                    (
                        r.0,
                        match opt_view(status) { Some(s) => s, None => r.1 },
                        if opt_view(shutdown).is_some() { opt_view(shutdown) } else { r.2 },
                    )
                } else {
                    r
                },
            ),
            final(self).queues() == old(self).queues(),
    {
        let ghost start = self.singles();
        let ghost target = start.map_values(
            |r: (Seq<char>, Seq<char>, Option<Seq<char>>)| if r.0 == gid@ {
                (
                    r.0,
                    match opt_view(status) { Some(s) => s, None => r.1 },
                    if opt_view(shutdown).is_some() { opt_view(shutdown) } else { r.2 },
                )
            } else {
                r
            },
        );
        match self.single_index(gid) {
            None => {
                assert(self.singles() =~= target);
            },
            Some(i) => {
                let ghost before = self.single@;
                match &status {
                    Some(s) => {
                        self.single[i].status = s.clone();
                    },
                    None => {},
                }
                if shutdown.is_some() {
                    self.single[i].shutdown = clone_text(&shutdown);
                }
                assert forall|j: int| 0 <= j < start.len() implies #[trigger] self.singles()[j] == target[j] by {
                    if j != i {
                        assert(self.single@[j] == before[j]);
                        assert(start[j].0 != gid@);
                    }
                }
                assert(self.singles() =~= target);
            },
        }
        assert forall|i: int, j: int| 0 <= i < j < self.singles().len() implies #[trigger] self.singles()[i].0 != #[trigger] self.singles()[j].0 by {
            assert(self.singles()[i].0 == start[i].0);
            assert(self.singles()[j].0 == start[j].0);
        }
    }

    /// Sets the shutdown marker of a queue where one is supplied.
    pub fn updateQueueTable(&mut self, category: &str, shutdown: Option<String>)
        requires
            old(self).wf(),
        ensures
            final(self).wf(),
            final(self).queues() == old(self).queues().map_values(
                |r: (Seq<char>, Option<Seq<char>>)| if r.0 == category@ && opt_view(shutdown).is_some() {
                    (r.0, opt_view(shutdown))
                } else {
                    r
                },
            ),
            final(self).singles() == old(self).singles(),
    {
        let ghost start = self.queues();
        let ghost target = start.map_values(
            |r: (Seq<char>, Option<Seq<char>>)| if r.0 == category@ && opt_view(shutdown).is_some() {
                (r.0, opt_view(shutdown))
            } else {
                r
            },
        );
        match self.queue_index(category) {
            Some(i) => {
                if shutdown.is_some() {
                    let ghost before = self.queue@;
                    self.queue[i].shutdown = clone_text(&shutdown);
                    assert forall|j: int| 0 <= j < start.len() implies #[trigger] self.queues()[j] == target[j] by {
                        if j != i {
                            assert(self.queue@[j] == before[j]);
                            assert(start[j].0 != category@);
                        }
                    }
                }
                assert(self.queues() =~= target);
            },
            None => {
                assert(self.queues() =~= target);
            },
        }
        assert forall|i: int, j: int| 0 <= i < j < self.queues().len() implies #[trigger] self.queues()[i].0 != #[trigger] self.queues()[j].0 by {
            assert(self.queues()[i].0 == start[i].0);
            assert(self.queues()[j].0 == start[j].0);
        }
    }

    /// Identifiers of the tasks of this run whose status is "active", in order.
    pub fn returnActiveGids(&self) -> (r: Vec<String>)
        ensures
            texts(r@) == self.singles().filter(
                |x: (Seq<char>, Seq<char>, Option<Seq<char>>)| x.1 == "active"@,
            ).map_values(|x: (Seq<char>, Seq<char>, Option<Seq<char>>)| x.0),
    {
        proof {
            reveal_strlit("active");
        }
        let ghost p = |x: (Seq<char>, Seq<char>, Option<Seq<char>>)| x.1 == "active"@;
        let ghost s = self.singles();
        let mut r: Vec<String> = Vec::new();
        let mut i: usize = 0;
        while i < self.single.len()
            invariant
                i <= self.single.len(),
                s == self.singles(),
                p == (|x: (Seq<char>, Seq<char>, Option<Seq<char>>)| x.1 == "active"@),
                texts(r@) == s.subrange(0, i as int).filter(p).map_values(|x: (Seq<char>, Seq<char>, Option<Seq<char>>)| x.0),
            decreases self.single.len() - i,
        {
            proof {
                reveal(Seq::filter);
                assert(s.subrange(0, i as int + 1).drop_last() =~= s.subrange(0, i as int));
            }
            if same_text(self.single[i].status.as_str(), "active") {
                let ghost before = r@;
                r.push(self.single[i].gid.clone());
                assert(r@ == before.push(r@[r@.len() - 1]));
                assert(texts(r@) =~= texts(before).push(s[i as int].0));
                assert(texts(r@) =~= s.subrange(0, i as int).filter(p).push(s[i as int]).map_values(|x: (Seq<char>, Seq<char>, Option<Seq<char>>)| x.0));
            }
            i = i + 1;
        }
        assert(s.subrange(0, i as int) =~= s);
        r
    }

    /// Shutdown marker and status of a task of this run.
    pub fn returnGid(&self, gid: &str) -> (r: Option<(Option<String>, String)>)
        ensures
            match r {
                Some((sd, st)) => exists|k: int|
                    0 <= k < self.singles().len() && #[trigger] self.singles()[k] == (gid@, st@, opt_view(sd)),
                None => !has_single(self.singles(), gid@),
            },
    {
        match self.single_index(gid) {
            Some(i) => {
                let sd = clone_text(&self.single[i].shutdown);
                let st = self.single[i].status.clone();
                assert(self.singles()[i as int] == (gid@, st@, opt_view(sd)));
                Some((sd, st))
            },
            None => None,
        }
    }

    /// Shutdown marker of a queue of this run.
    pub fn returnCategory(&self, category: &str) -> (r: Option<Option<String>>)
        ensures
            match r {
                Some(sd) => exists|k: int|
                    0 <= k < self.queues().len() && #[trigger] self.queues()[k] == (category@, opt_view(sd)),
                None => !has_queue(self.queues(), category@),
            },
    {
        match self.queue_index(category) {
            Some(i) => {
                let sd = clone_text(&self.queue[i].shutdown);
                assert(self.queues()[i as int] == (category@, opt_view(sd)));
                Some(sd)
            },
            None => None,
        }
    }

    /// Forgets every task and queue of this run.
    pub fn resetDataBase(&mut self)
        ensures
            final(self).wf(),
            final(self).singles().len() == 0,
            final(self).queues().len() == 0,
    {
        self.single = Vec::new();
        self.queue = Vec::new();
    }
}

} // verus!
