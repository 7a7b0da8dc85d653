//! Links handed over by browser plugins: a queue whose consumer takes each new
//! link once, after which it is old and can be purged.
#![allow(non_snake_case)]

use vstd::prelude::*;

verus! {

/// A link submitted by a browser plugin, with what the browser knew of it.
pub struct PluginLink {
    pub link: String,
    pub referer: String,
    pub load_cookies: String,
    pub user_agent: String,
    pub header: String,
    pub out: String,
}

pub struct PluginLinkView {
    pub link: Seq<char>,
    pub referer: Seq<char>,
    pub load_cookies: Seq<char>,
    pub user_agent: Seq<char>,
    pub header: Seq<char>,
    pub out: Seq<char>,
}

impl View for PluginLink {
    type V = PluginLinkView;

    open spec fn view(&self) -> PluginLinkView {
        PluginLinkView {
            link: self.link@,
            referer: self.referer@,
            load_cookies: self.load_cookies@,
            user_agent: self.user_agent@,
            header: self.header@,
            out: self.out@,
        }
    }
}

impl PluginLink {
    /// A copy of the link.
    pub fn copy(&self) -> (r: PluginLink)
        ensures
            r@ == self@,
    {
        PluginLink {
            link: self.link.clone(),
            referer: self.referer.clone(),
            load_cookies: self.load_cookies.clone(),
            user_agent: self.user_agent.clone(),
            header: self.header.clone(),
            out: self.out.clone(),
        }
    }
}

/// A queued link and whether it is new (not yet taken).
pub struct PluginRow {
    pub link: PluginLink,
    pub fresh: bool,
}

/// Queue rows as (link, new).
pub open spec fn row_views(s: Seq<PluginRow>) -> Seq<(PluginLinkView, bool)> {
    s.map_values(|r: PluginRow| (r.link@, r.fresh))
}

/// The new links, in the order they came.
pub open spec fn new_links(rows: Seq<(PluginLinkView, bool)>) -> Seq<PluginLinkView> {
    rows.filter(|r: (PluginLinkView, bool)| r.1).map_values(|r: (PluginLinkView, bool)| r.0)
}

/// Every row marked old.
pub open spec fn all_old(rows: Seq<(PluginLinkView, bool)>) -> Seq<(PluginLinkView, bool)> {
    rows.map_values(|r: (PluginLinkView, bool)| (r.0, false))
}

/// The queue of plugin links.
pub struct PluginsDB {
    rows: Vec<PluginRow>,
}

impl PluginsDB {
    pub closed spec fn queued(&self) -> Seq<(PluginLinkView, bool)> {
        row_views(self.rows@)
    }

    /// An empty queue.
    pub fn new() -> (r: PluginsDB)
        ensures
            r.queued().len() == 0,
    {
        PluginsDB { rows: Vec::new() }
    }

    /// Queues links, in order, each new.
    pub fn insertInPluginsTable(&mut self, list: Vec<PluginLink>)
        ensures
            final(self).queued() == old(self).queued() + list@.map_values(|l: PluginLink| (l@, true)),
    {
        let ghost start = self.queued();
        let mut i: usize = 0;
        while i < list.len()
            invariant
                i <= list.len(),
                self.queued() == start + list@.subrange(0, i as int).map_values(|l: PluginLink| (l@, true)),
            decreases list.len() - i,
        {
            let ghost before_q = self.queued();
            let ghost before = self.rows@;
            self.rows.push(PluginRow { link: list[i].copy(), fresh: true });
            assert(self.rows@ == before.push(self.rows@[self.rows@.len() - 1]));
            assert(self.queued() =~= before_q.push((list@[i as int]@, true)));
            assert(list@.subrange(0, i as int + 1).map_values(|l: PluginLink| (l@, true))
                =~= list@.subrange(0, i as int).map_values(|l: PluginLink| (l@, true)).push((list@[i as int]@, true)));
            i = i + 1;
        }
        assert(list@.subrange(0, i as int) =~= list@);
    }

    /// Takes the new links, in the order they came, and marks every link old.
    pub fn returnNewLinks(&mut self) -> (r: Vec<PluginLink>)
        ensures
            r@.map_values(|l: PluginLink| l@) == new_links(old(self).queued()),
            final(self).queued() == all_old(old(self).queued()),
    {
        let ghost start = self.queued();
        let ghost p = |r: (PluginLinkView, bool)| r.1;
        let mut r: Vec<PluginLink> = Vec::new();
        let mut i: usize = 0;
        while i < self.rows.len()
            invariant
                i <= self.rows.len() == start.len(),
                p == (|r: (PluginLinkView, bool)| r.1),
                r@.map_values(|l: PluginLink| l@) == start.subrange(0, i as int).filter(p).map_values(|r: (PluginLinkView, bool)| r.0),
                forall|j: int| 0 <= j < i ==> self.queued()[j] == (start[j].0, false),
                forall|j: int| i <= j < self.rows.len() ==> self.queued()[j] == start[j],
            decreases self.rows.len() - i,
        {
            proof {
                reveal(Seq::filter);
                assert(start.subrange(0, i as int + 1).drop_last() =~= start.subrange(0, i as int));
            }
            let ghost before = self.rows@;
            let ghost before_q = self.queued();
            let ghost before_r = r@;
            assert(before_q[i as int] == start[i as int]);
            if self.rows[i].fresh {
                r.push(self.rows[i].link.copy());
                assert(r@ == before_r.push(r@[r@.len() - 1]));
                assert(r@.map_values(|l: PluginLink| l@) =~= before_r.map_values(|l: PluginLink| l@).push(start[i as int].0));
                assert(r@.map_values(|l: PluginLink| l@) =~= start.subrange(0, i as int).filter(p).push(start[i as int]).map_values(|r: (PluginLinkView, bool)| r.0));
            }
            self.rows[i].fresh = false;
            assert forall|j: int| 0 <= j < i + 1 implies self.queued()[j] == (start[j].0, false) by {
                if j < i {
                    assert(self.rows@[j] == before[j]);
                    assert(before_q[j] == (start[j].0, false));
                }
            }
            assert forall|j: int| i + 1 <= j < self.rows.len() implies self.queued()[j] == start[j] by {
                assert(self.rows@[j] == before[j]);
                assert(before_q[j] == start[j]);
            }
            i = i + 1;
        }
        assert(start.subrange(0, i as int) =~= start);
        assert(self.queued() =~= all_old(start));
        r
    }

    /// Drops the links already taken.
    pub fn deleteOldLinks(&mut self)
        ensures
            final(self).queued() == old(self).queued().filter(|r: (PluginLinkView, bool)| r.1),
    {
        let ghost start = self.queued();
        let ghost p = |r: (PluginLinkView, bool)| r.1;
        let mut kept: Vec<PluginRow> = Vec::new();
        let mut i: usize = 0;
        while i < self.rows.len()
            invariant
                i <= self.rows.len(),
                start == self.queued(),
                p == (|r: (PluginLinkView, bool)| r.1),
                row_views(kept@) == start.subrange(0, i as int).filter(p),
            decreases self.rows.len() - i,
        {
            proof {
                reveal(Seq::filter);
                assert(start.subrange(0, i as int + 1).drop_last() =~= start.subrange(0, i as int));
            }
            if self.rows[i].fresh {
                kept.push(PluginRow { link: self.rows[i].link.copy(), fresh: true });
                assert(row_views(kept@) =~= start.subrange(0, i as int).filter(p).push(start[i as int]));
            }
            i = i + 1;
        }
        assert(start.subrange(0, i as int) =~= start);
        self.rows = kept;
    }
}

/// A link is handed out at most once: right after the new links are taken,
/// taking them again yields nothing.
pub proof fn lemma_taken_once(rows: Seq<(PluginLinkView, bool)>)
    ensures
        new_links(all_old(rows)).len() == 0,
{
    let p = |r: (PluginLinkView, bool)| r.1;
    let o = all_old(rows);
    assert forall|i: int| 0 <= i < o.len() implies !p(o[i]) by {}
    o.lemma_all_neg_filter_empty(p);
}

} // verus!
