//! The download store: categories, download items, queued link requests and
//! audio/video pairs, with their keys and references kept consistent.
#![allow(non_snake_case)]

use vstd::prelude::*;
use crate::rows::{
    Category, CategoryPatch, CategoryPatchView, CategoryView, DownloadItem, DownloadItemPatch,
    DownloadItemPatchView, DownloadItemView, LinkRequest, LinkRequestPatch, LinkRequestPatchView,
    LinkRequestView, VideoAudioPair, VideoAudioPairPatch, VideoAudioPairPatchView,
    VideoAudioPairView,
};
use crate::scheduler::{member_views, MemberStatus};
use crate::text::{opt_view, replace_text, replaced, same_text, texts};

verus! {

broadcast use vstd::seq_lib::group_seq_properties;

/// The store as values.
pub struct StoreView {
    pub categories: Seq<CategoryView>,
    pub downloads: Seq<DownloadItemView>,
    pub links: Seq<LinkRequestView>,
    pub pairs: Seq<VideoAudioPairView>,
}

/// Whether a category of that name exists.
pub open spec fn has_category(cats: Seq<CategoryView>, n: Seq<char>) -> bool {
    exists|i: int| 0 <= i < cats.len() && #[trigger] cats[i].category == n
}

/// Whether a download item with that task identifier exists.
pub open spec fn has_download(ds: Seq<DownloadItemView>, g: Seq<char>) -> bool {
    exists|i: int| 0 <= i < ds.len() && #[trigger] ds[i].gid == g
}

/// The categories that always exist.
pub open spec fn is_builtin(n: Seq<char>) -> bool {
    n == "All Downloads"@ || n == "Single Downloads"@ || n == "Scheduled Downloads"@
}

/// Category names are unique.
pub open spec fn unique_names(cats: Seq<CategoryView>) -> bool {
    forall|i: int, j: int|
        0 <= i < j < cats.len() ==> #[trigger] cats[i].category != #[trigger] cats[j].category
}

/// Task identifiers of download items are unique.
pub open spec fn unique_gids(ds: Seq<DownloadItemView>) -> bool {
    forall|i: int, j: int| 0 <= i < j < ds.len() ==> #[trigger] ds[i].gid != #[trigger] ds[j].gid
}

/// Every download item's category exists.
pub open spec fn owners_exist(v: StoreView) -> bool {
    forall|i: int| 0 <= i < v.downloads.len() ==> has_category(v.categories, #[trigger] v.downloads[i].category)
}

/// Every link request with a task identifier refers to an existing download item.
pub open spec fn links_refer(v: StoreView) -> bool {
    forall|i: int|
        0 <= i < v.links.len() && (#[trigger] v.links[i]).gid.is_some() ==> has_download(
            v.downloads,
            v.links[i].gid.unwrap(),
        )
}

/// Both tasks of every audio/video pair are existing download items.
pub open spec fn pairs_refer(v: StoreView) -> bool {
    forall|i: int|
        0 <= i < v.pairs.len() ==> has_download(v.downloads, (#[trigger] v.pairs[i]).video_gid)
            && has_download(v.downloads, v.pairs[i].audio_gid)
}

/// The store's invariant: unique keys, the built-in categories present, and every
/// reference naming an existing row.
pub open spec fn store_wf(v: StoreView) -> bool {
    &&& unique_names(v.categories)
    &&& unique_gids(v.downloads)
    &&& has_category(v.categories, "All Downloads"@)
    &&& has_category(v.categories, "Single Downloads"@)
    &&& has_category(v.categories, "Scheduled Downloads"@)
    &&& owners_exist(v)
    &&& links_refer(v)
    &&& pairs_refer(v)
}

/// A built-in category as first created: no window, no limit, no members.
pub open spec fn default_category(n: Seq<char>) -> CategoryView {
    CategoryView {
        category: n,
        start_time_enable: "no"@,
        start_time: "0:0"@,
        end_time_enable: "no"@,
        end_time: "no"@,
        reverse: "no"@,
        limit_enable: "no"@,
        limit_value: "OK"@,
        after_download: "no"@,
        gid_list: Seq::empty(),
    }
}

/// Adds one download item, unless its task identifier is taken or its category
/// does not exist.
pub open spec fn insert_download(v: StoreView, d: DownloadItemView) -> StoreView {
    if !has_download(v.downloads, d.gid) && has_category(v.categories, d.category) {
        StoreView { downloads: v.downloads.push(d), ..v }
    } else {
        v
    }
}

/// Adds download items in order (see `insert_download`).
pub open spec fn insert_downloads(v: StoreView, ds: Seq<DownloadItemView>) -> StoreView
    decreases ds.len(),
{
    if ds.len() == 0 {
        v
    } else {
        insert_download(insert_downloads(v, ds.drop_last()), ds.last())
    }
}

/// Task identifiers of the download items of category `n`, in table order.
pub open spec fn owned_gids(ds: Seq<DownloadItemView>, n: Seq<char>) -> Seq<Seq<char>> {
    ds.filter(|d: DownloadItemView| d.category == n).map_values(|d: DownloadItemView| d.gid)
}

/// A category with the given task identifiers taken out of its member list.
pub open spec fn without_members(c: CategoryView, gone: Seq<Seq<char>>) -> CategoryView {
    CategoryView { gid_list: c.gid_list.filter(|g: Seq<char>| !gone.contains(g)), ..c }
}

/// Whether a link request refers to one of the given task identifiers.
pub open spec fn link_hit(l: LinkRequestView, gone: Seq<Seq<char>>) -> bool {
    l.gid.is_some() && gone.contains(l.gid.unwrap())
}

/// Whether a pair refers to one of the given task identifiers.
pub open spec fn pair_hit(p: VideoAudioPairView, gone: Seq<Seq<char>>) -> bool {
    gone.contains(p.video_gid) || gone.contains(p.audio_gid)
}

/// Deletes the download items with the given task identifiers, with the link
/// requests and pairs that refer to them, and takes them out of every member list.
pub open spec fn remove_tasks(v: StoreView, gone: Seq<Seq<char>>) -> StoreView {
    StoreView {
        categories: v.categories.map_values(|c: CategoryView| without_members(c, gone)),
        downloads: v.downloads.filter(|d: DownloadItemView| !gone.contains(d.gid)),
        links: v.links.filter(|l: LinkRequestView| !link_hit(l, gone)),
        pairs: v.pairs.filter(|p: VideoAudioPairView| !pair_hit(p, gone)),
    }
}

/// Deletes category `n` with its download items (and what refers to those).
pub open spec fn delete_category(v: StoreView, n: Seq<char>) -> StoreView {
    let w = remove_tasks(v, owned_gids(v.downloads, n));
    StoreView { categories: w.categories.filter(|c: CategoryView| c.category != n), ..w }
}

/// Deletes the download item `g` (and what refers to it).
pub open spec fn delete_download(v: StoreView, g: Seq<char>) -> StoreView {
    remove_tasks(v, seq![g])
}

proof fn lemma_filter_step<A>(s: Seq<A>, i: int, p: spec_fn(A) -> bool)
    requires
        0 <= i < s.len(),
    ensures
        s.subrange(0, i + 1).filter(p) == (if p(s[i]) {
            s.subrange(0, i).filter(p).push(s[i])
        } else {
            s.subrange(0, i).filter(p)
        }),
{
    reveal(Seq::filter);
    assert(s.subrange(0, i + 1).drop_last() =~= s.subrange(0, i));
}

proof fn lemma_filter_keeps<A>(s: Seq<A>, p: spec_fn(A) -> bool, i: int)
    requires
        0 <= i < s.len(),
        p(s[i]),
    ensures
        s.filter(p).contains(s[i]),
{
    s.lemma_filter_contains(p, i);
}

proof fn lemma_filter_from<A>(s: Seq<A>, p: spec_fn(A) -> bool, i: int)
    requires
        0 <= i < s.filter(p).len(),
    ensures
        s.contains(s.filter(p)[i]),
        p(s.filter(p)[i]),
{
    s.lemma_filter_pred(p, i);
    assert(s.filter(p).contains(s.filter(p)[i]));
    s.lemma_filter_contains_rev(p, s.filter(p)[i]);
}

proof fn lemma_filter_unique_gids(ds: Seq<DownloadItemView>, p: spec_fn(DownloadItemView) -> bool)
    requires
        unique_gids(ds),
    ensures
        unique_gids(ds.filter(p)),
    decreases ds.len(),
{
    reveal(Seq::filter);
    if ds.len() > 0 {
        let pre = ds.drop_last();
        assert(unique_gids(pre)) by {
            assert forall|i: int, j: int| 0 <= i < j < pre.len() implies #[trigger] pre[i].gid != #[trigger] pre[j].gid by {
                assert(pre[i] == ds[i] && pre[j] == ds[j]);
            }
        }
        lemma_filter_unique_gids(pre, p);
        let f = pre.filter(p);
        if p(ds.last()) {
            assert forall|i: int, j: int| 0 <= i < j < f.len() + 1 implies #[trigger] f.push(ds.last())[i].gid != #[trigger] f.push(ds.last())[j].gid by {
                if j == f.len() {
                    lemma_filter_from(pre, p, i);
                    let k = choose|k: int| 0 <= k < pre.len() && pre[k] == f[i];
                    assert(ds[k] == pre[k]);
                    assert(ds[ds.len() - 1] == ds.last());
                }
            }
        }
    }
}

proof fn lemma_filter_unique_names(cs: Seq<CategoryView>, p: spec_fn(CategoryView) -> bool)
    requires
        unique_names(cs),
    ensures
        unique_names(cs.filter(p)),
    decreases cs.len(),
{
    reveal(Seq::filter);
    if cs.len() > 0 {
        let pre = cs.drop_last();
        assert(unique_names(pre)) by {
            assert forall|i: int, j: int| 0 <= i < j < pre.len() implies #[trigger] pre[i].category != #[trigger] pre[j].category by {
                assert(pre[i] == cs[i] && pre[j] == cs[j]);
            }
        }
        lemma_filter_unique_names(pre, p);
        let f = pre.filter(p);
        if p(cs.last()) {
            assert forall|i: int, j: int| 0 <= i < j < f.len() + 1 implies #[trigger] f.push(cs.last())[i].category != #[trigger] f.push(cs.last())[j].category by {
                if j == f.len() {
                    lemma_filter_from(pre, p, i);
                    let k = choose|k: int| 0 <= k < pre.len() && pre[k] == f[i];
                    assert(cs[k] == pre[k]);
                    assert(cs[cs.len() - 1] == cs.last());
                }
            }
        }
    }
}

/// Removing tasks keeps keys unique and references whole, and keeps every
/// category.
proof fn lemma_remove_tasks_wf(v: StoreView, gone: Seq<Seq<char>>)
    requires
        store_wf(v),
    ensures
        store_wf(remove_tasks(v, gone)),
        remove_tasks(v, gone).categories.len() == v.categories.len(),
        forall|i: int| 0 <= i < v.categories.len() ==> #[trigger] remove_tasks(v, gone).categories[i].category == v.categories[i].category,
{
    let w = remove_tasks(v, gone);
    let pd = |d: DownloadItemView| !gone.contains(d.gid);
    let pl = |l: LinkRequestView| !link_hit(l, gone);
    let pp = |p: VideoAudioPairView| !pair_hit(p, gone);
    assert forall|n: Seq<char>| has_category(v.categories, n) implies has_category(w.categories, n) by {
        let i = choose|i: int| 0 <= i < v.categories.len() && #[trigger] v.categories[i].category == n;
        assert(w.categories[i].category == n);
    }
    assert(unique_names(w.categories)) by {
        assert forall|i: int, j: int| 0 <= i < j < w.categories.len() implies #[trigger] w.categories[i].category != #[trigger] w.categories[j].category by {
            assert(w.categories[i].category == v.categories[i].category);
            assert(w.categories[j].category == v.categories[j].category);
        }
    }
    lemma_filter_unique_gids(v.downloads, pd);
    assert forall|g: Seq<char>| has_download(v.downloads, g) && !gone.contains(g) implies has_download(w.downloads, g) by {
        let i = choose|i: int| 0 <= i < v.downloads.len() && #[trigger] v.downloads[i].gid == g;
        lemma_filter_keeps(v.downloads, pd, i);
        let k = choose|k: int| 0 <= k < w.downloads.len() && w.downloads[k] == v.downloads[i];
        assert(w.downloads[k].gid == g);
    }
    assert forall|i: int| 0 <= i < w.downloads.len() implies has_category(w.categories, #[trigger] w.downloads[i].category) by {
        lemma_filter_from(v.downloads, pd, i);
        let k = choose|k: int| 0 <= k < v.downloads.len() && v.downloads[k] == w.downloads[i];
        assert(has_category(v.categories, v.downloads[k].category));
    }
    assert forall|i: int| 0 <= i < w.links.len() && (#[trigger] w.links[i]).gid.is_some() implies has_download(w.downloads, w.links[i].gid.unwrap()) by {
        lemma_filter_from(v.links, pl, i);
        let k = choose|k: int| 0 <= k < v.links.len() && v.links[k] == w.links[i];
        assert(has_download(v.downloads, v.links[k].gid.unwrap()));
    }
    assert forall|i: int| 0 <= i < w.pairs.len() implies has_download(w.downloads, (#[trigger] w.pairs[i]).video_gid) && has_download(w.downloads, w.pairs[i].audio_gid) by {
        lemma_filter_from(v.pairs, pp, i);
        let k = choose|k: int| 0 <= k < v.pairs.len() && v.pairs[k] == w.pairs[i];
        assert(has_download(v.downloads, v.pairs[k].video_gid));
    }
}

/// Deleting a category that is not built in leaves no download item whose
/// category is missing: its own download items go with it.
pub proof fn lemma_delete_category_keeps_owners(v: StoreView, n: Seq<char>)
    requires
        store_wf(v),
        !is_builtin(n),
    ensures
        store_wf(delete_category(v, n)),
        !has_category(delete_category(v, n).categories, n),
        forall|i: int|
            0 <= i < delete_category(v, n).downloads.len() ==> has_category(
                delete_category(v, n).categories,
                #[trigger] delete_category(v, n).downloads[i].category,
            ),
{
    let gone = owned_gids(v.downloads, n);
    let w = remove_tasks(v, gone);
    let pc = |c: CategoryView| c.category != n;
    let pd = |d: DownloadItemView| !gone.contains(d.gid);
    let r = delete_category(v, n);
    lemma_remove_tasks_wf(v, gone);
    lemma_filter_unique_names(w.categories, pc);
    assert forall|m: Seq<char>| has_category(w.categories, m) && m != n implies has_category(r.categories, m) by {
        let i = choose|i: int| 0 <= i < w.categories.len() && #[trigger] w.categories[i].category == m;
        lemma_filter_keeps(w.categories, pc, i);
        let k = choose|k: int| 0 <= k < r.categories.len() && r.categories[k] == w.categories[i];
        assert(r.categories[k].category == m);
    }
    assert forall|i: int| 0 <= i < r.downloads.len() implies has_category(r.categories, #[trigger] r.downloads[i].category) by {
        let d = r.downloads[i];
        lemma_filter_from(v.downloads, pd, i);
        let k = choose|k: int| 0 <= k < v.downloads.len() && v.downloads[k] == d;
        if d.category == n {
            let pn = |e: DownloadItemView| e.category == n;
            lemma_filter_keeps(v.downloads, pn, k);
            let j = choose|j: int| 0 <= j < v.downloads.filter(pn).len() && v.downloads.filter(pn)[j] == d;
            assert(gone[j] == d.gid);
            assert(gone.contains(d.gid));
        }
        assert(has_category(w.categories, d.category));
    }
    assert forall|i: int| 0 <= i < r.categories.len() implies #[trigger] r.categories[i].category != n by {
        lemma_filter_from(w.categories, pc, i);
    }
}

/// Applies a download patch to the item with its task identifier; a patch that
/// names a category that does not exist changes nothing.
pub open spec fn update_download(v: StoreView, p: DownloadItemPatchView) -> StoreView {
    if p.category.is_some() && !has_category(v.categories, p.category.unwrap()) {
        v
    } else {
        StoreView {
            downloads: v.downloads.map_values(
                |d: DownloadItemView| if d.gid == p.gid { d.patched(p) } else { d },
            ),
            ..v
        }
    }
}

/// Applies download patches in order (see `update_download`).
pub open spec fn update_downloads(v: StoreView, ps: Seq<DownloadItemPatchView>) -> StoreView
    decreases ps.len(),
{
    if ps.len() == 0 { v } else { update_download(update_downloads(v, ps.drop_last()), ps.last()) }
}

/// Applies a category patch to the category of its name.
pub open spec fn update_category(v: StoreView, p: CategoryPatchView) -> StoreView {
    StoreView {
        categories: v.categories.map_values(
            |c: CategoryView| if c.category == p.category { c.patched(p) } else { c },
        ),
        ..v
    }
}

/// Applies category patches in order.
pub open spec fn update_categories(v: StoreView, ps: Seq<CategoryPatchView>) -> StoreView
    decreases ps.len(),
{
    if ps.len() == 0 { v } else { update_category(update_categories(v, ps.drop_last()), ps.last()) }
}

/// Applies a link-request patch to every request with its task identifier.
pub open spec fn update_link(v: StoreView, p: LinkRequestPatchView) -> StoreView {
    StoreView {
        links: v.links.map_values(
            |l: LinkRequestView| if l.gid == Some(p.gid) { l.patched(p) } else { l },
        ),
        ..v
    }
}

/// Applies link-request patches in order.
pub open spec fn update_links(v: StoreView, ps: Seq<LinkRequestPatchView>) -> StoreView
    decreases ps.len(),
{
    if ps.len() == 0 { v } else { update_link(update_links(v, ps.drop_last()), ps.last()) }
}

/// Whether a pair patch selects the pair: by its video task where the patch
/// names one, else by its audio task.
pub open spec fn pair_selected(q: VideoAudioPairView, p: VideoAudioPairPatchView) -> bool {
    match p.video_gid {
        Some(g) => q.video_gid == g,
        None => match p.audio_gid {
            Some(g) => q.audio_gid == g,
            None => false,
        },
    }
}

/// Applies a pair patch to every pair it selects.
pub open spec fn update_pair(v: StoreView, p: VideoAudioPairPatchView) -> StoreView {
    StoreView {
        pairs: v.pairs.map_values(
            |q: VideoAudioPairView| if pair_selected(q, p) { q.patched(p) } else { q },
        ),
        ..v
    }
}

/// Applies pair patches in order.
pub open spec fn update_pairs(v: StoreView, ps: Seq<VideoAudioPairPatchView>) -> StoreView
    decreases ps.len(),
{
    if ps.len() == 0 { v } else { update_pair(update_pairs(v, ps.drop_last()), ps.last()) }
}

proof fn lemma_update_download_wf(v: StoreView, p: DownloadItemPatchView)
    requires
        store_wf(v),
    ensures
        store_wf(update_download(v, p)),
{
    let w = update_download(v, p);
    if w != v {
        assert forall|g: Seq<char>| has_download(v.downloads, g) implies has_download(w.downloads, g) by {
            let i = choose|i: int| 0 <= i < v.downloads.len() && #[trigger] v.downloads[i].gid == g;
            assert(w.downloads[i].gid == g);
        }
        assert forall|i: int, j: int| 0 <= i < j < w.downloads.len() implies #[trigger] w.downloads[i].gid != #[trigger] w.downloads[j].gid by {
            assert(w.downloads[i].gid == v.downloads[i].gid);
            assert(w.downloads[j].gid == v.downloads[j].gid);
        }
        assert forall|i: int| 0 <= i < w.downloads.len() implies has_category(w.categories, #[trigger] w.downloads[i].category) by {
            assert(has_category(v.categories, v.downloads[i].category));
        }
    }
}

proof fn lemma_update_category_wf(v: StoreView, p: CategoryPatchView)
    requires
        store_wf(v),
    ensures
        store_wf(update_category(v, p)),
{
    let w = update_category(v, p);
    assert forall|n: Seq<char>| has_category(v.categories, n) implies has_category(w.categories, n) by {
        let i = choose|i: int| 0 <= i < v.categories.len() && #[trigger] v.categories[i].category == n;
        assert(w.categories[i].category == n);
    }
    assert forall|i: int, j: int| 0 <= i < j < w.categories.len() implies #[trigger] w.categories[i].category != #[trigger] w.categories[j].category by {
        assert(w.categories[i].category == v.categories[i].category);
        assert(w.categories[j].category == v.categories[j].category);
    }
    assert forall|i: int| 0 <= i < w.downloads.len() implies has_category(w.categories, #[trigger] w.downloads[i].category) by {
        assert(has_category(v.categories, v.downloads[i].category));
    }
}

proof fn lemma_update_link_wf(v: StoreView, p: LinkRequestPatchView)
    requires
        store_wf(v),
    ensures
        store_wf(update_link(v, p)),
{
    let w = update_link(v, p);
    assert forall|i: int| 0 <= i < w.links.len() && (#[trigger] w.links[i]).gid.is_some() implies has_download(w.downloads, w.links[i].gid.unwrap()) by {
        assert(w.links[i].gid == v.links[i].gid);
    }
}

proof fn lemma_update_pair_wf(v: StoreView, p: VideoAudioPairPatchView)
    requires
        store_wf(v),
    ensures
        store_wf(update_pair(v, p)),
{
    let w = update_pair(v, p);
    assert forall|i: int| 0 <= i < w.pairs.len() implies has_download(w.downloads, (#[trigger] w.pairs[i]).video_gid) && has_download(w.downloads, w.pairs[i].audio_gid) by {
        assert(w.pairs[i].video_gid == v.pairs[i].video_gid);
        assert(w.pairs[i].audio_gid == v.pairs[i].audio_gid);
    }
}

/// Adds a link request, its after-download action cleared, unless it names a
/// task identifier that has no download item.
pub open spec fn insert_link(v: StoreView, l: LinkRequestView) -> StoreView {
    if l.gid.is_none() || has_download(v.downloads, l.gid.unwrap()) {
        StoreView { links: v.links.push(LinkRequestView { after_download: None, ..l }), ..v }
    } else {
        v
    }
}

/// Adds link requests in order (see `insert_link`).
pub open spec fn insert_links(v: StoreView, ls: Seq<LinkRequestView>) -> StoreView
    decreases ls.len(),
{
    if ls.len() == 0 { v } else { insert_link(insert_links(v, ls.drop_last()), ls.last()) }
}

/// Adds a pair, unless one of its tasks has no download item.
pub open spec fn insert_pair(v: StoreView, p: VideoAudioPairView) -> StoreView {
    if has_download(v.downloads, p.video_gid) && has_download(v.downloads, p.audio_gid) {
        StoreView { pairs: v.pairs.push(p), ..v }
    } else {
        v
    }
}

/// Adds pairs in order (see `insert_pair`).
pub open spec fn insert_pairs(v: StoreView, ps: Seq<VideoAudioPairView>) -> StoreView
    decreases ps.len(),
{
    if ps.len() == 0 { v } else { insert_pair(insert_pairs(v, ps.drop_last()), ps.last()) }
}

/// The download items of a category, or all of them, in table order.
pub open spec fn items_in(ds: Seq<DownloadItemView>, category: Option<Seq<char>>) -> Seq<DownloadItemView> {
    ds.filter(|d: DownloadItemView| category.is_none() || d.category == category.unwrap())
}

/// The link requests whose task belongs to a category, or all of them.
pub open spec fn links_in(v: StoreView, category: Option<Seq<char>>) -> Seq<LinkRequestView> {
    match category {
        None => v.links,
        Some(c) => v.links.filter(|l: LinkRequestView| link_hit(l, owned_gids(v.downloads, c))),
    }
}

/// Task identifiers of the download items whose status is one of `statuses`, in
/// a category or in all of them.
pub open spec fn gids_with_status(
    ds: Seq<DownloadItemView>,
    category: Option<Seq<char>>,
    statuses: Seq<Seq<char>>,
) -> Seq<Seq<char>> {
    ds.filter(
        |d: DownloadItemView|
            (category.is_none() || d.category == category.unwrap()) && statuses.contains(d.status),
    ).map_values(|d: DownloadItemView| d.gid)
}

/// Video and audio task of each pair, in table order, one after the other.
pub open spec fn pair_gids(ps: Seq<VideoAudioPairView>) -> Seq<Seq<char>>
    decreases ps.len(),
{
    if ps.len() == 0 {
        Seq::empty()
    } else {
        pair_gids(ps.drop_last()).push(ps.last().video_gid).push(ps.last().audio_gid)
    }
}

/// The statuses that count as active: not finished.
pub open spec fn active_statuses() -> Seq<Seq<char>> {
    seq!["downloading"@, "waiting"@, "scheduled"@, "paused"@]
}

/// Stored status of the download item `g`, if there is one.
pub open spec fn status_of(ds: Seq<DownloadItemView>, g: Seq<char>) -> Option<Seq<char>>
    decreases ds.len(),
{
    if ds.len() == 0 {
        None
    } else if ds.last().gid == g {
        Some(ds.last().status)
    } else {
        status_of(ds.drop_last(), g)
    }
}

/// The members of a category that have a download item, in list order, each with
/// its status.
pub open spec fn member_statuses(ds: Seq<DownloadItemView>, list: Seq<Seq<char>>) -> Seq<(Seq<char>, Seq<char>)>
    decreases list.len(),
{
    if list.len() == 0 {
        Seq::empty()
    } else {
        let rest = member_statuses(ds, list.drop_last());
        match status_of(ds, list.last()) {
            Some(st) => rest.push((list.last(), st)),
            None => rest,
        }
    }
}

/// The store after clearing the one-shot settings: categories lose their window,
/// order, limit and after-download settings; unfinished download items become
/// "stopped"; link requests lose their start, end and after-download values;
/// pairs are no longer being checked.
pub open spec fn defaults_restored(v: StoreView) -> StoreView {
    StoreView {
        categories: v.categories.map_values(|c: CategoryView| CategoryView {
            start_time_enable: "no"@,
            end_time_enable: "no"@,
            reverse: "no"@,
            limit_enable: "no"@,
            after_download: "no"@,
            ..c
        }),
        downloads: v.downloads.map_values(|d: DownloadItemView|
            if d.status == "complete"@ || d.status == "error"@ { d } else { DownloadItemView { status: "stopped"@, ..d } }),
        links: v.links.map_values(|l: LinkRequestView| LinkRequestView {
            start_time: None,
            end_time: None,
            after_download: None,
            ..l
        }),
        pairs: v.pairs.map_values(|p: VideoAudioPairView| VideoAudioPairView { checking: "no"@, ..p }),
    }
}

/// The link requests of task `g` with the chosen one-shot values cleared.
pub open spec fn cleared_link(l: LinkRequestView, g: Seq<char>, start: bool, end: bool, after: bool) -> LinkRequestView {
    if l.gid == Some(g) {
        LinkRequestView {
            start_time: if start { None } else { l.start_time },
            end_time: if end { None } else { l.end_time },
            after_download: if after { None } else { l.after_download },
            ..l
        }
    } else {
        l
    }
}

/// A category with an empty member list.
pub open spec fn without_list(c: CategoryView) -> CategoryView {
    CategoryView { gid_list: Seq::empty(), ..c }
}

/// The store emptied: only the built-in categories stay, with empty member lists.
pub open spec fn reset_store(v: StoreView) -> StoreView {
    StoreView {
        categories: v.categories.filter(|c: CategoryView| is_builtin(c.category)).map_values(
            |c: CategoryView| without_list(c),
        ),
        downloads: Seq::empty(),
        links: Seq::empty(),
        pairs: Seq::empty(),
    }
}

proof fn lemma_insert_link_wf(v: StoreView, l: LinkRequestView)
    requires
        store_wf(v),
    ensures
        store_wf(insert_link(v, l)),
{
    let w = insert_link(v, l);
    if w != v {
        assert forall|i: int| 0 <= i < w.links.len() && (#[trigger] w.links[i]).gid.is_some() implies has_download(w.downloads, w.links[i].gid.unwrap()) by {
            if i < v.links.len() {
                assert(w.links[i] == v.links[i]);
            }
        }
    }
}

proof fn lemma_insert_pair_wf(v: StoreView, p: VideoAudioPairView)
    requires
        store_wf(v),
    ensures
        store_wf(insert_pair(v, p)),
{
    let w = insert_pair(v, p);
    if w != v {
        assert forall|i: int| 0 <= i < w.pairs.len() implies has_download(w.downloads, (#[trigger] w.pairs[i]).video_gid) && has_download(w.downloads, w.pairs[i].audio_gid) by {
            if i < v.pairs.len() {
                assert(w.pairs[i] == v.pairs[i]);
            }
        }
    }
}

proof fn lemma_defaults_restored_wf(v: StoreView)
    requires
        store_wf(v),
    ensures
        store_wf(defaults_restored(v)),
{
    let w = defaults_restored(v);
    assert forall|n: Seq<char>| has_category(v.categories, n) implies has_category(w.categories, n) by {
        let i = choose|i: int| 0 <= i < v.categories.len() && #[trigger] v.categories[i].category == n;
        assert(w.categories[i].category == n);
    }
    assert forall|g: Seq<char>| has_download(v.downloads, g) implies has_download(w.downloads, g) by {
        let i = choose|i: int| 0 <= i < v.downloads.len() && #[trigger] v.downloads[i].gid == g;
        assert(w.downloads[i].gid == g);
    }
    assert forall|i: int, j: int| 0 <= i < j < w.categories.len() implies #[trigger] w.categories[i].category != #[trigger] w.categories[j].category by {
        assert(w.categories[i].category == v.categories[i].category);
        assert(w.categories[j].category == v.categories[j].category);
    }
    assert forall|i: int, j: int| 0 <= i < j < w.downloads.len() implies #[trigger] w.downloads[i].gid != #[trigger] w.downloads[j].gid by {
        assert(w.downloads[i].gid == v.downloads[i].gid);
        assert(w.downloads[j].gid == v.downloads[j].gid);
    }
    assert forall|i: int| 0 <= i < w.downloads.len() implies has_category(w.categories, #[trigger] w.downloads[i].category) by {
        assert(w.downloads[i].category == v.downloads[i].category);
        assert(has_category(v.categories, v.downloads[i].category));
    }
    assert forall|i: int| 0 <= i < w.links.len() && (#[trigger] w.links[i]).gid.is_some() implies has_download(w.downloads, w.links[i].gid.unwrap()) by {
        assert(w.links[i].gid == v.links[i].gid);
    }
    assert forall|i: int| 0 <= i < w.pairs.len() implies has_download(w.downloads, (#[trigger] w.pairs[i]).video_gid) && has_download(w.downloads, w.pairs[i].audio_gid) by {
        assert(w.pairs[i].video_gid == v.pairs[i].video_gid);
        assert(w.pairs[i].audio_gid == v.pairs[i].audio_gid);
    }
}

proof fn lemma_reset_store_wf(v: StoreView)
    requires
        store_wf(v),
    ensures
        store_wf(reset_store(v)),
{
    let pb = |c: CategoryView| is_builtin(c.category);
    let f = v.categories.filter(pb);
    let w = reset_store(v);
    lemma_filter_unique_names(v.categories, pb);
    assert forall|i: int, j: int| 0 <= i < j < w.categories.len() implies #[trigger] w.categories[i].category != #[trigger] w.categories[j].category by {
        assert(w.categories[i].category == f[i].category);
        assert(w.categories[j].category == f[j].category);
    }
    assert forall|n: Seq<char>| has_category(v.categories, n) && is_builtin(n) implies has_category(w.categories, n) by {
        let i = choose|i: int| 0 <= i < v.categories.len() && #[trigger] v.categories[i].category == n;
        lemma_filter_keeps(v.categories, pb, i);
        let k = choose|k: int| 0 <= k < f.len() && f[k] == v.categories[i];
        assert(w.categories[k].category == n);
    }
    lemma_builtin_survives_reset(v, "All Downloads"@);
    lemma_builtin_survives_reset(v, "Single Downloads"@);
    lemma_builtin_survives_reset(v, "Scheduled Downloads"@);
}

proof fn lemma_builtin_survives_reset(v: StoreView, n: Seq<char>)
    requires
        has_category(v.categories, n),
        is_builtin(n),
    ensures
        has_category(reset_store(v).categories, n),
{
    let pb = |c: CategoryView| is_builtin(c.category);
    let f = v.categories.filter(pb);
    let w = reset_store(v);
    let i = choose|i: int| 0 <= i < v.categories.len() && #[trigger] v.categories[i].category == n;
    lemma_filter_keeps(v.categories, pb, i);
    let k = choose|k: int| 0 <= k < f.len() && f[k] == v.categories[i];
    assert(w.categories[k].category == n);
}

/// The store as first created: the built-in categories, nothing else.
pub open spec fn initial_store() -> StoreView {
    StoreView {
        categories: seq![
            default_category("All Downloads"@),
            default_category("Single Downloads"@),
            default_category("Scheduled Downloads"@),
        ],
        downloads: Seq::empty(),
        links: Seq::empty(),
        pairs: Seq::empty(),
    }
}

/// Puts a stored category row in place: it replaces the category of its name,
/// or is added where there is none.
pub open spec fn put_category(v: StoreView, c: CategoryView) -> StoreView {
    if has_category(v.categories, c.category) {
        StoreView {
            categories: v.categories.map_values(|x: CategoryView| if x.category == c.category { c } else { x }),
            ..v
        }
    } else {
        StoreView { categories: v.categories.push(c), ..v }
    }
}

/// Puts stored category rows in place, in order.
pub open spec fn put_categories(v: StoreView, cs: Seq<CategoryView>) -> StoreView
    decreases cs.len(),
{
    if cs.len() == 0 { v } else { put_category(put_categories(v, cs.drop_last()), cs.last()) }
}

/// Adds a stored link request as it is, unless it names a task identifier that
/// has no download item.
pub open spec fn put_link(v: StoreView, l: LinkRequestView) -> StoreView {
    if l.gid.is_none() || has_download(v.downloads, l.gid.unwrap()) {
        StoreView { links: v.links.push(l), ..v }
    } else {
        v
    }
}

/// Adds stored link requests, in order.
pub open spec fn put_links(v: StoreView, ls: Seq<LinkRequestView>) -> StoreView
    decreases ls.len(),
{
    if ls.len() == 0 { v } else { put_link(put_links(v, ls.drop_last()), ls.last()) }
}

/// The store rebuilt from stored rows: categories first, then download items,
/// link requests and pairs, each row kept only where the keys and references
/// allow it.
pub open spec fn loaded(
    cs: Seq<CategoryView>,
    ds: Seq<DownloadItemView>,
    ls: Seq<LinkRequestView>,
    ps: Seq<VideoAudioPairView>,
) -> StoreView {
    insert_pairs(put_links(insert_downloads(put_categories(initial_store(), cs), ds), ls), ps)
}

proof fn lemma_put_category_wf(v: StoreView, c: CategoryView)
    requires
        store_wf(v),
    ensures
        store_wf(put_category(v, c)),
{
    let w = put_category(v, c);
    assert forall|n: Seq<char>| has_category(v.categories, n) implies has_category(w.categories, n) by {
        let i = choose|i: int| 0 <= i < v.categories.len() && #[trigger] v.categories[i].category == n;
        assert(w.categories[i].category == n);
    }
    if has_category(v.categories, c.category) {
        assert forall|i: int, j: int| 0 <= i < j < w.categories.len() implies #[trigger] w.categories[i].category != #[trigger] w.categories[j].category by {
            assert(w.categories[i].category == v.categories[i].category);
            assert(w.categories[j].category == v.categories[j].category);
        }
    } else {
        assert forall|i: int, j: int| 0 <= i < j < w.categories.len() implies #[trigger] w.categories[i].category != #[trigger] w.categories[j].category by {
            assert(w.categories[i] == v.categories[i]);
            if j < v.categories.len() {
                assert(w.categories[j] == v.categories[j]);
            }
        }
    }
    assert forall|i: int| 0 <= i < w.downloads.len() implies has_category(w.categories, #[trigger] w.downloads[i].category) by {
        assert(has_category(v.categories, v.downloads[i].category));
    }
}

proof fn lemma_put_link_wf(v: StoreView, l: LinkRequestView)
    requires
        store_wf(v),
    ensures
        store_wf(put_link(v, l)),
{
    let w = put_link(v, l);
    if w != v {
        assert forall|i: int| 0 <= i < w.links.len() && (#[trigger] w.links[i]).gid.is_some() implies has_download(w.downloads, w.links[i].gid.unwrap()) by {
            if i < v.links.len() {
                assert(w.links[i] == v.links[i]);
            }
        }
    }
}

/// A size or rate text with decimal unit names turned into binary ones: "KB"
/// becomes "KiB", then "MB" "MiB", then "GB" "GiB".
pub open spec fn binary_units(x: Seq<char>) -> Seq<char> {
    replaced(replaced(replaced(x, "KB"@, "KiB"@), "MB"@, "MiB"@), "GB"@, "GiB"@)
}

/// A download item with binary unit names in its size, rate and downloaded size.
pub open spec fn units_corrected(d: DownloadItemView) -> DownloadItemView {
    DownloadItemView {
        size: binary_units(d.size),
        rate: binary_units(d.rate),
        downloaded_size: binary_units(d.downloaded_size),
        ..d
    }
}

/// Positions, in order, of the download items whose category does not exist.
pub open spec fn missing_owners(cats: Seq<CategoryView>, ds: Seq<DownloadItemView>) -> Seq<int>
    decreases ds.len(),
{
    if ds.len() == 0 {
        Seq::empty()
    } else if has_category(cats, ds.last().category) {
        missing_owners(cats, ds.drop_last())
    } else {
        missing_owners(cats, ds.drop_last()).push(ds.len() - 1)
    }
}

/// Positions, in order, of the link requests naming a task that has no
/// download item.
pub open spec fn dangling_links(ds: Seq<DownloadItemView>, ls: Seq<LinkRequestView>) -> Seq<int>
    decreases ls.len(),
{
    if ls.len() == 0 {
        Seq::empty()
    } else if ls.last().gid.is_none() || has_download(ds, ls.last().gid.unwrap()) {
        dangling_links(ds, ls.drop_last())
    } else {
        dangling_links(ds, ls.drop_last()).push(ls.len() - 1)
    }
}

/// Positions, in order, of the pairs with a task that has no download item.
pub open spec fn dangling_pairs(ds: Seq<DownloadItemView>, ps: Seq<VideoAudioPairView>) -> Seq<int>
    decreases ps.len(),
{
    if ps.len() == 0 {
        Seq::empty()
    } else if has_download(ds, ps.last().video_gid) && has_download(ds, ps.last().audio_gid) {
        dangling_pairs(ds, ps.drop_last())
    } else {
        dangling_pairs(ds, ps.drop_last()).push(ps.len() - 1)
    }
}

/// Positions, in order, of the download patches naming a category that does
/// not exist.
pub open spec fn missing_patch_owners(cats: Seq<CategoryView>, ps: Seq<DownloadItemPatchView>) -> Seq<int>
    decreases ps.len(),
{
    if ps.len() == 0 {
        Seq::empty()
    } else if ps.last().category.is_none() || has_category(cats, ps.last().category.unwrap()) {
        missing_patch_owners(cats, ps.drop_last())
    } else {
        missing_patch_owners(cats, ps.drop_last()).push(ps.len() - 1)
    }
}

/// Positions as integers.
pub open spec fn positions(r: Seq<usize>) -> Seq<int> {
    r.map_values(|i: usize| i as int)
}

/// Whether the list holds the text `s`.
fn contains_text(v: &Vec<String>, s: &str) -> (r: bool)
    ensures
        r == texts(v@).contains(s@),
{
    let mut i: usize = 0;
    while i < v.len()
        invariant
            i <= v.len(),
            forall|j: int| 0 <= j < i ==> v@[j]@ != s@,
        decreases v.len() - i,
    {
        if same_text(v[i].as_str(), s) {
            assert(texts(v@)[i as int] == s@);
            return true;
        }
        i = i + 1;
    }
    assert forall|j: int| 0 <= j < texts(v@).len() implies texts(v@)[j] != s@ by {
        assert(texts(v@)[j] == v@[j]@);
    }
    false
}

/// The list without the texts of `gone`.
fn purge_list(list: &Vec<String>, gone: &Vec<String>) -> (r: Vec<String>)
    ensures
        texts(r@) == texts(list@).filter(|g: Seq<char>| !texts(gone@).contains(g)),
{
    let ghost src = texts(list@);
    let ghost p = |g: Seq<char>| !texts(gone@).contains(g);
    let mut r: Vec<String> = Vec::new();
    let mut i: usize = 0;
    while i < list.len()
        invariant
            i <= list.len(),
            src == texts(list@),
            p == (|g: Seq<char>| !texts(gone@).contains(g)),
            texts(r@) == src.subrange(0, i as int).filter(p),
        decreases list.len() - i,
    {
        proof {
            lemma_filter_step(src, i as int, p);
        }
        if !contains_text(gone, list[i].as_str()) {
            r.push(list[i].clone());
            assert(texts(r@) =~= src.subrange(0, i as int).filter(p).push(src[i as int]));
        }
        i = i + 1;
    }
    assert(src.subrange(0, i as int) =~= src);
    r
}

/// A size or rate text with binary unit names (see `binary_units`).
fn binary_unit_text(x: &str) -> (r: String)
    ensures
        r@ == binary_units(x@),
{
    proof {
        reveal_strlit("KB");
        reveal_strlit("MB");
        reveal_strlit("GB");
    }
    let k = replace_text(x, "KB", "KiB");
    let m = replace_text(k.as_str(), "MB", "MiB");
    replace_text(m.as_str(), "GB", "GiB")
}

/// Download tables, all held in memory.
///
/// A category's member list (`gid_list`) is the caller's to set, through
/// `updateCategoryTable`: inserting a download item puts it in no list, and the
/// scheduler commands only the tasks a list names. Deleting download items, by
/// themselves or with their category, takes them out of every list.
pub struct DataBase {
    categories: Vec<Category>,
    downloads: Vec<DownloadItem>,
    links: Vec<LinkRequest>,
    pairs: Vec<VideoAudioPair>,
}

impl View for DataBase {
    type V = StoreView;

    closed spec fn view(&self) -> StoreView {
        StoreView {
            categories: self.categories@.map_values(|c: Category| c@),
            downloads: self.downloads@.map_values(|d: DownloadItem| d@),
            links: self.links@.map_values(|l: LinkRequest| l@),
            pairs: self.pairs@.map_values(|p: VideoAudioPair| p@),
        }
    }
}

proof fn lemma_insert_download_wf(v: StoreView, d: DownloadItemView)
    requires
        store_wf(v),
    ensures
        store_wf(insert_download(v, d)),
        insert_download(v, d).categories == v.categories,
        insert_download(v, d).links == v.links,
        insert_download(v, d).pairs == v.pairs,
        v.downloads.is_prefix_of(insert_download(v, d).downloads),
{
    let w = insert_download(v, d);
    if w != v {
        assert forall|g: Seq<char>| has_download(v.downloads, g) implies has_download(w.downloads, g) by {
            let i = choose|i: int| 0 <= i < v.downloads.len() && #[trigger] v.downloads[i].gid == g;
            assert(w.downloads[i].gid == g);
        }
        assert forall|i: int| 0 <= i < w.downloads.len() implies has_category(w.categories, #[trigger] w.downloads[i].category) by {
            if i < v.downloads.len() {
                assert(w.downloads[i] == v.downloads[i]);
            }
        }
        assert forall|i: int, j: int| 0 <= i < j < w.downloads.len() implies #[trigger] w.downloads[i].gid != #[trigger] w.downloads[j].gid by {
            if j == v.downloads.len() {
                assert(w.downloads[i] == v.downloads[i]);
            }
        }
        assert(v.downloads.is_prefix_of(w.downloads)) by {
            assert(w.downloads.subrange(0, v.downloads.len() as int) =~= v.downloads);
        }
    } else {
        assert(v.downloads.is_prefix_of(w.downloads)) by {
            assert(w.downloads.subrange(0, v.downloads.len() as int) =~= v.downloads);
        }
    }
}

proof fn lemma_insert_downloads_wf(v: StoreView, ds: Seq<DownloadItemView>)
    requires
        store_wf(v),
    ensures
        store_wf(insert_downloads(v, ds)),
        insert_downloads(v, ds).categories == v.categories,
    decreases ds.len(),
{
    if ds.len() > 0 {
        lemma_insert_downloads_wf(v, ds.drop_last());
        lemma_insert_download_wf(insert_downloads(v, ds.drop_last()), ds.last());
    }
}

proof fn lemma_downloads_grow(v: StoreView, d: DownloadItemView, g: Seq<char>)
    requires
        has_download(v.downloads, g),
    ensures
        has_download(insert_download(v, d).downloads, g),
{
    let w = insert_download(v, d);
    let i = choose|i: int| 0 <= i < v.downloads.len() && #[trigger] v.downloads[i].gid == g;
    if w != v {
        assert(w.downloads[i] == v.downloads[i]);
    }
}

/// After a batch, every item of it is either present by its task identifier or
/// lacks its category.
proof fn lemma_batch_settled(v: StoreView, ds: Seq<DownloadItemView>)
    ensures
        insert_downloads(v, ds).categories == v.categories,
        forall|k: int|
            0 <= k < ds.len() ==> has_download(insert_downloads(v, ds).downloads, #[trigger] ds[k].gid)
                || !has_category(v.categories, ds[k].category),
    decreases ds.len(),
{
    if ds.len() > 0 {
        let pre = ds.drop_last();
        lemma_batch_settled(v, pre);
        let w0 = insert_downloads(v, pre);
        let w = insert_download(w0, ds.last());
        assert forall|k: int|
            0 <= k < ds.len() implies has_download(w.downloads, #[trigger] ds[k].gid)
                || !has_category(v.categories, ds[k].category) by {
            if k < ds.len() - 1 {
                assert(ds[k] == pre[k]);
                if has_download(w0.downloads, ds[k].gid) {
                    lemma_downloads_grow(w0, ds.last(), ds[k].gid);
                }
            } else {
                if w != w0 {
                    assert(w.downloads[w0.downloads.len() as int].gid == ds[k].gid);
                }
            }
        }
    }
}

proof fn lemma_settled_batch_noop(w: StoreView, ds: Seq<DownloadItemView>)
    requires
        forall|k: int|
            0 <= k < ds.len() ==> has_download(w.downloads, #[trigger] ds[k].gid)
                || !has_category(w.categories, ds[k].category),
    ensures
        insert_downloads(w, ds) == w,
    decreases ds.len(),
{
    if ds.len() > 0 {
        let pre = ds.drop_last();
        assert forall|k: int|
            0 <= k < pre.len() implies has_download(w.downloads, #[trigger] pre[k].gid)
                || !has_category(w.categories, pre[k].category) by {
            assert(pre[k] == ds[k]);
        }
        lemma_settled_batch_noop(w, pre);
        assert(ds.last() == ds[ds.len() - 1]);
    }
}

/// Submitting the same batch of download items a second time changes nothing: a
/// task identifier never gets a second row.
pub proof fn lemma_insert_downloads_idempotent(v: StoreView, ds: Seq<DownloadItemView>)
    ensures
        insert_downloads(insert_downloads(v, ds), ds) == insert_downloads(v, ds),
{
    lemma_batch_settled(v, ds);
    lemma_settled_batch_noop(insert_downloads(v, ds), ds);
}

/// Inserting keeps task identifiers unique, and the item is then present where
/// its category exists.
pub proof fn lemma_insert_download_unique(v: StoreView, d: DownloadItemView)
    requires
        store_wf(v),
    ensures
        unique_gids(insert_downloads(v, seq![d, d]).downloads),
        has_category(v.categories, d.category) ==> has_download(insert_downloads(v, seq![d, d]).downloads, d.gid),
{
    let ds = seq![d, d];
    lemma_insert_downloads_wf(v, ds);
    lemma_batch_settled(v, ds);
    assert(ds[0] == d);
}

/// A category row with the given name and the built-in defaults.
fn default_category_row(name: &str) -> (r: Category)
    ensures
        r@ == default_category(name@),
{
    proof {
        reveal_strlit("no");
        reveal_strlit("0:0");
        reveal_strlit("OK");
    }
    let r = Category {
        category: String::from_str(name),
        start_time_enable: String::from_str("no"),
        start_time: String::from_str("0:0"),
        end_time_enable: String::from_str("no"),
        end_time: String::from_str("no"),
        reverse: String::from_str("no"),
        limit_enable: String::from_str("no"),
        limit_value: String::from_str("OK"),
        after_download: String::from_str("no"),
        gid_list: Vec::new(),
    };
    assert(r@.gid_list =~= Seq::<Seq<char>>::empty());
    r
}

impl DataBase {
    /// The store's invariant (see `store_wf`).
    pub open spec fn wf(&self) -> bool {
        store_wf(self@)
    }

    /// Index of the category of that name.
    fn category_index(&self, name: &str) -> (r: Option<usize>)
        ensures
            match r {
                Some(i) => i < self.categories.len() && self@.categories[i as int].category == name@,
                None => !has_category(self@.categories, name@),
            },
    {
        let mut i: usize = 0;
        while i < self.categories.len()
            invariant
                i <= self.categories.len(),
                forall|j: int| 0 <= j < i ==> self@.categories[j].category != name@,
            decreases self.categories.len() - i,
        {
            if same_text(self.categories[i].category.as_str(), name) {
                return Some(i);
            }
            i = i + 1;
        }
        None
    }

    /// Index of the download item with that task identifier.
    fn download_index(&self, gid: &str) -> (r: Option<usize>)
        ensures
            match r {
                Some(i) => i < self.downloads.len() && self@.downloads[i as int].gid == gid@,
                None => !has_download(self@.downloads, gid@),
            },
    {
        let mut i: usize = 0;
        while i < self.downloads.len()
            invariant
                i <= self.downloads.len(),
                forall|j: int| 0 <= j < i ==> self@.downloads[j].gid != gid@,
            decreases self.downloads.len() - i,
        {
            if same_text(self.downloads[i].gid.as_str(), gid) {
                return Some(i);
            }
            i = i + 1;
        }
        None
    }

    /// An empty store holding the built-in categories.
    pub fn new() -> (r: DataBase)
        ensures
            r.wf(),
            r@ == initial_store(),
    {
        proof {
            reveal_strlit("All Downloads");
            reveal_strlit("Single Downloads");
            reveal_strlit("Scheduled Downloads");
        }
        let r = DataBase {
            categories: vec![
                default_category_row("All Downloads"),
                default_category_row("Single Downloads"),
                default_category_row("Scheduled Downloads"),
            ],
            downloads: Vec::new(),
            links: Vec::new(),
            pairs: Vec::new(),
        };
        assert(r@.categories[0].category == "All Downloads"@);
        assert(r@.categories[1].category == "Single Downloads"@);
        assert(r@.categories[2].category == "Scheduled Downloads"@);
        assert(r@.categories =~= initial_store().categories);
        assert(r@.downloads =~= initial_store().downloads);
        assert(r@.links =~= initial_store().links);
        assert(r@.pairs =~= initial_store().pairs);
        r
    }

    /// Adds a category; `false`, and nothing changes, where the name is taken.
    pub fn insertInCategoryTable(&mut self, c: Category) -> (r: bool)
        requires
            old(self).wf(),
        ensures
            final(self).wf(),
            r == !has_category(old(self)@.categories, c@.category),
            final(self)@ == (if r {
                StoreView { categories: old(self)@.categories.push(c@), ..old(self)@ }
            } else {
                old(self)@
            }),
    {
        match self.category_index(c.category.as_str()) {
            Some(_) => false,
            None => {
                let ghost before = self@;
                self.categories.push(c);
                proof {
                    let after = self@;
                    assert(after.categories =~= before.categories.push(c@));
                    assert forall|n: Seq<char>| has_category(before.categories, n) implies has_category(after.categories, n) by {
                        let i = choose|i: int| 0 <= i < before.categories.len() && #[trigger] before.categories[i].category == n;
                        assert(after.categories[i] == before.categories[i]);
                    }
                    assert forall|i: int, j: int| 0 <= i < j < after.categories.len() implies #[trigger] after.categories[i].category != #[trigger] after.categories[j].category by {
                        assert(after.categories[i] == before.categories[i]);
                        if j < before.categories.len() {
                            assert(after.categories[j] == before.categories[j]);
                        }
                    }
                    assert forall|i: int| 0 <= i < after.downloads.len() implies has_category(after.categories, #[trigger] after.downloads[i].category) by {
                        assert(has_category(before.categories, before.downloads[i].category));
                    }
                }
                true
            },
        }
    }

    /// Adds download items in order. An item whose task identifier is already
    /// present changes nothing (submitting it again is harmless); an item whose
    /// category does not exist is refused, and its position in `list` is
    /// returned. No member list changes: the caller adds the new items to the
    /// lists it wants them in.
    pub fn insertInDownloadTable(&mut self, list: Vec<DownloadItem>) -> (refused: Vec<usize>)
        requires
            old(self).wf(),
        ensures
            final(self).wf(),
            final(self)@ == insert_downloads(old(self)@, list@.map_values(|d: DownloadItem| d@)),
            positions(refused@) == missing_owners(old(self)@.categories, list@.map_values(|d: DownloadItem| d@)),
    {
        let ghost start = self@;
        let ghost items = list@.map_values(|d: DownloadItem| d@);
        let mut refused: Vec<usize> = Vec::new();
        let mut i: usize = 0;
        while i < list.len()
            invariant
                i <= list.len(),
                items == list@.map_values(|d: DownloadItem| d@),
                self@ == insert_downloads(start, items.subrange(0, i as int)),
                self@.categories == start.categories,
                positions(refused@) == missing_owners(start.categories, items.subrange(0, i as int)),
                store_wf(start),
                self.wf(),
            decreases list.len() - i,
        {
            let ghost before = self@;
            let ghost before_r = refused@;
            proof {
                assert(items.subrange(0, i as int + 1).drop_last() =~= items.subrange(0, i as int));
                lemma_insert_download_wf(before, items[i as int]);
            }
            let owner = self.category_index(list[i].category.as_str()).is_some();
            if !owner {
                refused.push(i);
                assert(positions(refused@) =~= positions(before_r).push(i as int));
            } else if self.download_index(list[i].gid.as_str()).is_none() {
                self.downloads.push(list[i].copy());
                assert(self@.downloads =~= before.downloads.push(items[i as int]));
            }
            assert(self@ == insert_download(before, items[i as int]));
            i = i + 1;
        }
        assert(items.subrange(0, i as int) =~= items);
        refused
    }

    /// The download item with that task identifier.
    pub fn searchGidInDownloadTable(&self, gid: &str) -> (r: Option<DownloadItem>)
        ensures
            match r {
                Some(d) => has_download(self@.downloads, gid@) && d@.gid == gid@
                    && self@.downloads.contains(d@),
                None => !has_download(self@.downloads, gid@),
            },
    {
        match self.download_index(gid) {
            Some(i) => {
                let d = self.downloads[i].copy();
                assert(self@.downloads[i as int] == d@);
                Some(d)
            },
            None => None,
        }
    }

    /// The category of that name.
    pub fn searchCategoryInCategoryTable(&self, category: &str) -> (r: Option<Category>)
        ensures
            match r {
                Some(c) => has_category(self@.categories, category@) && c@.category == category@
                    && self@.categories.contains(c@),
                None => !has_category(self@.categories, category@),
            },
    {
        match self.category_index(category) {
            Some(i) => {
                let c = self.categories[i].copy();
                assert(self@.categories[i as int] == c@);
                Some(c)
            },
            None => None,
        }
    }

    /// Deletes the download items with task identifiers in `gone` (see
    /// `remove_tasks`).
    fn remove_tasks(&mut self, gone: &Vec<String>)
        ensures
            final(self)@ == remove_tasks(old(self)@, texts(gone@)),
    {
        let ghost start = self@;
        let ghost g = texts(gone@);
        let mut i: usize = 0;
        while i < self.categories.len()
            invariant
                i <= self.categories.len() == start.categories.len(),
                g == texts(gone@),
                forall|j: int| 0 <= j < i ==> self@.categories[j] == without_members(start.categories[j], g),
                forall|j: int| i <= j < self.categories.len() ==> self@.categories[j] == start.categories[j],
                self@.downloads == start.downloads,
                self@.links == start.links,
                self@.pairs == start.pairs,
            decreases self.categories.len() - i,
        {
            let ghost before = self.categories@;
            let ghost before_v = self@;
            let purged = purge_list(&self.categories[i].gid_list, gone);
            self.categories[i].gid_list = purged;
            assert(self.categories@ == before.update(i as int, self.categories@[i as int]));
            assert(self@.categories[i as int] == without_members(start.categories[i as int], g));
            assert forall|j: int| 0 <= j < i + 1 implies self@.categories[j] == without_members(start.categories[j], g) by {
                if j < i {
                    assert(self.categories@[j] == before[j]);
                    assert(before_v.categories[j] == without_members(start.categories[j], g));
                    assert(before_v.categories[j] == before[j]@);
                }
            }
            assert forall|j: int| i + 1 <= j < self.categories.len() implies self@.categories[j] == start.categories[j] by {
                assert(self.categories@[j] == before[j]);
            }
            i = i + 1;
        }
        assert(self@.categories =~= start.categories.map_values(|c: CategoryView| without_members(c, g)));

        let ghost pd = |d: DownloadItemView| !g.contains(d.gid);
        let mut kept: Vec<DownloadItem> = Vec::new();
        let mut i: usize = 0;
        while i < self.downloads.len()
            invariant
                i <= self.downloads.len(),
                self@.downloads == start.downloads,
                g == texts(gone@),
                pd == (|d: DownloadItemView| !g.contains(d.gid)),
                kept@.map_values(|d: DownloadItem| d@) == start.downloads.subrange(0, i as int).filter(pd),
            decreases self.downloads.len() - i,
        {
            proof {
                lemma_filter_step(start.downloads, i as int, pd);
            }
            if !contains_text(gone, self.downloads[i].gid.as_str()) {
                kept.push(self.downloads[i].copy());
                assert(kept@.map_values(|d: DownloadItem| d@) =~= start.downloads.subrange(0, i as int).filter(pd).push(start.downloads[i as int]));
            }
            i = i + 1;
        }
        assert(start.downloads.subrange(0, i as int) =~= start.downloads);
        self.downloads = kept;

        let ghost pl = |l: LinkRequestView| !link_hit(l, g);
        let mut kept: Vec<LinkRequest> = Vec::new();
        let mut i: usize = 0;
        while i < self.links.len()
            invariant
                i <= self.links.len(),
                self@.links == start.links,
                g == texts(gone@),
                pl == (|l: LinkRequestView| !link_hit(l, g)),
                kept@.map_values(|l: LinkRequest| l@) == start.links.subrange(0, i as int).filter(pl),
            decreases self.links.len() - i,
        {
            proof {
                lemma_filter_step(start.links, i as int, pl);
            }
            let hit = match &self.links[i].gid {
                Some(x) => contains_text(gone, x.as_str()),
                None => false,
            };
            if !hit {
                kept.push(self.links[i].copy());
                assert(kept@.map_values(|l: LinkRequest| l@) =~= start.links.subrange(0, i as int).filter(pl).push(start.links[i as int]));
            }
            i = i + 1;
        }
        assert(start.links.subrange(0, i as int) =~= start.links);
        self.links = kept;

        let ghost pp = |p: VideoAudioPairView| !pair_hit(p, g);
        let mut kept: Vec<VideoAudioPair> = Vec::new();
        let mut i: usize = 0;
        while i < self.pairs.len()
            invariant
                i <= self.pairs.len(),
                self@.pairs == start.pairs,
                g == texts(gone@),
                pp == (|p: VideoAudioPairView| !pair_hit(p, g)),
                kept@.map_values(|p: VideoAudioPair| p@) == start.pairs.subrange(0, i as int).filter(pp),
            decreases self.pairs.len() - i,
        {
            proof {
                lemma_filter_step(start.pairs, i as int, pp);
            }
            let hit = contains_text(gone, self.pairs[i].video_gid.as_str())
                || contains_text(gone, self.pairs[i].audio_gid.as_str());
            if !hit {
                kept.push(self.pairs[i].copy());
                assert(kept@.map_values(|p: VideoAudioPair| p@) =~= start.pairs.subrange(0, i as int).filter(pp).push(start.pairs[i as int]));
            }
            i = i + 1;
        }
        assert(start.pairs.subrange(0, i as int) =~= start.pairs);
        self.pairs = kept;
    }

    /// Deletes a category that is not built in, with its download items and what
    /// refers to them; `false`, and nothing changes, for a built-in or unknown name.
    pub fn deleteCategory(&mut self, category: &str) -> (r: bool)
        requires
            old(self).wf(),
        ensures
            final(self).wf(),
            r == (has_category(old(self)@.categories, category@) && !is_builtin(category@)),
            final(self)@ == (if r { delete_category(old(self)@, category@) } else { old(self)@ }),
    {
        proof {
            reveal_strlit("All Downloads");
            reveal_strlit("Single Downloads");
            reveal_strlit("Scheduled Downloads");
        }
        if same_text(category, "All Downloads") || same_text(category, "Single Downloads")
            || same_text(category, "Scheduled Downloads") {
            return false;
        }
        if self.category_index(category).is_none() {
            return false;
        }
        let ghost start = self@;
        let gone = self.owned_gids_of(category);
        assert(texts(gone@) == owned_gids(start.downloads, category@));
        self.remove_tasks(&gone);
        let ghost mid = self@;
        let ghost pc = |c: CategoryView| c.category != category@;
        let mut kept: Vec<Category> = Vec::new();
        let mut i: usize = 0;
        while i < self.categories.len()
            invariant
                i <= self.categories.len(),
                self@ == mid,
                pc == (|c: CategoryView| c.category != category@),
                kept@.map_values(|c: Category| c@) == mid.categories.subrange(0, i as int).filter(pc),
            decreases self.categories.len() - i,
        {
            proof {
                lemma_filter_step(mid.categories, i as int, pc);
            }
            if !same_text(self.categories[i].category.as_str(), category) {
                kept.push(self.categories[i].copy());
                assert(kept@.map_values(|c: Category| c@) =~= mid.categories.subrange(0, i as int).filter(pc).push(mid.categories[i as int]));
            }
            i = i + 1;
        }
        assert(mid.categories.subrange(0, i as int) =~= mid.categories);
        self.categories = kept;
        proof {
            assert(self@ =~= delete_category(start, category@));
            lemma_delete_category_keeps_owners(start, category@);
        }
        true
    }

    /// Deletes the download item with that task identifier, the link requests and
    /// pairs that refer to it, and its place in every member list.
    pub fn deleteItemInDownloadTable(&mut self, gid: &str, _category: &str)
        requires
            old(self).wf(),
        ensures
            final(self).wf(),
            final(self)@ == delete_download(old(self)@, gid@),
    {
        let gone: Vec<String> = vec![String::from_str(gid)];
        assert(texts(gone@) =~= seq![gid@]);
        proof {
            lemma_remove_tasks_wf(self@, seq![gid@]);
        }
        self.remove_tasks(&gone);
    }

    fn update_download_one(&mut self, p: &DownloadItemPatch) -> (accepted: bool)
        requires
            old(self).wf(),
        ensures
            final(self).wf(),
            final(self)@ == update_download(old(self)@, p@),
            accepted == (p@.category.is_none() || has_category(old(self)@.categories, p@.category.unwrap())),
    {
        proof {
            lemma_update_download_wf(self@, p@);
        }
        match &p.category {
            Some(c) => {
                if self.category_index(c.as_str()).is_none() {
                    return false;
                }
            },
            None => {},
        }
        let ghost start = self@;
        let mut i: usize = 0;
        while i < self.downloads.len()
            invariant
                i <= self.downloads.len() == start.downloads.len(),
                forall|j: int| 0 <= j < i ==> self@.downloads[j] == (if start.downloads[j].gid == p@.gid { start.downloads[j].patched(p@) } else { start.downloads[j] }),
                forall|j: int| i <= j < self.downloads.len() ==> self@.downloads[j] == start.downloads[j],
                self@ == (StoreView { downloads: self@.downloads, ..start }),
            decreases self.downloads.len() - i,
        {
            let ghost before = self.downloads@;
            let ghost before_v = self@;
            if same_text(self.downloads[i].gid.as_str(), p.gid.as_str()) {
                self.downloads[i].apply(p);
            }
            assert forall|j: int| 0 <= j < i + 1 implies self@.downloads[j] == (if start.downloads[j].gid == p@.gid { start.downloads[j].patched(p@) } else { start.downloads[j] }) by {
                if j < i {
                    assert(self.downloads@[j] == before[j]);
                    assert(before_v.downloads[j] == before[j]@);
                }
            }
            assert forall|j: int| i + 1 <= j < self.downloads.len() implies self@.downloads[j] == start.downloads[j] by {
                assert(self.downloads@[j] == before[j]);
                assert(before_v.downloads[j] == before[j]@);
            }
            i = i + 1;
        }
        assert(self@.downloads =~= update_download(start, p@).downloads);
        assert(self@ == update_download(start, p@));
        true
    }

    /// Applies download patches in order; each changes the fields it supplies of
    /// the item with its task identifier. A patch naming a category that does not
    /// exist is refused, and its position in `list` is returned.
    pub fn updateDownloadTable(&mut self, list: Vec<DownloadItemPatch>) -> (refused: Vec<usize>)
        requires
            old(self).wf(),
        ensures
            final(self).wf(),
            final(self)@ == update_downloads(old(self)@, list@.map_values(|p: DownloadItemPatch| p@)),
            positions(refused@) == missing_patch_owners(old(self)@.categories, list@.map_values(|p: DownloadItemPatch| p@)),
    {
        let ghost start = self@;
        let ghost ps = list@.map_values(|p: DownloadItemPatch| p@);
        let mut refused: Vec<usize> = Vec::new();
        let mut i: usize = 0;
        while i < list.len()
            invariant
                i <= list.len(),
                ps == list@.map_values(|p: DownloadItemPatch| p@),
                self@ == update_downloads(start, ps.subrange(0, i as int)),
                self@.categories == start.categories,
                positions(refused@) == missing_patch_owners(start.categories, ps.subrange(0, i as int)),
                self.wf(),
            decreases list.len() - i,
        {
            let ghost before_r = refused@;
            proof {
                assert(ps.subrange(0, i as int + 1).drop_last() =~= ps.subrange(0, i as int));
            }
            if !self.update_download_one(&list[i]) {
                refused.push(i);
                assert(positions(refused@) =~= positions(before_r).push(i as int));
            }
            i = i + 1;
        }
        assert(ps.subrange(0, i as int) =~= ps);
        refused
    }

    fn update_category_one(&mut self, p: &CategoryPatch)
        requires
            old(self).wf(),
        ensures
            final(self).wf(),
            final(self)@ == update_category(old(self)@, p@),
    {
        proof {
            lemma_update_category_wf(self@, p@);
        }
        let ghost start = self@;
        let mut i: usize = 0;
        while i < self.categories.len()
            invariant
                i <= self.categories.len() == start.categories.len(),
                forall|j: int| 0 <= j < i ==> self@.categories[j] == (if start.categories[j].category == p@.category { start.categories[j].patched(p@) } else { start.categories[j] }),
                forall|j: int| i <= j < self.categories.len() ==> self@.categories[j] == start.categories[j],
                self@ == (StoreView { categories: self@.categories, ..start }),
            decreases self.categories.len() - i,
        {
            let ghost before = self.categories@;
            let ghost before_v = self@;
            if same_text(self.categories[i].category.as_str(), p.category.as_str()) {
                self.categories[i].apply(p);
            }
            assert forall|j: int| 0 <= j < i + 1 implies self@.categories[j] == (if start.categories[j].category == p@.category { start.categories[j].patched(p@) } else { start.categories[j] }) by {
                if j < i {
                    assert(self.categories@[j] == before[j]);
                    assert(before_v.categories[j] == before[j]@);
                }
            }
            assert forall|j: int| i + 1 <= j < self.categories.len() implies self@.categories[j] == start.categories[j] by {
                assert(self.categories@[j] == before[j]);
                assert(before_v.categories[j] == before[j]@);
            }
            i = i + 1;
        }
        assert(self@.categories =~= update_category(start, p@).categories);
        assert(self@ == update_category(start, p@));
    }

    /// Applies category patches in order; each changes the fields it supplies of the category of its name.
    pub fn updateCategoryTable(&mut self, list: Vec<CategoryPatch>)
        requires
            old(self).wf(),
        ensures
            final(self).wf(),
            final(self)@ == update_categories(old(self)@, list@.map_values(|p: CategoryPatch| p@)),
    {
        let ghost start = self@;
        let ghost ps = list@.map_values(|p: CategoryPatch| p@);
        let mut i: usize = 0;
        while i < list.len()
            invariant
                i <= list.len(),
                ps == list@.map_values(|p: CategoryPatch| p@),
                self@ == update_categories(start, ps.subrange(0, i as int)),
                self.wf(),
            decreases list.len() - i,
        {
            proof {
                assert(ps.subrange(0, i as int + 1).drop_last() =~= ps.subrange(0, i as int));
            }
            self.update_category_one(&list[i]);
            i = i + 1;
        }
        assert(ps.subrange(0, i as int) =~= ps);
    }

    fn update_link_one(&mut self, p: &LinkRequestPatch)
        requires
            old(self).wf(),
        ensures
            final(self).wf(),
            final(self)@ == update_link(old(self)@, p@),
    {
        proof {
            lemma_update_link_wf(self@, p@);
        }
        let ghost start = self@;
        let mut i: usize = 0;
        while i < self.links.len()
            invariant
                i <= self.links.len() == start.links.len(),
                forall|j: int| 0 <= j < i ==> self@.links[j] == (if start.links[j].gid == Some(p@.gid) { start.links[j].patched(p@) } else { start.links[j] }),
                forall|j: int| i <= j < self.links.len() ==> self@.links[j] == start.links[j],
                self@ == (StoreView { links: self@.links, ..start }),
            decreases self.links.len() - i,
        {
            let ghost before = self.links@;
            let ghost before_v = self@;
            if (match &self.links[i].gid { Some(g) => same_text(g.as_str(), p.gid.as_str()), None => false }) {
                self.links[i].apply(p);
            }
            assert forall|j: int| 0 <= j < i + 1 implies self@.links[j] == (if start.links[j].gid == Some(p@.gid) { start.links[j].patched(p@) } else { start.links[j] }) by {
                if j < i {
                    assert(self.links@[j] == before[j]);
                    assert(before_v.links[j] == before[j]@);
                }
            }
            assert forall|j: int| i + 1 <= j < self.links.len() implies self@.links[j] == start.links[j] by {
                assert(self.links@[j] == before[j]);
                assert(before_v.links[j] == before[j]@);
            }
            i = i + 1;
        }
        assert(self@.links =~= update_link(start, p@).links);
        assert(self@ == update_link(start, p@));
    }

    /// Applies link-request patches in order; each changes the fields it supplies of every request with its task identifier.
    pub fn updateAddLinkTable(&mut self, list: Vec<LinkRequestPatch>)
        requires
            old(self).wf(),
        ensures
            final(self).wf(),
            final(self)@ == update_links(old(self)@, list@.map_values(|p: LinkRequestPatch| p@)),
    {
        let ghost start = self@;
        let ghost ps = list@.map_values(|p: LinkRequestPatch| p@);
        let mut i: usize = 0;
        while i < list.len()
            invariant
                i <= list.len(),
                ps == list@.map_values(|p: LinkRequestPatch| p@),
                self@ == update_links(start, ps.subrange(0, i as int)),
                self.wf(),
            decreases list.len() - i,
        {
            proof {
                assert(ps.subrange(0, i as int + 1).drop_last() =~= ps.subrange(0, i as int));
            }
            self.update_link_one(&list[i]);
            i = i + 1;
        }
        assert(ps.subrange(0, i as int) =~= ps);
    }

    fn update_pair_one(&mut self, p: &VideoAudioPairPatch)
        requires
            old(self).wf(),
        ensures
            final(self).wf(),
            final(self)@ == update_pair(old(self)@, p@),
    {
        proof {
            lemma_update_pair_wf(self@, p@);
        }
        let ghost start = self@;
        let mut i: usize = 0;
        while i < self.pairs.len()
            invariant
                i <= self.pairs.len() == start.pairs.len(),
                forall|j: int| 0 <= j < i ==> self@.pairs[j] == (if pair_selected(start.pairs[j], p@) { start.pairs[j].patched(p@) } else { start.pairs[j] }),
                forall|j: int| i <= j < self.pairs.len() ==> self@.pairs[j] == start.pairs[j],
                self@ == (StoreView { pairs: self@.pairs, ..start }),
            decreases self.pairs.len() - i,
        {
            let ghost before = self.pairs@;
            let ghost before_v = self@;
            if self.pair_selected_exec(i, p) {
                self.pairs[i].apply(p);
            }
            assert forall|j: int| 0 <= j < i + 1 implies self@.pairs[j] == (if pair_selected(start.pairs[j], p@) { start.pairs[j].patched(p@) } else { start.pairs[j] }) by {
                if j < i {
                    assert(self.pairs@[j] == before[j]);
                    assert(before_v.pairs[j] == before[j]@);
                }
            }
            assert forall|j: int| i + 1 <= j < self.pairs.len() implies self@.pairs[j] == start.pairs[j] by {
                assert(self.pairs@[j] == before[j]);
                assert(before_v.pairs[j] == before[j]@);
            }
            i = i + 1;
        }
        assert(self@.pairs =~= update_pair(start, p@).pairs);
        assert(self@ == update_pair(start, p@));
    }

    /// Applies pair patches in order; each changes the fields it supplies of the pairs it selects (see `pair_selected`).
    pub fn updateVideoFinderTable(&mut self, list: Vec<VideoAudioPairPatch>)
        requires
            old(self).wf(),
        ensures
            final(self).wf(),
            final(self)@ == update_pairs(old(self)@, list@.map_values(|p: VideoAudioPairPatch| p@)),
    {
        let ghost start = self@;
        let ghost ps = list@.map_values(|p: VideoAudioPairPatch| p@);
        let mut i: usize = 0;
        while i < list.len()
            invariant
                i <= list.len(),
                ps == list@.map_values(|p: VideoAudioPairPatch| p@),
                self@ == update_pairs(start, ps.subrange(0, i as int)),
                self.wf(),
            decreases list.len() - i,
        {
            proof {
                assert(ps.subrange(0, i as int + 1).drop_last() =~= ps.subrange(0, i as int));
            }
            self.update_pair_one(&list[i]);
            i = i + 1;
        }
        assert(ps.subrange(0, i as int) =~= ps);
    }

    fn pair_selected_exec(&self, i: usize, p: &VideoAudioPairPatch) -> (r: bool)
        requires
            i < self.pairs.len(),
        ensures
            r == pair_selected(self@.pairs[i as int], p@),
    {
        match &p.video_gid {
            Some(g) => same_text(self.pairs[i].video_gid.as_str(), g.as_str()),
            None => match &p.audio_gid {
                Some(g) => same_text(self.pairs[i].audio_gid.as_str(), g.as_str()),
                None => false,
            },
        }
    }

    /// Adds link requests in order, each with its after-download action cleared; a
    /// request naming a task identifier without a download item is refused, and
    /// its position in `list` is returned.
    pub fn insertInAddLinkTable(&mut self, list: Vec<LinkRequest>) -> (refused: Vec<usize>)
        requires
            old(self).wf(),
        ensures
            final(self).wf(),
            final(self)@ == insert_links(old(self)@, list@.map_values(|l: LinkRequest| l@)),
            positions(refused@) == dangling_links(old(self)@.downloads, list@.map_values(|l: LinkRequest| l@)),
    {
        let ghost start = self@;
        let ghost items = list@.map_values(|l: LinkRequest| l@);
        let mut refused: Vec<usize> = Vec::new();
        let mut i: usize = 0;
        while i < list.len()
            invariant
                i <= list.len(),
                items == list@.map_values(|l: LinkRequest| l@),
                self@ == insert_links(start, items.subrange(0, i as int)),
                self@.downloads == start.downloads,
                positions(refused@) == dangling_links(start.downloads, items.subrange(0, i as int)),
                self.wf(),
            decreases list.len() - i,
        {
            let ghost before_r = refused@;
            let ghost before = self@;
            proof {
                assert(items.subrange(0, i as int + 1).drop_last() =~= items.subrange(0, i as int));
                lemma_insert_link_wf(before, items[i as int]);
            }
            let ok = match &list[i].gid {
                Some(g) => self.download_index(g.as_str()).is_some(),
                None => true,
            };
            if ok {
                let mut l = list[i].copy();
                l.after_download = None;
                self.links.push(l);
                assert(self@.links =~= before.links.push(LinkRequestView { after_download: None, ..items[i as int] }));
            } else {
                refused.push(i);
                assert(positions(refused@) =~= positions(before_r).push(i as int));
            }
            assert(self@ == insert_link(before, items[i as int]));
            i = i + 1;
        }
        assert(items.subrange(0, i as int) =~= items);
        refused
    }

    /// Adds audio/video pairs in order; a pair with a task that has no download
    /// item is refused, and its position in `list` is returned.
    pub fn insertInVideoFinderTable(&mut self, list: Vec<VideoAudioPair>) -> (refused: Vec<usize>)
        requires
            old(self).wf(),
        ensures
            final(self).wf(),
            final(self)@ == insert_pairs(old(self)@, list@.map_values(|p: VideoAudioPair| p@)),
            positions(refused@) == dangling_pairs(old(self)@.downloads, list@.map_values(|p: VideoAudioPair| p@)),
    {
        let ghost start = self@;
        let ghost items = list@.map_values(|p: VideoAudioPair| p@);
        let mut refused: Vec<usize> = Vec::new();
        let mut i: usize = 0;
        while i < list.len()
            invariant
                i <= list.len(),
                items == list@.map_values(|p: VideoAudioPair| p@),
                self@ == insert_pairs(start, items.subrange(0, i as int)),
                self@.downloads == start.downloads,
                positions(refused@) == dangling_pairs(start.downloads, items.subrange(0, i as int)),
                self.wf(),
            decreases list.len() - i,
        {
            let ghost before_r = refused@;
            let ghost before = self@;
            proof {
                assert(items.subrange(0, i as int + 1).drop_last() =~= items.subrange(0, i as int));
                lemma_insert_pair_wf(before, items[i as int]);
            }
            if self.download_index(list[i].video_gid.as_str()).is_some()
                && self.download_index(list[i].audio_gid.as_str()).is_some() {
                self.pairs.push(list[i].copy());
                assert(self@.pairs =~= before.pairs.push(items[i as int]));
            } else {
                refused.push(i);
                assert(positions(refused@) =~= positions(before_r).push(i as int));
            }
            assert(self@ == insert_pair(before, items[i as int]));
            i = i + 1;
        }
        assert(items.subrange(0, i as int) =~= items);
        refused
    }

    /// The first link request with that task identifier.
    pub fn searchGidInAddLinkTable(&self, gid: &str) -> (r: Option<LinkRequest>)
        ensures
            match r {
                Some(l) => exists|k: int|
                    0 <= k < self@.links.len() && self@.links[k] == l@ && l@.gid == Some(gid@)
                        && forall|j: int| 0 <= j < k ==> #[trigger] self@.links[j].gid != Some(gid@),
                None => forall|j: int| 0 <= j < self@.links.len() ==> #[trigger] self@.links[j].gid != Some(gid@),
            },
    {
        let mut i: usize = 0;
        while i < self.links.len()
            invariant
                i <= self.links.len(),
                forall|j: int| 0 <= j < i ==> #[trigger] self@.links[j].gid != Some(gid@),
            decreases self.links.len() - i,
        {
            let hit = match &self.links[i].gid {
                Some(g) => same_text(g.as_str(), gid),
                None => false,
            };
            if hit {
                let l = self.links[i].copy();
                assert(self@.links[i as int] == l@);
                return Some(l);
            }
            i = i + 1;
        }
        None
    }

    /// Whether a link request for that link exists.
    pub fn searchLinkInAddLinkTable(&self, link: &str) -> (r: bool)
        ensures
            r == exists|k: int| 0 <= k < self@.links.len() && #[trigger] self@.links[k].link == Some(link@),
    {
        let mut i: usize = 0;
        while i < self.links.len()
            invariant
                i <= self.links.len(),
                forall|j: int| 0 <= j < i ==> #[trigger] self@.links[j].link != Some(link@),
            decreases self.links.len() - i,
        {
            let hit = match &self.links[i].link {
                Some(g) => same_text(g.as_str(), link),
                None => false,
            };
            if hit {
                assert(self@.links[i as int].link == Some(link@));
                return true;
            }
            i = i + 1;
        }
        false
    }

    /// The first audio/video pair that has that task as its audio or its video.
    pub fn searchGidInVideoFinderTable(&self, gid: &str) -> (r: Option<VideoAudioPair>)
        ensures
            match r {
                Some(p) => exists|k: int|
                    0 <= k < self@.pairs.len() && self@.pairs[k] == p@
                        && (p@.audio_gid == gid@ || p@.video_gid == gid@)
                        && forall|j: int| 0 <= j < k ==> (#[trigger] self@.pairs[j]).audio_gid != gid@ && self@.pairs[j].video_gid != gid@,
                None => forall|j: int| 0 <= j < self@.pairs.len() ==> (#[trigger] self@.pairs[j]).audio_gid != gid@ && self@.pairs[j].video_gid != gid@,
            },
    {
        let mut i: usize = 0;
        while i < self.pairs.len()
            invariant
                i <= self.pairs.len(),
                forall|j: int| 0 <= j < i ==> (#[trigger] self@.pairs[j]).audio_gid != gid@ && self@.pairs[j].video_gid != gid@,
            decreases self.pairs.len() - i,
        {
            if same_text(self.pairs[i].audio_gid.as_str(), gid) || same_text(self.pairs[i].video_gid.as_str(), gid) {
                let p = self.pairs[i].copy();
                assert(self@.pairs[i as int] == p@);
                return Some(p);
            }
            i = i + 1;
        }
        None
    }

    /// The download items of a category, or all of them, in table order.
    pub fn returnItemsInDownloadTable(&self, category: Option<&str>) -> (r: Vec<DownloadItem>)
        ensures
            r@.map_values(|d: DownloadItem| d@) == items_in(self@.downloads, match category { Some(c) => Some(c@), None => None }),
    {
        let ghost cv: Option<Seq<char>> = match category { Some(c) => Some(c@), None => None };
        let ghost p = |d: DownloadItemView| cv.is_none() || d.category == cv.unwrap();
        let mut r: Vec<DownloadItem> = Vec::new();
        let mut i: usize = 0;
        while i < self.downloads.len()
            invariant
                i <= self.downloads.len(),
                p == (|d: DownloadItemView| cv.is_none() || d.category == cv.unwrap()),
                cv == (match category { Some(c) => Some(c@), None => None::<Seq<char>> }),
                r@.map_values(|d: DownloadItem| d@) == self@.downloads.subrange(0, i as int).filter(p),
            decreases self.downloads.len() - i,
        {
            proof {
                lemma_filter_step(self@.downloads, i as int, p);
            }
            let keep = match category {
                Some(c) => same_text(self.downloads[i].category.as_str(), c),
                None => true,
            };
            if keep {
                r.push(self.downloads[i].copy());
                assert(r@.map_values(|d: DownloadItem| d@) =~= self@.downloads.subrange(0, i as int).filter(p).push(self@.downloads[i as int]));
            }
            i = i + 1;
        }
        assert(self@.downloads.subrange(0, i as int) =~= self@.downloads);
        r
    }

    /// Task identifiers of the download items of a category, in table order.
    fn owned_gids_of(&self, category: &str) -> (r: Vec<String>)
        ensures
            texts(r@) == owned_gids(self@.downloads, category@),
    {
        let ghost pn = |d: DownloadItemView| d.category == category@;
        let mut gone: Vec<String> = Vec::new();
        let mut i: usize = 0;
        while i < self.downloads.len()
            invariant
                i <= self.downloads.len(),
                pn == (|d: DownloadItemView| d.category == category@),
                texts(gone@) == self@.downloads.subrange(0, i as int).filter(pn).map_values(|d: DownloadItemView| d.gid),
            decreases self.downloads.len() - i,
        {
            proof {
                lemma_filter_step(self@.downloads, i as int, pn);
            }
            if same_text(self.downloads[i].category.as_str(), category) {
                let ghost before = gone@;
                gone.push(self.downloads[i].gid.clone());
                assert(gone@ == before.push(gone@[gone@.len() - 1]));
                assert(texts(gone@) =~= texts(before).push(self@.downloads[i as int].gid));
                assert(texts(gone@) =~= self@.downloads.subrange(0, i as int).filter(pn).push(self@.downloads[i as int]).map_values(|d: DownloadItemView| d.gid));
            }
            i = i + 1;
        }
        assert(self@.downloads.subrange(0, i as int) =~= self@.downloads);
        gone
    }

    /// The link requests whose task belongs to a category, or all of them.
    pub fn returnItemsInAddLinkTable(&self, category: Option<&str>) -> (r: Vec<LinkRequest>)
        ensures
            r@.map_values(|l: LinkRequest| l@) == links_in(self@, match category { Some(c) => Some(c@), None => None }),
    {
        let gone: Vec<String> = match category {
            Some(c) => self.owned_gids_of(c),
            None => Vec::new(),
        };
        let ghost g = texts(gone@);
        let ghost p = |l: LinkRequestView| link_hit(l, g);
        let mut r: Vec<LinkRequest> = Vec::new();
        let mut i: usize = 0;
        while i < self.links.len()
            invariant
                i <= self.links.len(),
                g == texts(gone@),
                p == (|l: LinkRequestView| link_hit(l, g)),
                category.is_none() ==> r@.map_values(|l: LinkRequest| l@) == self@.links.subrange(0, i as int),
                category.is_some() ==> r@.map_values(|l: LinkRequest| l@) == self@.links.subrange(0, i as int).filter(p),
            decreases self.links.len() - i,
        {
            proof {
                lemma_filter_step(self@.links, i as int, p);
            }
            let keep = match category {
                None => true,
                Some(_) => match &self.links[i].gid {
                    Some(x) => contains_text(&gone, x.as_str()),
                    None => false,
                },
            };
            if keep {
                r.push(self.links[i].copy());
                proof {
                    if category.is_some() {
                        assert(r@.map_values(|l: LinkRequest| l@) =~= self@.links.subrange(0, i as int).filter(p).push(self@.links[i as int]));
                    } else {
                        assert(r@.map_values(|l: LinkRequest| l@) =~= self@.links.subrange(0, i as int + 1));
                    }
                }
            }
            i = i + 1;
        }
        assert(self@.links.subrange(0, i as int) =~= self@.links);
        r
    }

    /// Names of the categories, in the order they were created.
    pub fn categoriesList(&self) -> (r: Vec<String>)
        ensures
            texts(r@) == self@.categories.map_values(|c: CategoryView| c.category),
    {
        let mut r: Vec<String> = Vec::new();
        let mut i: usize = 0;
        while i < self.categories.len()
            invariant
                i <= self.categories.len(),
                r@.len() == i,
                forall|j: int| 0 <= j < i ==> r@[j]@ == self@.categories[j].category,
            decreases self.categories.len() - i,
        {
            r.push(self.categories[i].category.clone());
            i = i + 1;
        }
        assert(texts(r@) =~= self@.categories.map_values(|c: CategoryView| c.category));
        r
    }

    fn gids_where(&self, category: Option<&str>, statuses: &Vec<String>) -> (r: Vec<String>)
        ensures
            texts(r@) == gids_with_status(self@.downloads, match category { Some(c) => Some(c@), None => None }, texts(statuses@)),
    {
        let ghost cv: Option<Seq<char>> = match category { Some(c) => Some(c@), None => None };
        let ghost st = texts(statuses@);
        let ghost p = |d: DownloadItemView| (cv.is_none() || d.category == cv.unwrap()) && st.contains(d.status);
        let mut r: Vec<String> = Vec::new();
        let mut i: usize = 0;
        while i < self.downloads.len()
            invariant
                i <= self.downloads.len(),
                cv == (match category { Some(c) => Some(c@), None => None::<Seq<char>> }),
                st == texts(statuses@),
                p == (|d: DownloadItemView| (cv.is_none() || d.category == cv.unwrap()) && st.contains(d.status)),
                texts(r@) == self@.downloads.subrange(0, i as int).filter(p).map_values(|d: DownloadItemView| d.gid),
            decreases self.downloads.len() - i,
        {
            proof {
                lemma_filter_step(self@.downloads, i as int, p);
            }
            let in_category = match category {
                Some(c) => same_text(self.downloads[i].category.as_str(), c),
                None => true,
            };
            if in_category && contains_text(statuses, self.downloads[i].status.as_str()) {
                let ghost before = r@;
                r.push(self.downloads[i].gid.clone());
                assert(r@ == before.push(r@[r@.len() - 1]));
                assert(texts(r@) =~= texts(before).push(self@.downloads[i as int].gid));
                assert(texts(r@) =~= self@.downloads.subrange(0, i as int).filter(p).push(self@.downloads[i as int]).map_values(|d: DownloadItemView| d.gid));
            }
            i = i + 1;
        }
        assert(self@.downloads.subrange(0, i as int) =~= self@.downloads);
        r
    }

    /// Task identifiers of the unfinished download items ("downloading",
    /// "waiting", "scheduled" or "paused") of a category, or of all of them.
    pub fn findActiveDownloads(&self, category: Option<&str>) -> (r: Vec<String>)
        ensures
            texts(r@) == gids_with_status(self@.downloads, match category { Some(c) => Some(c@), None => None }, active_statuses()),
    {
        proof {
            reveal_strlit("downloading");
            reveal_strlit("waiting");
            reveal_strlit("scheduled");
            reveal_strlit("paused");
        }
        let statuses = vec![
            String::from_str("downloading"),
            String::from_str("waiting"),
            String::from_str("scheduled"),
            String::from_str("paused"),
        ];
        assert(texts(statuses@) =~= active_statuses());
        self.gids_where(category, &statuses)
    }

    /// Task identifiers of the download items that are "downloading" or "waiting".
    pub fn returnDownloadingItems(&self) -> (r: Vec<String>)
        ensures
            texts(r@) == gids_with_status(self@.downloads, None, seq!["downloading"@, "waiting"@]),
    {
        proof {
            reveal_strlit("downloading");
            reveal_strlit("waiting");
        }
        let statuses = vec![String::from_str("downloading"), String::from_str("waiting")];
        assert(texts(statuses@) =~= seq!["downloading"@, "waiting"@]);
        self.gids_where(None, &statuses)
    }

    /// Task identifiers of the download items that are "paused".
    pub fn returnPausedItems(&self) -> (r: Vec<String>)
        ensures
            texts(r@) == gids_with_status(self@.downloads, None, seq!["paused"@]),
    {
        proof {
            reveal_strlit("paused");
        }
        let statuses = vec![String::from_str("paused")];
        assert(texts(statuses@) =~= seq!["paused"@]);
        self.gids_where(None, &statuses)
    }

    /// The tasks of the audio/video pairs: both of each pair (video first), the
    /// video tasks, and the audio tasks, each in table order.
    pub fn returnVideoFinderGids(&self) -> (r: (Vec<String>, Vec<String>, Vec<String>))
        ensures
            texts(r.0@) == pair_gids(self@.pairs),
            texts(r.1@) == self@.pairs.map_values(|p: VideoAudioPairView| p.video_gid),
            texts(r.2@) == self@.pairs.map_values(|p: VideoAudioPairView| p.audio_gid),
    {
        let mut all: Vec<String> = Vec::new();
        let mut videos: Vec<String> = Vec::new();
        let mut audios: Vec<String> = Vec::new();
        let mut i: usize = 0;
        while i < self.pairs.len()
            invariant
                i <= self.pairs.len(),
                texts(all@) == pair_gids(self@.pairs.subrange(0, i as int)),
                videos@.len() == i && audios@.len() == i,
                forall|j: int| 0 <= j < i ==> videos@[j]@ == self@.pairs[j].video_gid && audios@[j]@ == self@.pairs[j].audio_gid,
            decreases self.pairs.len() - i,
        {
            let ghost before = all@;
            assert(self@.pairs.subrange(0, i as int + 1).drop_last() =~= self@.pairs.subrange(0, i as int));
            all.push(self.pairs[i].video_gid.clone());
            all.push(self.pairs[i].audio_gid.clone());
            videos.push(self.pairs[i].video_gid.clone());
            audios.push(self.pairs[i].audio_gid.clone());
            assert(all@ == before.push(all@[all@.len() - 2]).push(all@[all@.len() - 1]));
            assert(texts(all@) =~= texts(before).push(self@.pairs[i as int].video_gid).push(self@.pairs[i as int].audio_gid));
            i = i + 1;
        }
        assert(self@.pairs.subrange(0, i as int) =~= self@.pairs);
        assert(texts(videos@) =~= self@.pairs.map_values(|p: VideoAudioPairView| p.video_gid));
        assert(texts(audios@) =~= self@.pairs.map_values(|p: VideoAudioPairView| p.audio_gid));
        (all, videos, audios)
    }

    /// Stored status of the download item `gid`.
    fn status_of_exec(&self, gid: &str) -> (r: Option<String>)
        ensures
            opt_view(r) == status_of(self@.downloads, gid@),
    {
        let mut i: usize = self.downloads.len();
        assert(self@.downloads.subrange(0, i as int) =~= self@.downloads);
        while i > 0
            invariant
                i <= self.downloads.len(),
                status_of(self@.downloads, gid@) == status_of(self@.downloads.subrange(0, i as int), gid@),
            decreases i,
        {
            let ghost pre = self@.downloads.subrange(0, i as int);
            assert(pre.drop_last() =~= self@.downloads.subrange(0, i as int - 1));
            assert(pre.last() == self@.downloads[i as int - 1]);
            if same_text(self.downloads[i - 1].gid.as_str(), gid) {
                return Some(self.downloads[i - 1].status.clone());
            }
            i = i - 1;
        }
        None
    }

    /// The members of a category that have a download item, in list order, with
    /// their statuses; `None` where the category does not exist.
    pub fn memberStatuses(&self, category: &str) -> (r: Option<Vec<MemberStatus>>)
        ensures
            match r {
                None => !has_category(self@.categories, category@),
                Some(ms) => exists|k: int|
                    0 <= k < self@.categories.len() && #[trigger] self@.categories[k].category == category@
                        && member_views(ms@) == member_statuses(self@.downloads, self@.categories[k].gid_list),
            },
    {
        let k = match self.category_index(category) {
            Some(k) => k,
            None => return None,
        };
        let list = &self.categories[k].gid_list;
        let ghost lv = texts(list@);
        assert(lv == self@.categories[k as int].gid_list);
        let mut r: Vec<MemberStatus> = Vec::new();
        let mut i: usize = 0;
        while i < list.len()
            invariant
                i <= list.len(),
                lv == texts(list@),
                member_views(r@) == member_statuses(self@.downloads, lv.subrange(0, i as int)),
            decreases list.len() - i,
        {
            assert(lv.subrange(0, i as int + 1).drop_last() =~= lv.subrange(0, i as int));
            assert(lv.subrange(0, i as int + 1).last() == list@[i as int]@);
            match self.status_of_exec(list[i].as_str()) {
                Some(st) => {
                    r.push(MemberStatus { gid: list[i].clone(), status: st });
                    assert(member_views(r@) =~= member_statuses(self@.downloads, lv.subrange(0, i as int)).push((list@[i as int]@, r@[r@.len() - 1].status@)));
                },
                None => {},
            }
            i = i + 1;
        }
        assert(lv.subrange(0, i as int) =~= lv);
        Some(r)
    }

    /// Clears, in the link requests of task `gid`, the start time, the end time
    /// and the after-download action, each where asked.
    pub fn setDefaultGidInAddlinkTable(&mut self, gid: &str, start_time: bool, end_time: bool, after_download: bool)
        requires
            old(self).wf(),
        ensures
            final(self).wf(),
            final(self)@ == (StoreView {
                links: old(self)@.links.map_values(|l: LinkRequestView| cleared_link(l, gid@, start_time, end_time, after_download)),
                ..old(self)@
            }),
    {
        let ghost start = self@;
        let mut i: usize = 0;
        while i < self.links.len()
            invariant
                i <= self.links.len() == start.links.len(),
                forall|j: int| 0 <= j < i ==> self@.links[j] == cleared_link(start.links[j], gid@, start_time, end_time, after_download),
                forall|j: int| i <= j < self.links.len() ==> self@.links[j] == start.links[j],
                self@ == (StoreView { links: self@.links, ..start }),
            decreases self.links.len() - i,
        {
            let ghost before = self.links@;
            let ghost before_v = self@;
            let hit = match &self.links[i].gid {
                Some(g) => same_text(g.as_str(), gid),
                None => false,
            };
            if hit {
                if start_time {
                    self.links[i].start_time = None;
                }
                if end_time {
                    self.links[i].end_time = None;
                }
                if after_download {
                    self.links[i].after_download = None;
                }
            }
            assert(self@.links[i as int] == cleared_link(start.links[i as int], gid@, start_time, end_time, after_download));
            assert forall|j: int| 0 <= j < i implies self@.links[j] == cleared_link(start.links[j], gid@, start_time, end_time, after_download) by {
                assert(self.links@[j] == before[j]);
                assert(before_v.links[j] == before[j]@);
            }
            assert forall|j: int| i + 1 <= j < self.links.len() implies self@.links[j] == start.links[j] by {
                assert(self.links@[j] == before[j]);
                assert(before_v.links[j] == before[j]@);
            }
            i = i + 1;
        }
        let ghost w = StoreView {
            links: start.links.map_values(|l: LinkRequestView| cleared_link(l, gid@, start_time, end_time, after_download)),
            ..start
        };
        assert(self@.links =~= w.links);
        assert forall|k: int| 0 <= k < w.links.len() && (#[trigger] w.links[k]).gid.is_some() implies has_download(w.downloads, w.links[k].gid.unwrap()) by {
            assert(w.links[k].gid == start.links[k].gid);
        }
    }

    /// Clears the one-shot settings of every table (see `defaults_restored`).
    pub fn setDBTablesToDefaultValue(&mut self)
        requires
            old(self).wf(),
        ensures
            final(self).wf(),
            final(self)@ == defaults_restored(old(self)@),
    {
        proof {
            reveal_strlit("no");
            reveal_strlit("stopped");
            reveal_strlit("complete");
            reveal_strlit("error");
            lemma_defaults_restored_wf(self@);
        }
        let ghost start = self@;
        let ghost target = defaults_restored(start);
        let mut i: usize = 0;
        while i < self.categories.len()
            invariant
                i <= self.categories.len() == start.categories.len(),
                target == defaults_restored(start),
                forall|j: int| 0 <= j < i ==> self@.categories[j] == target.categories[j],
                forall|j: int| i <= j < self.categories.len() ==> self@.categories[j] == start.categories[j],
                self@ == (StoreView { categories: self@.categories, ..start }),
            decreases self.categories.len() - i,
        {
            let ghost before = self.categories@;
            let ghost before_v = self@;
            self.categories[i].start_time_enable = String::from_str("no");
            self.categories[i].end_time_enable = String::from_str("no");
            self.categories[i].reverse = String::from_str("no");
            self.categories[i].limit_enable = String::from_str("no");
            self.categories[i].after_download = String::from_str("no");
            assert(self@.categories[i as int] == target.categories[i as int]);
            assert forall|j: int| 0 <= j < i implies self@.categories[j] == target.categories[j] by {
                assert(self.categories@[j] == before[j]);
                assert(before_v.categories[j] == before[j]@);
            }
            assert forall|j: int| i + 1 <= j < self.categories.len() implies self@.categories[j] == start.categories[j] by {
                assert(self.categories@[j] == before[j]);
                assert(before_v.categories[j] == before[j]@);
            }
            i = i + 1;
        }
        assert(self@.categories =~= target.categories);
        let ghost mid = self@;
        let mut i: usize = 0;
        while i < self.downloads.len()
            invariant
                i <= self.downloads.len() == start.downloads.len(),
                target == defaults_restored(start),
                forall|j: int| 0 <= j < i ==> self@.downloads[j] == target.downloads[j],
                forall|j: int| i <= j < self.downloads.len() ==> self@.downloads[j] == start.downloads[j],
                self@ == (StoreView { downloads: self@.downloads, ..mid }),
            decreases self.downloads.len() - i,
        {
            let ghost before = self.downloads@;
            let ghost before_v = self@;
            let st = self.downloads[i].status.as_str();
            if !same_text(st, "complete") && !same_text(st, "error") {
                self.downloads[i].status = String::from_str("stopped");
            }
            assert(self@.downloads[i as int] == target.downloads[i as int]);
            assert forall|j: int| 0 <= j < i implies self@.downloads[j] == target.downloads[j] by {
                assert(self.downloads@[j] == before[j]);
                assert(before_v.downloads[j] == before[j]@);
            }
            assert forall|j: int| i + 1 <= j < self.downloads.len() implies self@.downloads[j] == start.downloads[j] by {
                assert(self.downloads@[j] == before[j]);
                assert(before_v.downloads[j] == before[j]@);
            }
            i = i + 1;
        }
        assert(self@.downloads =~= target.downloads);
        let ghost mid = self@;
        let mut i: usize = 0;
        while i < self.links.len()
            invariant
                i <= self.links.len() == start.links.len(),
                target == defaults_restored(start),
                forall|j: int| 0 <= j < i ==> self@.links[j] == target.links[j],
                forall|j: int| i <= j < self.links.len() ==> self@.links[j] == start.links[j],
                self@ == (StoreView { links: self@.links, ..mid }),
            decreases self.links.len() - i,
        {
            let ghost before = self.links@;
            let ghost before_v = self@;
            self.links[i].start_time = None;
            self.links[i].end_time = None;
            self.links[i].after_download = None;
            assert(self@.links[i as int] == target.links[i as int]);
            assert forall|j: int| 0 <= j < i implies self@.links[j] == target.links[j] by {
                assert(self.links@[j] == before[j]);
                assert(before_v.links[j] == before[j]@);
            }
            assert forall|j: int| i + 1 <= j < self.links.len() implies self@.links[j] == start.links[j] by {
                assert(self.links@[j] == before[j]);
                assert(before_v.links[j] == before[j]@);
            }
            i = i + 1;
        }
        assert(self@.links =~= target.links);
        let ghost mid = self@;
        let mut i: usize = 0;
        while i < self.pairs.len()
            invariant
                i <= self.pairs.len() == start.pairs.len(),
                target == defaults_restored(start),
                forall|j: int| 0 <= j < i ==> self@.pairs[j] == target.pairs[j],
                forall|j: int| i <= j < self.pairs.len() ==> self@.pairs[j] == start.pairs[j],
                self@ == (StoreView { pairs: self@.pairs, ..mid }),
            decreases self.pairs.len() - i,
        {
            let ghost before = self.pairs@;
            let ghost before_v = self@;
            self.pairs[i].checking = String::from_str("no");
            assert(self@.pairs[i as int] == target.pairs[i as int]);
            assert forall|j: int| 0 <= j < i implies self@.pairs[j] == target.pairs[j] by {
                assert(self.pairs@[j] == before[j]);
                assert(before_v.pairs[j] == before[j]@);
            }
            assert forall|j: int| i + 1 <= j < self.pairs.len() implies self@.pairs[j] == start.pairs[j] by {
                assert(self.pairs@[j] == before[j]);
                assert(before_v.pairs[j] == before[j]@);
            }
            i = i + 1;
        }
        assert(self@.pairs =~= target.pairs);
        assert(self@ == target);
    }

    /// Empties the store: the built-in categories stay, with empty member lists;
    /// every other row goes.
    pub fn resetDataBase(&mut self)
        requires
            old(self).wf(),
        ensures
            final(self).wf(),
            final(self)@ == reset_store(old(self)@),
    {
        proof {
            reveal_strlit("All Downloads");
            reveal_strlit("Single Downloads");
            reveal_strlit("Scheduled Downloads");
            lemma_reset_store_wf(self@);
        }
        let ghost start = self@;
        let ghost pb = |c: CategoryView| is_builtin(c.category);
        let ghost target = reset_store(start);
        let mut kept: Vec<Category> = Vec::new();
        let mut i: usize = 0;
        while i < self.categories.len()
            invariant
                i <= self.categories.len(),
                self@ == start,
                pb == (|c: CategoryView| is_builtin(c.category)),
                kept@.len() == start.categories.subrange(0, i as int).filter(pb).len(),
                forall|j: int| 0 <= j < kept@.len() ==> kept@[j]@ == without_list(start.categories.subrange(0, i as int).filter(pb)[j]),
            decreases self.categories.len() - i,
        {
            proof {
                lemma_filter_step(start.categories, i as int, pb);
            }
            let name = self.categories[i].category.as_str();
            if same_text(name, "All Downloads") || same_text(name, "Single Downloads")
                || same_text(name, "Scheduled Downloads") {
                let mut c = self.categories[i].copy();
                c.gid_list = Vec::new();
                assert(c@.gid_list =~= Seq::<Seq<char>>::empty());
                assert(c@ == without_list(start.categories[i as int]));
                kept.push(c);
            }
            i = i + 1;
        }
        assert(start.categories.subrange(0, i as int) =~= start.categories);
        self.categories = kept;
        self.downloads = Vec::new();
        self.links = Vec::new();
        self.pairs = Vec::new();
        assert(self@.categories =~= target.categories);
        assert(self@.downloads =~= target.downloads);
        assert(self@.links =~= target.links);
        assert(self@.pairs =~= target.pairs);
    }

    /// Rebuilds the store from stored rows (see `loaded`).
    pub fn load(
        categories: Vec<Category>,
        downloads: Vec<DownloadItem>,
        links: Vec<LinkRequest>,
        pairs: Vec<VideoAudioPair>,
    ) -> (r: DataBase)
        ensures
            r.wf(),
            r@ == loaded(
                categories@.map_values(|c: Category| c@),
                downloads@.map_values(|d: DownloadItem| d@),
                links@.map_values(|l: LinkRequest| l@),
                pairs@.map_values(|p: VideoAudioPair| p@),
            ),
    {
        let mut db = DataBase::new();
        let ghost cs = categories@.map_values(|c: Category| c@);
        let mut i: usize = 0;
        while i < categories.len()
            invariant
                i <= categories.len(),
                cs == categories@.map_values(|c: Category| c@),
                db@ == put_categories(initial_store(), cs.subrange(0, i as int)),
                db.wf(),
            decreases categories.len() - i,
        {
            let ghost before = db@;
            proof {
                assert(cs.subrange(0, i as int + 1).drop_last() =~= cs.subrange(0, i as int));
                lemma_put_category_wf(before, cs[i as int]);
            }
            match db.category_index(categories[i].category.as_str()) {
                Some(k) => {
                    let ghost before_rows = db.categories@;
                    db.categories[k] = categories[i].copy();
                    proof {
                        assert forall|j: int| 0 <= j < db.categories@.len() && j != k implies db.categories@[j] == before_rows[j] by {}
                        assert forall|j: int| 0 <= j < before.categories.len() implies #[trigger] db@.categories[j]
                            == (if before.categories[j].category == cs[i as int].category { cs[i as int] } else { before.categories[j] }) by {
                            if j != k {
                                assert(db.categories@[j] == before_rows[j]);
                                assert(before.categories[j] == before_rows[j]@);
                                assert(before.categories[j].category != cs[i as int].category) by {
                                    assert(before.categories[k as int].category == cs[i as int].category);
                                }
                            }
                        }
                        assert(db@.categories =~= put_category(before, cs[i as int]).categories);
                    }
                },
                None => {
                    db.categories.push(categories[i].copy());
                    assert(db@.categories =~= before.categories.push(cs[i as int]));
                },
            }
            assert(db@ == put_category(before, cs[i as int]));
            i = i + 1;
        }
        assert(cs.subrange(0, i as int) =~= cs);
        db.insertInDownloadTable(downloads);
        let ghost mid = db@;
        let ghost ls = links@.map_values(|l: LinkRequest| l@);
        let mut i: usize = 0;
        while i < links.len()
            invariant
                i <= links.len(),
                ls == links@.map_values(|l: LinkRequest| l@),
                db@ == put_links(mid, ls.subrange(0, i as int)),
                db.wf(),
            decreases links.len() - i,
        {
            let ghost before = db@;
            proof {
                assert(ls.subrange(0, i as int + 1).drop_last() =~= ls.subrange(0, i as int));
                lemma_put_link_wf(before, ls[i as int]);
            }
            let ok = match &links[i].gid {
                Some(g) => db.download_index(g.as_str()).is_some(),
                None => true,
            };
            if ok {
                db.links.push(links[i].copy());
                assert(db@.links =~= before.links.push(ls[i as int]));
            }
            assert(db@ == put_link(before, ls[i as int]));
            i = i + 1;
        }
        assert(ls.subrange(0, i as int) =~= ls);
        db.insertInVideoFinderTable(pairs);
        db
    }

    /// Copies of every row, table by table, in table order.
    pub fn rows(&self) -> (r: (Vec<Category>, Vec<DownloadItem>, Vec<LinkRequest>, Vec<VideoAudioPair>))
        ensures
            r.0@.map_values(|c: Category| c@) == self@.categories,
            r.1@.map_values(|d: DownloadItem| d@) == self@.downloads,
            r.2@.map_values(|l: LinkRequest| l@) == self@.links,
            r.3@.map_values(|p: VideoAudioPair| p@) == self@.pairs,
    {
        let mut cs: Vec<Category> = Vec::new();
        let mut i: usize = 0;
        while i < self.categories.len()
            invariant
                i <= self.categories.len(),
                cs@.len() == i,
                forall|j: int| 0 <= j < i ==> cs@[j]@ == self@.categories[j],
            decreases self.categories.len() - i,
        {
            cs.push(self.categories[i].copy());
            i = i + 1;
        }
        let mut ds: Vec<DownloadItem> = Vec::new();
        let mut i: usize = 0;
        while i < self.downloads.len()
            invariant
                i <= self.downloads.len(),
                ds@.len() == i,
                forall|j: int| 0 <= j < i ==> ds@[j]@ == self@.downloads[j],
            decreases self.downloads.len() - i,
        {
            ds.push(self.downloads[i].copy());
            i = i + 1;
        }
        let mut ls: Vec<LinkRequest> = Vec::new();
        let mut i: usize = 0;
        while i < self.links.len()
            invariant
                i <= self.links.len(),
                ls@.len() == i,
                forall|j: int| 0 <= j < i ==> ls@[j]@ == self@.links[j],
            decreases self.links.len() - i,
        {
            ls.push(self.links[i].copy());
            i = i + 1;
        }
        let mut ps: Vec<VideoAudioPair> = Vec::new();
        let mut i: usize = 0;
        while i < self.pairs.len()
            invariant
                i <= self.pairs.len(),
                ps@.len() == i,
                forall|j: int| 0 <= j < i ==> ps@[j]@ == self@.pairs[j],
            decreases self.pairs.len() - i,
        {
            ps.push(self.pairs[i].copy());
            i = i + 1;
        }
        assert(cs@.map_values(|c: Category| c@) =~= self@.categories);
        assert(ds@.map_values(|d: DownloadItem| d@) =~= self@.downloads);
        assert(ls@.map_values(|l: LinkRequest| l@) =~= self@.links);
        assert(ps@.map_values(|p: VideoAudioPair| p@) =~= self@.pairs);
        (cs, ds, ls, ps)
    }

    /// Writes the unit names of every size, rate and downloaded size in binary
    /// form (see `binary_units`).
    pub fn correctDataBase(&mut self)
        requires
            old(self).wf(),
        ensures
            final(self).wf(),
            final(self)@ == (StoreView {
                downloads: old(self)@.downloads.map_values(|d: DownloadItemView| units_corrected(d)),
                ..old(self)@
            }),
    {
        let ghost start = self@;
        let ghost target = StoreView {
            downloads: start.downloads.map_values(|d: DownloadItemView| units_corrected(d)),
            ..start
        };
        let mut i: usize = 0;
        while i < self.downloads.len()
            invariant
                i <= self.downloads.len() == start.downloads.len(),
                target == (StoreView {
                    downloads: start.downloads.map_values(|d: DownloadItemView| units_corrected(d)),
                    ..start
                }),
                forall|j: int| 0 <= j < i ==> self@.downloads[j] == target.downloads[j],
                forall|j: int| i <= j < self.downloads.len() ==> self@.downloads[j] == start.downloads[j],
                self@ == (StoreView { downloads: self@.downloads, ..start }),
            decreases self.downloads.len() - i,
        {
            let ghost before = self.downloads@;
            let ghost before_v = self@;
            let size = binary_unit_text(self.downloads[i].size.as_str());
            let rate = binary_unit_text(self.downloads[i].rate.as_str());
            let done = binary_unit_text(self.downloads[i].downloaded_size.as_str());
            self.downloads[i].size = size;
            self.downloads[i].rate = rate;
            self.downloads[i].downloaded_size = done;
            assert(self@.downloads[i as int] == target.downloads[i as int]);
            assert forall|j: int| 0 <= j < i implies self@.downloads[j] == target.downloads[j] by {
                assert(self.downloads@[j] == before[j]);
                assert(before_v.downloads[j] == before[j]@);
            }
            assert forall|j: int| i + 1 <= j < self.downloads.len() implies self@.downloads[j] == start.downloads[j] by {
                assert(self.downloads@[j] == before[j]);
                assert(before_v.downloads[j] == before[j]@);
            }
            i = i + 1;
        }
        assert(self@.downloads =~= target.downloads);
        assert(self@ == target);
        assert forall|g: Seq<char>| has_download(start.downloads, g) implies has_download(target.downloads, g) by {
            let k = choose|k: int| 0 <= k < start.downloads.len() && #[trigger] start.downloads[k].gid == g;
            assert(target.downloads[k].gid == g);
        }
        assert forall|a: int, b: int| 0 <= a < b < target.downloads.len() implies #[trigger] target.downloads[a].gid != #[trigger] target.downloads[b].gid by {
            assert(target.downloads[a].gid == start.downloads[a].gid);
            assert(target.downloads[b].gid == start.downloads[b].gid);
        }
        assert forall|k: int| 0 <= k < target.downloads.len() implies has_category(target.categories, #[trigger] target.downloads[k].category) by {
            assert(target.downloads[k].category == start.downloads[k].category);
            assert(has_category(start.categories, start.downloads[k].category));
        }
    }
}

} // verus!
