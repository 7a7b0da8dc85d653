//! Rows of the download store, their views, and partial updates of them.

use vstd::prelude::*;
use crate::text::{clone_text, copy_texts, opt_opt_view, opt_texts, opt_view, texts};

verus! {

/// The supplied text where there is one, else the current one.
fn pick_text(p: &Option<String>, cur: &String) -> (r: String)
    ensures
        r@ == match opt_view(*p) { Some(v) => v, None => cur@ },
{
    match p {
        Some(v) => v.clone(),
        None => cur.clone(),
    }
}

/// The supplied value (a text, or none to clear) where there is one, else the
/// current one.
fn pick_opt_text(p: &Option<Option<String>>, cur: &Option<String>) -> (r: Option<String>)
    ensures
        opt_view(r) == match opt_opt_view(*p) { Some(v) => v, None => opt_view(*cur) },
{
    match p {
        Some(v) => clone_text(v),
        None => clone_text(cur),
    }
}

/// The supplied list where there is one, else the current one.
fn pick_texts(p: &Option<Vec<String>>, cur: &Vec<String>) -> (r: Vec<String>)
    ensures
        texts(r@) == match opt_texts(*p) { Some(v) => v, None => texts(cur@) },
{
    match p {
        Some(v) => copy_texts(v),
        None => copy_texts(cur),
    }
}

/// A category (queue) of downloads, identified by its name.
pub struct Category {
    pub category: String,
    pub start_time_enable: String,
    pub start_time: String,
    pub end_time_enable: String,
    pub end_time: String,
    pub reverse: String,
    pub limit_enable: String,
    pub limit_value: String,
    pub after_download: String,
    pub gid_list: Vec<String>,
}

pub struct CategoryView {
    pub category: Seq<char>,
    pub start_time_enable: Seq<char>,
    pub start_time: Seq<char>,
    pub end_time_enable: Seq<char>,
    pub end_time: Seq<char>,
    pub reverse: Seq<char>,
    pub limit_enable: Seq<char>,
    pub limit_value: Seq<char>,
    pub after_download: Seq<char>,
    pub gid_list: Seq<Seq<char>>,
}

impl View for Category {
    type V = CategoryView;

    open spec fn view(&self) -> CategoryView {
        CategoryView {
            category: self.category@,
            start_time_enable: self.start_time_enable@,
            start_time: self.start_time@,
            end_time_enable: self.end_time_enable@,
            end_time: self.end_time@,
            reverse: self.reverse@,
            limit_enable: self.limit_enable@,
            limit_value: self.limit_value@,
            after_download: self.after_download@,
            gid_list: texts(self.gid_list@),
        }
    }
}

impl Category {
    /// A copy of the row.
    pub fn copy(&self) -> (r: Self)
        ensures
            r@ == self@,
    {
        Category {
            category: self.category.clone(),
            start_time_enable: self.start_time_enable.clone(),
            start_time: self.start_time.clone(),
            end_time_enable: self.end_time_enable.clone(),
            end_time: self.end_time.clone(),
            reverse: self.reverse.clone(),
            limit_enable: self.limit_enable.clone(),
            limit_value: self.limit_value.clone(),
            after_download: self.after_download.clone(),
            gid_list: copy_texts(&self.gid_list),
        }
    }

}

impl CategoryView {
    /// The row with the fields that `p` supplies replaced.
    pub open spec fn patched(self, p: CategoryPatchView) -> CategoryView {
        CategoryView {
            category: self.category,
            start_time_enable: match p.start_time_enable { Some(v) => v, None => self.start_time_enable },
            start_time: match p.start_time { Some(v) => v, None => self.start_time },
            end_time_enable: match p.end_time_enable { Some(v) => v, None => self.end_time_enable },
            end_time: match p.end_time { Some(v) => v, None => self.end_time },
            reverse: match p.reverse { Some(v) => v, None => self.reverse },
            limit_enable: match p.limit_enable { Some(v) => v, None => self.limit_enable },
            limit_value: match p.limit_value { Some(v) => v, None => self.limit_value },
            after_download: match p.after_download { Some(v) => v, None => self.after_download },
            gid_list: match p.gid_list { Some(v) => v, None => self.gid_list },
        }
    }
}

impl Category {
    /// Replaces the fields that `p` supplies; the others keep their value.
    pub fn apply(&mut self, p: &CategoryPatch)
        ensures
            final(self)@ == old(self)@.patched(p@),
    {
        let r = Category {
            category: self.category.clone(),
            start_time_enable: pick_text(&p.start_time_enable, &self.start_time_enable),
            start_time: pick_text(&p.start_time, &self.start_time),
            end_time_enable: pick_text(&p.end_time_enable, &self.end_time_enable),
            end_time: pick_text(&p.end_time, &self.end_time),
            reverse: pick_text(&p.reverse, &self.reverse),
            limit_enable: pick_text(&p.limit_enable, &self.limit_enable),
            limit_value: pick_text(&p.limit_value, &self.limit_value),
            after_download: pick_text(&p.after_download, &self.after_download),
            gid_list: pick_texts(&p.gid_list, &self.gid_list),
        };
        *self = r;
    }
}

/// Fields of a `Category` to change; `None` leaves a field as it is.
pub struct CategoryPatch {
    pub category: String,
    pub start_time_enable: Option<String>,
    pub start_time: Option<String>,
    pub end_time_enable: Option<String>,
    pub end_time: Option<String>,
    pub reverse: Option<String>,
    pub limit_enable: Option<String>,
    pub limit_value: Option<String>,
    pub after_download: Option<String>,
    pub gid_list: Option<Vec<String>>,
}

pub struct CategoryPatchView {
    pub category: Seq<char>,
    pub start_time_enable: Option<Seq<char>>,
    pub start_time: Option<Seq<char>>,
    pub end_time_enable: Option<Seq<char>>,
    pub end_time: Option<Seq<char>>,
    pub reverse: Option<Seq<char>>,
    pub limit_enable: Option<Seq<char>>,
    pub limit_value: Option<Seq<char>>,
    pub after_download: Option<Seq<char>>,
    pub gid_list: Option<Seq<Seq<char>>>,
}

impl View for CategoryPatch {
    type V = CategoryPatchView;

    open spec fn view(&self) -> CategoryPatchView {
        CategoryPatchView {
            category: self.category@,
            start_time_enable: opt_view(self.start_time_enable),
            start_time: opt_view(self.start_time),
            end_time_enable: opt_view(self.end_time_enable),
            end_time: opt_view(self.end_time),
            reverse: opt_view(self.reverse),
            limit_enable: opt_view(self.limit_enable),
            limit_value: opt_view(self.limit_value),
            after_download: opt_view(self.after_download),
            gid_list: opt_texts(self.gid_list),
        }
    }
}

/// A download task, identified by the engine's task identifier.
pub struct DownloadItem {
    pub gid: String,
    pub file_name: String,
    pub status: String,
    pub size: String,
    pub downloaded_size: String,
    pub percent: String,
    pub connections: String,
    pub rate: String,
    pub estimate_time_left: String,
    pub link: String,
    pub first_try_date: String,
    pub last_try_date: String,
    pub category: String,
}

pub struct DownloadItemView {
    pub gid: Seq<char>,
    pub file_name: Seq<char>,
    pub status: Seq<char>,
    pub size: Seq<char>,
    pub downloaded_size: Seq<char>,
    pub percent: Seq<char>,
    pub connections: Seq<char>,
    pub rate: Seq<char>,
    pub estimate_time_left: Seq<char>,
    pub link: Seq<char>,
    pub first_try_date: Seq<char>,
    pub last_try_date: Seq<char>,
    pub category: Seq<char>,
}

impl View for DownloadItem {
    type V = DownloadItemView;

    open spec fn view(&self) -> DownloadItemView {
        DownloadItemView {
            gid: self.gid@,
            file_name: self.file_name@,
            status: self.status@,
            size: self.size@,
            downloaded_size: self.downloaded_size@,
            percent: self.percent@,
            connections: self.connections@,
            rate: self.rate@,
            estimate_time_left: self.estimate_time_left@,
            link: self.link@,
            first_try_date: self.first_try_date@,
            last_try_date: self.last_try_date@,
            category: self.category@,
        }
    }
}

impl DownloadItem {
    /// A copy of the row.
    pub fn copy(&self) -> (r: Self)
        ensures
            r@ == self@,
    {
        DownloadItem {
            gid: self.gid.clone(),
            file_name: self.file_name.clone(),
            status: self.status.clone(),
            size: self.size.clone(),
            downloaded_size: self.downloaded_size.clone(),
            percent: self.percent.clone(),
            connections: self.connections.clone(),
            rate: self.rate.clone(),
            estimate_time_left: self.estimate_time_left.clone(),
            link: self.link.clone(),
            first_try_date: self.first_try_date.clone(),
            last_try_date: self.last_try_date.clone(),
            category: self.category.clone(),
        }
    }

}

impl DownloadItemView {
    /// The row with the fields that `p` supplies replaced.
    pub open spec fn patched(self, p: DownloadItemPatchView) -> DownloadItemView {
        DownloadItemView {
            gid: self.gid,
            file_name: match p.file_name { Some(v) => v, None => self.file_name },
            status: match p.status { Some(v) => v, None => self.status },
            size: match p.size { Some(v) => v, None => self.size },
            downloaded_size: match p.downloaded_size { Some(v) => v, None => self.downloaded_size },
            percent: match p.percent { Some(v) => v, None => self.percent },
            connections: match p.connections { Some(v) => v, None => self.connections },
            rate: match p.rate { Some(v) => v, None => self.rate },
            estimate_time_left: match p.estimate_time_left { Some(v) => v, None => self.estimate_time_left },
            link: match p.link { Some(v) => v, None => self.link },
            first_try_date: match p.first_try_date { Some(v) => v, None => self.first_try_date },
            last_try_date: match p.last_try_date { Some(v) => v, None => self.last_try_date },
            category: match p.category { Some(v) => v, None => self.category },
        }
    }
}

impl DownloadItem {
    /// Replaces the fields that `p` supplies; the others keep their value.
    pub fn apply(&mut self, p: &DownloadItemPatch)
        ensures
            final(self)@ == old(self)@.patched(p@),
    {
        let r = DownloadItem {
            gid: self.gid.clone(),
            file_name: pick_text(&p.file_name, &self.file_name),
            status: pick_text(&p.status, &self.status),
            size: pick_text(&p.size, &self.size),
            downloaded_size: pick_text(&p.downloaded_size, &self.downloaded_size),
            percent: pick_text(&p.percent, &self.percent),
            connections: pick_text(&p.connections, &self.connections),
            rate: pick_text(&p.rate, &self.rate),
            estimate_time_left: pick_text(&p.estimate_time_left, &self.estimate_time_left),
            link: pick_text(&p.link, &self.link),
            first_try_date: pick_text(&p.first_try_date, &self.first_try_date),
            last_try_date: pick_text(&p.last_try_date, &self.last_try_date),
            category: pick_text(&p.category, &self.category),
        };
        *self = r;
    }
}

/// Fields of a `DownloadItem` to change; `None` leaves a field as it is.
pub struct DownloadItemPatch {
    pub gid: String,
    pub file_name: Option<String>,
    pub status: Option<String>,
    pub size: Option<String>,
    pub downloaded_size: Option<String>,
    pub percent: Option<String>,
    pub connections: Option<String>,
    pub rate: Option<String>,
    pub estimate_time_left: Option<String>,
    pub link: Option<String>,
    pub first_try_date: Option<String>,
    pub last_try_date: Option<String>,
    pub category: Option<String>,
}

pub struct DownloadItemPatchView {
    pub gid: Seq<char>,
    pub file_name: Option<Seq<char>>,
    pub status: Option<Seq<char>>,
    pub size: Option<Seq<char>>,
    pub downloaded_size: Option<Seq<char>>,
    pub percent: Option<Seq<char>>,
    pub connections: Option<Seq<char>>,
    pub rate: Option<Seq<char>>,
    pub estimate_time_left: Option<Seq<char>>,
    pub link: Option<Seq<char>>,
    pub first_try_date: Option<Seq<char>>,
    pub last_try_date: Option<Seq<char>>,
    pub category: Option<Seq<char>>,
}

impl View for DownloadItemPatch {
    type V = DownloadItemPatchView;

    open spec fn view(&self) -> DownloadItemPatchView {
        DownloadItemPatchView {
            gid: self.gid@,
            file_name: opt_view(self.file_name),
            status: opt_view(self.status),
            size: opt_view(self.size),
            downloaded_size: opt_view(self.downloaded_size),
            percent: opt_view(self.percent),
            connections: opt_view(self.connections),
            rate: opt_view(self.rate),
            estimate_time_left: opt_view(self.estimate_time_left),
            link: opt_view(self.link),
            first_try_date: opt_view(self.first_try_date),
            last_try_date: opt_view(self.last_try_date),
            category: opt_view(self.category),
        }
    }
}

/// A link queued for submission, with what the engine needs to fetch it.
pub struct LinkRequest {
    pub gid: Option<String>,
    pub out: Option<String>,
    pub start_time: Option<String>,
    pub end_time: Option<String>,
    pub link: Option<String>,
    pub ip: Option<String>,
    pub port: Option<String>,
    pub proxy_user: Option<String>,
    pub proxy_passwd: Option<String>,
    pub download_user: Option<String>,
    pub download_passwd: Option<String>,
    pub connections: Option<String>,
    pub limit_value: Option<String>,
    pub download_path: Option<String>,
    pub referer: Option<String>,
    pub load_cookies: Option<String>,
    pub user_agent: Option<String>,
    pub header: Option<String>,
    pub after_download: Option<String>,
}

pub struct LinkRequestView {
    pub gid: Option<Seq<char>>,
    pub out: Option<Seq<char>>,
    pub start_time: Option<Seq<char>>,
    pub end_time: Option<Seq<char>>,
    pub link: Option<Seq<char>>,
    pub ip: Option<Seq<char>>,
    pub port: Option<Seq<char>>,
    pub proxy_user: Option<Seq<char>>,
    pub proxy_passwd: Option<Seq<char>>,
    pub download_user: Option<Seq<char>>,
    pub download_passwd: Option<Seq<char>>,
    pub connections: Option<Seq<char>>,
    pub limit_value: Option<Seq<char>>,
    pub download_path: Option<Seq<char>>,
    pub referer: Option<Seq<char>>,
    pub load_cookies: Option<Seq<char>>,
    pub user_agent: Option<Seq<char>>,
    pub header: Option<Seq<char>>,
    pub after_download: Option<Seq<char>>,
}

impl View for LinkRequest {
    type V = LinkRequestView;

    open spec fn view(&self) -> LinkRequestView {
        LinkRequestView {
            gid: opt_view(self.gid),
            out: opt_view(self.out),
            start_time: opt_view(self.start_time),
            end_time: opt_view(self.end_time),
            link: opt_view(self.link),
            ip: opt_view(self.ip),
            port: opt_view(self.port),
            proxy_user: opt_view(self.proxy_user),
            proxy_passwd: opt_view(self.proxy_passwd),
            download_user: opt_view(self.download_user),
            download_passwd: opt_view(self.download_passwd),
            connections: opt_view(self.connections),
            limit_value: opt_view(self.limit_value),
            download_path: opt_view(self.download_path),
            referer: opt_view(self.referer),
            load_cookies: opt_view(self.load_cookies),
            user_agent: opt_view(self.user_agent),
            header: opt_view(self.header),
            after_download: opt_view(self.after_download),
        }
    }
}

impl LinkRequest {
    /// A copy of the row.
    pub fn copy(&self) -> (r: Self)
        ensures
            r@ == self@,
    {
        LinkRequest {
            gid: clone_text(&self.gid),
            out: clone_text(&self.out),
            start_time: clone_text(&self.start_time),
            end_time: clone_text(&self.end_time),
            link: clone_text(&self.link),
            ip: clone_text(&self.ip),
            port: clone_text(&self.port),
            proxy_user: clone_text(&self.proxy_user),
            proxy_passwd: clone_text(&self.proxy_passwd),
            download_user: clone_text(&self.download_user),
            download_passwd: clone_text(&self.download_passwd),
            connections: clone_text(&self.connections),
            limit_value: clone_text(&self.limit_value),
            download_path: clone_text(&self.download_path),
            referer: clone_text(&self.referer),
            load_cookies: clone_text(&self.load_cookies),
            user_agent: clone_text(&self.user_agent),
            header: clone_text(&self.header),
            after_download: clone_text(&self.after_download),
        }
    }

}

impl LinkRequestView {
    /// The row with the fields that `p` supplies replaced.
    pub open spec fn patched(self, p: LinkRequestPatchView) -> LinkRequestView {
        LinkRequestView {
            gid: self.gid,
            out: match p.out { Some(v) => v, None => self.out },
            start_time: match p.start_time { Some(v) => v, None => self.start_time },
            end_time: match p.end_time { Some(v) => v, None => self.end_time },
            link: match p.link { Some(v) => v, None => self.link },
            ip: match p.ip { Some(v) => v, None => self.ip },
            port: match p.port { Some(v) => v, None => self.port },
            proxy_user: match p.proxy_user { Some(v) => v, None => self.proxy_user },
            proxy_passwd: match p.proxy_passwd { Some(v) => v, None => self.proxy_passwd },
            download_user: match p.download_user { Some(v) => v, None => self.download_user },
            download_passwd: match p.download_passwd { Some(v) => v, None => self.download_passwd },
            connections: match p.connections { Some(v) => v, None => self.connections },
            limit_value: match p.limit_value { Some(v) => v, None => self.limit_value },
            download_path: match p.download_path { Some(v) => v, None => self.download_path },
            referer: match p.referer { Some(v) => v, None => self.referer },
            load_cookies: match p.load_cookies { Some(v) => v, None => self.load_cookies },
            user_agent: match p.user_agent { Some(v) => v, None => self.user_agent },
            header: match p.header { Some(v) => v, None => self.header },
            after_download: match p.after_download { Some(v) => v, None => self.after_download },
        }
    }
}

impl LinkRequest {
    /// Replaces the fields that `p` supplies; the others keep their value.
    pub fn apply(&mut self, p: &LinkRequestPatch)
        ensures
            final(self)@ == old(self)@.patched(p@),
    {
        let r = LinkRequest {
            gid: clone_text(&self.gid),
            out: pick_opt_text(&p.out, &self.out),
            start_time: pick_opt_text(&p.start_time, &self.start_time),
            end_time: pick_opt_text(&p.end_time, &self.end_time),
            link: pick_opt_text(&p.link, &self.link),
            ip: pick_opt_text(&p.ip, &self.ip),
            port: pick_opt_text(&p.port, &self.port),
            proxy_user: pick_opt_text(&p.proxy_user, &self.proxy_user),
            proxy_passwd: pick_opt_text(&p.proxy_passwd, &self.proxy_passwd),
            download_user: pick_opt_text(&p.download_user, &self.download_user),
            download_passwd: pick_opt_text(&p.download_passwd, &self.download_passwd),
            connections: pick_opt_text(&p.connections, &self.connections),
            limit_value: pick_opt_text(&p.limit_value, &self.limit_value),
            download_path: pick_opt_text(&p.download_path, &self.download_path),
            referer: pick_opt_text(&p.referer, &self.referer),
            load_cookies: pick_opt_text(&p.load_cookies, &self.load_cookies),
            user_agent: pick_opt_text(&p.user_agent, &self.user_agent),
            header: pick_opt_text(&p.header, &self.header),
            after_download: pick_opt_text(&p.after_download, &self.after_download),
        };
        *self = r;
    }
}

/// Fields of a `LinkRequest` to change: `None` leaves a field as it is,
/// `Some(None)` clears it, `Some(Some(v))` sets it to `v`.
pub struct LinkRequestPatch {
    pub gid: String,
    pub out: Option<Option<String>>,
    pub start_time: Option<Option<String>>,
    pub end_time: Option<Option<String>>,
    pub link: Option<Option<String>>,
    pub ip: Option<Option<String>>,
    pub port: Option<Option<String>>,
    pub proxy_user: Option<Option<String>>,
    pub proxy_passwd: Option<Option<String>>,
    pub download_user: Option<Option<String>>,
    pub download_passwd: Option<Option<String>>,
    pub connections: Option<Option<String>>,
    pub limit_value: Option<Option<String>>,
    pub download_path: Option<Option<String>>,
    pub referer: Option<Option<String>>,
    pub load_cookies: Option<Option<String>>,
    pub user_agent: Option<Option<String>>,
    pub header: Option<Option<String>>,
    pub after_download: Option<Option<String>>,
}

pub struct LinkRequestPatchView {
    pub gid: Seq<char>,
    pub out: Option<Option<Seq<char>>>,
    pub start_time: Option<Option<Seq<char>>>,
    pub end_time: Option<Option<Seq<char>>>,
    pub link: Option<Option<Seq<char>>>,
    pub ip: Option<Option<Seq<char>>>,
    pub port: Option<Option<Seq<char>>>,
    pub proxy_user: Option<Option<Seq<char>>>,
    pub proxy_passwd: Option<Option<Seq<char>>>,
    pub download_user: Option<Option<Seq<char>>>,
    pub download_passwd: Option<Option<Seq<char>>>,
    pub connections: Option<Option<Seq<char>>>,
    pub limit_value: Option<Option<Seq<char>>>,
    pub download_path: Option<Option<Seq<char>>>,
    pub referer: Option<Option<Seq<char>>>,
    pub load_cookies: Option<Option<Seq<char>>>,
    pub user_agent: Option<Option<Seq<char>>>,
    pub header: Option<Option<Seq<char>>>,
    pub after_download: Option<Option<Seq<char>>>,
}

impl View for LinkRequestPatch {
    type V = LinkRequestPatchView;

    open spec fn view(&self) -> LinkRequestPatchView {
        LinkRequestPatchView {
            gid: self.gid@,
            out: opt_opt_view(self.out),
            start_time: opt_opt_view(self.start_time),
            end_time: opt_opt_view(self.end_time),
            link: opt_opt_view(self.link),
            ip: opt_opt_view(self.ip),
            port: opt_opt_view(self.port),
            proxy_user: opt_opt_view(self.proxy_user),
            proxy_passwd: opt_opt_view(self.proxy_passwd),
            download_user: opt_opt_view(self.download_user),
            download_passwd: opt_opt_view(self.download_passwd),
            connections: opt_opt_view(self.connections),
            limit_value: opt_opt_view(self.limit_value),
            download_path: opt_opt_view(self.download_path),
            referer: opt_opt_view(self.referer),
            load_cookies: opt_opt_view(self.load_cookies),
            user_agent: opt_opt_view(self.user_agent),
            header: opt_opt_view(self.header),
            after_download: opt_opt_view(self.after_download),
        }
    }
}

/// A download split into a video and an audio stream that are merged afterwards.
pub struct VideoAudioPair {
    pub video_gid: String,
    pub audio_gid: String,
    pub video_completed: String,
    pub audio_completed: String,
    pub muxing_status: String,
    pub checking: String,
    pub download_path: String,
}

pub struct VideoAudioPairView {
    pub video_gid: Seq<char>,
    pub audio_gid: Seq<char>,
    pub video_completed: Seq<char>,
    pub audio_completed: Seq<char>,
    pub muxing_status: Seq<char>,
    pub checking: Seq<char>,
    pub download_path: Seq<char>,
}

impl View for VideoAudioPair {
    type V = VideoAudioPairView;

    open spec fn view(&self) -> VideoAudioPairView {
        VideoAudioPairView {
            video_gid: self.video_gid@,
            audio_gid: self.audio_gid@,
            video_completed: self.video_completed@,
            audio_completed: self.audio_completed@,
            muxing_status: self.muxing_status@,
            checking: self.checking@,
            download_path: self.download_path@,
        }
    }
}

impl VideoAudioPair {
    /// A copy of the row.
    pub fn copy(&self) -> (r: Self)
        ensures
            r@ == self@,
    {
        VideoAudioPair {
            video_gid: self.video_gid.clone(),
            audio_gid: self.audio_gid.clone(),
            video_completed: self.video_completed.clone(),
            audio_completed: self.audio_completed.clone(),
            muxing_status: self.muxing_status.clone(),
            checking: self.checking.clone(),
            download_path: self.download_path.clone(),
        }
    }

}

impl VideoAudioPairView {
    /// The row with the fields that `p` supplies replaced.
    pub open spec fn patched(self, p: VideoAudioPairPatchView) -> VideoAudioPairView {
        VideoAudioPairView {
            video_gid: self.video_gid,
            audio_gid: self.audio_gid,
            video_completed: match p.video_completed { Some(v) => v, None => self.video_completed },
            audio_completed: match p.audio_completed { Some(v) => v, None => self.audio_completed },
            muxing_status: match p.muxing_status { Some(v) => v, None => self.muxing_status },
            checking: match p.checking { Some(v) => v, None => self.checking },
            download_path: match p.download_path { Some(v) => v, None => self.download_path },
        }
    }
}

impl VideoAudioPair {
    /// Replaces the fields that `p` supplies; the others keep their value.
    pub fn apply(&mut self, p: &VideoAudioPairPatch)
        ensures
            final(self)@ == old(self)@.patched(p@),
    {
        let r = VideoAudioPair {
            video_gid: self.video_gid.clone(),
            audio_gid: self.audio_gid.clone(),
            video_completed: pick_text(&p.video_completed, &self.video_completed),
            audio_completed: pick_text(&p.audio_completed, &self.audio_completed),
            muxing_status: pick_text(&p.muxing_status, &self.muxing_status),
            checking: pick_text(&p.checking, &self.checking),
            download_path: pick_text(&p.download_path, &self.download_path),
        };
        *self = r;
    }
}

/// Fields of a `VideoAudioPair` to change; `None` leaves a field as it is.
pub struct VideoAudioPairPatch {
    /// Selects the pairs with this video task; where absent, `audio_gid` selects.
    pub video_gid: Option<String>,
    pub audio_gid: Option<String>,
    pub video_completed: Option<String>,
    pub audio_completed: Option<String>,
    pub muxing_status: Option<String>,
    pub checking: Option<String>,
    pub download_path: Option<String>,
}

pub struct VideoAudioPairPatchView {
    pub video_gid: Option<Seq<char>>,
    pub audio_gid: Option<Seq<char>>,
    pub video_completed: Option<Seq<char>>,
    pub audio_completed: Option<Seq<char>>,
    pub muxing_status: Option<Seq<char>>,
    pub checking: Option<Seq<char>>,
    pub download_path: Option<Seq<char>>,
}

impl View for VideoAudioPairPatch {
    type V = VideoAudioPairPatchView;

    open spec fn view(&self) -> VideoAudioPairPatchView {
        VideoAudioPairPatchView {
            video_gid: opt_view(self.video_gid),
            audio_gid: opt_view(self.audio_gid),
            video_completed: opt_view(self.video_completed),
            audio_completed: opt_view(self.audio_completed),
            muxing_status: opt_view(self.muxing_status),
            checking: opt_view(self.checking),
            download_path: opt_view(self.download_path),
        }
    }
}

} // verus!
