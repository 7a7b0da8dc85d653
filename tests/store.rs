use ghermez::rows::{
    Category, CategoryPatch, DownloadItem, DownloadItemPatch, LinkRequest, LinkRequestPatch,
    VideoAudioPair, VideoAudioPairPatch,
};
use ghermez::store::DataBase;

fn t(s: &str) -> String {
    s.to_string()
}

fn category(name: &str) -> Category {
    Category {
        category: t(name),
        start_time_enable: t("yes"),
        start_time: t("09:00"),
        end_time_enable: t("yes"),
        end_time: t("10:00"),
        reverse: t("no"),
        limit_enable: t("no"),
        limit_value: t("0"),
        after_download: t("no"),
        gid_list: vec![],
    }
}

fn item(gid: &str, category: &str, status: &str) -> DownloadItem {
    DownloadItem {
        gid: t(gid),
        file_name: t("file.zip"),
        status: t(status),
        size: t("1 MiB"),
        downloaded_size: t("0 B"),
        percent: t("0%"),
        connections: t("0"),
        rate: t("0"),
        estimate_time_left: t("0s"),
        link: t("http://example.com/file.zip"),
        first_try_date: t("2024/01/01 , 10:00:00"),
        last_try_date: t("2024/01/01 , 10:00:00"),
        category: t(category),
    }
}

fn link(gid: Option<&str>, url: &str) -> LinkRequest {
    LinkRequest {
        gid: gid.map(t),
        out: None,
        start_time: Some(t("09:00")),
        end_time: Some(t("10:00")),
        link: Some(t(url)),
        ip: None,
        port: None,
        proxy_user: None,
        proxy_passwd: None,
        download_user: None,
        download_passwd: None,
        connections: Some(t("16")),
        limit_value: None,
        download_path: None,
        referer: None,
        load_cookies: None,
        user_agent: None,
        header: None,
        after_download: Some(t("shutdown")),
    }
}

fn pair(video: &str, audio: &str) -> VideoAudioPair {
    VideoAudioPair {
        video_gid: t(video),
        audio_gid: t(audio),
        video_completed: t("no"),
        audio_completed: t("no"),
        muxing_status: t("no"),
        checking: t("yes"),
        download_path: t("/tmp"),
    }
}

#[test]
fn new_store_has_the_builtin_categories() {
    let db = DataBase::new();
    assert_eq!(db.categoriesList(), vec!["All Downloads", "Single Downloads", "Scheduled Downloads"]);
    let c = db.searchCategoryInCategoryTable("All Downloads").unwrap();
    assert_eq!(c.start_time, "0:0");
    assert_eq!(c.limit_value, "OK");
    assert!(c.gid_list.is_empty());
}

#[test]
fn category_names_are_unique() {
    let mut db = DataBase::new();
    assert!(db.insertInCategoryTable(category("Night")));
    assert!(!db.insertInCategoryTable(category("Night")));
    assert!(!db.insertInCategoryTable(category("All Downloads")));
    assert_eq!(db.categoriesList().len(), 4);
}

#[test]
fn same_gid_twice_gives_one_row() {
    let mut db = DataBase::new();
    assert!(db.insertInDownloadTable(vec![item("a1", "Single Downloads", "paused")]).is_empty());
    assert!(db.insertInDownloadTable(vec![item("a1", "Single Downloads", "downloading")]).is_empty());
    db.insertInDownloadTable(vec![item("b2", "Single Downloads", "paused"), item("b2", "Single Downloads", "paused")]);
    let all = db.returnItemsInDownloadTable(None);
    assert_eq!(all.len(), 2);
    assert_eq!(db.searchGidInDownloadTable("a1").unwrap().status, "paused");
}

#[test]
fn items_need_an_existing_category() {
    let mut db = DataBase::new();
    let refused = db.insertInDownloadTable(vec![item("b2", "Single Downloads", "paused"), item("a1", "Nowhere", "paused")]);
    assert_eq!(refused, vec![1]);
    assert!(db.searchGidInDownloadTable("a1").is_none());
    assert!(db.searchGidInDownloadTable("b2").is_some());
}

#[test]
fn deleting_a_category_takes_its_items_along() {
    let mut db = DataBase::new();
    db.insertInCategoryTable(category("Night"));
    db.insertInDownloadTable(vec![item("a1", "Night", "paused"), item("b2", "Single Downloads", "paused")]);
    db.insertInAddLinkTable(vec![link(Some("a1"), "http://a"), link(Some("b2"), "http://b")]);
    db.insertInVideoFinderTable(vec![pair("a1", "b2")]);
    db.updateCategoryTable(vec![CategoryPatch {
        category: t("All Downloads"),
        start_time_enable: None,
        start_time: None,
        end_time_enable: None,
        end_time: None,
        reverse: None,
        limit_enable: None,
        limit_value: None,
        after_download: None,
        gid_list: Some(vec![t("a1"), t("b2")]),
    }]);
    assert!(db.deleteCategory("Night"));
    assert!(db.searchCategoryInCategoryTable("Night").is_none());
    assert!(db.searchGidInDownloadTable("a1").is_none());
    assert!(db.searchGidInDownloadTable("b2").is_some());
    assert!(db.searchGidInAddLinkTable("a1").is_none());
    assert!(db.searchGidInAddLinkTable("b2").is_some());
    assert!(db.searchGidInVideoFinderTable("b2").is_none());
    let all = db.searchCategoryInCategoryTable("All Downloads").unwrap();
    assert_eq!(all.gid_list, vec![t("b2")]);
    for d in db.returnItemsInDownloadTable(None) {
        assert!(db.searchCategoryInCategoryTable(&d.category).is_some());
    }
}

#[test]
fn builtin_categories_cannot_be_deleted() {
    let mut db = DataBase::new();
    assert!(!db.deleteCategory("All Downloads"));
    assert!(!db.deleteCategory("Scheduled Downloads"));
    assert!(!db.deleteCategory("Unknown"));
    assert_eq!(db.categoriesList().len(), 3);
}

#[test]
fn deleting_an_item_cleans_references() {
    let mut db = DataBase::new();
    db.insertInDownloadTable(vec![item("a1", "Single Downloads", "paused"), item("b2", "Single Downloads", "paused")]);
    db.insertInAddLinkTable(vec![link(Some("a1"), "http://a")]);
    db.insertInVideoFinderTable(vec![pair("a1", "b2")]);
    db.updateCategoryTable(vec![CategoryPatch {
        category: t("Single Downloads"),
        start_time_enable: None,
        start_time: None,
        end_time_enable: None,
        end_time: None,
        reverse: None,
        limit_enable: None,
        limit_value: None,
        after_download: None,
        gid_list: Some(vec![t("a1"), t("b2")]),
    }]);
    db.deleteItemInDownloadTable("a1", "Single Downloads");
    assert!(db.searchGidInDownloadTable("a1").is_none());
    assert!(db.searchGidInAddLinkTable("a1").is_none());
    assert!(db.searchGidInVideoFinderTable("b2").is_none());
    assert_eq!(db.searchCategoryInCategoryTable("Single Downloads").unwrap().gid_list, vec![t("b2")]);
}

#[test]
fn updates_change_only_supplied_fields() {
    let mut db = DataBase::new();
    db.insertInDownloadTable(vec![item("a1", "Single Downloads", "paused")]);
    db.updateDownloadTable(vec![DownloadItemPatch {
        gid: t("a1"),
        file_name: None,
        status: Some(t("downloading")),
        size: None,
        downloaded_size: None,
        percent: Some(t("10%")),
        connections: None,
        rate: None,
        estimate_time_left: None,
        link: None,
        first_try_date: None,
        last_try_date: None,
        category: None,
    }]);
    let d = db.searchGidInDownloadTable("a1").unwrap();
    assert_eq!(d.status, "downloading");
    assert_eq!(d.percent, "10%");
    assert_eq!(d.size, "1 MiB");
}

#[test]
fn update_to_missing_category_is_refused() {
    let mut db = DataBase::new();
    db.insertInDownloadTable(vec![item("a1", "Single Downloads", "paused")]);
    let refused = db.updateDownloadTable(vec![DownloadItemPatch {
        gid: t("a1"),
        file_name: None,
        status: Some(t("downloading")),
        size: None,
        downloaded_size: None,
        percent: None,
        connections: None,
        rate: None,
        estimate_time_left: None,
        link: None,
        first_try_date: None,
        last_try_date: None,
        category: Some(t("Nowhere")),
    }]);
    assert_eq!(refused, vec![0]);
    let d = db.searchGidInDownloadTable("a1").unwrap();
    assert_eq!(d.status, "paused");
    assert_eq!(d.category, "Single Downloads");
}

#[test]
fn link_requests_and_their_updates() {
    let mut db = DataBase::new();
    db.insertInDownloadTable(vec![item("a1", "Single Downloads", "paused")]);
    let refused = db.insertInAddLinkTable(vec![link(Some("a1"), "http://a"), link(Some("zz"), "http://z"), link(None, "http://n")]);
    assert_eq!(refused, vec![1]);
    assert_eq!(db.returnItemsInAddLinkTable(None).len(), 2);
    assert_eq!(db.returnItemsInAddLinkTable(Some("Single Downloads")).len(), 1);
    assert!(db.searchLinkInAddLinkTable("http://a"));
    assert!(!db.searchLinkInAddLinkTable("http://z"));
    let l = db.searchGidInAddLinkTable("a1").unwrap();
    assert_eq!(l.after_download, None);
    assert_eq!(l.start_time, Some(t("09:00")));
    let mut p = LinkRequestPatch {
        gid: t("a1"),
        out: Some(Some(t("new.zip"))),
        start_time: None,
        end_time: None,
        link: None,
        ip: None,
        port: None,
        proxy_user: None,
        proxy_passwd: None,
        download_user: None,
        download_passwd: None,
        connections: Some(None),
        limit_value: None,
        download_path: None,
        referer: None,
        load_cookies: None,
        user_agent: None,
        header: Some(Some(t("X-A: 1"))),
        after_download: Some(Some(t("shutdown"))),
    };
    db.updateAddLinkTable(vec![p]);
    let l = db.searchGidInAddLinkTable("a1").unwrap();
    assert_eq!(l.out, Some(t("new.zip")));
    assert_eq!(l.header, Some(t("X-A: 1")));
    assert_eq!(l.user_agent, None);
    assert_eq!(l.after_download, Some(t("shutdown")));
    assert_eq!(l.connections, None);
    db.setDefaultGidInAddlinkTable("a1", true, false, true);
    let l = db.searchGidInAddLinkTable("a1").unwrap();
    assert_eq!(l.start_time, None);
    assert_eq!(l.end_time, Some(t("10:00")));
    assert_eq!(l.after_download, None);
    p = LinkRequestPatch {
        gid: t("other"),
        out: Some(Some(t("x"))),
        start_time: None,
        end_time: None,
        link: None,
        ip: None,
        port: None,
        proxy_user: None,
        proxy_passwd: None,
        download_user: None,
        download_passwd: None,
        connections: None,
        limit_value: None,
        download_path: None,
        referer: None,
        load_cookies: None,
        user_agent: None,
        header: None,
        after_download: None,
    };
    db.updateAddLinkTable(vec![p]);
    assert_eq!(db.searchGidInAddLinkTable("a1").unwrap().out, Some(t("new.zip")));
}

#[test]
fn video_pairs() {
    let mut db = DataBase::new();
    db.insertInDownloadTable(vec![item("v", "Single Downloads", "paused"), item("a", "Single Downloads", "paused")]);
    assert_eq!(db.insertInVideoFinderTable(vec![pair("v", "a"), pair("v", "missing")]), vec![1]);
    let (all, videos, audios) = db.returnVideoFinderGids();
    assert_eq!(all, vec![t("v"), t("a")]);
    assert_eq!(videos, vec![t("v")]);
    assert_eq!(audios, vec![t("a")]);
    db.updateVideoFinderTable(vec![VideoAudioPairPatch {
        video_gid: None,
        audio_gid: Some(t("a")),
        video_completed: None,
        audio_completed: Some(t("yes")),
        muxing_status: None,
        checking: None,
        download_path: None,
    }]);
    let p = db.searchGidInVideoFinderTable("v").unwrap();
    assert_eq!(p.audio_completed, "yes");
    assert_eq!(p.video_completed, "no");
}

#[test]
fn active_and_paused_lists() {
    let mut db = DataBase::new();
    db.insertInCategoryTable(category("Night"));
    db.insertInDownloadTable(vec![
        item("a", "Night", "downloading"),
        item("b", "Night", "paused"),
        item("c", "Single Downloads", "waiting"),
        item("d", "Single Downloads", "complete"),
        item("e", "Single Downloads", "scheduled"),
    ]);
    assert_eq!(db.findActiveDownloads(None), vec![t("a"), t("b"), t("c"), t("e")]);
    assert_eq!(db.findActiveDownloads(Some("Night")), vec![t("a"), t("b")]);
    assert_eq!(db.returnDownloadingItems(), vec![t("a"), t("c")]);
    assert_eq!(db.returnPausedItems(), vec![t("b")]);
    assert_eq!(db.returnItemsInDownloadTable(Some("Night")).len(), 2);
}

#[test]
fn defaults_restored_and_reset() {
    let mut db = DataBase::new();
    db.insertInCategoryTable(category("Night"));
    db.insertInDownloadTable(vec![item("a", "Night", "downloading"), item("d", "Night", "complete")]);
    db.insertInAddLinkTable(vec![link(Some("a"), "http://a")]);
    db.setDBTablesToDefaultValue();
    assert_eq!(db.searchGidInDownloadTable("a").unwrap().status, "stopped");
    assert_eq!(db.searchGidInDownloadTable("d").unwrap().status, "complete");
    assert_eq!(db.searchCategoryInCategoryTable("Night").unwrap().start_time_enable, "no");
    assert_eq!(db.searchGidInAddLinkTable("a").unwrap().start_time, None);
    db.resetDataBase();
    assert_eq!(db.categoriesList(), vec!["All Downloads", "Single Downloads", "Scheduled Downloads"]);
    assert!(db.returnItemsInDownloadTable(None).is_empty());
    assert!(db.returnItemsInAddLinkTable(None).is_empty());
}

#[test]
fn member_statuses_follow_the_list() {
    let mut db = DataBase::new();
    db.insertInDownloadTable(vec![item("a", "Single Downloads", "paused"), item("b", "Single Downloads", "downloading")]);
    db.updateCategoryTable(vec![CategoryPatch {
        category: t("Single Downloads"),
        start_time_enable: None,
        start_time: None,
        end_time_enable: None,
        end_time: None,
        reverse: None,
        limit_enable: None,
        limit_value: None,
        after_download: None,
        gid_list: Some(vec![t("b"), t("gone"), t("a")]),
    }]);
    let ms = db.memberStatuses("Single Downloads").unwrap();
    let got: Vec<(String, String)> = ms.into_iter().map(|m| (m.gid, m.status)).collect();
    assert_eq!(got, vec![(t("b"), t("downloading")), (t("a"), t("paused"))]);
    assert!(db.memberStatuses("Nowhere").is_none());
}
