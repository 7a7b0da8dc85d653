use ghermez::engine::{rpc_url, version_answer};
use ghermez::paths::findDownloadPath;
use ghermez::rows::{Category, DownloadItem, LinkRequest, VideoAudioPair};
use ghermez::settings::default_style;
use ghermez::status::{convertDownloadInformation, CustomStatus, EngineStatus, FileEntry};
use ghermez::store::DataBase;
use ghermez::text::replace_text;

fn t(s: &str) -> String {
    s.to_string()
}

#[test]
fn engine_address() {
    assert_eq!(rpc_url(6801), "ws://127.0.0.1:6801/jsonrpc");
    assert_eq!(rpc_url(0), "ws://127.0.0.1:0/jsonrpc");
}

#[test]
fn version_probe_answers() {
    assert_eq!(version_answer(Some(t("1.37.0"))), "1.37.0");
    assert_eq!(version_answer(None), "did not respond");
}

#[test]
fn download_folders_by_extension() {
    assert_eq!(findDownloadPath("song.MP3", "/d", true), "/d/Audios");
    assert_eq!(findDownloadPath("clip.mkv?x=1", "/d", true), "/d/Videos");
    assert_eq!(findDownloadPath("paper.pdf", "/d", true), "/d/Documents");
    assert_eq!(findDownloadPath("pack.tar.gz", "/d", true), "/d/Compressed");
    assert_eq!(findDownloadPath("tool.exe", "/d", true), "/d/Other");
    assert_eq!(findDownloadPath("README", "/d", true), "/d/Other");
    assert_eq!(findDownloadPath(".bashrc", "/d", true), "/d/Other");
    assert_eq!(findDownloadPath("dir.mp3/file", "/d", true), "/d/Other");
    assert_eq!(findDownloadPath("song.mp3", "/d", false), "/d");
    assert_eq!(findDownloadPath("song.mp3", "/d/", true), "/d/Audios");
    assert_eq!(findDownloadPath("song.mp3", "", true), "Audios");
}

#[test]
fn default_looks() {
    let styles = vec![t("Fusion"), t("Adwaita")];
    let l = default_style("Linux", Some("KDE"), &styles, false);
    assert_eq!((l.style.as_str(), l.color_scheme.as_str(), l.icons.as_str()), ("Adwaita", "System", "Breeze"));
    let l = default_style("Linux", Some("KDE"), &vec![t("Breeze")], true);
    assert_eq!((l.style.as_str(), l.color_scheme.as_str()), ("Breeze", "System"));
    let l = default_style("Linux", Some("KDE"), &vec![], false);
    assert_eq!((l.style.as_str(), l.color_scheme.as_str(), l.icons.as_str()), ("Fusion", "Light Fusion", "Breeze"));
    let l = default_style("Darwin", None, &vec![t("macintosh")], false);
    assert_eq!((l.style.as_str(), l.icons.as_str()), ("macintosh", "Breeze"));
    let l = default_style("Windows", None, &styles, true);
    assert_eq!((l.style.as_str(), l.color_scheme.as_str(), l.icons.as_str()), ("Fusion", "Dark Fusion", "Breeze-Dark"));
}

#[test]
fn texts_are_replaced_from_the_left() {
    assert_eq!(replace_text("1.5 MB/s", "MB", "MiB"), "1.5 MiB/s");
    assert_eq!(replace_text("KBKB", "KB", "KiB"), "KiBKiB");
    assert_eq!(replace_text("aaa", "aa", "b"), "ba");
    assert_eq!(replace_text("", "KB", "KiB"), "");
}

fn item(gid: &str, category: &str) -> DownloadItem {
    DownloadItem {
        gid: t(gid),
        file_name: t("f"),
        status: t("complete"),
        size: t("1.5 GB"),
        downloaded_size: t("700 MB"),
        percent: t("100%"),
        connections: t("0"),
        rate: t("12 KB/s"),
        estimate_time_left: t("0s"),
        link: t("http://e/f"),
        first_try_date: t(""),
        last_try_date: t(""),
        category: t(category),
    }
}

#[test]
fn unit_names_become_binary() {
    let mut db = DataBase::new();
    db.insertInDownloadTable(vec![item("a", "Single Downloads")]);
    db.correctDataBase();
    let d = db.searchGidInDownloadTable("a").unwrap();
    assert_eq!(d.size, "1.5 GiB");
    assert_eq!(d.downloaded_size, "700 MiB");
    assert_eq!(d.rate, "12 KiB/s");
}

#[test]
fn store_reloads_from_its_rows() {
    let mut db = DataBase::new();
    db.insertInCategoryTable(Category {
        category: t("Night"),
        start_time_enable: t("yes"),
        start_time: t("1:00"),
        end_time_enable: t("no"),
        end_time: t("no"),
        reverse: t("yes"),
        limit_enable: t("no"),
        limit_value: t("0"),
        after_download: t("no"),
        gid_list: vec![t("a")],
    });
    db.insertInDownloadTable(vec![item("a", "Night"), item("b", "Single Downloads")]);
    db.insertInVideoFinderTable(vec![VideoAudioPair {
        video_gid: t("a"),
        audio_gid: t("b"),
        video_completed: t("no"),
        audio_completed: t("no"),
        muxing_status: t("no"),
        checking: t("no"),
        download_path: t("/d"),
    }]);
    let (cs, ds, ls, ps) = db.rows();
    assert_eq!(cs.len(), 4);
    assert_eq!(ds.len(), 2);
    assert_eq!(ps.len(), 1);
    let mut links = ls;
    links.push(LinkRequest {
        gid: Some(t("a")),
        out: None,
        start_time: None,
        end_time: None,
        link: Some(t("http://e/f")),
        ip: None,
        port: None,
        proxy_user: None,
        proxy_passwd: None,
        download_user: None,
        download_passwd: None,
        connections: None,
        limit_value: None,
        download_path: None,
        referer: None,
        load_cookies: None,
        user_agent: None,
        header: None,
        after_download: Some(t("shutdown")),
    });
    let back = DataBase::load(cs, ds, links, ps);
    assert_eq!(back.categoriesList(), vec!["All Downloads", "Single Downloads", "Scheduled Downloads", "Night"]);
    assert_eq!(back.searchCategoryInCategoryTable("Night").unwrap().gid_list, vec![t("a")]);
    assert_eq!(back.searchGidInAddLinkTable("a").unwrap().after_download, Some(t("shutdown")));
    assert!(back.searchGidInVideoFinderTable("a").is_some());
    assert_eq!(back.returnItemsInDownloadTable(None).len(), 2);
}

#[test]
fn typed_status_reads_as_engine_text() {
    let s = CustomStatus {
        gid: t("g1"),
        status: EngineStatus::Active,
        connections: 3,
        error_code: None,
        error_message: None,
        download_speed: 2048,
        dir: t("/d"),
        total_length: 4096,
        completed_length: 1024,
        files: vec![FileEntry { path: t("/d/x/file.bin"), uris: vec![t("http://e/file.bin")] }],
    };
    let raw = s.raw_status();
    assert_eq!(raw.total_length, Some(t("4096")));
    assert_eq!(raw.status, Some(t("active")));
    let info = convertDownloadInformation(&raw).unwrap();
    assert_eq!(info.percent, Some(t("25%")));
    assert_eq!(info.rate, Some(t("2 KiB/s")));
    assert_eq!(info.estimate_time_left, Some(t("1s")));
    assert_eq!(info.file_name, Some(t("/d/x")));
    assert_eq!(info.link, Some(t("http://e/file.bin")));
}
