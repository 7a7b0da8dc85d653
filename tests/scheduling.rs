use ghermez::plugins::{PluginLink, PluginsDB};
use ghermez::rows::Category;
use ghermez::scheduler::{
    action_for, after_download_is_due, category_limit, normalize_limit, plan_commands, plan_tick,
    sigma_time, window_state_of, MemberAction, MemberStatus, WindowState,
};
use ghermez::session::TempDB;

fn t(s: &str) -> String {
    s.to_string()
}

fn window(start_on: &str, start: &str, end_on: &str, end: &str) -> Category {
    Category {
        category: t("Night"),
        start_time_enable: t(start_on),
        start_time: t(start),
        end_time_enable: t(end_on),
        end_time: t(end),
        reverse: t("no"),
        limit_enable: t("yes"),
        limit_value: t("1.5M"),
        after_download: t("shutdown"),
        gid_list: vec![],
    }
}

#[test]
fn clock_times_read() {
    assert_eq!(sigma_time("09:00"), Some(540));
    assert_eq!(sigma_time("0:0"), Some(0));
    assert_eq!(sigma_time("23:59"), Some(1439));
    assert_eq!(sigma_time("no"), None);
    assert_eq!(sigma_time("123:00"), None);
    assert_eq!(sigma_time("9:"), None);
}

#[test]
fn window_from_nine_to_ten() {
    let c = window("yes", "09:00", "yes", "10:00");
    assert_eq!(window_state_of(&c, 8 * 60 + 59), WindowState::Inactive);
    assert_eq!(window_state_of(&c, 9 * 60), WindowState::Active);
    assert_eq!(window_state_of(&c, 9 * 60 + 30), WindowState::Active);
    assert_eq!(window_state_of(&c, 10 * 60), WindowState::Active);
    assert_eq!(window_state_of(&c, 10 * 60 + 1), WindowState::Expired);
    for now in [8 * 60, 9 * 60 + 30, 11 * 60] {
        let inside = (540..=600).contains(&now);
        let s = window_state_of(&c, now);
        assert_eq!(action_for(s, "paused") == Some(MemberAction::Unpause), inside);
        assert_eq!(action_for(s, "downloading") == Some(MemberAction::Pause), !inside);
    }
}

#[test]
fn disabled_window_decides_nothing() {
    let c = window("no", "09:00", "no", "10:00");
    for now in [0, 540, 570, 1439] {
        let s = window_state_of(&c, now);
        assert_eq!(s, WindowState::Unconstrained);
        assert_eq!(action_for(s, "paused"), None);
        assert_eq!(action_for(s, "downloading"), None);
    }
}

#[test]
fn window_across_midnight() {
    let c = window("yes", "23:00", "yes", "01:00");
    assert_eq!(window_state_of(&c, 23 * 60 + 30), WindowState::Active);
    assert_eq!(window_state_of(&c, 30), WindowState::Active);
    assert_eq!(window_state_of(&c, 12 * 60), WindowState::Expired);
}

#[test]
fn finished_tasks_are_left_alone() {
    assert_eq!(action_for(WindowState::Active, "complete"), None);
    assert_eq!(action_for(WindowState::Expired, "error"), None);
    assert_eq!(action_for(WindowState::Active, "downloading"), None);
    assert_eq!(action_for(WindowState::Inactive, "paused"), None);
}

#[test]
fn commands_follow_the_category_order() {
    let members = vec![
        MemberStatus { gid: t("a"), status: t("paused") },
        MemberStatus { gid: t("b"), status: t("complete") },
        MemberStatus { gid: t("c"), status: t("scheduled") },
    ];
    let forward: Vec<String> = plan_commands(WindowState::Active, &members, false).into_iter().map(|c| c.gid).collect();
    assert_eq!(forward, vec![t("a"), t("c")]);
    let backward: Vec<String> = plan_commands(WindowState::Active, &members, true).into_iter().map(|c| c.gid).collect();
    assert_eq!(backward, vec![t("c"), t("a")]);
    assert!(plan_commands(WindowState::Expired, &members, false).is_empty());
}

#[test]
fn after_download_waits_for_every_member() {
    let done = vec![MemberStatus { gid: t("a"), status: t("complete") }, MemberStatus { gid: t("b"), status: t("error") }];
    let busy = vec![MemberStatus { gid: t("a"), status: t("complete") }, MemberStatus { gid: t("b"), status: t("downloading") }];
    assert!(after_download_is_due("shutdown", &done));
    assert!(!after_download_is_due("shutdown", &busy));
    assert!(!after_download_is_due("no", &done));
    assert!(!after_download_is_due("shutdown", &vec![]));
}

#[test]
fn speed_limits_become_kilobytes() {
    assert_eq!(normalize_limit("0"), Some(t("0")));
    assert_eq!(normalize_limit("10K"), Some(t("10K")));
    assert_eq!(normalize_limit("2.5K"), Some(t("3K")));
    assert_eq!(normalize_limit("1.5M"), Some(t("1536K")));
    assert_eq!(normalize_limit("2M"), Some(t("2048K")));
    assert_eq!(normalize_limit("0.001M"), Some(t("1K")));
    assert_eq!(normalize_limit("5G"), None);
    assert_eq!(normalize_limit("K"), None);
    assert_eq!(category_limit(&window("no", "", "no", "")), Some(t("1536K")));
}

#[test]
fn session_tables() {
    let mut db = TempDB::new();
    assert!(db.insertInSingleTable("a"));
    assert!(!db.insertInSingleTable("a"));
    assert!(db.insertInSingleTable("b"));
    assert!(db.insertInQueueTable("Night"));
    assert!(!db.insertInQueueTable("Night"));
    db.updateSingleTable("b", Some(t("wait")), Some(t("paused")));
    assert_eq!(db.returnActiveGids(), vec![t("a")]);
    assert_eq!(db.returnGid("b"), Some((Some(t("wait")), t("paused"))));
    assert_eq!(db.returnGid("a"), Some((None, t("active"))));
    assert_eq!(db.returnGid("z"), None);
    db.updateQueueTable("Night", Some(t("wait")));
    assert_eq!(db.returnCategory("Night"), Some(Some(t("wait"))));
    db.resetDataBase();
    assert_eq!(db.returnGid("a"), None);
    assert_eq!(db.returnCategory("Night"), None);
}

fn plugin(url: &str) -> PluginLink {
    PluginLink {
        link: t(url),
        referer: t(""),
        load_cookies: t(""),
        user_agent: t("agent"),
        header: t(""),
        out: t("f.bin"),
    }
}

#[test]
fn plugin_links_are_taken_once() {
    let mut q = PluginsDB::new();
    q.insertInPluginsTable(vec![plugin("http://a"), plugin("http://b")]);
    let first: Vec<String> = q.returnNewLinks().into_iter().map(|l| l.link).collect();
    assert_eq!(first, vec![t("http://a"), t("http://b")]);
    assert!(q.returnNewLinks().is_empty());
    q.insertInPluginsTable(vec![plugin("http://c")]);
    q.deleteOldLinks();
    let next: Vec<String> = q.returnNewLinks().into_iter().map(|l| l.link).collect();
    assert_eq!(next, vec![t("http://c")]);
}

#[test]
fn tick_inside_and_outside_the_window() {
    let c = window("yes", "09:00", "yes", "10:00");
    let members = vec![
        MemberStatus { gid: t("a"), status: t("paused") },
        MemberStatus { gid: t("b"), status: t("downloading") },
    ];
    let inside = plan_tick(&c, &members, 9 * 60 + 30, false);
    assert_eq!(inside.state, WindowState::Active);
    let cmds: Vec<(String, MemberAction)> = inside.commands.into_iter().map(|c| (c.gid, c.action)).collect();
    assert_eq!(cmds, vec![(t("a"), MemberAction::Unpause)]);
    assert_eq!(inside.limit, Some(t("1536K")));
    assert!(!inside.after_download);
    let outside = plan_tick(&c, &members, 11 * 60, false);
    assert_eq!(outside.state, WindowState::Expired);
    let cmds: Vec<(String, MemberAction)> = outside.commands.into_iter().map(|c| (c.gid, c.action)).collect();
    assert_eq!(cmds, vec![(t("b"), MemberAction::Pause)]);
    assert_eq!(outside.limit, None);
    let done = vec![MemberStatus { gid: t("a"), status: t("complete") }];
    let first = plan_tick(&c, &done, 11 * 60, false);
    assert!(first.after_download);
    assert!(first.fired);
    let second = plan_tick(&c, &done, 11 * 60 + 1, first.fired);
    assert!(!second.after_download);
    assert!(second.fired);
    let reopened = plan_tick(&c, &done, 9 * 60 + 30, second.fired);
    assert!(!reopened.after_download);
    assert!(!reopened.fired);
}

#[test]
fn unconstrained_category_gets_its_limit() {
    let c = window("no", "09:00", "no", "10:00");
    let members = vec![MemberStatus { gid: t("a"), status: t("downloading") }];
    let plan = plan_tick(&c, &members, 12 * 60, false);
    assert_eq!(plan.state, WindowState::Unconstrained);
    assert_eq!(plan.limit, Some(t("1536K")));
    assert!(plan.commands.is_empty());
}
