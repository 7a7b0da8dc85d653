//! Category scheduling: where the clock stands against a category's window, what
//! each member task is to be told, and the speed limit handed to the engine.

use vstd::prelude::*;
use crate::rows::{Category, CategoryView};
use crate::text::{lemma_pow10_le, lemma_pow10_positive, nat_text, pow10, pow10_exec, push_nat, same_text};
use crate::text::char_digit;
use crate::units::{all_digits, digit_run, digits_value, find_char, lemma_pow10_values, number_parts, read_number, round_div};

verus! {

/// Minutes since midnight of a clock time written "H:MM" (one or two digits on
/// each side of the colon).
pub open spec fn clock_minutes(s: Seq<char>) -> Option<nat> {
    let p = find_char(s, ':', 0);
    if p < 0 {
        None
    } else {
        let h = s.subrange(0, p);
        let m = s.subrange(p + 1, s.len() as int);
        if digit_run(h) && h.len() <= 2 && digit_run(m) && m.len() <= 2 {
            Some(digits_value(h) * 60 + digits_value(m))
        } else {
            None
        }
    }
}

/// Reads a clock time (see `clock_minutes`).
pub fn sigma_time(time: &str) -> (r: Option<u32>)
    ensures
        r.is_some() == clock_minutes(time@).is_some(),
        r.is_some() ==> r.unwrap() as nat == clock_minutes(time@).unwrap(),
{
    let n = time.unicode_len();
    let mut p: usize = 0;
    while p < n && time.get_char(p) != ':'
        invariant
            p <= n == time@.len(),
            find_char(time@, ':', 0) == find_char(time@, ':', p as nat),
        decreases n - p,
    {
        p = p + 1;
    }
    if p == n {
        return None;
    }
    if p < 1 || p > 2 || n - p - 1 < 1 || n - p - 1 > 2 {
        return None;
    }
    let h = read_two_digits(time, 0, p);
    let m = read_two_digits(time, p + 1, n);
    match (h, m) {
        (Some(a), Some(b)) => Some(a * 60 + b),
        _ => None,
    }
}

/// Value of one or two digits of `s` from `from` up to `to`.
fn read_two_digits(s: &str, from: usize, to: usize) -> (r: Option<u32>)
    requires
        from < to <= s@.len(),
        to - from <= 2,
    ensures
        r.is_some() == digit_run(s@.subrange(from as int, to as int)),
        r.is_some() ==> r.unwrap() as nat == digits_value(s@.subrange(from as int, to as int)),
        r.is_some() ==> r.unwrap() < 100,
{
    let ghost run = s@.subrange(from as int, to as int);
    let a = s.get_char(from);
    if a < '0' || a > '9' {
        assert(run[0] == a);
        assert(char_digit(run[0]).is_none());
        return None;
    }
    let da = (a as u32) - ('0' as u32);
    assert(run.subrange(0, 0).len() == 0);
    if to - from == 1 {
        assert(run.drop_last() =~= Seq::<char>::empty());
        assert(digits_value(Seq::<char>::empty()) == 0);
        assert(run.last() == a);
        assert(char_digit(a) == Some(da as nat));
        assert(all_digits(run)) by {
            assert forall|i: int| 0 <= i < run.len() implies (#[trigger] char_digit(run[i])).is_some() by {
                assert(run[i] == a);
            }
        }
        return Some(da);
    }
    let b = s.get_char(from + 1);
    if b < '0' || b > '9' {
        assert(run[1] == b);
        assert(char_digit(run[1]).is_none());
        return None;
    }
    let db = (b as u32) - ('0' as u32);
    assert(run.drop_last() =~= seq![a]);
    assert(seq![a].drop_last() =~= Seq::<char>::empty());
    assert(digits_value(Seq::<char>::empty()) == 0);
    assert(seq![a].last() == a);
    assert(char_digit(a) == Some(da as nat));
    assert(digits_value(seq![a]) == da);
    assert(run.last() == b);
    assert(char_digit(b) == Some(db as nat));
    assert(all_digits(run)) by {
        assert forall|i: int| 0 <= i < run.len() implies (#[trigger] char_digit(run[i])).is_some() by {
            if i == 0 { assert(run[i] == a); } else { assert(run[i] == b); }
        }
    }
    Some(da * 10 + db)
}

/// Where the clock stands against a category's window.
#[derive(Clone, Copy, Debug, PartialEq, Eq, Structural)]
pub enum WindowState {
    /// Neither the start nor the end time is enabled: the clock decides nothing.
    Unconstrained,
    /// Inside the window.
    Active,
    /// Outside the window, before it opens.
    Inactive,
    /// Outside the window, past its end.
    Expired,
}

/// What a member task is told.
#[derive(Clone, Copy, Debug, PartialEq, Eq, Structural)]
pub enum MemberAction {
    Pause,
    Unpause,
}

/// Whether a flag of a category is set.
pub open spec fn flag_set(f: Seq<char>) -> bool {
    f == "yes"@
}

/// Whether `now` lies in the window; a window whose end comes before its start
/// runs across midnight.
pub open spec fn in_window(start: Option<nat>, end: Option<nat>, now: nat) -> bool {
    match (start, end) {
        (Some(s), Some(e)) => if s <= e { s <= now && now <= e } else { now >= s || now <= e },
        (Some(s), None) => now >= s,
        (None, Some(e)) => now <= e,
        (None, None) => true,
    }
}

/// The window state at `now` (minutes since midnight), given the enabled start
/// and end times (`None` where not enabled).
pub open spec fn window_state(start: Option<nat>, end: Option<nat>, now: nat) -> WindowState {
    if start.is_none() && end.is_none() {
        WindowState::Unconstrained
    } else if in_window(start, end, now) {
        WindowState::Active
    } else if end.is_some() && now > end.unwrap() {
        WindowState::Expired
    } else {
        WindowState::Inactive
    }
}

/// A start or end time of a category as minutes, where its flag enables it.
pub open spec fn enabled_time(flag: Seq<char>, time: Seq<char>) -> Option<nat> {
    if flag_set(flag) { clock_minutes(time) } else { None }
}

/// The window state of a category at `now`. A time that is enabled but is not a
/// clock time leaves that side of the window open.
pub open spec fn category_state(c: CategoryView, now: nat) -> WindowState {
    window_state(
        enabled_time(c.start_time_enable, c.start_time),
        enabled_time(c.end_time_enable, c.end_time),
        now,
    )
}

/// Whether the engine is working on a task of that status.
pub open spec fn is_running(status: Seq<char>) -> bool {
    status == "downloading"@ || status == "waiting"@
}

/// Whether a task of that status waits to be started.
pub open spec fn is_held(status: Seq<char>) -> bool {
    status == "paused"@ || status == "scheduled"@
}

/// What a member of that status is told in that window state: inside the window
/// a held task is resumed, outside it a running task is paused; otherwise nothing.
pub open spec fn member_action(state: WindowState, status: Seq<char>) -> Option<MemberAction> {
    match state {
        WindowState::Unconstrained => None,
        WindowState::Active => if is_held(status) { Some(MemberAction::Unpause) } else { None },
        _ => if is_running(status) { Some(MemberAction::Pause) } else { None },
    }
}

/// Whether a task of that status is finished, one way or another.
pub open spec fn is_terminal(status: Seq<char>) -> bool {
    status == "complete"@ || status == "error"@ || status == "stopped"@
}

fn enabled_minutes(flag: &String, time: &String) -> (r: Option<u32>)
    ensures
        r.is_some() == enabled_time(flag@, time@).is_some(),
        r.is_some() ==> r.unwrap() as nat == enabled_time(flag@, time@).unwrap(),
{
    proof {
        reveal_strlit("yes");
    }
    if same_text(flag.as_str(), "yes") {
        sigma_time(time.as_str())
    } else {
        None
    }
}

/// The window state of a category at `now`, in minutes since midnight.
pub fn window_state_of(c: &Category, now: u32) -> (r: WindowState)
    ensures
        r == category_state(c@, now as nat),
{
    let start = enabled_minutes(&c.start_time_enable, &c.start_time);
    let end = enabled_minutes(&c.end_time_enable, &c.end_time);
    let ghost sv = enabled_time(c@.start_time_enable, c@.start_time);
    let ghost ev = enabled_time(c@.end_time_enable, c@.end_time);
    let inside = match (start, end) {
        (Some(s), Some(e)) => if s <= e { s <= now && now <= e } else { now >= s || now <= e },
        (Some(s), None) => now >= s,
        (None, Some(e)) => now <= e,
        (None, None) => true,
    };
    assert(inside == in_window(sv, ev, now as nat));
    if start.is_none() && end.is_none() {
        WindowState::Unconstrained
    } else if inside {
        WindowState::Active
    } else if end.is_some() && now > end.unwrap() {
        WindowState::Expired
    } else {
        WindowState::Inactive
    }
}

/// What a member of that status is told (see `member_action`).
pub fn action_for(state: WindowState, status: &str) -> (r: Option<MemberAction>)
    ensures
        r == member_action(state, status@),
{
    proof {
        reveal_strlit("downloading");
        reveal_strlit("waiting");
        reveal_strlit("paused");
        reveal_strlit("scheduled");
    }
    match state {
        WindowState::Unconstrained => None,
        WindowState::Active => {
            if same_text(status, "paused") || same_text(status, "scheduled") {
                Some(MemberAction::Unpause)
            } else {
                None
            }
        },
        _ => {
            if same_text(status, "downloading") || same_text(status, "waiting") {
                Some(MemberAction::Pause)
            } else {
                None
            }
        },
    }
}

/// Whether a task of that status is finished (see `is_terminal`).
pub fn terminal_status(status: &str) -> (r: bool)
    ensures
        r == is_terminal(status@),
{
    proof {
        reveal_strlit("complete");
        reveal_strlit("error");
        reveal_strlit("stopped");
    }
    same_text(status, "complete") || same_text(status, "error") || same_text(status, "stopped")
}

/// A category whose window is enabled from `start` to `end` tells a held member to
/// resume exactly when the clock is inside the window, and a running member to
/// pause exactly when it is outside; with neither end enabled the clock never
/// tells a member anything.
pub proof fn lemma_window_decides(c: CategoryView, now: nat, status: Seq<char>)
    ensures
        flag_set(c.start_time_enable) && flag_set(c.end_time_enable)
            && clock_minutes(c.start_time).is_some() && clock_minutes(c.end_time).is_some()
            && clock_minutes(c.start_time).unwrap() <= clock_minutes(c.end_time).unwrap()
            ==> {
            let s = clock_minutes(c.start_time).unwrap();
            let e = clock_minutes(c.end_time).unwrap();
            &&& is_held(status) ==> (member_action(category_state(c, now), status)
                == Some(MemberAction::Unpause) <==> s <= now <= e)
            &&& is_running(status) ==> (member_action(category_state(c, now), status)
                == Some(MemberAction::Pause) <==> !(s <= now <= e))
        },
        !flag_set(c.start_time_enable) && !flag_set(c.end_time_enable)
            ==> member_action(category_state(c, now), status) is None,
{
    reveal_strlit("downloading");
    reveal_strlit("waiting");
    reveal_strlit("paused");
    reveal_strlit("scheduled");
}

/// The speed limit handed to the engine for a limit written as a number and a
/// unit letter: "0" stays "0"; kilobytes are rounded to an integer; megabytes
/// are turned into kilobytes (times 1024) and rounded. Halves round upward.
pub open spec fn normalized_limit(s: Seq<char>) -> Option<Seq<char>> {
    if s == "0"@ {
        Some("0"@)
    } else if s.len() < 2 {
        None
    } else {
        let u = s.last();
        match number_parts(s.drop_last()) {
            None => None,
            Some((i, f, d)) => if u == 'K' {
                Some(nat_text(i + if 2 * f >= pow10(d) { 1nat } else { 0nat }) + "K"@)
            } else if u == 'M' {
                Some(nat_text(1024 * i + round_div(1024 * f, pow10(d))) + "K"@)
            } else {
                None
            },
        }
    }
}

/// Turns a speed limit into the kilobyte form the engine takes (see
/// `normalized_limit`); `None` where it is not such a limit.
pub fn normalize_limit(limit: &str) -> (r: Option<String>)
    ensures
        r.is_some() == normalized_limit(limit@).is_some(),
        r.is_some() ==> r.unwrap()@ == normalized_limit(limit@).unwrap(),
{
    proof {
        reveal_strlit("0");
        reveal_strlit("K");
        lemma_pow10_values();
    }
    if same_text(limit, "0") {
        return Some(String::from_str("0"));
    }
    let n = limit.unicode_len();
    if n < 2 {
        return None;
    }
    let u = limit.get_char(n - 1);
    let num = limit.substring_char(0, n - 1);
    assert(num@ =~= limit@.drop_last());
    let (i, f, d) = match read_number(num) {
        Some(t) => t,
        None => return None,
    };
    let p = pow10_exec(d);
    proof {
        lemma_pow10_positive(d as nat);
        lemma_pow10_le(d as nat, 20);
    }
    let value: u128 = if u == 'K' {
        let up: u128 = if 2 * f >= p { 1 } else { 0 };
        i + up
    } else if u == 'M' {
        proof {
            assert(2 * (1024 * f) + p <= 2049 * pow10(20)) by (nonlinear_arith)
                requires
                    f < pow10(20),
                    p <= pow10(20),
            ;
            assert((2 * (1024 * f) + p) / (2 * p) <= 2 * (1024 * f) + p) by (nonlinear_arith)
                requires
                    p >= 1,
            ;
        }
        1024 * i + (2 * (1024 * f) + p) / (2 * p)
    } else {
        return None;
    };
    let mut r = String::new();
    push_nat(&mut r, value);
    r.append("K");
    Some(r)
}


/// A member task and its stored status.
pub struct MemberStatus {
    pub gid: String,
    pub status: String,
}

/// A command for the engine about one task.
pub struct Command {
    pub gid: String,
    pub action: MemberAction,
}

/// The commands for members, in the order given: one for each member that is to
/// be told something (see `member_action`).
pub open spec fn member_commands(state: WindowState, ms: Seq<(Seq<char>, Seq<char>)>) -> Seq<(Seq<char>, MemberAction)>
    decreases ms.len(),
{
    if ms.len() == 0 {
        Seq::empty()
    } else {
        let rest = member_commands(state, ms.drop_last());
        match member_action(state, ms.last().1) {
            Some(a) => rest.push((ms.last().0, a)),
            None => rest,
        }
    }
}

/// The members in the order they are commanded: the stored order, or the reverse
/// where the category's "reverse" flag is set.
pub open spec fn command_order(ms: Seq<(Seq<char>, Seq<char>)>, reverse: bool) -> Seq<(Seq<char>, Seq<char>)> {
    if reverse { ms.reverse() } else { ms }
}

pub open spec fn member_views(ms: Seq<MemberStatus>) -> Seq<(Seq<char>, Seq<char>)> {
    ms.map_values(|m: MemberStatus| (m.gid@, m.status@))
}

pub open spec fn command_views(cs: Seq<Command>) -> Seq<(Seq<char>, MemberAction)> {
    cs.map_values(|c: Command| (c.gid@, c.action))
}

/// The commands of one scheduler tick for a category's members: each member to
/// be told something gets one command, in the category's order.
pub fn plan_commands(state: WindowState, members: &Vec<MemberStatus>, reverse: bool) -> (r: Vec<Command>)
    ensures
        command_views(r@) == member_commands(state, command_order(member_views(members@), reverse)),
{
    let ghost ms = command_order(member_views(members@), reverse);
    let n = members.len();
    let mut r: Vec<Command> = Vec::new();
    let mut k: usize = 0;
    while k < n
        invariant
            k <= n == members.len(),
            ms == command_order(member_views(members@), reverse),
            ms.len() == n,
            command_views(r@) == member_commands(state, ms.subrange(0, k as int)),
        decreases n - k,
    {
        let idx = if reverse { n - 1 - k } else { k };
        assert(ms[k as int] == (members@[idx as int].gid@, members@[idx as int].status@));
        assert(ms.subrange(0, k as int + 1).drop_last() =~= ms.subrange(0, k as int));
        match action_for(state, members[idx].status.as_str()) {
            Some(a) => {
                r.push(Command { gid: members[idx].gid.clone(), action: a });
                assert(command_views(r@) =~= member_commands(state, ms.subrange(0, k as int)).push((ms[k as int].0, a)));
            },
            None => {},
        }
        k = k + 1;
    }
    assert(ms.subrange(0, n as int) =~= ms);
    r
}

/// Whether a category's after-download action is due: one is configured (not
/// "no") and every member has finished.
pub open spec fn after_download_due(after_download: Seq<char>, ms: Seq<(Seq<char>, Seq<char>)>) -> bool {
    after_download != "no"@ && ms.len() > 0 && forall|i: int| 0 <= i < ms.len() ==> is_terminal(#[trigger] ms[i].1)
}

/// Whether a category's after-download action is due (see `after_download_due`).
pub fn after_download_is_due(after_download: &str, members: &Vec<MemberStatus>) -> (r: bool)
    ensures
        r == after_download_due(after_download@, member_views(members@)),
{
    proof {
        reveal_strlit("no");
    }
    if same_text(after_download, "no") || members.len() == 0 {
        return false;
    }
    let mut i: usize = 0;
    while i < members.len()
        invariant
            i <= members.len(),
            forall|j: int| 0 <= j < i ==> is_terminal(#[trigger] member_views(members@)[j].1),
        decreases members.len() - i,
    {
        if !terminal_status(members[i].status.as_str()) {
            assert(member_views(members@)[i as int].1 == members@[i as int].status@);
            return false;
        }
        i = i + 1;
    }
    true
}

/// The speed limit to apply to a category's members while its window is open:
/// the normalised limit where limiting is enabled and the limit reads.
pub fn category_limit(c: &Category) -> (r: Option<String>)
    ensures
        r.is_some() == (flag_set(c@.limit_enable) && normalized_limit(c@.limit_value).is_some()),
        r.is_some() ==> r.unwrap()@ == normalized_limit(c@.limit_value).unwrap(),
{
    proof {
        reveal_strlit("yes");
    }
    if same_text(c.limit_enable.as_str(), "yes") {
        normalize_limit(c.limit_value.as_str())
    } else {
        None
    }
}


/// What one scheduler tick does for a category.
pub struct TickPlan {
    pub state: WindowState,
    /// Commands for the members, in the category's order.
    pub commands: Vec<Command>,
    /// The speed limit for the members, while the window is open (or there is
    /// none) and limiting is enabled.
    pub limit: Option<String>,
    /// Whether to carry out the category's after-download action now.
    pub after_download: bool,
    /// Whether the action counts as carried out for the next tick.
    pub fired: bool,
}

/// Whether the window lets the members run: open, or no window at all.
pub open spec fn lets_run(state: WindowState) -> bool {
    state == WindowState::Active || state == WindowState::Unconstrained
}

/// Decides one scheduler tick for a category at `now` (minutes since midnight),
/// given its members' statuses in list order and whether its after-download
/// action was already carried out. The action is carried out once: when the
/// window is not open and every member has finished; it is armed again
/// whenever the window is open.
pub fn plan_tick(c: &Category, members: &Vec<MemberStatus>, now: u32, fired: bool) -> (r: TickPlan)
    ensures
        r.state == category_state(c@, now as nat),
        command_views(r.commands@) == member_commands(
            r.state,
            command_order(member_views(members@), flag_set(c@.reverse)),
        ),
        r.limit.is_some() == (lets_run(r.state) && flag_set(c@.limit_enable)
            && normalized_limit(c@.limit_value).is_some()),
        r.limit.is_some() ==> r.limit.unwrap()@ == normalized_limit(c@.limit_value).unwrap(),
        r.after_download == (r.state != WindowState::Active && !fired
            && after_download_due(c@.after_download, member_views(members@))),
        r.fired == (r.state != WindowState::Active && (fired || r.after_download)),
{
    proof {
        reveal_strlit("yes");
    }
    let state = window_state_of(c, now);
    let reverse = same_text(c.reverse.as_str(), "yes");
    let commands = plan_commands(state, members, reverse);
    let open = match state {
        WindowState::Active => true,
        WindowState::Unconstrained => true,
        _ => false,
    };
    let limit = if open { category_limit(c) } else { None };
    let active = match state {
        WindowState::Active => true,
        _ => false,
    };
    let after_download = !active && !fired && after_download_is_due(c.after_download.as_str(), members);
    let next = !active && (fired || after_download);
    TickPlan { state, commands, limit, after_download, fired: next }
}

} // verus!
