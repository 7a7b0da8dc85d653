//! Normalisation of one raw task-status record of the download engine into the
//! fields that are stored and shown.
#![allow(non_snake_case)]

use vstd::prelude::*;
use crate::text::{char_digit, clone_text, opt_view, decimal_text, lemma_pow10_add, lemma_pow10_le, nat_text, pow10, push_decimal, push_nat, same_text};
use crate::units::{
    all_digits, digits_value, humanReadableSize, lemma_decimal_text_reads, number_parts, round_div,
    size_text,
};

verus! {

/// Task status as the engine reports it.
#[derive(Clone, Copy, Debug, PartialEq, Eq, Structural)]
pub enum EngineStatus {
    Active,
    Waiting,
    Paused,
    Error,
    Complete,
    Removed,
}

/// The engine's own name of a status.
pub open spec fn engine_status_name(s: EngineStatus) -> Seq<char> {
    match s {
        EngineStatus::Active => "active"@,
        EngineStatus::Waiting => "waiting"@,
        EngineStatus::Paused => "paused"@,
        EngineStatus::Error => "error"@,
        EngineStatus::Complete => "complete"@,
        EngineStatus::Removed => "removed"@,
    }
}

/// Text of a value, as the engine writes it.
pub trait ValuesToString {
    spec fn text_of(&self) -> Seq<char>;

    fn to_string(&self) -> (r: String)
        ensures
            r@ == self.text_of(),
    ;
}

impl ValuesToString for EngineStatus {
    open spec fn text_of(&self) -> Seq<char> {
        engine_status_name(*self)
    }

    fn to_string(&self) -> (r: String) {
        proof {
            reveal_strlit("active");
            reveal_strlit("waiting");
            reveal_strlit("paused");
            reveal_strlit("error");
            reveal_strlit("complete");
            reveal_strlit("removed");
        }
        match self {
            EngineStatus::Active => String::from_str("active"),
            EngineStatus::Waiting => String::from_str("waiting"),
            EngineStatus::Paused => String::from_str("paused"),
            EngineStatus::Error => String::from_str("error"),
            EngineStatus::Complete => String::from_str("complete"),
            EngineStatus::Removed => String::from_str("removed"),
        }
    }
}

/// One status record as the engine sends it: each field is the engine's text,
/// absent where the engine left it out.
pub struct RawStatus {
    pub gid: Option<String>,
    pub status: Option<String>,
    pub total_length: Option<String>,
    pub completed_length: Option<String>,
    pub download_speed: Option<String>,
    pub connections: Option<String>,
    /// Path of the first file of the task.
    pub file_path: Option<String>,
    /// First source link of the first file.
    pub file_uri: Option<String>,
}

pub struct RawStatusView {
    pub gid: Option<Seq<char>>,
    pub status: Option<Seq<char>>,
    pub total_length: Option<Seq<char>>,
    pub completed_length: Option<Seq<char>>,
    pub download_speed: Option<Seq<char>>,
    pub connections: Option<Seq<char>>,
    pub file_path: Option<Seq<char>>,
    pub file_uri: Option<Seq<char>>,
}

impl View for RawStatus {
    type V = RawStatusView;

    open spec fn view(&self) -> RawStatusView {
        RawStatusView {
            gid: opt_view(self.gid),
            status: opt_view(self.status),
            total_length: opt_view(self.total_length),
            completed_length: opt_view(self.completed_length),
            download_speed: opt_view(self.download_speed),
            connections: opt_view(self.connections),
            file_path: opt_view(self.file_path),
            file_uri: opt_view(self.file_uri),
        }
    }
}

/// The normalised record; a field is absent where it cannot be derived.
pub struct DownloadInfo {
    pub gid: Option<String>,
    pub file_name: Option<String>,
    pub status: Option<String>,
    pub size: Option<String>,
    pub downloaded_size: Option<String>,
    pub percent: Option<String>,
    pub connections: Option<String>,
    pub rate: Option<String>,
    pub estimate_time_left: Option<String>,
    pub link: Option<String>,
}

pub struct DownloadInfoView {
    pub gid: Option<Seq<char>>,
    pub file_name: Option<Seq<char>>,
    pub status: Option<Seq<char>>,
    pub size: Option<Seq<char>>,
    pub downloaded_size: Option<Seq<char>>,
    pub percent: Option<Seq<char>>,
    pub connections: Option<Seq<char>>,
    pub rate: Option<Seq<char>>,
    pub estimate_time_left: Option<Seq<char>>,
    pub link: Option<Seq<char>>,
}

impl View for DownloadInfo {
    type V = DownloadInfoView;

    open spec fn view(&self) -> DownloadInfoView {
        DownloadInfoView {
            gid: opt_view(self.gid),
            file_name: opt_view(self.file_name),
            status: opt_view(self.status),
            size: opt_view(self.size),
            downloaded_size: opt_view(self.downloaded_size),
            percent: opt_view(self.percent),
            connections: opt_view(self.connections),
            rate: opt_view(self.rate),
            estimate_time_left: opt_view(self.estimate_time_left),
            link: opt_view(self.link),
        }
    }
}

/// A numeric field of the engine that is not a decimal count fitting in 64 bits.
#[derive(Clone, Copy, Debug, PartialEq, Eq, Structural)]
pub enum StatusError {
    TotalLength,
    CompletedLength,
    DownloadSpeed,
}

/// Value of a decimal count: one or more digits, at most `u64::MAX`.
pub open spec fn count_value(s: Seq<char>) -> Option<nat> {
    if s.len() >= 1 && all_digits(s) && digits_value(s) <= u64::MAX {
        Some(digits_value(s))
    } else {
        None
    }
}

proof fn lemma_digits_prefix(s: Seq<char>, i: int)
    requires
        0 <= i <= s.len(),
        all_digits(s),
    ensures
        digits_value(s.subrange(0, i)) <= digits_value(s),
    decreases s.len(),
{
    if i < s.len() {
        let t = s.drop_last();
        assert(all_digits(t)) by {
            assert forall|j: int| 0 <= j < t.len() implies (#[trigger] char_digit(t[j])).is_some() by {
                assert(t[j] == s[j]);
                assert(char_digit(s[j]).is_some());
            }
        }
        lemma_digits_prefix(t, i);
        assert(t.subrange(0, i) =~= s.subrange(0, i));
    } else {
        assert(s.subrange(0, i) =~= s);
    }
}

/// Whenever the numeric fields are absent or decimal counts, normalising
/// succeeds, whatever the status text; the status is renamed (see
/// `renamed_status`), stays absent where absent, and a complete task shows
/// "0s" left.
pub proof fn lemma_status_renamed(raw: RawStatusView)
    requires
        field_count(raw.total_length) is Some,
        field_count(raw.completed_length) is Some,
        field_count(raw.download_speed) is Some,
    ensures
        normalization(raw) is Ok,
        normalization(raw)->Ok_0.status == (match raw.status {
            Some(st) => Some(renamed_status(st)),
            None => None,
        }),
        raw.status == Some("complete"@) ==> normalization(raw)->Ok_0.status == Some("complete"@)
            && normalization(raw)->Ok_0.estimate_time_left == Some("0s"@),
{
    reveal_strlit("complete");
    reveal_strlit("active");
    reveal_strlit("removed");
    if raw.status == Some("complete"@) {
        assert("complete"@ != "active"@) by {
            assert("complete"@.len() != "active"@.len());
        }
        assert("complete"@ != "removed"@) by {
            assert("complete"@[0] != "removed"@[0]);
        }
    }
}

/// Reads a decimal count (see `count_value`).
pub fn parse_count(s: &str) -> (r: Option<u64>)
    ensures
        r.is_some() == count_value(s@).is_some(),
        r.is_some() ==> r.unwrap() as nat == count_value(s@).unwrap(),
{
    let n = s.unicode_len();
    if n == 0 {
        return None;
    }
    let mut v: u64 = 0;
    let mut i: usize = 0;
    while i < n
        invariant
            n == s@.len(),
            i <= n,
            all_digits(s@.subrange(0, i as int)),
            v as nat == digits_value(s@.subrange(0, i as int)),
        decreases n - i,
    {
        let c = s.get_char(i);
        if c < '0' || c > '9' {
            proof {
                assert(char_digit(s@[i as int]).is_none());
            }
            return None;
        }
        let d = (c as u32 - '0' as u32) as u64;
        let ghost pre = s@.subrange(0, i as int);
        let ghost next = s@.subrange(0, (i + 1) as int);
        proof {
            assert(next.drop_last() =~= pre);
            assert(next.last() == c);
            assert forall|j: int| 0 <= j < next.len() implies (#[trigger] char_digit(next[j])).is_some() by {
                if j < pre.len() {
                    assert(next[j] == pre[j]);
                }
            }
        }
        if v > (u64::MAX - d) / 10 {
            proof {
                if all_digits(s@) {
                    lemma_digits_prefix(s@, (i + 1) as int);
                }
            }
            return None;
        }
        v = v * 10 + d;
        i = i + 1;
    }
    proof {
        assert(s@.subrange(0, n as int) =~= s@);
    }
    Some(v)
}


/// Index of the last '/' of `s`, or -1.
pub open spec fn last_slash(s: Seq<char>) -> int
    decreases s.len(),
{
    if s.len() == 0 {
        -1
    } else if s.last() == '/' {
        s.len() - 1
    } else {
        last_slash(s.drop_last())
    }
}

/// The directory part of a path: what stands before its last '/', "/" for a
/// path directly under the root, and nothing for a bare name.
pub open spec fn parent_of(p: Seq<char>) -> Seq<char> {
    let k = last_slash(p);
    if k < 0 {
        Seq::empty()
    } else if k == 0 {
        "/"@
    } else {
        p.subrange(0, k)
    }
}

/// Remaining time of `t` seconds as hours, minutes and seconds; the hours are left
/// out under an hour, the minutes under a minute.
pub open spec fn eta_text(t: nat) -> Seq<char> {
    if t >= 3600 {
        nat_text(t / 3600) + "h"@ + nat_text((t % 3600) / 60) + "m"@ + nat_text(t % 60) + "s"@
    } else if t >= 60 {
        nat_text(t / 60) + "m"@ + nat_text(t % 60) + "s"@
    } else {
        nat_text(t) + "s"@
    }
}

/// The remaining-time components lose nothing: hours, minutes under 60 and
/// seconds under 60 add up to the time again.
pub proof fn lemma_eta_components(t: nat)
    ensures
        (t / 3600) * 3600 + ((t % 3600) / 60) * 60 + t % 60 == t,
        (t % 3600) / 60 < 60,
        t % 60 < 60,
        t < 3600 ==> (t / 60) * 60 + t % 60 == t,
{
    assert((t / 3600) * 3600 + ((t % 3600) / 60) * 60 + t % 60 == t) by (nonlinear_arith);
    assert((t % 3600) / 60 < 60) by (nonlinear_arith);
    assert((t / 60) * 60 + t % 60 == t) by (nonlinear_arith);
}

/// `completed * 100 / total` with six decimals (rounded, trailing zeros dropped),
/// and a percent sign.
pub open spec fn percent_text(completed: nat, total: nat) -> Seq<char> {
    decimal_text(round_div(completed * 100000000, total), 6) + "%"@
}

/// The status shown for an engine status: "active" becomes "downloading",
/// "removed" becomes "stopped", any other passes through.
pub open spec fn renamed_status(s: Seq<char>) -> Seq<char> {
    if s == "active"@ {
        "downloading"@
    } else if s == "removed"@ {
        "stopped"@
    } else {
        s
    }
}

/// Renaming is stable: a shown status is renamed to itself.
pub proof fn lemma_rename_stable(s: Seq<char>)
    ensures
        renamed_status(renamed_status(s)) == renamed_status(s),
{
    reveal_strlit("active");
    reveal_strlit("removed");
    reveal_strlit("downloading");
    reveal_strlit("stopped");
    if s == "active"@ {
        assert("downloading"@ != "active"@) by {
            assert("downloading"@.len() != "active"@.len());
        }
        assert("downloading"@ != "removed"@) by {
            assert("downloading"@.len() != "removed"@.len());
        }
    } else if s == "removed"@ {
        assert("stopped"@ != "active"@) by {
            assert("stopped"@[0] != "active"@[0]);
        }
        assert("stopped"@ != "removed"@) by {
            assert("stopped"@[0] != "removed"@[0]);
        }
    }
}

/// The percent shown stands for `completed * 100 / total` to within half a
/// millionth: the text is `q / 10^6` followed by "%", and `q / 10^6` differs
/// from the exact percent by at most 0.0000005.
pub proof fn lemma_percent_close(completed: nat, total: nat)
    requires
        total > 0,
    ensures
        percent_text(completed, total) == decimal_text(round_div(completed * 100000000, total), 6) + "%"@,
        2 * round_div(completed * 100000000, total) * total <= 2 * completed * 100000000 + total,
        2 * completed * 100000000 <= 2 * round_div(completed * 100000000, total) * total + total,
{
    let a = completed * 100000000;
    let q = round_div(a, total);
    assert(q == (2 * a + total) / (2 * total));
    assert(2 * q * total <= 2 * a + total && 2 * a + total < 2 * q * total + 2 * total) by (nonlinear_arith)
        requires
            q == (2 * a + total) / (2 * total),
            total > 0,
    ;
}

/// The percent text of a download (`completed <= total`) reads back, through the
/// number reader of sizes, as a value within 0.0000005 of
/// `completed * 100 / total`: with integer part `i` and fraction digits `f` (`e`
/// of them), the value is `(i * 10^e + f) / 10^e`.
pub proof fn lemma_percent_reads_back(completed: nat, total: nat)
    requires
        0 < total,
        completed <= total,
    ensures
        percent_text(completed, total).last() == '%',
        number_parts(percent_text(completed, total).drop_last()) is Some,
        ({
            let (i, f, e) = number_parts(percent_text(completed, total).drop_last()).unwrap();
            &&& 2000000 * (i * pow10(e) + f) * total <= 200000000 * completed * pow10(e) + total * pow10(e)
            &&& 200000000 * completed * pow10(e) <= 2000000 * (i * pow10(e) + f) * total + total * pow10(e)
        }),
{
    reveal_strlit("%");
    let a = completed * 100000000;
    let q = round_div(a, total);
    lemma_percent_close(completed, total);
    assert(q <= 100000000) by (nonlinear_arith)
        requires
            q == (2 * a + total) / (2 * total),
            a == completed * 100000000,
            completed <= total,
            total > 0,
    ;
    lemma_pow10_values6();
    lemma_pow10_le(6, 20);
    lemma_pow10_le(9, 20);
    assert(q / pow10(6) < pow10(20));
    lemma_decimal_text_reads(q, 6);
    let txt = percent_text(completed, total);
    assert(txt.drop_last() =~= decimal_text(q, 6));
    let (i, f, e) = number_parts(decimal_text(q, 6)).unwrap();
    let p = pow10(e);
    let m = pow10((6 - e) as nat);
    lemma_pow10_add(e, (6 - e) as nat);
    assert(p * m == 1000000);
    assert((i * p + f) * m == q) by (nonlinear_arith)
        requires
            p * m == 1000000,
            i == q / 1000000,
            f * m == q % 1000000,
    ;
    let v = i * p + f;
    let w = v * total;
    let z = completed * p;
    let tp = total * p;
    assert(m > 0);
    assert(w * m == q * total) by (nonlinear_arith)
        requires
            w == v * total,
            v * m == q,
    ;
    assert(z * m == completed * 1000000) by (nonlinear_arith)
        requires
            z == completed * p,
            p * m == 1000000,
    ;
    assert(tp * m == total * 1000000) by (nonlinear_arith)
        requires
            tp == total * p,
            p * m == 1000000,
    ;
    assert((2000000 * w) * m <= (200000000 * z + tp) * m) by (nonlinear_arith)
        requires
            w * m == q * total,
            z * m == completed * 1000000,
            tp * m == total * 1000000,
            2 * q * total <= 2 * completed * 100000000 + total,
    ;
    assert((200000000 * z) * m <= (2000000 * w + tp) * m) by (nonlinear_arith)
        requires
            w * m == q * total,
            z * m == completed * 1000000,
            tp * m == total * 1000000,
            2 * completed * 100000000 <= 2 * q * total + total,
    ;
    lemma_cancel((2000000 * w) as int, (200000000 * z + tp) as int, m as int);
    lemma_cancel((200000000 * z) as int, (2000000 * w + tp) as int, m as int);
    assert(2000000 * (i * p + f) * total == 2000000 * w) by (nonlinear_arith)
        requires
            w == v * total,
            v == i * p + f,
    ;
    assert(200000000 * completed * p == 200000000 * z) by (nonlinear_arith)
        requires
            z == completed * p,
    ;
}

proof fn lemma_pow10_values6()
    ensures
        pow10(6) == 1000000,
        pow10(9) == 1000000000,
{
    assert(pow10(0) == 1);
    assert(pow10(1) == 10);
    assert(pow10(2) == 100);
    assert(pow10(3) == 1000);
    assert(pow10(4) == 10000);
    assert(pow10(5) == 100000);
    assert(pow10(6) == 1000000);
    assert(pow10(7) == 10000000);
    assert(pow10(8) == 100000000);
    assert(pow10(9) == 1000000000);
}

proof fn lemma_cancel(a: int, b: int, m: int)
    requires
        m > 0,
        a * m <= b * m,
    ensures
        a <= b,
{
    assert(a <= b) by (nonlinear_arith)
        requires
            m > 0,
            a * m <= b * m,
    ;
}

/// A numeric field read: `Some(None)` where absent, `None` where malformed.
pub open spec fn field_count(o: Option<Seq<char>>) -> Option<Option<nat>> {
    match o {
        None => Some(None),
        Some(t) => match count_value(t) {
            Some(v) => Some(Some(v)),
            None => None,
        },
    }
}

/// `a - b`, or zero where `b` is larger.
pub open spec fn sat_sub(a: nat, b: nat) -> nat {
    if a >= b { (a - b) as nat } else { 0 }
}

/// The normalised record of a raw record whose numeric fields read as given.
pub open spec fn normalized(
    raw: RawStatusView,
    total: Option<nat>,
    completed: Option<nat>,
    speed: nat,
) -> DownloadInfoView {
    let sized = completed.is_some() && total.is_some() && total.unwrap() > 0;
    let moving = completed.is_some() && speed != 0;
    DownloadInfoView {
        gid: raw.gid,
        file_name: match (raw.file_path, raw.file_uri) {
            (Some(p), Some(_)) => Some(parent_of(p)),
            _ => None,
        },
        status: match raw.status {
            Some(st) => Some(renamed_status(st)),
            None => None,
        },
        size: if sized { Some(size_text(total.unwrap(), false)) } else { None },
        downloaded_size: if sized { Some(size_text(completed.unwrap(), false)) } else { None },
        percent: if sized { Some(percent_text(completed.unwrap(), total.unwrap())) } else { None },
        connections: raw.connections,
        rate: if moving { Some(size_text(speed, true) + "/s"@) } else { Some("0"@) },
        estimate_time_left: if raw.status == Some("complete"@) {
            Some("0s"@)
        } else if moving && total.is_some() {
            Some(eta_text(sat_sub(total.unwrap(), completed.unwrap()) / speed))
        } else {
            None
        },
        link: match (raw.file_path, raw.file_uri) {
            (Some(_), Some(u)) => Some(u),
            _ => None,
        },
    }
}

/// What normalising a raw record gives: the first malformed numeric field
/// (total, completed, speed, in that order), or the normalised record.
pub open spec fn normalization(raw: RawStatusView) -> Result<DownloadInfoView, StatusError> {
    match field_count(raw.total_length) {
        None => Err(StatusError::TotalLength),
        Some(total) => match field_count(raw.completed_length) {
            None => Err(StatusError::CompletedLength),
            Some(completed) => match field_count(raw.download_speed) {
                None => Err(StatusError::DownloadSpeed),
                Some(speed) => Ok(normalized(raw, total, completed, speed.unwrap_or(0))),
            },
        },
    }
}

fn read_field(o: &Option<String>, e: StatusError) -> (r: Result<Option<u64>, StatusError>)
    ensures
        field_count(opt_view(*o)) is None ==> r == Err::<Option<u64>, StatusError>(e),
        field_count(opt_view(*o)) is Some ==> r is Ok
            && (r->Ok_0 is Some) == (field_count(opt_view(*o))->Some_0 is Some)
            && (r->Ok_0 is Some ==> r->Ok_0->Some_0 as nat == field_count(opt_view(*o))->Some_0->Some_0),
{
    match o {
        None => Ok(None),
        Some(t) => match parse_count(t.as_str()) {
            Some(v) => Ok(Some(v)),
            None => Err(e),
        },
    }
}

/// The directory part of a path (see `parent_of`).
pub fn parent_dir(p: &str) -> (r: String)
    ensures
        r@ == parent_of(p@),
{
    let n = p.unicode_len();
    let mut k: usize = n;
    assert(p@.subrange(0, n as int) =~= p@);
    while k > 0 && p.get_char(k - 1) != '/'
        invariant
            k <= n == p@.len(),
            last_slash(p@.subrange(0, k as int)) == last_slash(p@),
        decreases k,
    {
        proof {
            assert(p@.subrange(0, k as int).drop_last() =~= p@.subrange(0, k as int - 1));
        }
        k = k - 1;
    }
    proof {
        reveal_strlit("/");
        if k > 0 {
            assert(last_slash(p@.subrange(0, k as int)) == k - 1);
        } else {
            assert(last_slash(p@.subrange(0, 0)) == -1);
        }
    }
    if k == 0 {
        String::new()
    } else if k == 1 {
        String::from_str("/")
    } else {
        String::from_str(p.substring_char(0, k - 1))
    }
}

/// Remaining time as text (see `eta_text`).
pub fn format_eta(t: u64) -> (r: String)
    ensures
        r@ == eta_text(t as nat),
{
    proof {
        reveal_strlit("h");
        reveal_strlit("m");
        reveal_strlit("s");
    }
    let mut r = String::new();
    if t >= 3600 {
        push_nat(&mut r, (t / 3600) as u128);
        r.append("h");
        push_nat(&mut r, ((t % 3600) / 60) as u128);
        r.append("m");
    } else if t >= 60 {
        push_nat(&mut r, (t / 60) as u128);
        r.append("m");
    }
    push_nat(&mut r, (t % 60) as u128);
    r.append("s");
    proof {
        assert(r@ =~= eta_text(t as nat));
    }
    r
}

/// Download percent as text (see `percent_text`).
pub fn format_percent(completed: u64, total: u64) -> (r: String)
    requires
        total > 0,
    ensures
        r@ == percent_text(completed as nat, total as nat),
{
    let a: u128 = completed as u128 * 100000000;
    let q: u128 = (2 * a + total as u128) / (2 * total as u128);
    let mut r = String::new();
    push_decimal(&mut r, q, 6);
    r.append("%");
    proof {
        reveal_strlit("%");
        assert(r@ =~= percent_text(completed as nat, total as nat));
    }
    r
}

/// The shown status of an engine status (see `renamed_status`).
pub fn rename_status(s: &str) -> (r: String)
    ensures
        r@ == renamed_status(s@),
{
    if same_text(s, "active") {
        proof {
            reveal_strlit("downloading");
        }
        String::from_str("downloading")
    } else if same_text(s, "removed") {
        proof {
            reveal_strlit("stopped");
        }
        String::from_str("stopped")
    } else {
        String::from_str(s)
    }
}

/// Normalises one raw status record of the engine (see `normalization`).
pub fn convertDownloadInformation(raw: &RawStatus) -> (r: Result<DownloadInfo, StatusError>)
    ensures
        match normalization(raw@) {
            Ok(v) => r is Ok && r->Ok_0@ == v,
            Err(e) => r == Err::<DownloadInfo, StatusError>(e),
        },
{
    let total = match read_field(&raw.total_length, StatusError::TotalLength) {
        Ok(v) => v,
        Err(e) => return Err(e),
    };
    let completed = match read_field(&raw.completed_length, StatusError::CompletedLength) {
        Ok(v) => v,
        Err(e) => return Err(e),
    };
    let speed = match read_field(&raw.download_speed, StatusError::DownloadSpeed) {
        Ok(v) => match v {
            Some(x) => x,
            None => 0,
        },
        Err(e) => return Err(e),
    };
    let ghost tv: Option<nat> = match total { Some(x) => Some(x as nat), None => None };
    let ghost cv: Option<nat> = match completed { Some(x) => Some(x as nat), None => None };
    assert(field_count(raw@.total_length) == Some(tv));
    assert(field_count(raw@.completed_length) == Some(cv));
    let ghost spec_view = normalized(raw@, tv, cv, speed as nat);
    proof {
        assert(normalization(raw@) == Ok::<DownloadInfoView, StatusError>(spec_view));
        reveal_strlit("file_size");
        reveal_strlit("speed");
        reveal_strlit("/s");
        reveal_strlit("0");
        reveal_strlit("0s");
        reveal_strlit("complete");
    }
    let (size, downloaded_size, percent) = match (total, completed) {
        (Some(t), Some(c)) => if t > 0 {
            (
                Some(humanReadableSize(t, "file_size")),
                Some(humanReadableSize(c, "file_size")),
                Some(format_percent(c, t)),
            )
        } else {
            (None, None, None)
        },
        _ => (None, None, None),
    };
    let moving = completed.is_some() && speed != 0;
    let rate = if moving {
        let mut s = humanReadableSize(speed, "speed");
        s.append("/s");
        Some(s)
    } else {
        Some(String::from_str("0"))
    };
    let complete = match &raw.status {
        Some(st) => same_text(st.as_str(), "complete"),
        None => false,
    };
    let estimate_time_left = if complete {
        Some(String::from_str("0s"))
    } else {
        match (total, completed) {
            (Some(t), Some(c)) => if speed != 0 {
                let left = if t >= c { t - c } else { 0 };
                Some(format_eta(left / speed))
            } else {
                None
            },
            _ => None,
        }
    };
    let (file_name, link) = match (&raw.file_path, &raw.file_uri) {
        (Some(p), Some(u)) => (Some(parent_dir(p.as_str())), Some(u.clone())),
        _ => (None, None),
    };
    let status = match &raw.status {
        Some(st) => Some(rename_status(st.as_str())),
        None => None,
    };
    let info = DownloadInfo {
        gid: clone_text(&raw.gid),
        file_name,
        status,
        size,
        downloaded_size,
        percent,
        connections: clone_text(&raw.connections),
        rate,
        estimate_time_left,
        link,
    };
    proof {
        assert("file_size"@ != "speed"@) by {
            assert("file_size"@.len() != "speed"@.len());
        }
        assert(info@.gid == spec_view.gid);
        assert(info@.file_name == spec_view.file_name);
        assert(info@.status == spec_view.status);
        assert(info@.size == spec_view.size);
        assert(info@.downloaded_size == spec_view.downloaded_size);
        assert(info@.percent == spec_view.percent);
        assert(info@.connections == spec_view.connections);
        assert(info@.link == spec_view.link);
        assert(info@.rate == spec_view.rate);
        assert(info@.estimate_time_left == spec_view.estimate_time_left);
        assert(info@ == spec_view);
    }
    Ok(info)
}


/// One file of a task: where it is written and where it comes from.
pub struct FileEntry {
    pub path: String,
    pub uris: Vec<String>,
}

/// A task status as the engine types it.
pub struct CustomStatus {
    pub gid: String,
    pub status: EngineStatus,
    pub connections: u64,
    pub error_code: Option<String>,
    pub error_message: Option<String>,
    pub download_speed: u64,
    pub dir: String,
    pub total_length: u64,
    pub completed_length: u64,
    pub files: Vec<FileEntry>,
}

fn count_text(n: u64) -> (r: String)
    ensures
        r@ == nat_text(n as nat),
{
    let mut r = String::new();
    push_nat(&mut r, n as u128);
    r
}

impl CustomStatus {
    /// The record in the engine's text form: counts written in decimal, the
    /// status by its engine name, path and link of the first file where there is
    /// one.
    pub fn raw_status(&self) -> (r: RawStatus)
        ensures
            r@.gid == Some(self.gid@),
            r@.status == Some(engine_status_name(self.status)),
            r@.total_length == Some(nat_text(self.total_length as nat)),
            r@.completed_length == Some(nat_text(self.completed_length as nat)),
            r@.download_speed == Some(nat_text(self.download_speed as nat)),
            r@.connections == Some(nat_text(self.connections as nat)),
            r@.file_path == (if self.files@.len() > 0 { Some(self.files@[0].path@) } else { None }),
            r@.file_uri == (if self.files@.len() > 0 && self.files@[0].uris@.len() > 0 {
                Some(self.files@[0].uris@[0]@)
            } else {
                None
            }),
    {
        let (file_path, file_uri) = if self.files.len() > 0 {
            let f = &self.files[0];
            let uri = if f.uris.len() > 0 { Some(f.uris[0].clone()) } else { None };
            (Some(f.path.clone()), uri)
        } else {
            (None, None)
        };
        RawStatus {
            gid: Some(self.gid.clone()),
            status: Some(self.status.to_string()),
            total_length: Some(count_text(self.total_length)),
            completed_length: Some(count_text(self.completed_length)),
            download_speed: Some(count_text(self.download_speed)),
            connections: Some(count_text(self.connections)),
            file_path,
            file_uri,
        }
    }
}

} // verus!
