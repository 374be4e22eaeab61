//! Laws of the commands, stated over their inputs: the time left `show`
//! reports adds up, `show` highlights only the default profile, `create`
//! assumes a child profile's role, `refresh` renews every child session, and
//! `clean all` leaves no credentials of the sessions it removed.

use vstd::prelude::*;
use vstd::arithmetic::div_mod::lemma_fundamental_div_mod_converse;
use vstd::seq_lib::lemma_seq_contains_after_push;
use crate::config::{file_chunks, has_name, lookup, EntryView, ProfileView};
use crate::credentials::{
    expiration_time, first_line, kept_chunks, lemma_file_chunks_clean, lemma_kept_text_chunks,
    removed_credentials, section_line, session_name,
};
use crate::expiry::{
    days_before_month, days_in_month, days_since_epoch, is_leap_year, session_state, utc_timestamp_of, SessionState,
};
use crate::laws::law_remove_credentials;
use crate::session_handler::{
    create_outcome, is_session, refresh_steps, removed_all_credentials, report_state, session_base,
    session_reports, CreateFault, PlanView, ReportView,
};
use crate::text::{contains_seq, split_seq};

verus! {

// ----- show: the time left -----

/// Whole seconds `secs` (not negative) cut into hours of the day, minutes
/// and seconds add up to `secs` modulo a day.
proof fn lemma_clock_parts(secs: int)
    requires
        secs >= 0,
    ensures
        ((secs / 3600) % 24) * 3600 + ((secs / 60) % 60) * 60 + secs % 60 == secs % 86400,
{
    let q = secs / 86400;
    let t = secs % 86400;
    lemma_fundamental_div_mod_converse(secs, 86400, q, t);
    assert(secs == q * 86400 + t) by {
        vstd::arithmetic::div_mod::lemma_fundamental_div_mod(secs, 86400);
    }
    let h = t / 3600;
    let r1 = t % 3600;
    let m = r1 / 60;
    let s = r1 % 60;
    assert(t == h * 3600 + r1) by {
        vstd::arithmetic::div_mod::lemma_fundamental_div_mod(t, 3600);
    }
    assert(r1 == m * 60 + s) by {
        vstd::arithmetic::div_mod::lemma_fundamental_div_mod(r1, 60);
    }
    assert(0 <= t < 86400 && 0 <= r1 < 3600 && 0 <= s < 60) by {
        vstd::arithmetic::div_mod::lemma_mod_bound(secs, 86400);
        vstd::arithmetic::div_mod::lemma_mod_bound(t, 3600);
        vstd::arithmetic::div_mod::lemma_mod_bound(r1, 60);
    }
    assert(0 <= h < 24) by (nonlinear_arith)
        requires
            t == h * 3600 + r1,
            0 <= t < 86400,
            0 <= r1 < 3600,
    ;
    assert(0 <= m < 60) by (nonlinear_arith)
        requires
            r1 == m * 60 + s,
            0 <= r1 < 3600,
            0 <= s < 60,
    ;
    // secs / 3600 == 24 q + h
    assert(secs == (q * 24 + h) * 3600 + r1) by (nonlinear_arith)
        requires
            secs == q * 86400 + t,
            t == h * 3600 + r1,
    ;
    lemma_fundamental_div_mod_converse(secs, 3600, q * 24 + h, r1);
    lemma_fundamental_div_mod_converse(q * 24 + h, 24, q, h);
    // secs / 60 == 1440 q + 60 h + m
    assert(secs == (q * 1440 + h * 60 + m) * 60 + s) by (nonlinear_arith)
        requires
            secs == q * 86400 + t,
            t == h * 3600 + r1,
            r1 == m * 60 + s,
    ;
    lemma_fundamental_div_mod_converse(secs, 60, q * 1440 + h * 60 + m, s);
    assert(q * 1440 + h * 60 + m == (q * 24 + h) * 60 + m) by (nonlinear_arith);
    lemma_fundamental_div_mod_converse(q * 1440 + h * 60 + m, 60, q * 24 + h, m);
}

/// What `show` reports of a session at an instant: with `left` the time to
/// its expiration in nanoseconds, it is expired exactly when `left` is
/// negative; otherwise its hours (below a day), minutes and seconds (below
/// sixty) add up to the whole seconds left, rounded down, modulo a day. So
/// less than an hour left reports no hours.
pub proof fn law_time_left_adds_up(expiration: i64, now_secs: i64, now_nanos: u32)
    ensures
        ({
            let left = (expiration - now_secs) * 1_000_000_000 - now_nanos;
            match session_state(expiration, now_secs, now_nanos) {
                SessionState::Active { hours, minutes, seconds } => {
                    &&& left >= 0
                    &&& 0 <= hours < 24
                    &&& 0 <= minutes < 60
                    &&& 0 <= seconds < 60
                    &&& hours * 3600 + minutes * 60 + seconds == (left / 1_000_000_000) % 86400
                },
                SessionState::Expired => left < 0,
            }
        }),
{
    let left = (expiration - now_secs) * 1_000_000_000 - now_nanos;
    if left >= 0 {
        let secs = left / 1_000_000_000;
        assert(secs >= 0);
        lemma_clock_parts(secs);
    }
}

// ----- show: the calendar of expiration times -----

/// The UNIX epoch, 1970-01-01T00:00:00Z, is timestamp 0.
pub proof fn law_epoch()
    ensures
        utc_timestamp_of(1970, 1, 1, 0, 0, 0) == Some(0i64),
{
    assert(days_before_month(1) == 0);
}

/// Which dates and times have a timestamp: years -262143 to 262142; in each,
/// months 1 to 12 with the days 1 to 28, the 29th but in February of a
/// common year (leap years are the multiples of 4 but of 100 only those of
/// 400), the 30th but in February, the 31st in January, March, May, July,
/// August, October and December; hours below 24, minutes and seconds below 60.
pub proof fn law_times_that_exist(y: i32, m: u32, d: u32, h: u32, mi: u32, s: u32)
    ensures
        utc_timestamp_of(y, m, d, h, mi, s) is Some <==> {
            &&& -262143 <= y <= 262142
            &&& 1 <= m <= 12
            &&& h < 24
            &&& mi < 60
            &&& s < 60
            &&& 1 <= d
            &&& {
                ||| d <= 28
                ||| d == 29 && (m != 2 || (y % 4 == 0 && (y % 100 != 0 || y % 400 == 0)))
                ||| d == 30 && m != 2
                ||| d == 31 && (m == 1 || m == 3 || m == 5 || m == 7 || m == 8 || m == 10 || m == 12)
            }
        },
{
}

/// A time of day is that many seconds after the day's midnight.
pub proof fn law_time_of_day(y: i32, m: u32, d: u32, h: u32, mi: u32, s: u32)
    requires
        utc_timestamp_of(y, m, d, 0, 0, 0) is Some,
        h < 24,
        mi < 60,
        s < 60,
    ensures
        utc_timestamp_of(y, m, d, h, mi, s) is Some,
        utc_timestamp_of(y, m, d, h, mi, s).unwrap() == utc_timestamp_of(y, m, d, 0, 0, 0).unwrap() + h * 3600
            + mi * 60 + s,
{
    lemma_timestamp_value(y, m, d, h, mi, s);
    lemma_timestamp_value(y, m, d, 0, 0, 0);
}

/// The days from the epoch to a date of chrono's range fit a timestamp.
proof fn lemma_days_bounds(y: int, m: int, d: int)
    requires
        -262143 <= y <= 262142,
        1 <= m <= 12,
        1 <= d <= 31,
    ensures
        -100_000_000 <= days_since_epoch(y, m, d) <= 100_000_000,
{
    assert(0 <= days_before_month(m) <= 334) by {
        assert(m == 1 || m == 2 || m == 3 || m == 4 || m == 5 || m == 6 || m == 7 || m == 8 || m == 9 || m == 10
            || m == 11 || m == 12);
    }
    assert(-100_000 <= (y - 1) / 4 <= 100_000) by {
        vstd::arithmetic::div_mod::lemma_fundamental_div_mod(y - 1, 4);
        vstd::arithmetic::div_mod::lemma_mod_bound(y - 1, 4);
    }
    assert(-10_000 <= (y - 1) / 100 <= 10_000) by {
        vstd::arithmetic::div_mod::lemma_fundamental_div_mod(y - 1, 100);
        vstd::arithmetic::div_mod::lemma_mod_bound(y - 1, 100);
    }
    assert(-1_000 <= (y - 1) / 400 <= 1_000) by {
        vstd::arithmetic::div_mod::lemma_fundamental_div_mod(y - 1, 400);
        vstd::arithmetic::div_mod::lemma_mod_bound(y - 1, 400);
    }
}

/// The timestamp of a date and time that exists, as an integer.
proof fn lemma_timestamp_value(y: i32, m: u32, d: u32, h: u32, mi: u32, s: u32)
    requires
        utc_timestamp_of(y, m, d, 0, 0, 0) is Some,
        h < 24,
        mi < 60,
        s < 60,
    ensures
        utc_timestamp_of(y, m, d, h, mi, s) is Some,
        utc_timestamp_of(y, m, d, h, mi, s).unwrap() == days_since_epoch(y as int, m as int, d as int) * 86400 + h
            * 3600 + mi * 60 + s,
{
    lemma_days_bounds(y as int, m as int, d as int);
}

/// `y / q` and `(y - 1) / q` differ by one exactly when `q` divides `y`.
proof fn lemma_div_step(y: int, q: int)
    requires
        q > 0,
    ensures
        y / q - (y - 1) / q == if y % q == 0 { 1int } else { 0int },
{
    vstd::arithmetic::div_mod::lemma_fundamental_div_mod(y, q);
    vstd::arithmetic::div_mod::lemma_mod_bound(y, q);
    let k = y / q;
    let r = y % q;
    if r == 0 {
        assert(y - 1 == (k - 1) * q + (q - 1)) by (nonlinear_arith)
            requires
                y == q * k + r,
                r == 0,
        ;
        lemma_fundamental_div_mod_converse(y - 1, q, k - 1, q - 1);
    } else {
        assert(y - 1 == k * q + (r - 1)) by (nonlinear_arith)
            requires
                y == q * k + r,
        ;
        lemma_fundamental_div_mod_converse(y - 1, q, k, r - 1);
    }
}

/// The multiples of 400 are multiples of 100, and those of 100 multiples of 4.
proof fn lemma_multiples(y: int)
    ensures
        y % 400 == 0 ==> y % 100 == 0,
        y % 100 == 0 ==> y % 4 == 0,
{
    vstd::arithmetic::div_mod::lemma_fundamental_div_mod(y, 400);
    vstd::arithmetic::div_mod::lemma_fundamental_div_mod(y, 100);
    if y % 400 == 0 {
        let k = y / 400;
        assert(y == (4 * k) * 100 + 0) by (nonlinear_arith)
            requires
                y == 400 * k + y % 400,
                y % 400 == 0,
        ;
        lemma_fundamental_div_mod_converse(y, 100, 4 * k, 0);
    }
    if y % 100 == 0 {
        let k = y / 100;
        assert(y == (25 * k) * 4 + 0) by (nonlinear_arith)
            requires
                y == 100 * k + y % 100,
                y % 100 == 0,
        ;
        lemma_fundamental_div_mod_converse(y, 4, 25 * k, 0);
    }
}

/// Each day is 86400 seconds after the one before it: within a month, from
/// a month's last day to the first of the next, and from December 31 to
/// January 1 of the next year.
pub proof fn law_next_day(y: i32, m: u32, d: u32)
    requires
        utc_timestamp_of(y, m, d, 0, 0, 0) is Some,
    ensures
        d < 31 && utc_timestamp_of(y, m, (d + 1) as u32, 0, 0, 0) is Some ==> utc_timestamp_of(
            y,
            m,
            (d + 1) as u32,
            0,
            0,
            0,
        ).unwrap() == utc_timestamp_of(y, m, d, 0, 0, 0).unwrap() + 86400,
        m < 12 && (d == 31 || utc_timestamp_of(y, m, (d + 1) as u32, 0, 0, 0) is None) ==> utc_timestamp_of(
            y,
            (m + 1) as u32,
            1,
            0,
            0,
            0,
        ) is Some && utc_timestamp_of(y, (m + 1) as u32, 1, 0, 0, 0).unwrap() == utc_timestamp_of(
            y,
            m,
            d,
            0,
            0,
            0,
        ).unwrap() + 86400,
        m == 12 && d == 31 && y < 262142 ==> utc_timestamp_of((y + 1) as i32, 1, 1, 0, 0, 0) is Some
            && utc_timestamp_of((y + 1) as i32, 1, 1, 0, 0, 0).unwrap() == utc_timestamp_of(y, m, d, 0, 0, 0).unwrap()
            + 86400,
{
    let yi = y as int;
    lemma_timestamp_value(y, m, d, 0, 0, 0);
    if d < 31 && utc_timestamp_of(y, m, (d + 1) as u32, 0, 0, 0) is Some {
        lemma_timestamp_value(y, m, (d + 1) as u32, 0, 0, 0);
    }
    if m < 12 && (d == 31 || utc_timestamp_of(y, m, (d + 1) as u32, 0, 0, 0) is None) {
        assert(d == days_in_month(yi, m as int));
        assert(utc_timestamp_of(y, (m + 1) as u32, 1, 0, 0, 0) is Some);
        lemma_timestamp_value(y, (m + 1) as u32, 1, 0, 0, 0);
        assert(days_before_month(m + 1) == days_before_month(m as int) + days_in_month(yi, m as int) - (if m == 2
            && is_leap_year(yi) {
            1int
        } else {
            0int
        })) by {
            assert(m == 1 || m == 2 || m == 3 || m == 4 || m == 5 || m == 6 || m == 7 || m == 8 || m == 9 || m == 10
                || m == 11);
        }
    }
    if m == 12 && d == 31 && y < 262142 {
        let y1 = (y + 1) as i32;
        assert(utc_timestamp_of(y1, 1, 1, 0, 0, 0) is Some);
        lemma_timestamp_value(y1, 1, 1, 0, 0, 0);
        lemma_div_step(yi, 4);
        lemma_div_step(yi, 100);
        lemma_div_step(yi, 400);
        lemma_multiples(yi);
        assert(days_before_month(12) == 334);
        assert(days_before_month(1) == 0);
        assert(days_since_epoch(yi + 1, 1, 1) == days_since_epoch(yi, 12, 31) + 1);
    }
}

// ----- show: the reports -----

/// `show` reports on every session of the config and on nothing else; a
/// report highlights its session exactly when the session's name is the
/// default profile (so none when the default profile is empty), and tells
/// what the session's expiration time gives at the instant.
pub proof fn law_show_reports(
    es: Seq<EntryView>,
    credentials: Seq<char>,
    default_profile: Seq<char>,
    now_secs: i64,
    now_nanos: u32,
)
    ensures
        forall|k: int|
            0 <= k < session_reports(es, credentials, default_profile, now_secs, now_nanos).len() ==> {
                let r = #[trigger] session_reports(es, credentials, default_profile, now_secs, now_nanos)[k];
                &&& r.1 == (r.0 == default_profile)
                &&& is_session(r.0)
                &&& r.2 == report_state(credentials, r.0, now_secs, now_nanos)
                &&& exists|i: int| 0 <= i < es.len() && #[trigger] es[i].0 == r.0
            },
        forall|i: int|
            0 <= i < es.len() && is_session(#[trigger] es[i].0) ==> exists|k: int|
                0 <= k < session_reports(es, credentials, default_profile, now_secs, now_nanos).len()
                    && #[trigger] session_reports(es, credentials, default_profile, now_secs, now_nanos)[k].0
                    == es[i].0,
    decreases es.len(),
{
    if es.len() > 0 {
        let pre = es.drop_last();
        law_show_reports(pre, credentials, default_profile, now_secs, now_nanos);
        let rs = session_reports(es, credentials, default_profile, now_secs, now_nanos);
        let ps = session_reports(pre, credentials, default_profile, now_secs, now_nanos);
        let l = es.last();
        assert(l == es[es.len() - 1]);
        assert forall|k: int| 0 <= k < rs.len() implies {
            let r = #[trigger] rs[k];
            &&& r.1 == (r.0 == default_profile)
            &&& is_session(r.0)
            &&& r.2 == report_state(credentials, r.0, now_secs, now_nanos)
            &&& exists|i: int| 0 <= i < es.len() && #[trigger] es[i].0 == r.0
        } by {
            if k < ps.len() {
                assert(rs[k] == ps[k]);
                let i = choose|i: int| 0 <= i < pre.len() && #[trigger] pre[i].0 == ps[k].0;
                assert(es[i] == pre[i]);
            } else {
                assert(rs[k].0 == l.0);
                assert(es[es.len() - 1].0 == rs[k].0);
            }
        }
        assert forall|i: int| 0 <= i < es.len() && is_session(#[trigger] es[i].0) implies exists|k: int|
            0 <= k < rs.len() && #[trigger] rs[k].0 == es[i].0 by {
            if i < pre.len() {
                assert(es[i] == pre[i]);
                let k = choose|k: int| 0 <= k < ps.len() && #[trigger] ps[k].0 == pre[i].0;
                assert(rs[k] == ps[k]);
            } else {
                assert(rs[ps.len() as int].0 == l.0);
            }
        }
    }
}

/// `show` reports on the sessions of the config in the order of the file,
/// each once: the names of its reports are the session names among the
/// config's names, in order.
pub proof fn law_show_reports_in_order(
    es: Seq<EntryView>,
    credentials: Seq<char>,
    default_profile: Seq<char>,
    now_secs: i64,
    now_nanos: u32,
)
    ensures
        session_reports(es, credentials, default_profile, now_secs, now_nanos).map_values(|r: ReportView| r.0)
            == es.map_values(|e: EntryView| e.0).filter(|n: Seq<char>| is_session(n)),
    decreases es.len(),
{
    reveal(Seq::filter);
    if es.len() > 0 {
        let pre = es.drop_last();
        law_show_reports_in_order(pre, credentials, default_profile, now_secs, now_nanos);
        let names = es.map_values(|e: EntryView| e.0);
        assert(names.drop_last() =~= pre.map_values(|e: EntryView| e.0));
        assert(names.last() == es.last().0);
        let rs = session_reports(es, credentials, default_profile, now_secs, now_nanos);
        let ps = session_reports(pre, credentials, default_profile, now_secs, now_nanos);
        if is_session(es.last().0) {
            assert(rs.map_values(|r: ReportView| r.0) =~= ps.map_values(|r: ReportView| r.0).push(es.last().0));
        } else {
            assert(rs.map_values(|r: ReportView| r.0) =~= ps.map_values(|r: ReportView| r.0));
        }
    } else {
        assert(session_reports(es, credentials, default_profile, now_secs, now_nanos).map_values(
            |r: ReportView| r.0,
        ) =~= es.map_values(|e: EntryView| e.0).filter(|n: Seq<char>| is_session(n)));
    }
}

// ----- create -----

/// A text that splits into a single piece does not hold the separator.
proof fn lemma_single_piece_lacks(s: Seq<char>, sep: Seq<char>)
    requires
        sep.len() > 0,
        split_seq(s, sep).len() == 1,
    ensures
        !contains_seq(s, sep),
    decreases s.len(),
{
    let k = sep.len() as int;
    if s.len() < sep.len() {
    } else if s.take(k) == sep {
        crate::text::lemma_split_nonempty(s.skip(k), sep);
    } else {
        let t = s.skip(1);
        crate::text::lemma_split_nonempty(t, sep);
        assert(split_seq(s, sep).len() == split_seq(t, sep).len());
        lemma_single_piece_lacks(t, sep);
        if contains_seq(s, sep) {
            let i = choose|i: int| 0 <= i && i + sep.len() <= s.len() && #[trigger] s.subrange(i, i + sep.len()) == sep;
            if i == 0 {
                assert(s.take(k) =~= s.subrange(0, k));
            } else {
                assert(t.subrange(i - 1, i - 1 + sep.len()) =~= s.subrange(i, i + sep.len()));
            }
        }
    }
}

/// What `create` decides for a profile `name` of the config whose session
/// does not exist yet, with the settings `p`:
/// - its source profile has a session and its `role_arn` holds a `/`: assume
///   that role with the source profile's session, the role session named by
///   what follows the first `/`, whatever else the profile holds;
/// - its source profile has a session but it has no `role_arn`, or one
///   without `/`: refused;
/// - its source profile has no session: create that first;
/// - without source profile: ask for an MFA session token exactly when it
///   has an MFA device, else nothing.
/// And only a profile without source profile gets a session token.
pub proof fn law_create_plan(es: Seq<EntryView>, name: Seq<char>, p: ProfileView)
    requires
        !has_name(es, session_name(name)),
        lookup(es, name) == Some(p),
    ensures
        match p.source_profile {
            Some(src) => if has_name(es, session_name(src)) {
                match p.role_arn {
                    Some(arn) => if contains_seq(arn, "/"@) {
                        create_outcome(es, name) == Ok::<PlanView, CreateFault>(
                            PlanView::AssumeRole {
                                source_session: session_name(src),
                                role_arn: arn,
                                role_session_name: split_seq(arn, "/"@)[1],
                            },
                        )
                    } else {
                        create_outcome(es, name) == Err::<PlanView, CreateFault>(CreateFault::RoleArnWithoutName)
                    },
                    None => create_outcome(es, name) == Err::<PlanView, CreateFault>(CreateFault::MissingRoleArn),
                }
            } else {
                create_outcome(es, name) == Ok::<PlanView, CreateFault>(
                    PlanView::CreateSourceFirst { source_profile: src },
                )
            },
            None => match p.mfa_serial {
                Some(m) => create_outcome(es, name) == Ok::<PlanView, CreateFault>(
                    PlanView::SessionToken { mfa_serial: m },
                ),
                None => create_outcome(es, name) == Ok::<PlanView, CreateFault>(PlanView::NothingToDo),
            },
        },
        create_outcome(es, name) matches Ok(PlanView::SessionToken { .. }) ==> p.source_profile is None,
{
    if let Some(arn) = p.role_arn {
        if contains_seq(arn, "/"@) {
            reveal_strlit("/");
            crate::text::lemma_split_nonempty(arn, "/"@);
            if split_seq(arn, "/"@).len() == 1 {
                lemma_single_piece_lacks(arn, "/"@);
            }
        } else {
            reveal_strlit("/");
            crate::text::lemma_split_whole(arn, "/"@);
        }
    }
}

/// `create` refuses a profile that does not exist and has no session.
pub proof fn law_create_missing_profile(es: Seq<EntryView>, name: Seq<char>)
    requires
        !has_name(es, session_name(name)),
        lookup(es, name) is None,
    ensures
        create_outcome(es, name) == Err::<PlanView, CreateFault>(CreateFault::MissingProfile),
{
}

// ----- refresh -----

/// `refresh` renews the session of every child profile: for each session
/// among the entries `part` of the config `es` whose profile exists and has
/// a source profile, that profile is among the ones renewed, whether or not
/// its source profile has a session.
pub proof fn law_refresh_renews_every_child_session(es: Seq<EntryView>, part: Seq<EntryView>)
    ensures
        forall|i: int|
            0 <= i < part.len() && is_session(#[trigger] part[i].0) && (lookup(es, session_base(part[i].0)) matches Some(
                p,
            ) && p.source_profile is Some) ==> refresh_steps(es, part).contains(session_base(part[i].0)),
    decreases part.len(),
{
    if part.len() > 0 {
        let pre = part.drop_last();
        law_refresh_renews_every_child_session(es, pre);
        let prev = refresh_steps(es, pre);
        let cur = refresh_steps(es, part);
        let l = part.last();
        assert(l == part[part.len() - 1]);
        assert forall|i: int|
            0 <= i < part.len() && is_session(#[trigger] part[i].0) && (lookup(es, session_base(part[i].0)) matches Some(
                p,
            ) && p.source_profile is Some) implies cur.contains(session_base(part[i].0)) by {
            let b = session_base(part[i].0);
            if i < pre.len() {
                assert(part[i] == pre[i]);
                assert(prev.contains(b));
                if cur != prev {
                    lemma_seq_contains_after_push(prev, session_base(l.0), b);
                }
            } else {
                lemma_seq_contains_after_push(prev, b, b);
            }
        }
    }
}

/// A session entry whose profile exists and has a source profile.
pub open spec fn is_child_session(es: Seq<EntryView>, e: EntryView) -> bool {
    is_session(e.0) && (lookup(es, session_base(e.0)) matches Some(p) && p.source_profile is Some)
}

/// `refresh` renews the profiles of the child sessions among the entries
/// `part` of the config `es` in the order of those entries, each once per
/// session, and nothing else.
pub proof fn law_refresh_in_order(es: Seq<EntryView>, part: Seq<EntryView>)
    ensures
        refresh_steps(es, part) == part.filter(|e: EntryView| is_child_session(es, e)).map_values(
            |e: EntryView| session_base(e.0),
        ),
    decreases part.len(),
{
    reveal(Seq::filter);
    let f = part.filter(|e: EntryView| is_child_session(es, e));
    if part.len() > 0 {
        let pre = part.drop_last();
        law_refresh_in_order(es, pre);
        let g = pre.filter(|e: EntryView| is_child_session(es, e));
        if is_child_session(es, part.last()) {
            assert(f == g.push(part.last()));
            assert(f.map_values(|e: EntryView| session_base(e.0)) =~= g.map_values(|e: EntryView| session_base(e.0)).push(
                session_base(part.last().0),
            ));
        } else {
            assert(f == g);
        }
    } else {
        assert(f.map_values(|e: EntryView| session_base(e.0)) =~= refresh_steps(es, part));
    }
}

// ----- clean all -----

/// A chunk is kept when the name removed does not head it.
proof fn lemma_kept_chunks_contains(cs: Seq<Seq<char>>, name: Seq<char>, c: Seq<char>)
    ensures
        kept_chunks(cs, name).contains(c) <==> (cs.contains(c) && first_line(c) != section_line(name)),
    decreases cs.len(),
{
    if cs.len() > 0 {
        let pre = cs.drop_last();
        lemma_kept_chunks_contains(pre, name, c);
        assert(pre.push(cs.last()) =~= cs);
        lemma_seq_contains_after_push(pre, cs.last(), c);
        lemma_seq_contains_after_push(kept_chunks(pre, name), cs.last(), c);
    }
}

/// The chunks of a credentials file once the entry of `name` is removed.
proof fn lemma_removed_chunks(text: Seq<char>, name: Seq<char>)
    ensures
        file_chunks(removed_credentials(text, name)) == kept_chunks(file_chunks(text), name),
{
    let cs = file_chunks(text);
    lemma_file_chunks_clean(text);
    lemma_kept_text_chunks(cs, name);
    assert(file_chunks(removed_credentials(text, name)) =~= kept_chunks(cs, name));
}

/// After the credentials of all `sessions` are removed, the file holds
/// exactly the entries of the file before that none of the sessions heads,
/// no expiration is recorded for any of the sessions, and every other name
/// reads as before.
pub proof fn law_remove_all_credentials(text: Seq<char>, sessions: Seq<Seq<char>>, other: Seq<char>)
    ensures
        forall|c: Seq<char>|
            #![trigger file_chunks(removed_all_credentials(text, sessions)).contains(c)]
            file_chunks(removed_all_credentials(text, sessions)).contains(c) <==> (file_chunks(text).contains(c)
                && forall|k: int| 0 <= k < sessions.len() ==> first_line(c) != #[trigger] section_line(sessions[k])),
        forall|k: int|
            0 <= k < sessions.len() ==> #[trigger] expiration_time(removed_all_credentials(text, sessions), sessions[k])
                == Some(Seq::<char>::empty()),
        !sessions.contains(other) ==> expiration_time(removed_all_credentials(text, sessions), other)
            == expiration_time(text, other),
    decreases sessions.len(),
{
    if sessions.len() > 0 {
        let pre = sessions.drop_last();
        let last = sessions.last();
        assert(last == sessions[sessions.len() - 1]);
        law_remove_all_credentials(text, pre, other);
        let before = removed_all_credentials(text, pre);
        let after = removed_all_credentials(text, sessions);
        assert(after == removed_credentials(before, last));
        lemma_removed_chunks(before, last);
        assert forall|c: Seq<char>| #![trigger file_chunks(after).contains(c)]
            file_chunks(after).contains(c) <==> (file_chunks(text).contains(c) && forall|k: int|
                0 <= k < sessions.len() ==> first_line(c) != #[trigger] section_line(sessions[k])) by {
            lemma_kept_chunks_contains(file_chunks(before), last, c);
            assert(file_chunks(before).contains(c) <==> (file_chunks(text).contains(c) && forall|k: int|
                0 <= k < pre.len() ==> first_line(c) != #[trigger] section_line(pre[k])));
            if file_chunks(after).contains(c) {
                assert forall|k: int| 0 <= k < sessions.len() implies first_line(c) != #[trigger] section_line(
                    sessions[k],
                ) by {
                    if k < pre.len() {
                        assert(sessions[k] == pre[k]);
                    }
                }
            }
            if file_chunks(text).contains(c) && forall|k: int|
                0 <= k < sessions.len() ==> first_line(c) != #[trigger] section_line(sessions[k]) {
                assert forall|k: int| 0 <= k < pre.len() implies first_line(c) != #[trigger] section_line(pre[k]) by {
                    assert(sessions[k] == pre[k]);
                }
                assert(first_line(c) != section_line(sessions[sessions.len() - 1]));
            }
        }
        assert forall|k: int| 0 <= k < sessions.len() implies #[trigger] expiration_time(after, sessions[k])
            == Some(Seq::<char>::empty()) by {
            if sessions[k] == last {
                law_remove_credentials(before, last, last.push('x'));
            } else {
                assert(sessions[k] == pre[k]);
                assert(expiration_time(before, pre[k]) == Some(Seq::<char>::empty()));
                law_remove_credentials(before, last, sessions[k]);
            }
        }
        if !sessions.contains(other) {
            if pre.contains(other) {
                let j = choose|j: int| 0 <= j < pre.len() && pre[j] == other;
                assert(sessions[j] == other);
            }
            assert(other != sessions[sessions.len() - 1]);
            law_remove_credentials(before, last, other);
        }
    }
}

/// A chunk that none of `sessions` heads.
pub open spec fn headed_by_none(sessions: Seq<Seq<char>>) -> spec_fn(Seq<char>) -> bool {
    |c: Seq<char>| forall|k: int| 0 <= k < sessions.len() ==> first_line(c) != #[trigger] section_line(sessions[k])
}

/// Removing the chunks headed by `name` from the chunks a filter keeps is
/// filtering with both conditions.
proof fn lemma_kept_filter(
    cs: Seq<Seq<char>>,
    p: spec_fn(Seq<char>) -> bool,
    q: spec_fn(Seq<char>) -> bool,
    name: Seq<char>,
)
    requires
        forall|c: Seq<char>| #[trigger] q(c) == (p(c) && first_line(c) != section_line(name)),
    ensures
        kept_chunks(cs.filter(p), name) == cs.filter(q),
    decreases cs.len(),
{
    reveal(Seq::filter);
    if cs.len() > 0 {
        let pre = cs.drop_last();
        let l = cs.last();
        lemma_kept_filter(pre, p, q, name);
        let fp = pre.filter(p);
        if p(l) {
            let x = fp.push(l);
            assert(x.drop_last() =~= fp);
            assert(x.last() == l);
            assert(q(l) == (first_line(l) != section_line(name)));
        } else {
            assert(!q(l));
        }
    }
}

/// After the credentials of all `sessions` are removed, the chunks of the
/// file are those of the file before that none of the sessions heads, in
/// the same order.
pub proof fn law_remove_all_credentials_in_order(text: Seq<char>, sessions: Seq<Seq<char>>)
    ensures
        file_chunks(removed_all_credentials(text, sessions)) == file_chunks(text).filter(headed_by_none(sessions)),
    decreases sessions.len(),
{
    reveal(Seq::filter);
    if sessions.len() > 0 {
        let pre = sessions.drop_last();
        let last = sessions.last();
        law_remove_all_credentials_in_order(text, pre);
        let before = removed_all_credentials(text, pre);
        lemma_removed_chunks(before, last);
        assert forall|c: Seq<char>| #[trigger] headed_by_none(sessions)(c) == (headed_by_none(pre)(c) && first_line(c)
            != section_line(last)) by {
            if headed_by_none(sessions)(c) {
                assert forall|k: int| 0 <= k < pre.len() implies first_line(c) != #[trigger] section_line(pre[k]) by {
                    assert(sessions[k] == pre[k]);
                }
                assert(first_line(c) != section_line(sessions[sessions.len() - 1]));
            }
            if headed_by_none(pre)(c) && first_line(c) != section_line(last) {
                assert forall|k: int| 0 <= k < sessions.len() implies first_line(c) != #[trigger] section_line(
                    sessions[k],
                ) by {
                    if k < pre.len() {
                        assert(sessions[k] == pre[k]);
                    }
                }
            }
        }
        lemma_kept_filter(file_chunks(text), headed_by_none(pre), headed_by_none(sessions), last);
    } else {
        let cs = file_chunks(text);
        assert(forall|c: Seq<char>| #[trigger] headed_by_none(sessions)(c));
        lemma_filter_all(cs, headed_by_none(sessions));
    }
}

/// A filter that keeps everything keeps the sequence.
proof fn lemma_filter_all(cs: Seq<Seq<char>>, p: spec_fn(Seq<char>) -> bool)
    requires
        forall|c: Seq<char>| #[trigger] p(c),
    ensures
        cs.filter(p) == cs,
    decreases cs.len(),
{
    reveal(Seq::filter);
    if cs.len() > 0 {
        lemma_filter_all(cs.drop_last(), p);
        assert(cs.drop_last().push(cs.last()) =~= cs);
    }
}

} // verus!
