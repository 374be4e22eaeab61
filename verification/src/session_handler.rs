//! The decisions of the session commands: what `create` has to do for a
//! profile, what `clean` and `clean all` remove, which sessions `refresh`
//! renews, and what `show` reports of each session.

use vstd::prelude::*;
use crate::config::{
    config_text, has_name, lookup, remove_entry, AWSConfig, AWSProfile, EntryView, ProfileView,
};
use crate::credentials::{
    expiration_is_readable, expiration_time, get_expiration_time, remove_credentials,
    removed_credentials, session_name,
};
use crate::expiry::{expiry_state, expiry_status, expiry_timestamp, utc_now, SessionState};
use crate::text::{chars_of, contains_range, contains_seq, pieces, split_ranges, split_seq, string_of};

verus! {

/// The name carries the session marker `-session`.
pub open spec fn is_session(name: Seq<char>) -> bool {
    contains_seq(name, "-session"@)
}

/// Whether `name` names a session profile.
pub fn is_session_name(name: &str) -> (b: bool)
    ensures
        b == is_session(name@),
{
    let s = chars_of(name);
    let m = chars_of("-session");
    assert(s@.subrange(0, s@.len() as int) =~= s@);
    contains_range(&s, 0, s.len(), &m)
}

/// `name + "-session"`.
pub fn session_of(name: &str) -> (r: String)
    ensures
        r@ == session_name(name@),
{
    let mut r = name.to_owned();
    r.append("-session");
    r
}

// ----- create -----

/// What `create` has to do for a profile.
#[derive(Debug, PartialEq, Eq)]
pub enum CreatePlan {
    /// The session exists already; nothing is requested.
    AlreadyExists { session: String },
    /// The source profile has a session: assume the profile's role with it.
    AssumeRole { source_session: String, role_arn: String, role_session_name: String },
    /// The source profile has no session yet: create that first, then this one.
    CreateSourceFirst { source_profile: String },
    /// A profile without source profile but with an MFA device: ask for a code
    /// and request a session token with it.
    SessionToken { mfa_serial: String },
    /// A profile without source profile and without MFA device: nothing is requested.
    NothingToDo,
}

/// The mathematical value of a [`CreatePlan`].
pub enum PlanView {
    AlreadyExists { session: Seq<char> },
    AssumeRole { source_session: Seq<char>, role_arn: Seq<char>, role_session_name: Seq<char> },
    CreateSourceFirst { source_profile: Seq<char> },
    SessionToken { mfa_serial: Seq<char> },
    NothingToDo,
}

impl View for CreatePlan {
    type V = PlanView;

    open spec fn view(&self) -> PlanView {
        match self {
            CreatePlan::AlreadyExists { session } => PlanView::AlreadyExists { session: session@ },
            CreatePlan::AssumeRole { source_session, role_arn, role_session_name } => PlanView::AssumeRole {
                source_session: source_session@,
                role_arn: role_arn@,
                role_session_name: role_session_name@,
            },
            CreatePlan::CreateSourceFirst { source_profile } => PlanView::CreateSourceFirst {
                source_profile: source_profile@,
            },
            CreatePlan::SessionToken { mfa_serial } => PlanView::SessionToken { mfa_serial: mfa_serial@ },
            CreatePlan::NothingToDo => PlanView::NothingToDo,
        }
    }
}

/// Why `create` cannot go on for a profile.
#[derive(Debug, PartialEq, Eq)]
pub enum CreateFault {
    /// There is no profile of that name (and no session of it).
    MissingProfile,
    /// The profile's source profile has a session, but the profile has no `role_arn`.
    MissingRoleArn,
    /// The `role_arn` has no `/`, so it names no role session.
    RoleArnWithoutName,
}

/// The plan, or the fault, for a profile that exists, has the settings `p`,
/// and whose session does not exist yet.
pub open spec fn plan_for_profile(es: Seq<EntryView>, p: ProfileView) -> Result<PlanView, CreateFault> {
    match p.source_profile {
        Some(src) => if has_name(es, session_name(src)) {
            match p.role_arn {
                None => Err(CreateFault::MissingRoleArn),
                Some(arn) => {
                    let parts = split_seq(arn, "/"@);
                    if parts.len() < 2 {
                        Err(CreateFault::RoleArnWithoutName)
                    } else {
                        Ok(
                            PlanView::AssumeRole {
                                source_session: session_name(src),
                                role_arn: arn,
                                role_session_name: parts[1],
                            },
                        )
                    }
                },
            }
        } else {
            Ok(PlanView::CreateSourceFirst { source_profile: src })
        },
        None => match p.mfa_serial {
            Some(m) => Ok(PlanView::SessionToken { mfa_serial: m }),
            None => Ok(PlanView::NothingToDo),
        },
    }
}

/// What `create` has to do for the profile `name` of the config `es`, or why
/// it cannot go on.
pub open spec fn create_outcome(es: Seq<EntryView>, name: Seq<char>) -> Result<PlanView, CreateFault> {
    if has_name(es, session_name(name)) {
        Ok(PlanView::AlreadyExists { session: session_name(name) })
    } else {
        match lookup(es, name) {
            None => Err(CreateFault::MissingProfile),
            Some(p) => plan_for_profile(es, p),
        }
    }
}

/// `create` finds the session of the profile already there.
pub open spec fn finds_session(o: Result<PlanView, CreateFault>) -> bool {
    match o {
        Ok(PlanView::AlreadyExists { .. }) => true,
        _ => false,
    }
}

/// The plan, or the fault, for a profile with settings `p`.
fn plan_for(config: &AWSConfig, p: &AWSProfile) -> (r: Result<CreatePlan, CreateFault>)
    ensures
        match r {
            Ok(plan) => plan_for_profile(config@, p@) == Ok::<PlanView, CreateFault>(plan@),
            Err(f) => plan_for_profile(config@, p@) == Err::<PlanView, CreateFault>(f),
        },
{
    match &p.source_profile {
        Some(src) => {
            let src_session = session_of(src.as_str());
            if config.contains_profile(src_session.as_str()) {
                match &p.role_arn {
                    None => Err(CreateFault::MissingRoleArn),
                    Some(arn) => {
                        let s = chars_of(arn.as_str());
                        let slash = chars_of("/");
                        proof {
                            reveal_strlit("/");
                        }
                        assert(s@.subrange(0, s@.len() as int) =~= s@);
                        let parts = split_ranges(&s, 0, s.len(), &slash);
                        assert(pieces(s@, parts@) == split_seq(arn@, "/"@));
                        if parts.len() < 2 {
                            Err(CreateFault::RoleArnWithoutName)
                        } else {
                            let (a, b) = parts[1];
                            assert(pieces(s@, parts@)[1] == s@.subrange(a as int, b as int));
                            let name = string_of(arn.as_str(), &s, a, b);
                            Ok(
                                CreatePlan::AssumeRole {
                                    source_session: src_session,
                                    role_arn: arn.clone(),
                                    role_session_name: name,
                                },
                            )
                        }
                    },
                }
            } else {
                Ok(CreatePlan::CreateSourceFirst { source_profile: src.clone() })
            }
        },
        None => match &p.mfa_serial {
            Some(m) => Ok(CreatePlan::SessionToken { mfa_serial: m.clone() }),
            None => Ok(CreatePlan::NothingToDo),
        },
    }
}

/// The plan, or the fault, for the profile `profile_name`.
fn decide_create(config: &AWSConfig, profile_name: &str) -> (r: Result<CreatePlan, CreateFault>)
    ensures
        match r {
            Ok(plan) => create_outcome(config@, profile_name@) == Ok::<PlanView, CreateFault>(plan@),
            Err(f) => create_outcome(config@, profile_name@) == Err::<PlanView, CreateFault>(f),
        },
{
    let session = session_of(profile_name);
    if config.contains_profile(session.as_str()) {
        return Ok(CreatePlan::AlreadyExists { session });
    }
    if !config.contains_profile(profile_name) {
        return Err(CreateFault::MissingProfile);
    }
    let p = config.get_profile(profile_name);
    plan_for(config, p)
}

/// Why `create` cannot go on for the profile `profile_name`, if it cannot:
/// `None` exactly when `create` may be called.
pub fn create_fault(config: &AWSConfig, profile_name: &str) -> (r: Option<CreateFault>)
    ensures
        match create_outcome(config@, profile_name@) {
            Ok(_) => r is None,
            Err(f) => r == Some(f),
        },
{
    match decide_create(config, profile_name) {
        Ok(_) => None,
        Err(f) => Some(f),
    }
}

/// Decides what `create` does for the profile `profile_name`, where it can
/// go on: the profile or its session exists, and a profile whose source
/// profile has a session has a `role_arn` with a `/`.
pub fn create(config: &AWSConfig, profile_name: &str) -> (r: CreatePlan)
    requires
        create_outcome(config@, profile_name@) is Ok,
    ensures
        create_outcome(config@, profile_name@) == Ok::<PlanView, CreateFault>(r@),
{
    match decide_create(config, profile_name) {
        Ok(plan) => plan,
        Err(_) => {
            assert(false);
            CreatePlan::NothingToDo
        },
    }
}

// ----- clean -----

/// Removes the session of `profile_name` from `config`, if it exists, and
/// returns its name and the text of the config file without it.
pub fn clean_profile(config: &mut AWSConfig, profile_name: &str) -> (r: Option<(String, String)>)
    ensures
        match r {
            Some((session, text)) => {
                &&& has_name(old(config)@, session_name(profile_name@))
                &&& session@ == session_name(profile_name@)
                &&& final(config)@ == remove_entry(old(config)@, session@)
                &&& text@ == config_text(final(config)@)
            },
            None => !has_name(old(config)@, session_name(profile_name@)) && final(config)@ == old(
                config,
            )@,
        },
{
    let session = session_of(profile_name);
    if config.contains_profile(session.as_str()) {
        config.remove(session.as_str());
        let text = config.save();
        Some((session, text))
    } else {
        None
    }
}

/// The names of the session profiles among `es`, in order.
pub open spec fn session_names(es: Seq<EntryView>) -> Seq<Seq<char>>
    decreases es.len(),
{
    if es.len() == 0 {
        Seq::empty()
    } else if is_session(es.last().0) {
        session_names(es.drop_last()).push(es.last().0)
    } else {
        session_names(es.drop_last())
    }
}

/// The profiles among `es` that are not sessions, in order.
pub open spec fn non_sessions(es: Seq<EntryView>) -> Seq<EntryView>
    decreases es.len(),
{
    if es.len() == 0 {
        Seq::empty()
    } else if is_session(es.last().0) {
        non_sessions(es.drop_last())
    } else {
        non_sessions(es.drop_last()).push(es.last())
    }
}

/// Removes every session profile from `config`; returns the names of the
/// sessions removed and the text of the config file without them.
pub fn clean_all_profiles(config: &mut AWSConfig) -> (r: (Vec<String>, String))
    ensures
        r.0@.map_values(|s: String| s@) == session_names(old(config)@),
        final(config)@ == non_sessions(old(config)@),
        r.1@ == config_text(final(config)@),
{
    let n = config.len();
    let ghost es = config@;
    let mut sessions: Vec<String> = Vec::new();
    let mut kept = AWSConfig::new();
    assert(es.take(0) =~= Seq::<EntryView>::empty());
    assert(sessions@.map_values(|s: String| s@) =~= Seq::<Seq<char>>::empty());
    let mut i: usize = 0;
    while i < n
        invariant
            n == es.len(),
            i <= n,
            config@ == es,
            crate::config::distinct_names(es),
            sessions@.map_values(|s: String| s@) == session_names(es.take(i as int)),
            kept@ == non_sessions(es.take(i as int)),
            forall|j: int| 0 <= j < kept@.len() ==> exists|k: int| 0 <= k < i && #[trigger] kept@[j] == es[k],
        decreases n - i,
    {
        let name = config.name_at(i);
        assert(es.take(i + 1).drop_last() =~= es.take(i as int));
        assert(es.take(i + 1).last() == es[i as int]);
        if is_session_name(name.as_str()) {
            let ghost before = sessions@.map_values(|s: String| s@);
            sessions.push(name.clone());
            assert(sessions@.map_values(|s: String| s@) =~= before.push(name@));
        } else {
            let ghost before = kept@;
            proof {
                if has_name(before, name@) {
                    let j = choose|j: int| 0 <= j < before.len() && #[trigger] before[j].0 == name@;
                    let k = choose|k: int| 0 <= k < i && #[trigger] before[j] == es[k];
                    assert(es[k].0 == es[i as int].0);
                }
            }
            kept.insert(name.clone(), config.profile_at(i).copy());
            assert(kept@ =~= before.push(es[i as int]));
            assert forall|j: int| 0 <= j < kept@.len() implies exists|k: int| 0 <= k < i + 1 && #[trigger] kept@[j] == es[k] by {
                if j < before.len() {
                    let k = choose|k: int| 0 <= k < i && #[trigger] before[j] == es[k];
                    assert(kept@[j] == es[k]);
                } else {
                    assert(kept@[j] == es[i as int]);
                }
            }
        }
        i = i + 1;
    }
    assert(es.take(n as int) =~= es);
    *config = kept;
    let text = config.save();
    (sessions, text)
}

/// The credentials file once the entries of all `sessions` are removed, one
/// after the other.
pub open spec fn removed_all_credentials(text: Seq<char>, sessions: Seq<Seq<char>>) -> Seq<char>
    decreases sessions.len(),
{
    if sessions.len() == 0 {
        text
    } else {
        removed_credentials(removed_all_credentials(text, sessions.drop_last()), sessions.last())
    }
}

/// Removes the credentials entries of all `sessions`, one after the other.
pub fn remove_all_credentials(text: &str, sessions: &Vec<String>) -> (r: String)
    ensures
        r@ == removed_all_credentials(text@, sessions@.map_values(|s: String| s@)),
{
    let ghost ss = sessions@.map_values(|s: String| s@);
    let mut cur = text.to_owned();
    assert(ss.take(0) =~= Seq::<Seq<char>>::empty());
    let mut i: usize = 0;
    while i < sessions.len()
        invariant
            i <= sessions@.len(),
            ss == sessions@.map_values(|s: String| s@),
            cur@ == removed_all_credentials(text@, ss.take(i as int)),
        decreases sessions@.len() - i,
    {
        assert(ss.take(i + 1).drop_last() =~= ss.take(i as int));
        assert(ss.take(i + 1).last() == sessions@[i as int]@);
        cur = remove_credentials(cur.as_str(), sessions[i].as_str());
        i = i + 1;
    }
    assert(ss.take(i as int) =~= ss);
    cur
}

// ----- refresh -----

/// The profile a session belongs to: its name up to the first `-session`.
pub open spec fn session_base(name: Seq<char>) -> Seq<char> {
    split_seq(name, "-session"@)[0]
}

/// Some session among the entries `part` of the config `es` belongs to no
/// profile of `es`.
pub open spec fn has_orphan_session(es: Seq<EntryView>, part: Seq<EntryView>) -> bool {
    exists|i: int| 0 <= i < part.len() && is_session(#[trigger] part[i].0) && !has_name(es, session_base(part[i].0))
}

/// The profiles whose sessions `refresh` renews, for the sessions among the
/// entries `part` of the config `es`: a session whose profile has a source
/// profile is renewed, one whose profile has none is left alone.
pub open spec fn refresh_steps(es: Seq<EntryView>, part: Seq<EntryView>) -> Seq<Seq<char>>
    decreases part.len(),
{
    if part.len() == 0 {
        Seq::empty()
    } else {
        let prev = refresh_steps(es, part.drop_last());
        let name = part.last().0;
        if is_session(name) {
            let base = session_base(name);
            match lookup(es, base) {
                Some(p) => if p.source_profile is Some {
                    prev.push(base)
                } else {
                    prev
                },
                None => prev,
            }
        } else {
            prev
        }
    }
}

/// The profile `name` of a session belongs to, as a new string.
fn base_of(name: &String) -> (r: String)
    ensures
        r@ == session_base(name@),
{
    let marker = chars_of("-session");
    proof {
        reveal_strlit("-session");
    }
    let s = chars_of(name.as_str());
    assert(s@.subrange(0, s@.len() as int) =~= s@);
    let parts = split_ranges(&s, 0, s.len(), &marker);
    let (a, b) = parts[0];
    assert(pieces(s@, parts@)[0] == s@.subrange(a as int, b as int));
    string_of(name.as_str(), &s, a, b)
}

/// A session of `config` whose profile does not exist, if there is one:
/// `None` exactly when `refresh_all_profiles` may be called.
pub fn refresh_fault(config: &AWSConfig) -> (r: Option<String>)
    ensures
        r is None <==> !has_orphan_session(config@, config@),
        r matches Some(base) ==> exists|i: int|
            0 <= i < config@.len() && is_session(#[trigger] config@[i].0) && session_base(config@[i].0) == base@
                && !has_name(config@, base@),
{
    let n = config.len();
    let ghost es = config@;
    let mut i: usize = 0;
    while i < n
        invariant
            n == es.len(),
            i <= n,
            config@ == es,
            !has_orphan_session(es, es.take(i as int)),
        decreases n - i,
    {
        let name = config.name_at(i);
        if is_session_name(name.as_str()) {
            let base = base_of(name);
            if !config.contains_profile(base.as_str()) {
                return Some(base);
            }
        }
        proof {
            let t = es.take(i + 1);
            if has_orphan_session(es, t) {
                let j = choose|j: int| 0 <= j < t.len() && is_session(#[trigger] t[j].0) && !has_name(es, session_base(t[j].0));
                if j < i {
                    assert(es.take(i as int)[j] == t[j]);
                    assert(has_orphan_session(es, es.take(i as int)));
                }
            }
        }
        i = i + 1;
    }
    assert(es.take(n as int) =~= es);
    None
}

/// The profiles whose sessions `refresh` renews, in order, where every
/// session of `config` belongs to an existing profile.
pub fn refresh_all_profiles(config: &AWSConfig) -> (r: Vec<String>)
    requires
        !has_orphan_session(config@, config@),
    ensures
        r@.map_values(|s: String| s@) == refresh_steps(config@, config@),
{
    let n = config.len();
    let ghost es = config@;
    let mut steps: Vec<String> = Vec::new();
    assert(es.take(0) =~= Seq::<EntryView>::empty());
    assert(steps@.map_values(|s: String| s@) =~= Seq::<Seq<char>>::empty());
    let mut i: usize = 0;
    while i < n
        invariant
            n == es.len(),
            i <= n,
            config@ == es,
            !has_orphan_session(es, es),
            steps@.map_values(|s: String| s@) == refresh_steps(es, es.take(i as int)),
        decreases n - i,
    {
        let name = config.name_at(i);
        assert(es.take(i + 1).drop_last() =~= es.take(i as int));
        assert(es.take(i + 1).last() == es[i as int]);
        let ghost before = steps@.map_values(|s: String| s@);
        if is_session_name(name.as_str()) {
            let base = base_of(name);
            if !config.contains_profile(base.as_str()) {
                assert(has_orphan_session(es, es));
            }
            let p = config.get_profile(base.as_str());
            if p.source_profile.is_some() {
                steps.push(base);
                assert(steps@.map_values(|s: String| s@) =~= before.push(session_base(name@)));
            }
        }
        i = i + 1;
    }
    assert(es.take(n as int) =~= es);
    steps
}

// ----- show -----

/// The expiration time of the session `name` cannot be read: an
/// `expiration` line of its credentials entry has no ` = `, or what it
/// records is not a date and time that exists.
pub open spec fn unreadable_expiration(credentials: Seq<char>, name: Seq<char>) -> bool {
    match expiration_time(credentials, name) {
        None => true,
        Some(e) => expiry_timestamp(e) is None,
    }
}

/// Some session among the entries `part` has an expiration time that cannot
/// be read.
pub open spec fn has_unreadable_session(part: Seq<EntryView>, credentials: Seq<char>) -> bool {
    exists|i: int| 0 <= i < part.len() && is_session(#[trigger] part[i].0) && unreadable_expiration(credentials, part[i].0)
}

/// Why `show` cannot report on a session.
#[derive(Debug, PartialEq, Eq)]
pub enum ShowFault {
    /// An `expiration` line of the session's credentials entry has no ` = `.
    UnreadableCredentials { session: String },
    /// The session's expiration time is not a date and time that exists.
    UnreadableExpiration { session: String },
}

/// A session whose expiration time cannot be read, if there is one: `None`
/// exactly when `show` may be called.
pub fn show_fault(config: &AWSConfig, credentials: &str) -> (r: Option<ShowFault>)
    ensures
        r is None <==> !has_unreadable_session(config@, credentials@),
        r matches Some(ShowFault::UnreadableCredentials { session }) ==> exists|i: int|
            0 <= i < config@.len() && #[trigger] config@[i].0 == session@ && is_session(session@)
                && expiration_time(credentials@, session@) is None,
        r matches Some(ShowFault::UnreadableExpiration { session }) ==> exists|i: int|
            0 <= i < config@.len() && #[trigger] config@[i].0 == session@ && is_session(session@)
                && expiration_time(credentials@, session@) is Some && expiry_timestamp(
                expiration_time(credentials@, session@).unwrap(),
            ) is None,
{
    let n = config.len();
    let ghost es = config@;
    let mut i: usize = 0;
    while i < n
        invariant
            n == es.len(),
            i <= n,
            config@ == es,
            !has_unreadable_session(es.take(i as int), credentials@),
        decreases n - i,
    {
        let name = config.name_at(i);
        if is_session_name(name.as_str()) {
            if !expiration_is_readable(credentials, name.as_str()) {
                return Some(ShowFault::UnreadableCredentials { session: name.clone() });
            }
            let e = get_expiration_time(credentials, name.as_str());
            if expiry_status(e.as_str(), 0, 0).is_none() {
                return Some(ShowFault::UnreadableExpiration { session: name.clone() });
            }
        }
        proof {
            let t = es.take(i + 1);
            if has_unreadable_session(t, credentials@) {
                let j = choose|j: int| 0 <= j < t.len() && is_session(#[trigger] t[j].0) && unreadable_expiration(credentials@, t[j].0);
                if j < i {
                    assert(es.take(i as int)[j] == t[j]);
                    assert(has_unreadable_session(es.take(i as int), credentials@));
                }
            }
        }
        i = i + 1;
    }
    assert(es.take(n as int) =~= es);
    None
}

/// One line of `show`.
pub struct SessionReport {
    pub name: String,
    /// The session is the one `AWS_DEFAULT_PROFILE` names.
    pub is_default: bool,
    pub state: SessionState,
}

pub type ReportView = (Seq<char>, bool, Option<SessionState>);

impl View for SessionReport {
    type V = ReportView;

    open spec fn view(&self) -> ReportView {
        (self.name@, self.is_default, Some(self.state))
    }
}

/// What `show` reports of the session `name` at the instant `now`; `None`
/// when its expiration time cannot be read.
pub open spec fn report_state(credentials: Seq<char>, name: Seq<char>, now_secs: i64, now_nanos: u32) -> Option<
    SessionState,
> {
    match expiration_time(credentials, name) {
        None => None,
        Some(e) => expiry_state(e, now_secs, now_nanos),
    }
}

/// The report of `show` on the sessions among `es`, in order.
pub open spec fn session_reports(
    es: Seq<EntryView>,
    credentials: Seq<char>,
    default_profile: Seq<char>,
    now_secs: i64,
    now_nanos: u32,
) -> Seq<ReportView>
    decreases es.len(),
{
    if es.len() == 0 {
        Seq::empty()
    } else {
        let prev = session_reports(es.drop_last(), credentials, default_profile, now_secs, now_nanos);
        let name = es.last().0;
        if is_session(name) {
            prev.push((name, name == default_profile, report_state(credentials, name, now_secs, now_nanos)))
        } else {
            prev
        }
    }
}

/// What `show` reports of each session of `config`, given the credentials
/// file, the default profile and the instant `now`, where the expiration
/// time of every session can be read.
pub fn show(
    config: &AWSConfig,
    credentials: &str,
    default_profile: &str,
    now_secs: i64,
    now_nanos: u32,
) -> (r: Vec<SessionReport>)
    requires
        !has_unreadable_session(config@, credentials@),
    ensures
        r@.map_values(|s: SessionReport| s@) == session_reports(
            config@,
            credentials@,
            default_profile@,
            now_secs,
            now_nanos,
        ),
{
    let n = config.len();
    let ghost es = config@;
    let default_name = default_profile.to_owned();
    let mut reports: Vec<SessionReport> = Vec::new();
    assert(es.take(0) =~= Seq::<EntryView>::empty());
    assert(reports@.map_values(|s: SessionReport| s@) =~= Seq::<ReportView>::empty());
    let mut i: usize = 0;
    while i < n
        invariant
            n == es.len(),
            i <= n,
            config@ == es,
            !has_unreadable_session(es, credentials@),
            default_name@ == default_profile@,
            reports@.map_values(|s: SessionReport| s@) == session_reports(
                es.take(i as int),
                credentials@,
                default_profile@,
                now_secs,
                now_nanos,
            ),
        decreases n - i,
    {
        let name = config.name_at(i);
        assert(es.take(i + 1).drop_last() =~= es.take(i as int));
        assert(es.take(i + 1).last() == es[i as int]);
        let ghost before = reports@.map_values(|s: SessionReport| s@);
        if is_session_name(name.as_str()) {
            assert(!unreadable_expiration(credentials@, es[i as int].0));
            let e = get_expiration_time(credentials, name.as_str());
            let state = match expiry_status(e.as_str(), now_secs, now_nanos) {
                Some(st) => st,
                None => {
                    assert(false);
                    SessionState::Expired
                },
            };
            let is_default = *name == default_name;
            reports.push(SessionReport { name: name.clone(), is_default, state });
            assert(reports@.map_values(|s: SessionReport| s@) =~= before.push(
                (name@, name@ == default_profile@, report_state(credentials@, name@, now_secs, now_nanos)),
            ));
        }
        i = i + 1;
    }
    assert(es.take(n as int) =~= es);
    reports
}

/// Reads the clock and reports on each session of `config` at that instant,
/// where the expiration time of every session can be read; returns the
/// instant too.
pub fn show_now(config: &AWSConfig, credentials: &str, default_profile: &str) -> (r: (i64, u32, Vec<SessionReport>))
    requires
        !has_unreadable_session(config@, credentials@),
    ensures
        r.1 < 1_000_000_000,
        r.2@.map_values(|s: SessionReport| s@) == session_reports(
            config@,
            credentials@,
            default_profile@,
            r.0,
            r.1,
        ),
{
    let (secs, nanos) = utc_now();
    let reports = show(config, credentials, default_profile, secs, nanos);
    (secs, nanos, reports)
}

} // verus!
