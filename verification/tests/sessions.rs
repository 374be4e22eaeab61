use bluenine::config::load_config;
use bluenine::credentials::remove_credentials;
use bluenine::expiry::{expiry_status, read_expiration, time_left, SessionState};
use bluenine::numbers::{parse_i32, parse_u32};
use bluenine::session_handler::{
    clean_all_profiles, clean_profile, create, create_fault, is_session_name, refresh_all_profiles,
    refresh_fault, remove_all_credentials, show, show_fault, CreateFault, CreatePlan, ShowFault,
};
use bluenine::text::{chars_of, is_whitespace, split_ranges, trim_end_range};

const CONFIG: &str = "[default]\nregion = eu-west-1\n\n[profile central]\nmfa_serial = arn:aws:iam::111:mfa/me\n\n[profile central-session]\nregion = us-east-1\n\n[profile dev]\nsource_profile = central\nrole_arn = arn:aws:iam::222:role/Admin\nregion = eu-west-1\n\n[profile dev-session]\nregion = eu-west-1\n\n[profile qa]\nsource_profile = central\nrole_arn = nowhere\n\n[profile plain]\noutput = json\n\n[profile orphan-session]\n\n";

const CREDS: &str = "[central-session]\nexpiration = 2018-01-01T12:00:00Z\n\n[dev-session]\nexpiration = 2018-01-01T10:00:00Z\n\n";

// 2018-01-01T12:00:00Z
const NOON: i64 = 1514808000;

#[test]
fn create_reports_existing_session() {
    let cfg = load_config(CONFIG);
    assert_eq!(create(&cfg, "dev"), CreatePlan::AlreadyExists { session: "dev-session".to_string() });
}

#[test]
fn create_asks_for_mfa_token_on_source_profile() {
    let cfg = load_config(CONFIG);
    let cfg2 = {
        let mut c = load_config(CONFIG);
        c.remove("central-session");
        c
    };
    assert_eq!(
        create(&cfg2, "central"),
        CreatePlan::SessionToken { mfa_serial: "arn:aws:iam::111:mfa/me".to_string() }
    );
    assert_eq!(create(&cfg, "plain"), CreatePlan::NothingToDo);
    assert_eq!(create_fault(&cfg, "missing"), Some(CreateFault::MissingProfile));
    assert_eq!(create_fault(&cfg, "plain"), None);
}

#[test]
fn create_assumes_role_with_source_session() {
    let mut cfg = load_config(CONFIG);
    cfg.remove("dev-session");
    assert_eq!(
        create(&cfg, "dev"),
        CreatePlan::AssumeRole {
            source_session: "central-session".to_string(),
            role_arn: "arn:aws:iam::222:role/Admin".to_string(),
            role_session_name: "Admin".to_string(),
        }
    );
    assert_eq!(create_fault(&cfg, "qa"), Some(CreateFault::RoleArnWithoutName));
    assert_eq!(create_fault(&cfg, "dev"), None);
}

#[test]
fn create_creates_source_session_first() {
    let mut cfg = load_config(CONFIG);
    cfg.remove("dev-session");
    cfg.remove("central-session");
    assert_eq!(create(&cfg, "dev"), CreatePlan::CreateSourceFirst { source_profile: "central".to_string() });
    let cfg2 = load_config("[profile a]\nsource_profile = b\n\n[profile b-session]\n\n");
    assert_eq!(create_fault(&cfg2, "a"), Some(CreateFault::MissingRoleArn));
}

#[test]
fn clean_profile_removes_session_and_rewrites_config() {
    let mut cfg = load_config(CONFIG);
    let (session, text) = clean_profile(&mut cfg, "dev").unwrap();
    assert_eq!(session, "dev-session");
    assert!(!cfg.contains_profile("dev-session"));
    assert!(!text.contains("dev-session"));
    let reloaded = load_config(&text);
    assert_eq!(reloaded.len(), 7);
    assert!(clean_profile(&mut cfg, "dev").is_none());
    assert!(clean_profile(&mut cfg, "plain").is_none());
    assert_eq!(remove_credentials(CREDS, &session), "[central-session]\nexpiration = 2018-01-01T12:00:00Z\n\n");
}

#[test]
fn clean_all_removes_every_session() {
    let mut cfg = load_config(CONFIG);
    let (sessions, text) = clean_all_profiles(&mut cfg);
    assert_eq!(sessions, vec!["central-session".to_string(), "dev-session".to_string(), "orphan-session".to_string()]);
    assert_eq!(cfg.len(), 5);
    for i in 0..cfg.len() {
        assert!(!is_session_name(cfg.name_at(i)));
    }
    assert!(!text.contains("-session"));
    assert_eq!(remove_all_credentials(CREDS, &sessions), "");
}

const CONFIG_NO_ORPHAN: &str = "[default]\nregion = eu-west-1\n\n[profile central]\nmfa_serial = arn:aws:iam::111:mfa/me\n\n[profile central-session]\nregion = us-east-1\n\n[profile dev]\nsource_profile = central\nrole_arn = arn:aws:iam::222:role/Admin\nregion = eu-west-1\n\n[profile dev-session]\nregion = eu-west-1\n\n";

#[test]
fn refresh_renews_sessions_of_child_profiles() {
    let cfg = load_config(CONFIG);
    assert_eq!(refresh_fault(&cfg), Some("orphan".to_string()));
    let cfg = load_config(CONFIG_NO_ORPHAN);
    assert_eq!(refresh_fault(&cfg), None);
    assert_eq!(refresh_all_profiles(&cfg), vec!["dev".to_string()]);
}

#[test]
fn show_reports_time_left_for_each_session() {
    let cfg = load_config(CONFIG);
    assert_eq!(show_fault(&cfg, CREDS), Some(ShowFault::UnreadableExpiration { session: "orphan-session".to_string() }));
    let cfg = load_config(CONFIG_NO_ORPHAN);
    assert_eq!(show_fault(&cfg, CREDS), None);
    let reports = show(&cfg, CREDS, "dev-session", NOON - 3723, 0);
    assert_eq!(reports.len(), 2);
    assert_eq!(reports[0].name, "central-session");
    assert!(!reports[0].is_default);
    assert_eq!(reports[0].state, SessionState::Active { hours: 1, minutes: 2, seconds: 3 });
    assert_eq!(reports[1].name, "dev-session");
    assert!(reports[1].is_default);
    assert_eq!(reports[1].state, SessionState::Expired);
}

#[test]
fn show_reports_unreadable_credentials() {
    let cfg = load_config("[profile a-session]\n\n");
    assert_eq!(
        show_fault(&cfg, "[a-session]\nexpiration\n\n"),
        Some(ShowFault::UnreadableCredentials { session: "a-session".to_string() })
    );
    assert_eq!(
        show_fault(&cfg, "[a-session]\nexpiration = 2018-02-30T12:00:00Z\n\n"),
        Some(ShowFault::UnreadableExpiration { session: "a-session".to_string() })
    );
}

#[test]
fn time_left_counts_whole_seconds_toward_zero() {
    assert_eq!(time_left(NOON, NOON, 0), SessionState::Active { hours: 0, minutes: 0, seconds: 0 });
    assert_eq!(time_left(NOON, NOON, 1), SessionState::Expired);
    assert_eq!(time_left(NOON, NOON - 1, 1), SessionState::Active { hours: 0, minutes: 0, seconds: 0 });
    assert_eq!(time_left(NOON + 90061, NOON, 0), SessionState::Active { hours: 1, minutes: 1, seconds: 1 });
    assert_eq!(time_left(NOON - 1, NOON, 0), SessionState::Expired);
}

#[test]
fn expiration_text_reads_as_utc_timestamp() {
    assert_eq!(read_expiration("2018-01-01T12:00:00Z"), Some((2018, 1, 1, 12, 0, 0)));
    assert_eq!(expiry_status("2018-01-01T12:00:00Z", NOON - 60, 0), Some(SessionState::Active { hours: 0, minutes: 1, seconds: 0 }));
    assert_eq!(expiry_status("1970-01-01T00:00:10Z", 0, 0), Some(SessionState::Active { hours: 0, minutes: 0, seconds: 10 }));
    assert_eq!(expiry_status("2018-02-30T12:00:00Z", 0, 0), None);
    assert_eq!(expiry_status("2018-01-01T24:00:00Z", 0, 0), None);
    assert_eq!(expiry_status("", 0, 0), None);
    assert_eq!(read_expiration("2018-01-01"), None);
    assert_eq!(read_expiration("2018-01T12:00:00Z"), None);
    assert_eq!(read_expiration("+2018-+01-01T12:00:00Z"), Some((2018, 1, 1, 12, 0, 0)));
}

#[test]
fn expiration_follows_the_gregorian_calendar() {
    // 2000-03-01T00:00:00Z and 2016-02-29T00:00:00Z
    let active = Some(SessionState::Active { hours: 0, minutes: 0, seconds: 0 });
    assert_eq!(expiry_status("2000-03-01T00:00:00Z", 951868800, 0), active);
    assert_eq!(expiry_status("2016-02-29T00:00:00Z", 1456704000, 0), active);
    assert_eq!(expiry_status("2000-02-29T00:00:00Z", 951782400, 0), active);
    assert_eq!(expiry_status("2100-02-29T00:00:00Z", 0, 0), None);
    assert_eq!(expiry_status("2018-04-31T00:00:00Z", 0, 0), None);
    assert_eq!(expiry_status("2018-00-10T00:00:00Z", 0, 0), None);
    assert_eq!(expiry_status("2018-01-00T00:00:00Z", 0, 0), None);
    assert_eq!(expiry_status("2018-12-31T23:59:60Z", 0, 0), None);
    assert_eq!(expiry_status("262143-01-01T00:00:00Z", 0, 0), None);
    assert_eq!(expiry_status("1969-12-31T23:59:59Z", -1, 0), active);
}

#[test]
fn numbers_parse_as_str_parse_does() {
    let s = chars_of("+42");
    assert_eq!(parse_u32(&s, 0, s.len()), Some(42));
    let s = chars_of("-0");
    assert_eq!(parse_u32(&s, 0, s.len()), None);
    assert_eq!(parse_i32(&s, 0, s.len()), Some(0));
    let s = chars_of("4294967295");
    assert_eq!(parse_u32(&s, 0, s.len()), Some(4294967295));
    let s = chars_of("4294967296");
    assert_eq!(parse_u32(&s, 0, s.len()), None);
    let s = chars_of("-2147483648");
    assert_eq!(parse_i32(&s, 0, s.len()), Some(-2147483648));
    let s = chars_of("2147483648");
    assert_eq!(parse_i32(&s, 0, s.len()), None);
    let s = chars_of("+");
    assert_eq!(parse_u32(&s, 0, s.len()), None);
    let s = chars_of("1a");
    assert_eq!(parse_u32(&s, 0, s.len()), None);
    for t in ["", "+", "-", "12", "x", "+7", "-7", "99999999999"] {
        let s = chars_of(t);
        assert_eq!(parse_u32(&s, 0, s.len()), t.parse::<u32>().ok());
        assert_eq!(parse_i32(&s, 0, s.len()), t.parse::<i32>().ok());
    }
}

#[test]
fn text_helpers_follow_std() {
    for c in [' ', '\t', '\n', '\u{85}', '\u{a0}', '\u{2003}', '\u{3000}', 'a', '\u{200b}', '_'] {
        assert_eq!(is_whitespace(c), c.is_whitespace());
    }
    let s = chars_of("ab  \t");
    assert_eq!(trim_end_range(&s, 0, s.len()), 2);
    let s = chars_of("a\n\n\nb\n\nc");
    let sep = chars_of("\n\n");
    let parts = split_ranges(&s, 0, s.len(), &sep);
    let got: Vec<String> = parts.iter().map(|(a, b)| s[*a..*b].iter().collect()).collect();
    let want: Vec<String> = "a\n\n\nb\n\nc".split("\n\n").map(|x| x.to_string()).collect();
    assert_eq!(got, want);
    assert!(is_session_name("x-session-y"));
    assert!(!is_session_name("x-sessio"));
}
