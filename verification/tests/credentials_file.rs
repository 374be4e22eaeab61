use bluenine::credentials::{
    expiration_is_readable, get_expiration_time, remove_credentials, save_credentials, save_profile, SessionCredentials,
};
use bluenine::config::{load_config, AWSProfile};

const CREDS: &str = "[central]\naws_access_key_id = AK\naws_secret_access_key = SK\n\n[central-session]\naws_access_key_id = AK2\nexpiration = 2018-01-01T12:00:00Z\naws_secret_access_key = SK2\naws_session_token = TK\n\n";

fn creds(exp: &str) -> SessionCredentials {
    SessionCredentials {
        access_key_id: "A".to_string(),
        expiration: exp.to_string(),
        secret_access_key: "S".to_string(),
        session_token: "T".to_string(),
    }
}

#[test]
fn save_credentials_writes_session_entry() {
    assert_eq!(
        save_credentials("dev", &creds("2020-05-05T05:05:05Z")),
        "[dev-session]\naws_access_key_id = A\nexpiration = 2020-05-05T05:05:05Z\naws_secret_access_key = S\naws_session_token = T\n\n"
    );
}

#[test]
fn save_profile_uses_region_or_default_region() {
    let mut p = AWSProfile::new();
    assert_eq!(save_profile("dev", &p), "[profile dev-session]\nregion = us-east-1\n\n");
    p.region = Some("eu-west-1".to_string());
    assert_eq!(save_profile("dev", &p), "[profile dev-session]\nregion = eu-west-1\n\n");
}

#[test]
fn saved_session_profile_loads_back() {
    let mut p = AWSProfile::new();
    p.region = Some("eu-west-1".to_string());
    let text = format!("[profile dev]\nsource_profile = central\n\n{}", save_profile("dev", &p));
    let cfg = load_config(&text);
    assert!(cfg.contains_profile("dev-session"));
    assert_eq!(cfg.get_profile("dev-session").region.as_deref(), Some("eu-west-1"));
}

#[test]
fn expiration_is_read_from_matching_entry() {
    assert_eq!(get_expiration_time(CREDS, "central-session"), "2018-01-01T12:00:00Z");
    assert_eq!(get_expiration_time(CREDS, "central"), "");
    assert_eq!(get_expiration_time(CREDS, "other"), "");
    assert_eq!(get_expiration_time("", "x"), "");
}

#[test]
fn expiration_line_without_value_is_refused() {
    assert!(!expiration_is_readable("[x]\nexpiration\n\n", "x"));
    assert!(expiration_is_readable("[y]\nexpiration\n\n", "x"));
    assert_eq!(get_expiration_time("[y]\nexpiration\n\n", "x"), "");
}

#[test]
fn written_expiration_reads_back() {
    let text = format!("{}{}", CREDS, save_credentials("dev", &creds("2030-01-01T00:00:00Z")));
    assert_eq!(get_expiration_time(&text, "dev-session"), "2030-01-01T00:00:00Z");
    assert_eq!(get_expiration_time(&text, "central-session"), "2018-01-01T12:00:00Z");
}

#[test]
fn remove_credentials_drops_only_matching_entries() {
    let out = remove_credentials(CREDS, "central-session");
    assert_eq!(out, "[central]\naws_access_key_id = AK\naws_secret_access_key = SK\n\n");
    assert_eq!(get_expiration_time(&out, "central-session"), "");
    let same = remove_credentials(CREDS, "nobody");
    assert_eq!(same, CREDS);
}

#[test]
fn remove_credentials_keeps_last_section_without_blank_line() {
    assert_eq!(remove_credentials("[a]\nk = v\n\n[b]\nk = w", "zz"), "[a]\nk = v\n\n[b]\nk = w\n\n");
    assert_eq!(remove_credentials("[a]\nx = 1\n\n[b]\ny = 2\n", "a"), "[b]\ny = 2\n\n");
    assert_eq!(get_expiration_time("[s]\nexpiration = E\n", "s"), "E");
}

#[test]
fn removing_just_appended_entry_gives_file_back() {
    let text = "[a]\nx = 1\n\n[b]\ny = 2\n\n";
    let more = format!("{}{}", text, save_credentials("dev", &creds("2030-01-01T00:00:00Z")));
    assert_eq!(remove_credentials(&more, "dev-session"), text);
}
