use bluenine::config::{
    append_profile, config_is_readable, load_config, split_config_file, AWSConfig, AWSProfile,
};

const SAMPLE: &str = "[default]\nregion = eu-west-1\noutput = json\n\n[profile central]\nregion = us-east-1\nmfa_serial = arn:aws:iam::111:mfa/me\n\n[profile dev]\nsource_profile = central\nrole_arn = arn:aws:iam::222:role/Admin\n\n";

#[test]
fn load_reads_every_profile_in_file_order() {
    let cfg = load_config(SAMPLE);
    assert_eq!(cfg.len(), 3);
    assert_eq!(cfg.name_at(0).as_str(), "[default]");
    assert_eq!(cfg.name_at(1).as_str(), "central");
    assert_eq!(cfg.name_at(2).as_str(), "dev");
    let d = cfg.profile_at(0);
    assert_eq!(d.region.as_deref(), Some("eu-west-1"));
    assert_eq!(d.output.as_deref(), Some("json"));
    assert_eq!(d.source_profile, None);
    let c = cfg.get_profile("central");
    assert_eq!(c.mfa_serial.as_deref(), Some("arn:aws:iam::111:mfa/me"));
    let dev = cfg.get_profile("dev");
    assert_eq!(dev.source_profile.as_deref(), Some("central"));
    assert_eq!(dev.role_arn.as_deref(), Some("arn:aws:iam::222:role/Admin"));
    assert_eq!(dev.region, None);
}

#[test]
fn contains_profile_uses_exact_names() {
    let cfg = load_config(SAMPLE);
    assert!(cfg.contains_profile("central"));
    assert!(cfg.contains_profile("[default]"));
    assert!(!cfg.contains_profile("default"));
    assert!(!cfg.contains_profile("dev-session"));
}

#[test]
fn last_section_needs_no_blank_line() {
    let cfg = load_config("[profile a]\nregion = x\n\n[profile b]\nregion = y\n");
    assert_eq!(cfg.len(), 2);
    assert_eq!(cfg.name_at(1).as_str(), "b");
    assert_eq!(cfg.profile_at(1).region.as_deref(), Some("y"));
    let one = load_config("[profile a]\nregion = x");
    assert_eq!(one.len(), 1);
    assert_eq!(one.profile_at(0).region.as_deref(), Some("x"));
    assert_eq!(load_config("[profile a]\nregion = x\n\n\n\n").len(), 1);
}

#[test]
fn settings_line_without_separator_is_refused() {
    assert!(!config_is_readable("[profile a]\nregion\n\n"));
    assert!(!config_is_readable("[profile a]\n\n\nregion\n\n"));
    assert!(!config_is_readable("[profile a]\nregion=eu-west-1\n\n"));
    assert!(config_is_readable("[profile a]\nregion = x\n\n\n"));
    assert_eq!(load_config("[profile a]\nregion = x\n\n\n").len(), 1);
}

#[test]
fn unknown_keys_are_ignored_and_later_lines_win() {
    let cfg = load_config("[profile a]\ncolor = blue\nregion = x\nregion = y\n\n");
    assert_eq!(cfg.len(), 1);
    assert_eq!(cfg.profile_at(0).region.as_deref(), Some("y"));
}

#[test]
fn repeated_profile_replaces_settings_in_place() {
    let cfg = load_config("[profile a]\nregion = x\n\n[profile b]\n\n[profile a]\noutput = text\n\n");
    assert_eq!(cfg.len(), 2);
    assert_eq!(cfg.name_at(0).as_str(), "a");
    assert_eq!(cfg.profile_at(0).region, None);
    assert_eq!(cfg.profile_at(0).output.as_deref(), Some("text"));
}

#[test]
fn header_name_is_second_word_without_last_char_trimmed() {
    let cfg = load_config("[profile x ]\n\n[profile y\t]\n\n[profile ]\n\n  [odd]  \n\n\t[solo]\t\n\n");
    assert_eq!(cfg.len(), 2);
    assert_eq!(cfg.name_at(0).as_str(), "y");
    assert_eq!(cfg.name_at(1).as_str(), "[solo]");
}

#[test]
fn save_writes_profiles_in_order() {
    let cfg = load_config(SAMPLE);
    assert_eq!(
        cfg.save(),
        "[default]\nregion = eu-west-1\noutput = json\n\n[profile central]\nregion = us-east-1\nmfa_serial = arn:aws:iam::111:mfa/me\n\n[profile dev]\nsource_profile = central\nrole_arn = arn:aws:iam::222:role/Admin\n\n"
    );
}

#[test]
fn save_then_load_gives_same_profiles() {
    let cfg = load_config(SAMPLE);
    let again = load_config(&cfg.save());
    assert_eq!(again.len(), cfg.len());
    for i in 0..cfg.len() {
        assert_eq!(again.name_at(i), cfg.name_at(i));
        assert_eq!(again.profile_at(i).region, cfg.profile_at(i).region);
        assert_eq!(again.profile_at(i).output, cfg.profile_at(i).output);
        assert_eq!(again.profile_at(i).source_profile, cfg.profile_at(i).source_profile);
        assert_eq!(again.profile_at(i).role_arn, cfg.profile_at(i).role_arn);
        assert_eq!(again.profile_at(i).mfa_serial, cfg.profile_at(i).mfa_serial);
    }
}

#[test]
fn insert_and_remove_keep_names_distinct() {
    let mut cfg = AWSConfig::new();
    let mut p = AWSProfile::new();
    p.region = Some("r1".to_string());
    cfg.insert("a".to_string(), p);
    cfg.insert("b".to_string(), AWSProfile::new());
    let mut q = AWSProfile::new();
    q.region = Some("r2".to_string());
    cfg.insert("a".to_string(), q);
    assert_eq!(cfg.len(), 2);
    assert_eq!(cfg.profile_at(0).region.as_deref(), Some("r2"));
    cfg.remove("a");
    assert_eq!(cfg.len(), 1);
    assert!(!cfg.contains_profile("a"));
    cfg.remove("zzz");
    assert_eq!(cfg.len(), 1);
}

#[test]
fn append_profile_writes_default_header_bare() {
    let mut out = String::from("x");
    let mut p = AWSProfile::new();
    p.mfa_serial = Some("m".to_string());
    append_profile(&mut out, &"[default]".to_string(), &p);
    assert_eq!(out, "x[default]\nmfa_serial = m\n\n");
    let copy = p.copy();
    assert_eq!(copy.mfa_serial.as_deref(), Some("m"));
}

#[test]
fn split_config_file_keeps_last_section() {
    assert_eq!(split_config_file("[default]\nregion = us-east-1\n"), vec!["[default]\nregion = us-east-1".to_string()]);
    assert_eq!(split_config_file("a\n\nb\n\n"), vec!["a".to_string(), "b".to_string()]);
    assert_eq!(split_config_file("a\n\n\n"), vec!["a".to_string()]);
    assert_eq!(split_config_file(""), Vec::<String>::new());
    let chunks = vec!["[a]\nx = 1".to_string(), "".to_string(), "[b]".to_string()];
    let joined: String = chunks.iter().map(|c| format!("{}\n\n", c)).collect();
    assert_eq!(split_config_file(&joined), chunks);
}
