use classified::engine::{resolve_found, start, step, Action, Defer, PrincipalError, Stage, Target};
use classified::envelope::{armor, decrypt, seal};
use classified::keyfile::ArmoredKey;
use classified::provision::{
    choose_format, default_mode, parse_mode, target_path, Config, FileDesc, Format,
    KeyResolutionError, Principal,
};

fn desc(key: Option<&str>) -> FileDesc {
    FileDesc {
        key: key.map(|k| k.to_string()),
        encrypted: "a.enc".to_string(),
        mode: default_mode(),
        user: Principal::Id(1000),
        group: Principal::Id(100),
    }
}

fn config(keys: &[&str]) -> Config {
    Config {
        target_dir: "/out".to_string(),
        keys: keys.iter().map(|k| (k.to_string(), format!("{k}.key"))).collect(),
        files: Vec::new(),
    }
}

#[test]
fn default_mode_is_owner_read() {
    assert_eq!(default_mode(), 0o400);
}

#[test]
fn parse_mode_reads_octal() {
    assert_eq!(parse_mode(b"0440"), Some(0o440));
    assert_eq!(parse_mode(b"400"), Some(0o400));
    assert_eq!(parse_mode(b"+7"), Some(7));
    assert_eq!(parse_mode(b"37777777777"), Some(u32::MAX));
    assert_eq!(parse_mode(b"40000000000"), None);
    assert_eq!(parse_mode(b"8"), None);
    assert_eq!(parse_mode(b"0o440"), None);
    assert_eq!(parse_mode(b""), None);
    assert_eq!(parse_mode(b"+"), None);
    assert_eq!(parse_mode(b"-1"), None);
}

#[test]
fn missing_key_name_takes_the_first_key() {
    assert_eq!(config(&["k1", "k2"]).key_index(&desc(None)), Ok(0));
}

#[test]
fn no_keys_fails_resolution() {
    assert_eq!(config(&[]).key_index(&desc(None)), Err(KeyResolutionError::NoKeys));
    assert_eq!(
        config(&[]).key_index(&desc(Some("k1"))),
        Err(KeyResolutionError::NotConfigured)
    );
}

#[test]
fn named_key_is_found_or_refused() {
    let c = config(&["k1", "k2", "k3"]);
    assert_eq!(c.key_index(&desc(Some("k2"))), Ok(1));
    assert_eq!(c.key_index(&desc(Some("k9"))), Err(KeyResolutionError::NotConfigured));
}

#[test]
fn target_paths_join_like_paths() {
    assert_eq!(target_path(b"/out", b"secretA"), b"/out/secretA".to_vec());
    assert_eq!(target_path(b"/out/", b"x"), b"/out/x".to_vec());
    assert_eq!(target_path(b"", b"x"), b"x".to_vec());
    assert_eq!(target_path(b"/out", b"/abs"), b"/abs".to_vec());
}

#[test]
fn json_wins_when_both_formats_parse() {
    assert_eq!(choose_format(true, true), Some(Format::Json));
    assert_eq!(choose_format(true, false), Some(Format::Json));
    assert_eq!(choose_format(false, true), Some(Format::Toml));
    assert_eq!(choose_format(false, false), None);
}

#[test]
fn numeric_principals_resolve_to_themselves() {
    let d = desc(None);
    assert_eq!(d.uid(), Ok(1000));
    assert_eq!(d.gid(), Ok(100));
    assert_eq!(d.target(), Ok(Target { uid: 1000, gid: 100, mode: 0o400 }));
}

#[test]
fn unknown_user_name_is_reported() {
    let mut d = desc(None);
    d.user = Principal::Name("no-such-user-for-sure".to_string());
    assert_eq!(d.uid(), Err(PrincipalError::NoSuchUser));
    d.user = Principal::Id(0);
    d.group = Principal::Name("no-such-group-for-sure".to_string());
    assert_eq!(d.target(), Err(PrincipalError::NoSuchGroup));
}

#[test]
fn steps_run_in_their_one_order() {
    let t = Target { uid: 1001, gid: 50, mode: 0o440 };
    let (mut stage, mut action) = start();
    assert_eq!(action, Action::Create { mode: 0o200 });
    let mut seen = vec![action];
    while stage != Stage::Done {
        let next = step(stage, t, true);
        stage = next.0;
        action = next.1;
        seen.push(action);
    }
    assert_eq!(
        seen,
        vec![
            Action::Create { mode: 0o200 },
            Action::WriteAll,
            Action::SetMode { mode: 0 },
            Action::Chown { uid: 1001, gid: 50 },
            Action::SetMode { mode: 0o440 },
            Action::Wipe,
        ]
    );
    assert_eq!(step(Stage::Done, t, false), (Stage::Done, Action::Nothing));
}

#[test]
fn failure_after_creation_removes_the_file() {
    let t = Target { uid: 1, gid: 1, mode: 0o600 };
    assert_eq!(step(Stage::Fresh, t, false), (Stage::Failed, Action::Wipe));
    for stage in [Stage::Created, Stage::Written, Stage::Locked, Stage::Owned] {
        assert_eq!(step(stage, t, false), (Stage::Failed, Action::RemoveAndWipe));
    }
    assert_eq!(step(Stage::Failed, t, true), (Stage::Failed, Action::Nothing));
}

#[test]
fn guard_is_armed_until_defused() {
    let mut guard = Defer::new();
    assert!(guard.pending());
    guard.defuse();
    assert!(!guard.pending());
}

#[test]
fn end_to_end_decisions_for_one_secret() {
    let k1 = ArmoredKey::new((0..32u8).collect());
    let armored = armor(&seal(&k1, b"hello"));
    let mut c = config(&["k1"]);
    let d = FileDesc {
        key: None,
        encrypted: "a.enc".to_string(),
        mode: parse_mode(b"0440").unwrap(),
        user: Principal::Id(1001),
        group: Principal::Id(50),
    };
    assert_eq!(c.key_index(&d), Ok(0));
    assert_eq!(decrypt(&k1, &armored).unwrap(), b"hello".to_vec());
    assert_eq!(target_path(c.target_dir.as_bytes(), b"secretA"), b"/out/secretA".to_vec());
    let t = d.target().unwrap();
    assert_eq!(t.mode, 0o440);
    let (s1, _) = step(Stage::Fresh, t, true);
    let (s2, _) = step(s1, t, true);
    let (s3, a3) = step(s2, t, true);
    assert_eq!(a3, Action::Chown { uid: 1001, gid: 50 });
    let (_, a4) = step(s3, t, true);
    assert_eq!(a4, Action::SetMode { mode: 0o440 });
    c.files.push(("secretA".to_string(), d));
    assert_eq!(c.files.len(), 1);
}

#[test]
fn batch_key_resolution_stops_at_the_first_failure() {
    let mut c = config(&["k1", "k2"]);
    c.files.push(("a".to_string(), desc(Some("k2"))));
    c.files.push(("b".to_string(), desc(None)));
    assert_eq!(c.key_indices(), Ok(vec![1, 0]));
    c.files.push(("c".to_string(), desc(Some("k9"))));
    c.files.push(("d".to_string(), desc(Some("k8"))));
    assert_eq!(c.key_indices(), Err((2, KeyResolutionError::NotConfigured)));
    let empty = config(&[]);
    assert_eq!(empty.key_indices(), Ok(vec![]));
}

#[test]
fn lookup_outcomes_map_to_results() {
    assert_eq!(resolve_found(Some(Some(42)), PrincipalError::NoSuchUser), Ok(42));
    assert_eq!(resolve_found(Some(None), PrincipalError::NoSuchUser), Err(PrincipalError::NoSuchUser));
    assert_eq!(resolve_found(Some(None), PrincipalError::NoSuchGroup), Err(PrincipalError::NoSuchGroup));
    assert_eq!(resolve_found(None, PrincipalError::NoSuchGroup), Err(PrincipalError::LookupFailed));
}

#[test]
fn root_user_resolves_to_zero() {
    let mut d = desc(None);
    d.user = Principal::Name("root".to_string());
    assert_eq!(d.uid(), Ok(0));
    d.group = Principal::Id(7);
    assert_eq!(d.target(), Ok(Target { uid: 0, gid: 7, mode: 0o400 }));
}
