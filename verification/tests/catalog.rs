use formwork::blueprint::{Blueprint, EnvPosture, EnvScrub, ExecPosture, ReadMode};
use formwork::catalog::{Catalog, ResolvedCatalog, BACKSTOP};
use formwork::discovery::{reverse_compile, synthesize_blueprint, AccessRecord, CandidateTag, DenialAccess, DenialRecord};
use formwork::launcher::construct_env;
use formwork::layer::{BlueprintLayer, FsLayer};
use formwork::path::PathPattern;
use formwork::provenance::{merge_with_provenance, RuleSource, Verdict};

fn pp(s: &str) -> PathPattern {
    PathPattern::parse(s).unwrap()
}

fn catalog() -> ResolvedCatalog {
    ResolvedCatalog::builtin_for_home("/home/x").unwrap()
}

// ---------------------------------------------------------------------------------------------
// The credential catalog

#[test]
fn builtin_catalog_parses_and_resolves() {
    let catalog = Catalog::builtin();
    assert_eq!(catalog.version, 1);
    for t in ["aws", "gcp", "ssh", "anthropic", "slack", "github", "docker", "npm", "kube"] {
        assert!(catalog.types.contains_key(t), "missing curated type {t}");
    }
    let resolved = catalog.resolve("/home/x").unwrap();
    assert!(resolved.types.get("aws").unwrap().paths.contains(&pp("/home/x/.aws/**")));
    assert!(resolved.types.get("dotenv").unwrap().paths.contains(&pp("**/.env.production")));
    assert!(resolved.backstop.contains(&pp("**/credentials")));
    assert!(resolved.types.get("secrets-mount").unwrap().paths.contains(&pp("/run/secrets/**")));
}

#[test]
fn env_file_refs_are_a_subset_of_envs() {
    let c = Catalog::builtin();
    for i in 0..c.types.len() {
        let (name, entry) = (c.types.key(i), c.types.value(i));
        for var in &entry.env_file_refs {
            assert!(entry.envs.contains(var), "{name}: env-file-ref {var} must also be listed in envs");
        }
    }
}

#[test]
fn every_type_contributes_at_least_one_location() {
    let c = Catalog::builtin();
    for i in 0..c.types.len() {
        let (name, entry) = (c.types.key(i), c.types.value(i));
        assert!(!entry.paths.is_empty() || !entry.envs.is_empty(), "{name} has neither paths nor envs");
    }
}

#[test]
fn exclusion_lifts_exactly_the_named_type() {
    let resolved = catalog();
    let aws_path = pp("/home/x/.aws/**");
    let ssh_path = pp("/home/x/.ssh/**");
    let denied_default = resolved.denied_paths(&vec![]);
    assert!(denied_default.contains(&aws_path));
    assert!(denied_default.contains(&ssh_path));
    let denied_allow_aws = resolved.denied_paths(&vec!["aws".to_string()]);
    assert!(!denied_allow_aws.contains(&aws_path), "aws must be lifted");
    assert!(denied_allow_aws.contains(&ssh_path), "ssh must stay denied");
}

#[test]
fn backstop_lifts_only_by_its_own_name() {
    let resolved = catalog();
    let novel = pp("**/credentials");
    assert!(resolved.denied_paths(&vec!["aws".into()]).contains(&novel));
    assert!(!resolved.denied_paths(&vec![BACKSTOP.to_string()]).contains(&novel));
}

#[test]
fn floor_type_of_matches_paths_under_catalog_patterns() {
    let resolved = catalog();
    let probe = pp("/home/x/.ssh/id_ed25519");
    assert_eq!(resolved.floor_type_of(&vec![], &probe).as_deref(), Some("ssh"));
    assert_eq!(resolved.floor_type_of(&vec!["ssh".to_string()], &probe), None);
    let ordinary = pp("/home/x/project/main.rs");
    assert_eq!(resolved.floor_type_of(&vec![], &ordinary), None);
}

#[test]
fn backstop_covers_credential_shapes_everywhere() {
    let resolved = catalog();
    let foreign = pp("/some/other/home/.ssh/id_ed25519");
    assert_eq!(resolved.floor_type_of(&vec![], &foreign).as_deref(), Some("backstop"));
    let denied = resolved.denied_paths(&vec![]);
    assert!(denied.iter().any(|p| p.matches_path("/some/other/home/.ssh/id_ed25519")));
    assert_eq!(resolved.floor_type_of(&vec![BACKSTOP.to_string()], &foreign), None);
}

#[test]
fn catalog_floor_covers_the_core_sensitive_locations() {
    const CORE_LOCATIONS: &[&str] = &[
        "/home/x/.ssh/**",
        "/home/x/.gnupg/**",
        "/home/x/.aws/**",
        "/home/x/.config/gcloud/**",
        "/home/x/.azure/**",
        "/home/x/.kube/**",
        "/home/x/.docker/**",
        "/home/x/.netrc",
        "/home/x/.npmrc",
        "/home/x/.pypirc",
        "/home/x/.config/gh/**",
        "/home/x/.git-credentials",
        "/home/x/.codex/**",
        "/home/x/.gemini/**",
        "/home/x/.cursor/**",
        "/home/x/Library/Keychains/**",
        "/Library/Keychains/**",
        "/etc/shadow",
        "/etc/sudoers",
        "**/.env",
    ];
    let resolved = catalog();
    let denied: Vec<String> = resolved.denied_paths(&vec![]).iter().map(|p| p.canonical()).collect();
    let missing: Vec<&&str> = CORE_LOCATIONS.iter().filter(|loc| !denied.iter().any(|d| d == **loc)).collect();
    assert!(missing.is_empty(), "core sensitive locations fell out of the catalog floor: {missing:?}");
}

#[test]
fn catalog_floor_strips_the_core_env_credentials() {
    const CORE_ENV_STRIPS: &[&str] =
        &["AWS_SECRET_ACCESS_KEY", "GOOGLE_APPLICATION_CREDENTIALS", "GITHUB_TOKEN", "ANTHROPIC_API_KEY", "SLACK_BOT_TOKEN"];
    let resolved = catalog();
    let enforced = resolved.enforced_types(&vec![]);
    let stripped: Vec<&str> = enforced.iter().flat_map(|(_, e)| e.envs.iter().map(String::as_str)).collect();
    let missing: Vec<&&str> = CORE_ENV_STRIPS.iter().filter(|v| !stripped.contains(*v)).collect();
    assert!(missing.is_empty(), "core env credentials fell out of the catalog floor: {missing:?}");
}

#[test]
fn catalog_is_versioned_and_non_trivial() {
    let catalog = Catalog::builtin();
    assert!(catalog.version >= 1);
    assert!(catalog.types.len() >= 15, "catalog looks unexpectedly small: {} types", catalog.types.len());
}

#[test]
fn type_names_and_known_types_agree() {
    let c = Catalog::builtin();
    let names = c.type_names();
    assert!(names.contains(&"ssh".to_string()));
    assert!(c.is_known_type("ssh"));
    assert!(c.is_known_type(BACKSTOP));
    assert!(!c.is_known_type("no-such-type"));
}

#[test]
fn empty_catalog_floors_nothing() {
    let c = ResolvedCatalog::empty_no_floor();
    assert!(c.denied_paths(&vec![]).is_empty());
    assert_eq!(c.floor_type_of(&vec![], &pp("/home/x/.ssh/id_rsa")), None);
}

// ---------------------------------------------------------------------------------------------
// Reverse compilation

fn read(path: &str) -> DenialRecord {
    DenialRecord { path: path.to_string(), access: DenialAccess::Read }
}

fn write(path: &str) -> AccessRecord {
    AccessRecord { path: path.to_string(), access: DenialAccess::Write }
}

#[test]
fn synthesize_yields_a_closed_blueprint_with_credentials_withheld() {
    let records = vec![read("/home/x/.ssh/id_ed25519"), read("/opt/toolchain/lib.py")];
    let bp = synthesize_blueprint(&records, &catalog(), &vec![]);
    assert_eq!(bp.fs.read_mode, ReadMode::Closed);
    let reads: Vec<String> = bp.fs.reads.iter().map(|p| p.canonical()).collect();
    assert_eq!(reads, vec!["/opt/toolchain/lib.py"]);
    assert!(bp.fs.writes.is_empty());
    assert!(!reads.iter().any(|r| r.contains(".ssh")));
}

#[test]
fn synthesize_splits_read_and_write_grades() {
    let records = vec![read("/work/in.txt"), write("/work/out.txt")];
    let bp = synthesize_blueprint(&records, &catalog(), &vec![]);
    let reads: Vec<String> = bp.fs.reads.iter().map(|p| p.canonical()).collect();
    let writes: Vec<String> = bp.fs.writes.iter().map(|p| p.canonical()).collect();
    assert_eq!(reads, vec!["/work/in.txt"]);
    assert_eq!(writes, vec!["/work/out.txt"]);
}

#[test]
fn synthesize_folds_observed_siblings_into_a_subtree() {
    let records = vec![read("/opt/tc/a.py"), read("/opt/tc/b.py")];
    let bp = synthesize_blueprint(&records, &catalog(), &vec![]);
    let reads: Vec<String> = bp.fs.reads.iter().map(|p| p.canonical()).collect();
    assert_eq!(reads, vec!["/opt/tc/**"]);
}

#[test]
fn synthesize_carries_the_credential_exclusions() {
    let bp = synthesize_blueprint(&[read("/home/x/.aws/config")], &catalog(), &vec!["aws".to_string()]);
    assert_eq!(bp.allow_credentials, vec!["aws".to_string()]);
    let reads: Vec<String> = bp.fs.reads.iter().map(|p| p.canonical()).collect();
    assert_eq!(reads, vec!["/home/x/.aws/config"]);
}

#[test]
fn catalog_denials_are_withheld_never_candidates() {
    let records: Vec<DenialRecord> = std::iter::repeat_with(|| read("/home/x/.ssh/id_ed25519")).take(50).collect();
    let zone = vec![pp("/home/x/**")];
    let out = reverse_compile(&records, &catalog(), &vec![], &zone);
    assert!(out.candidates.is_empty(), "{:?}", out.candidates);
    assert_eq!(out.withheld.len(), 1, "deduped, then withheld");
    assert_eq!(out.withheld[0].credential_type, "ssh");
}

#[test]
fn zone_splits_auto_accept_from_needs_review() {
    let records = vec![read("/work/project/.cache/a.bin"), read("/opt/toolchain/lib.py")];
    let zone = vec![pp("/work/project/**")];
    let out = reverse_compile(&records, &catalog(), &vec![], &zone);
    let by_tag = |t: CandidateTag| -> Vec<String> {
        out.candidates.iter().filter(|c| c.tag == t).map(|c| c.pattern.canonical()).collect()
    };
    assert_eq!(by_tag(CandidateTag::AutoAccepted), vec!["/work/project/.cache/a.bin"]);
    assert_eq!(by_tag(CandidateTag::NeedsReview), vec!["/opt/toolchain/lib.py"]);
}

#[test]
fn siblings_fold_to_parent_subtree() {
    let records = vec![read("/opt/toolchain/one.py"), read("/opt/toolchain/two.py")];
    let out = reverse_compile(&records, &catalog(), &vec![], &vec![]);
    assert_eq!(out.candidates.len(), 1);
    assert_eq!(out.candidates[0].pattern, pp("/opt/toolchain/**"));
}

#[test]
fn fold_that_would_swallow_a_floor_path_stays_granular() {
    let records = vec![read("/home/x/one.txt"), read("/home/x/two.txt")];
    let out = reverse_compile(&records, &catalog(), &vec![], &vec![]);
    let patterns: Vec<String> = out.candidates.iter().map(|c| c.pattern.canonical()).collect();
    assert_eq!(patterns, vec!["/home/x/one.txt", "/home/x/two.txt"]);
}

#[test]
fn fold_never_re_grants_a_withheld_credential_outside_home() {
    let records = vec![read("/srv/app/id_rsa"), read("/srv/app/a.txt"), read("/srv/app/b.txt")];
    let zone = vec![pp("/srv/app/**")];
    let out = reverse_compile(&records, &catalog(), &vec![], &zone);
    assert_eq!(out.withheld.len(), 1);
    assert_eq!(out.withheld[0].path, "/srv/app/id_rsa");
    assert_eq!(out.withheld[0].credential_type, "backstop");
    let patterns: Vec<String> = out.candidates.iter().map(|c| c.pattern.canonical()).collect();
    assert_eq!(patterns, vec!["/srv/app/a.txt", "/srv/app/b.txt"], "must stay granular");
    assert!(!out.candidates.iter().any(|c| c.pattern.covers(&pp("/srv/app/id_rsa"))));
}

#[test]
fn output_is_deterministic_and_deduped() {
    let records = vec![read("/b/file"), read("/a/file"), read("/b/file")];
    let a = reverse_compile(&records, &catalog(), &vec![], &vec![]);
    let b = reverse_compile(&records, &catalog(), &vec![], &vec![]);
    assert_eq!(a, b);
    assert_eq!(a.candidates.len(), 2);
    assert!(a.candidates[0].pattern.canonical() < a.candidates[1].pattern.canonical());
}

#[test]
fn excluded_type_is_no_longer_floored_for_discovery() {
    let records = vec![read("/home/x/.aws/config"), read("/home/x/.ssh/config")];
    let out = reverse_compile(&records, &catalog(), &vec!["aws".to_string()], &vec![]);
    let patterns: Vec<String> = out.candidates.iter().map(|c| c.pattern.canonical()).collect();
    assert_eq!(patterns, vec!["/home/x/.aws/config"]);
    assert_eq!(out.withheld.len(), 1);
}

#[test]
fn relative_records_are_skipped() {
    let out = reverse_compile(&[read("relative/path")], &catalog(), &vec![], &vec![]);
    assert!(out.candidates.is_empty() && out.withheld.is_empty());
}

// ---------------------------------------------------------------------------------------------
// The launcher's environment

fn vars(pairs: &[(&str, &str)]) -> Vec<(String, String)> {
    pairs.iter().map(|(k, v)| (k.to_string(), v.to_string())).collect()
}

#[test]
fn catalog_vars_are_stripped_even_under_passthrough() {
    let out = construct_env(&EnvPosture::Passthrough, &catalog(), &vec![], vars(&[("AWS_SECRET_ACCESS_KEY", "x"), ("PATH", "/usr/bin")]));
    let kept: Vec<&str> = out.kept.iter().map(|(k, _)| k.as_str()).collect();
    assert_eq!(kept, vec!["PATH"]);
    assert_eq!(out.stripped, vec![("AWS_SECRET_ACCESS_KEY".to_string(), "aws".to_string())]);
}

#[test]
fn allowed_type_survives_strip_and_scrub_shape() {
    let out = construct_env(
        &EnvPosture::Scrub(EnvScrub::default()),
        &catalog(),
        &vec!["aws".to_string()],
        vars(&[("AWS_SECRET_ACCESS_KEY", "k"), ("ANTHROPIC_API_KEY", "sk-1"), ("PATH", "/usr/bin")]),
    );
    let kept: Vec<&str> = out.kept.iter().map(|(k, _)| k.as_str()).collect();
    assert!(kept.contains(&"AWS_SECRET_ACCESS_KEY"), "{kept:?}");
    assert!(kept.contains(&"PATH"));
    assert!(!kept.contains(&"ANTHROPIC_API_KEY"));
    assert!(out.stripped.contains(&("ANTHROPIC_API_KEY".to_string(), "anthropic".to_string())));
}

#[test]
fn explicit_allowlist_posture_is_not_widened() {
    let out = construct_env(
        &EnvPosture::Allowlist(vec!["PATH".to_string()]),
        &catalog(),
        &vec!["aws".to_string()],
        vars(&[("AWS_SECRET_ACCESS_KEY", "k"), ("PATH", "/usr/bin")]),
    );
    let kept: Vec<&str> = out.kept.iter().map(|(k, _)| k.as_str()).collect();
    assert_eq!(kept, vec!["PATH"], "allowlist stays exact");
}

#[test]
fn strip_is_absence_not_empty_value() {
    let out = construct_env(&EnvPosture::Passthrough, &catalog(), &vec![], vars(&[("GITHUB_TOKEN", "t")]));
    assert!(out.kept.is_empty());
    assert!(!out.kept.iter().any(|(k, _)| k == "GITHUB_TOKEN"));
}

// ---------------------------------------------------------------------------------------------
// Provenance and explain

fn layer(fs: FsLayer) -> BlueprintLayer {
    BlueprintLayer { fs, ..Default::default() }
}

#[test]
fn explain_names_the_winning_rule_and_origin() {
    let file = layer(FsLayer { read_mode: Some(ReadMode::Closed), reads: vec![pp("/work/**")], writes: vec![pp("/work/**")], ..Default::default() });
    let cli = layer(FsLayer { subtract: vec![pp("/work/secret")], ..Default::default() });
    let (bp, prov) = merge_with_provenance(&[(RuleSource::File("session.toml".into()), file), (RuleSource::Cli, cli)]);
    let ok = prov.explain(&bp, "/work/main.rs", None);
    assert_eq!(ok.read, Verdict::Granted { rule: "/work/**".into(), source: RuleSource::File("session.toml".into()) });
    assert!(matches!(ok.write, Verdict::Granted { .. }));
    let denied = prov.explain(&bp, "/work/secret", None);
    assert_eq!(denied.read, Verdict::Denied { rule: "/work/secret".into(), source: RuleSource::Cli });
    assert!(matches!(denied.write, Verdict::Denied { .. }));
    assert_eq!(prov.explain(&bp, "/etc/hosts", None).read, Verdict::Hidden);
}

#[test]
fn floor_denies_terminally_as_built_in() {
    let (bp, prov) = merge_with_provenance(&[(
        RuleSource::File("s.toml".into()),
        layer(FsLayer { read_mode: Some(ReadMode::AmbientMinusSubtract), ..Default::default() }),
    )]);
    let e = prov.explain(&bp, "/home/x/.aws/creds", Some("aws".into()));
    assert_eq!(e.read, Verdict::Denied { rule: "credential floor (aws)".into(), source: RuleSource::BuiltIn });
    assert_eq!(prov.explain(&bp, "/usr/bin/x", None).read, Verdict::Ambient);
}

#[test]
fn write_no_create_and_write_subtract_are_distinguished() {
    let (bp, prov) = merge_with_provenance(&[(
        RuleSource::File("s.toml".into()),
        layer(FsLayer {
            read_mode: Some(ReadMode::Closed),
            writes_no_create: vec![pp("/data/**")],
            write_subtract: vec![pp("/data/.git/config")],
            ..Default::default()
        }),
    )]);
    let w = prov.explain(&bp, "/data/app.log", None);
    assert!(matches!(w.read, Verdict::Granted { .. }));
    match w.write {
        Verdict::Granted { rule, .. } => assert!(rule.contains("no create")),
        other => panic!("expected granted-no-create, got {other:?}"),
    }
    let t = prov.explain(&bp, "/data/.git/config", None);
    assert!(matches!(t.read, Verdict::Granted { .. }));
    assert!(matches!(t.write, Verdict::Denied { .. }));
}

#[test]
fn explain_reports_exec_as_a_separate_axis() {
    let with_allowlist = BlueprintLayer {
        exec_posture: Some(ExecPosture::Allowlist(vec![pp("/usr/bin/git")])),
        fs: FsLayer { read_mode: Some(ReadMode::Closed), ..Default::default() },
        ..Default::default()
    };
    let (bp, prov) = merge_with_provenance(&[(RuleSource::File("s.toml".into()), with_allowlist)]);
    let git = prov.explain(&bp, "/usr/bin/git", None);
    assert_eq!(git.execute, Verdict::Granted { rule: "/usr/bin/git".into(), source: RuleSource::File("s.toml".into()) });
    assert_eq!(git.read, Verdict::Hidden, "exec confers execute only, not read");
    assert_eq!(prov.explain(&bp, "/bin/sh", None).execute, Verdict::Hidden);
    let (bp2, prov2) = merge_with_provenance(&[(RuleSource::File("s.toml".into()), layer(FsLayer::default()))]);
    assert_eq!(prov2.explain(&bp2, "/usr/bin/git", None).execute, Verdict::Ambient);
}

#[test]
fn merge_with_provenance_equals_plain_merge() {
    let a = layer(FsLayer { reads: vec![pp("/b/**"), pp("/a")], ..Default::default() });
    let (bp, _) = merge_with_provenance(&[(RuleSource::Cli, a.clone())]);
    assert_eq!(bp, formwork::layer::merge(&[a]));
    let _ = Blueprint::empty();
}

#[test]
fn denied_paths_shrink_as_exclusions_grow() {
    let resolved = catalog();
    let few = resolved.denied_paths(&vec!["aws".to_string()]);
    let more = resolved.denied_paths(&vec!["aws".to_string(), "ssh".to_string(), BACKSTOP.to_string()]);
    assert!(more.len() < few.len());
    for p in &more {
        assert!(few.contains(p), "{p:?}");
    }
    let mut expected: Vec<PathPattern> = Vec::new();
    for (_, entry) in resolved.enforced_types(&vec!["aws".to_string()]) {
        expected.extend(entry.paths.iter().cloned());
    }
    expected.extend(resolved.backstop.iter().cloned());
    assert_eq!(few, expected);
}
