use formwork::blueprint::{Blueprint, ExecPosture, FsBlueprint, Mode, NetPosture, ReadMode};
use formwork::catalog::{Catalog, ResolvedCatalog};
use formwork::detect::HostProfile;
use formwork::discovery::{AccessRecord, Candidate, CandidateTag, DenialAccess, ProposalOutcome};
use formwork::layer::{merge, BlueprintLayer, FsLayer, ProvenanceEntry};
use formwork::learn::{
    accepted_message, conclude_learning_run, discovered_path, log_line_denial, merge_proposal_entries, needs_review_count, parse_sandbox_denial,
    parse_usize, plan_acceptance, proposal_listing, proposal_path, proposal_summary, quiescence_reached, record_discovered,
    stamped_entries, ProposalEntry, ProposalFile,
};
use formwork::load::{
    canonicalize_for_enforcement, desugar_rules, env_file_ref_pattern, extends_cycle, parse_net, protect_policy_inputs, sugar_layer,
    trim, unknown_credential_type, validate_discovered, DesugarError, DiscoveredError, EnforcementError, NetFlagError, Resolution,
    Sigils, SugarError, SugarFlag, SugarFlags,
};
use formwork::names::NameMap;
use formwork::path::PathPattern;
use formwork::provenance::{Explanation, RuleSource, Verdict};
use formwork::render::{explanation, floor_remedy, host_summary};

fn pp(s: &str) -> PathPattern {
    PathPattern::parse(s).unwrap()
}

fn strings(v: &[&str]) -> Vec<String> {
    v.iter().map(|s| s.to_string()).collect()
}

// ---------------------------------------------------------------------------------------------
// The flat rule surface and the sigils

#[test]
fn desugar_maps_verbs_and_mode_to_fields() {
    let sigils = Sigils::new("/home/x", "/work");
    let mut layer = BlueprintLayer {
        mode: Some(Mode::StrictUnveil),
        rules: strings(&[
            "readonly:/usr/**",
            "readwrite:~/project/**",
            "write:~/project/build",
            "readexec:/bin/ls",
            "exec:/bin/cat",
            "deny:~/.ssh",
        ]),
        ..Default::default()
    };
    desugar_rules(&mut layer, &sigils).unwrap();
    // Emptied like `extends`, so merge never sees verbs.
    assert!(layer.rules.is_empty() && layer.mode.is_none());
    assert_eq!(layer.fs.read_mode, Some(ReadMode::Closed));
    assert_eq!(layer.fs.reads, vec![pp("/usr/**"), pp("/bin/ls")]);
    assert_eq!(layer.fs.writes, vec![pp("/home/x/project/**")]);
    assert_eq!(layer.fs.writes_no_create, vec![pp("/home/x/project/build")]);
    assert_eq!(layer.fs.subtract, vec![pp("/home/x/.ssh")]);
    assert_eq!(layer.exec_posture, Some(ExecPosture::Allowlist(vec![pp("/bin/ls"), pp("/bin/cat")])));
}

#[test]
fn flat_rules_equal_nested_fs_after_load() {
    let sigils = Sigils::new("/home/x", "/work");
    let mut flat = BlueprintLayer {
        net: Some(NetPosture::Deny),
        mode: Some(Mode::StrictUnveil),
        rules: strings(&["readonly:/usr/**", "readwrite:/work/p/**", "deny:/work/p/secret"]),
        ..Default::default()
    };
    desugar_rules(&mut flat, &sigils).unwrap();
    let nested = BlueprintLayer {
        net: Some(NetPosture::Deny),
        fs: FsLayer {
            read_mode: Some(ReadMode::Closed),
            reads: vec![pp("/usr/**")],
            writes: vec![pp("/work/p/**")],
            subtract: vec![pp("/work/p/secret")],
            ..Default::default()
        },
        ..Default::default()
    };
    assert_eq!(merge(&[flat]), merge(&[nested]));
}

#[test]
fn desugar_rejects_bad_input() {
    let sigils = Sigils::new("/home/x", "/work");
    let layer = |rules: &[&str], mode: Option<Mode>, read_mode: Option<ReadMode>| BlueprintLayer {
        rules: strings(rules),
        mode,
        fs: FsLayer { read_mode, ..Default::default() },
        ..Default::default()
    };
    assert!(desugar_rules(&mut layer(&["bogus:/x"], None, None), &sigils).is_err());
    assert!(desugar_rules(&mut layer(&["deny"], None, None), &sigils).is_err());
    // `mode` and `[fs] read-mode` in one layer is a loud conflict.
    assert!(desugar_rules(&mut layer(&[], Some(Mode::Subtractive), Some(ReadMode::Closed)), &sigils).is_err());
}

#[test]
fn desugar_errors_name_the_rule_and_leave_the_layer() {
    let sigils = Sigils::new("/home/x", "/work");
    let mut l = BlueprintLayer { rules: strings(&["readonly:/usr/**", "bogus:/x"]), ..Default::default() };
    match desugar_rules(&mut l, &sigils) {
        Err(DesugarError::UnknownVerb { verb, rule }) => {
            assert_eq!(verb, "bogus");
            assert_eq!(rule, "bogus:/x");
        }
        other => panic!("unexpected {other:?}"),
    }
    // On failure the layer is left as it was.
    assert_eq!(l.rules, strings(&["readonly:/usr/**", "bogus:/x"]));
    assert!(l.fs.reads.is_empty());

    let mut l = BlueprintLayer { rules: strings(&["deny"]), ..Default::default() };
    assert!(matches!(desugar_rules(&mut l, &sigils), Err(DesugarError::NotARule(r)) if r == "deny"));

    let mut l = BlueprintLayer { rules: strings(&["read:relative"]), ..Default::default() };
    assert!(matches!(desugar_rules(&mut l, &sigils), Err(DesugarError::BadPath { rule, .. }) if rule == "read:relative"));

    let mut l = BlueprintLayer {
        mode: Some(Mode::StrictUnveil),
        fs: FsLayer { read_mode: Some(ReadMode::Closed), ..Default::default() },
        ..Default::default()
    };
    assert!(matches!(desugar_rules(&mut l, &sigils), Err(DesugarError::ModeAndReadMode)));

    let mut l = BlueprintLayer {
        rules: strings(&["exec:/bin/ls"]),
        exec_posture: Some(ExecPosture::Unrestricted),
        ..Default::default()
    };
    assert!(matches!(desugar_rules(&mut l, &sigils), Err(DesugarError::ExecConflict)));
}

#[test]
fn expands_leading_tilde_in_paths() {
    let sigils = Sigils::new("/home/testuser", "/work");
    assert_eq!(pp(&sigils.expand("~/project/**")), pp("/home/testuser/project/**"));
    assert_eq!(pp(&sigils.expand("~")), pp("/home/testuser"));
    assert_eq!(pp(&sigils.expand("~/.ssh/**")), pp("/home/testuser/.ssh/**"));
    // A value that isn't `~/`-prefixed is untouched.
    assert_eq!(sigils.expand("~weird_but_left_alone"), "~weird_but_left_alone");
}

#[test]
fn expands_cwd_sigil_and_composes_with_anchored_form() {
    let sigils = Sigils::new("/home/testuser", "/work/proj");
    assert_eq!(sigils.expand("$CWD"), "/work/proj");
    assert_eq!(sigils.expand("$CWD/src/**"), "/work/proj/src/**");
    assert_eq!(sigils.expand("$CWD/**/credentials"), "/work/proj/**/credentials");
    assert_eq!(sigils.expand("~/.ssh/**"), "/home/testuser/.ssh/**");
    assert_eq!(sigils.expand("/etc/hosts"), "/etc/hosts");
    assert_eq!(sigils.expand("$CWDISH"), "$CWDISH");
    assert_eq!(pp(&sigils.expand("$CWD/**")), pp("/work/proj/**"));
}

#[test]
fn broad_cwd_expansion_is_flagged_only_for_home_or_root() {
    assert!(Sigils::new("/home/x", "/home/x").broad_cwd_expansion("$CWD/**"));
    assert!(Sigils::new("/home/x", "/").broad_cwd_expansion("$CWD"));
    assert!(!Sigils::new("/home/x", "/work").broad_cwd_expansion("$CWD/**"));
    assert!(!Sigils::new("/home/x", "/home/x").broad_cwd_expansion("~/x"));
}

#[test]
fn trim_removes_unicode_whitespace_at_both_ends() {
    let chars: Vec<char> = " \t 443\u{a0}\n".chars().collect();
    assert_eq!(trim(&chars).into_iter().collect::<String>(), "443");
    let empty: Vec<char> = "   ".chars().collect();
    assert!(trim(&empty).is_empty());
}

// ---------------------------------------------------------------------------------------------
// Enforcement-time resolution

#[test]
fn any_depth_patterns_pass_canonicalization_unchanged() {
    let blueprint = Blueprint {
        fs: FsBlueprint { subtract: vec![pp("**/.env"), pp("**/.git/hooks/**")], ..Default::default() },
        ..Blueprint::empty()
    };
    let out = canonicalize_for_enforcement(&blueprint, &NameMap::new()).unwrap();
    assert_eq!(out.fs.subtract, blueprint.fs.subtract);
}

#[test]
fn canonicalization_moves_bases_onto_their_resolution() {
    let blueprint = Blueprint {
        fs: FsBlueprint { reads: vec![pp("/tmp/work/**"), pp("/etc/hosts")], subtract: vec![pp("/tmp/work/**/.env")], ..Default::default() },
        ..Blueprint::empty()
    };
    let mut res = NameMap::new();
    res.insert("/tmp/work".to_string(), Resolution::Path("/private/tmp/work".to_string()));
    let out = canonicalize_for_enforcement(&blueprint, &res).unwrap();
    assert_eq!(out.fs.reads, vec![pp("/private/tmp/work/**"), pp("/etc/hosts")]);
    assert_eq!(out.fs.subtract, vec![pp("/private/tmp/work/**/.env")]);

    let mut bad = NameMap::new();
    bad.insert("/etc/hosts".to_string(), Resolution::NotUtf8);
    assert!(matches!(canonicalize_for_enforcement(&blueprint, &bad), Err(EnforcementError::PathNotUtf8(p)) if p == "/etc/hosts"));
    let mut bad_anchor = NameMap::new();
    bad_anchor.insert("/tmp/work".to_string(), Resolution::NotUtf8);
    assert!(canonicalize_for_enforcement(&blueprint, &bad_anchor).is_err());
}

// ---------------------------------------------------------------------------------------------
// Checks at the edge

#[test]
fn discovered_layer_must_be_attributed_and_flat() {
    let mut layer = BlueprintLayer { fs: FsLayer { reads: vec![pp("/opt/x/**")], ..Default::default() }, ..Default::default() };
    assert!(matches!(validate_discovered(&layer), Err(DiscoveredError::Unattributed(c)) if c == "/opt/x/**"));
    layer
        .discovery
        .provenance
        .insert("/opt/x/**".to_string(), ProvenanceEntry { added_via: "discovery".into(), run_id: "learn-1".into() });
    assert!(validate_discovered(&layer).is_ok());
    layer.extends = strings(&["base.toml"]);
    assert!(matches!(validate_discovered(&layer), Err(DiscoveredError::UsesExtends)));
}

#[test]
fn unknown_credential_types_are_named() {
    let catalog = Catalog::builtin();
    assert_eq!(unknown_credential_type(&strings(&["ssh", "backstop"]), &catalog), None);
    assert_eq!(unknown_credential_type(&strings(&["ssh", "sssh", "nope"]), &catalog), Some("sssh".to_string()));
}

#[test]
fn extends_cycle_fails_loud_naming_the_cycle() {
    let visiting = strings(&["/p/top.toml", "/p/a.toml", "/p/b.toml"]);
    assert_eq!(
        extends_cycle(&visiting, "/p/a.toml"),
        Some(strings(&["/p/a.toml", "/p/b.toml", "/p/a.toml"]))
    );
    // A diamond revisits a finished base, not one still being visited: no cycle.
    assert_eq!(extends_cycle(&strings(&["/p/a.toml", "/p/b.toml"]), "/p/d.toml"), None);
}

#[test]
fn policy_inputs_are_write_denied_all_or_none() {
    let mut bp = Blueprint::empty();
    protect_policy_inputs(&mut bp, &strings(&["/p/bp.toml", "/p/bp.toml.discovered.toml"])).unwrap();
    assert_eq!(bp.fs.write_subtract, vec![pp("/p/bp.toml"), pp("/p/bp.toml.discovered.toml")]);
    let before = bp.clone();
    assert!(protect_policy_inputs(&mut bp, &strings(&["/p/c.toml", "relative"])).is_err());
    assert_eq!(bp, before);
}

#[test]
fn net_flag_parses_deny_and_port_lists() {
    assert_eq!(parse_net("deny").unwrap(), NetPosture::Deny);
    assert_eq!(parse_net("ports:443, 8080").unwrap(), NetPosture::Ports(vec![443, 8080]));
    assert!(matches!(parse_net("ports:443,http"), Err(NetFlagError::BadPort(p)) if p == "http"));
    assert!(matches!(parse_net("ports:70000"), Err(NetFlagError::BadPort(_))));
    assert!(matches!(parse_net("allow"), Err(NetFlagError::Malformed(s)) if s == "allow"));
}

#[test]
fn sugar_flags_become_one_layer() {
    let sigils = Sigils::new("/home/x", "/work");
    let flags = SugarFlags {
        extends: strings(&["base.toml"]),
        read: strings(&["$CWD/**"]),
        write: strings(&["~/out"]),
        subtract: strings(&["/work/secret.txt"]),
        write_subtract: vec![],
        allow_cred: strings(&["ssh"]),
        net: Some("deny".to_string()),
    };
    let l = sugar_layer(&flags, &sigils).unwrap();
    assert_eq!(l.fs.reads, vec![pp("/work/**")]);
    assert_eq!(l.fs.writes, vec![pp("/home/x/out")]);
    assert_eq!(l.fs.subtract, vec![pp("/work/secret.txt")]);
    assert_eq!(l.net, Some(NetPosture::Deny));
    assert_eq!(l.allow_credentials, strings(&["ssh"]));
    assert_eq!(l.extends, strings(&["base.toml"]));

    let bad = SugarFlags { subtract: strings(&["nope"]), net: None, ..flags.clone() };
    assert!(matches!(sugar_layer(&bad, &sigils), Err(SugarError::BadPattern { flag: SugarFlag::Subtract, value, .. }) if value == "nope"));
    let bad_net = SugarFlags { net: Some("ports:".to_string()), ..flags };
    assert!(matches!(sugar_layer(&bad_net, &sigils), Err(SugarError::BadNet(_))));
}

#[test]
fn env_file_refs_resolve_against_the_launch_directory() {
    assert!(env_file_ref_pattern("", "/work").is_none());
    assert_eq!(env_file_ref_pattern("/etc/creds.json", "/work").unwrap().unwrap(), pp("/etc/creds.json"));
    assert_eq!(env_file_ref_pattern("creds.json", "/work").unwrap().unwrap(), pp("/work/creds.json"));
    assert_eq!(env_file_ref_pattern("creds.json", "/work/").unwrap().unwrap(), pp("/work/creds.json"));
}

// ---------------------------------------------------------------------------------------------
// Learning

fn entry(path: &str, run: &str) -> ProposalEntry {
    ProposalEntry {
        candidate: Candidate { pattern: pp(path), access: DenialAccess::Read, tag: CandidateTag::NeedsReview },
        run_id: run.to_string(),
    }
}

#[test]
fn proposal_merge_is_sticky_and_refreshes_reobserved() {
    let previous = vec![entry("/opt/toolchain/**", "learn-1"), entry("/srv/data", "learn-1")];
    let observed = vec![entry("/srv/data", "learn-2"), entry("/var/cache/x", "learn-2")];
    let (merged, carried) = merge_proposal_entries(previous, observed);
    assert_eq!(carried, 1, "the un-reobserved toolchain entry is carried, not dropped");
    let by_path: std::collections::BTreeMap<String, String> =
        merged.iter().map(|e| (e.candidate.pattern.canonical(), e.run_id.clone())).collect();
    assert_eq!(by_path["/opt/toolchain/**"], "learn-1");
    assert_eq!(by_path["/srv/data"], "learn-2", "re-observed entry refreshed");
    assert_eq!(by_path["/var/cache/x"], "learn-2");
    assert_eq!(merged.len(), 3);
}

#[test]
fn parses_real_sandbox_messages() {
    let record =
        parse_sandbox_denial("Sandbox: cat(29810) deny(1) file-read-data /private/tmp/fw-spike/home/.aws/credentials").unwrap();
    assert_eq!(record.path, "/private/tmp/fw-spike/home/.aws/credentials");
    assert_eq!(record.access, DenialAccess::Read);

    let write = parse_sandbox_denial("Sandbox: sh(123) deny(1) file-write-create /work/out.txt").unwrap();
    assert_eq!(write.access, DenialAccess::Write);

    assert!(parse_sandbox_denial("Sandbox: x(1) deny(1) mach-lookup com.apple.foo").is_none());
    assert!(parse_sandbox_denial("unrelated log line").is_none());
}

#[test]
fn exec_denials_are_read_material() {
    let r = parse_sandbox_denial("Sandbox: sh(9) deny(1) process-exec /usr/local/bin/tool").unwrap();
    assert_eq!(r, AccessRecord { path: "/usr/local/bin/tool".into(), access: DenialAccess::Read });
    // A path that is not absolute is not filesystem material.
    assert!(parse_sandbox_denial("Sandbox: sh(9) deny(1) file-read-data relative").is_none());
}

#[test]
fn log_lines_carry_the_record_in_their_event_message() {
    let line = br#"{"timestamp":"t","eventMessage":"Sandbox: cat(7) deny(1) file-read-data /etc/secret","sender":"Sandbox"}"#;
    assert_eq!(log_line_denial(line), Some(AccessRecord { path: "/etc/secret".into(), access: DenialAccess::Read }));
    assert_eq!(log_line_denial(br#"{"eventMessage":"Sandbox: x(1) deny(1) mach-lookup com.apple.foo"}"#), None);
    assert_eq!(log_line_denial(br#"{"message":"Sandbox: cat(7) deny(1) file-read-data /etc/secret"}"#), None);
    assert_eq!(log_line_denial(b"not json"), None);
}

#[test]
fn quiescence_needs_a_repeated_read_and_the_settle_floor() {
    let a = vec![AccessRecord { path: "/a".into(), access: DenialAccess::Read }];
    let ab = vec![
        AccessRecord { path: "/a".into(), access: DenialAccess::Read },
        AccessRecord { path: "/b".into(), access: DenialAccess::Read },
    ];
    assert!(!quiescence_reached(&a, &ab, 1000, 0));
    assert!(quiescence_reached(&ab, &ab.clone(), 1000, 300));
    // Empty and stable before the floor is not trusted.
    assert!(!quiescence_reached(&vec![], &vec![], 100, 300));
    assert!(quiescence_reached(&vec![], &vec![], 300, 300));
}

/// Polls a scripted feed the way the edge does, stopping when the library says it is quiet:
/// `elapsed_ms(calls)` is the observation time after the given number of reads.
fn poll_until_quiet(feed: &[Vec<AccessRecord>], elapsed_ms: impl Fn(usize) -> u64, min_settle_ms: u64, cap_ms: u64) -> (Vec<AccessRecord>, usize) {
    let mut calls = 1;
    let mut last = feed[0].clone();
    loop {
        if elapsed_ms(calls) >= cap_ms {
            return (last, calls);
        }
        let next = feed[calls.min(feed.len() - 1)].clone();
        calls += 1;
        if quiescence_reached(&last, &next, elapsed_ms(calls), min_settle_ms) {
            return (next, calls);
        }
        last = next;
    }
}

fn read(path: &str) -> AccessRecord {
    AccessRecord { path: path.to_string(), access: DenialAccess::Read }
}

#[test]
fn quiescence_returns_the_first_repeated_read() {
    let sequence = vec![vec![read("/a")], vec![read("/a"), read("/b")], vec![read("/a"), read("/b")], vec![read("/a"), read("/b"), read("/never-reached")]];
    let (result, calls) = poll_until_quiet(&sequence, |c| c as u64, 0, 30_000);
    assert_eq!(result, sequence[2]);
    assert_eq!(calls, 3, "polling stops at the first repeated read");
}

#[test]
fn quiescence_does_not_trust_empty_reads_before_the_floor() {
    let feed = vec![vec![]];
    let (result, calls) = poll_until_quiet(&feed, |c| 25 * c as u64, 300, 5_000);
    assert!(result.is_empty());
    assert!(25 * calls as u64 >= 300, "an all-empty feed concluded before the floor");
}

#[test]
fn quiescence_floor_catches_a_record_that_flushes_after_empty_reads() {
    // Empty until 150 ms of reads have passed, then the record appears; the floor is 400 ms.
    let feed: Vec<Vec<AccessRecord>> = (0..40).map(|c| if 25 * c < 150 { vec![] } else { vec![read("/late/flush")] }).collect();
    let (result, _) = poll_until_quiet(&feed, |c| 25 * c as u64, 400, 5_000);
    assert_eq!(result, vec![read("/late/flush")], "the late-flushing record must be captured");
}

#[test]
fn proposal_files_sit_beside_the_blueprint() {
    assert_eq!(proposal_path("/p/bp.toml"), "/p/bp.toml.proposal.toml");
    assert_eq!(discovered_path("/p/bp.toml"), "/p/bp.toml.discovered.toml");
}

#[test]
fn learning_run_conclusion_splits_auto_and_review() {
    let outcome = ProposalOutcome {
        candidates: vec![
            Candidate { pattern: pp("/work/build/**"), access: DenialAccess::Write, tag: CandidateTag::AutoAccepted },
            Candidate { pattern: pp("/opt/sdk/**"), access: DenialAccess::Read, tag: CandidateTag::NeedsReview },
        ],
        withheld: vec![],
    };
    let previous = vec![entry("/srv/old", "learn-0")];
    let c = conclude_learning_run(&outcome, previous, "/p/bp.toml", "learn-7");
    assert_eq!(c.auto_accepted.len(), 1);
    assert_eq!(c.auto_accepted[0].run_id, "learn-7");
    assert_eq!(c.auto_accepted[0].candidate.pattern, pp("/work/build/**"));
    assert_eq!(c.proposal.blueprint, "/p/bp.toml");
    assert_eq!(c.carried, 1);
    assert_eq!(c.proposal.candidates.len(), 3);
    assert_eq!(needs_review_count(&c.proposal.candidates), 2);
    let summary = proposal_summary("/p/bp.toml.proposal.toml", &c.proposal);
    assert_eq!(
        summary,
        "proposal: /p/bp.toml.proposal.toml (3 candidates, 2 needs review) -- review with `formwork learn --list`"
    );
    let only_auto = stamped_entries(&outcome.candidates, "learn-7", true);
    assert_eq!(only_auto.len(), 1);
}

#[test]
fn accepting_records_grants_with_provenance() {
    let mut layer = BlueprintLayer::default();
    let accepted = vec![
        entry("/opt/sdk/**", "learn-3"),
        ProposalEntry {
            candidate: Candidate { pattern: pp("/work/out"), access: DenialAccess::Write, tag: CandidateTag::NeedsReview },
            run_id: "learn-3".into(),
        },
    ];
    assert_eq!(record_discovered(&mut layer, &accepted, "discovery"), 2);
    assert_eq!(layer.fs.reads, vec![pp("/opt/sdk/**")]);
    assert_eq!(layer.fs.writes, vec![pp("/work/out")]);
    assert_eq!(
        layer.discovery.provenance.get("/work/out"),
        Some(&ProvenanceEntry { added_via: "discovery".into(), run_id: "learn-3".into() })
    );
    assert!(validate_discovered(&layer).is_ok());
}

#[test]
fn acceptance_selects_by_number_or_pattern_and_refuses_the_floor() {
    let catalog = ResolvedCatalog::builtin_for_home("/home/x").unwrap();
    let proposal = ProposalFile {
        blueprint: "/p/bp.toml".into(),
        candidates: vec![entry("/opt/sdk/**", "learn-1"), entry("/srv/data", "learn-1"), entry("/home/x/.ssh/id_rsa", "learn-1")],
    };
    let plan = plan_acceptance(&proposal, &strings(&["2", "/opt/sdk/**"]), false, &catalog).unwrap();
    assert_eq!(plan.selected.len(), 2);
    assert_eq!(plan.remaining.candidates.len(), 1);
    assert_eq!(plan.remaining.candidates[0].candidate.pattern, pp("/home/x/.ssh/id_rsa"));

    let refused = plan_acceptance(&proposal, &strings(&["3"]), false, &catalog).unwrap_err();
    assert!(refused.starts_with("refusing to accept /home/x/.ssh/id_rsa: it matches the credential floor (type: "), "{refused}");
    let none = plan_acceptance(&proposal, &strings(&["9"]), false, &catalog).unwrap_err();
    assert_eq!(none, "no needs-review candidate matched the selection (run with no selection to list)");
    assert!(plan_acceptance(&proposal, &vec![], true, &catalog).is_err());

    assert_eq!(accepted_message(1, "/p/d.toml"), "accepted 1 grant into /p/d.toml; they apply from the next run");
    assert_eq!(accepted_message(2, "/p/d.toml"), "accepted 2 grants into /p/d.toml; they apply from the next run");
}

#[test]
fn listing_numbers_entries_from_one() {
    let empty = ProposalFile { blueprint: "/p/bp.toml".into(), candidates: vec![] };
    assert_eq!(proposal_listing(&empty), "proposal has no candidates; nothing to review\n");
    let one = ProposalFile { blueprint: "/p/bp.toml".into(), candidates: vec![entry("/srv/data", "learn-2")] };
    let text = proposal_listing(&one);
    assert!(text.starts_with("  1. /srv/data (read, needs-review, observed by learn-2)\n"), "{text}");
    assert!(text.ends_with("listed for audit only\n"), "{text}");
}

#[test]
fn usize_text_parses_like_from_str() {
    assert_eq!(parse_usize("12"), Some(12));
    assert_eq!(parse_usize("+7"), Some(7));
    assert_eq!(parse_usize(""), None);
    assert_eq!(parse_usize("1x"), None);
    assert_eq!(parse_usize("99999999999999999999999"), None);
}

// ---------------------------------------------------------------------------------------------
// What the operator reads

#[test]
fn host_summary_states_enforcement_and_learn_availability() {
    let mac = host_summary(&HostProfile::synthetic_macos(), false);
    assert!(mac.contains("Seatbelt") && mac.contains("unified log"), "{mac}");

    let linux_v6 = host_summary(&HostProfile::synthetic_linux(Some(6)), true);
    assert!(linux_v6.contains("Landlock ABI v6") && linux_v6.contains("ptrace (strace)"), "{linux_v6}");

    let no_strace = host_summary(&HostProfile::synthetic_linux(Some(6)), false);
    assert!(no_strace.contains("install strace"), "{no_strace}");

    let degraded = host_summary(&HostProfile::synthetic_linux(None), false);
    assert!(degraded.contains("no Landlock") && degraded.contains("compile/dry-run still work"), "{degraded}");
}

#[test]
fn verdicts_name_rule_and_origin() {
    let e = Explanation {
        path: "/work/secret".to_string(),
        read: Verdict::Denied { rule: "/work/secret".to_string(), source: RuleSource::Cli },
        write: Verdict::Hidden,
        execute: Verdict::Ambient,
    };
    let text = explanation(&e);
    assert!(text.contains("read:  denied by /work/secret (cli override)"), "{text}");
    assert!(text.contains("write: not granted"), "{text}");
    assert!(text.contains("exec:  allowed by default"), "{text}");
}

#[test]
fn floor_remedy_names_the_shape_and_the_lift() {
    let bs = floor_remedy("backstop", Some("**/credentials"));
    assert!(bs.contains("**/credentials"), "{bs}");
    assert!(bs.contains("allow-credentials = [\"backstop\"]"), "{bs}");
    assert!(bs.contains("any depth"), "{bs}");
    let ssh = floor_remedy("ssh", None);
    assert!(ssh.contains("allow-credentials = [\"ssh\"]"), "{ssh}");
    assert!(!ssh.contains("backstop"), "{ssh}");
}
