use formwork::blueprint::{Blueprint, EnvPosture, EnvScrub, ExecPosture, FsBlueprint, Gate, McpPolicy, NetPosture, ReadMode, Visibility};
use formwork::layer::{merge, BlueprintLayer, FsLayer, ProvenanceEntry};
use formwork::names::NameMap;
use formwork::path::{PathError, PathPattern};
use formwork::canonicalize_set;
use formwork::narrow::intersect_grants;

fn p(s: &str) -> PathPattern {
    PathPattern::parse(s).unwrap()
}

fn pp(s: &str) -> PathPattern {
    PathPattern::parse(s).unwrap()
}

fn servers(name: &str, policy: McpPolicy) -> NameMap<McpPolicy> {
    let mut m = NameMap::new();
    m.insert(name.to_string(), policy);
    m
}

// ---------------------------------------------------------------------------------------------
// The blueprint

#[test]
fn default_mcp_policy_denies_everything() {
    let d = McpPolicy::default();
    assert!(!d.tools.permits("anything"));
    assert!(!d.resources.permits("anything"));
    assert_eq!(d.sampling, Gate::Deny);
}

#[test]
fn canonicalize_sorts_and_dedupes_allow_lists() {
    let mcp = servers(
        "srv",
        McpPolicy { tools: Visibility::Allow(vec!["b".into(), "a".into(), "b".into()]), ..Default::default() },
    );
    let s = Blueprint { mcp, ..Blueprint::empty() }.canonicalize();
    assert_eq!(s.mcp.get("srv").unwrap().tools, Visibility::Allow(vec!["a".into(), "b".into()]));
}

#[test]
fn env_scrub_drops_secret_shaped_keeps_allowlisted() {
    let scrub = EnvPosture::Scrub(EnvScrub { allow: vec!["ANTHROPIC_API_KEY".into()], deny: vec!["EDITOR".into()] });
    let vars: Vec<(String, String)> = vec![
        ("PATH".into(), "/usr/bin".into()),
        ("ANTHROPIC_API_KEY".into(), "sk-abc".into()),
        ("AWS_SECRET_ACCESS_KEY".into(), "x".into()),
        ("GITHUB_TOKEN".into(), "ghp_x".into()),
        ("DEPLOY".into(), "ghp_realtoken".into()),
        ("EDITOR".into(), "vim".into()),
    ];
    let kept: Vec<String> = scrub.apply(vars.clone()).into_iter().map(|(k, _)| k).collect();
    assert_eq!(kept, vec!["PATH", "ANTHROPIC_API_KEY"]);
    let dropped = scrub.dropped_names(&vars);
    assert!(dropped.contains(&"AWS_SECRET_ACCESS_KEY".to_string()));
    assert!(dropped.contains(&"DEPLOY".to_string()));
    assert!(dropped.contains(&"EDITOR".to_string()));
}

#[test]
fn env_allowlist_keeps_only_named() {
    let env = EnvPosture::Allowlist(vec!["PATH".into(), "HOME".into()]);
    let vars: Vec<(String, String)> = vec![
        ("PATH".into(), "/usr/bin".into()),
        ("HOME".into(), "/home/x".into()),
        ("SECRET".into(), "y".into()),
    ];
    let kept: Vec<String> = env.apply(vars).into_iter().map(|(k, _)| k).collect();
    assert_eq!(kept, vec!["PATH", "HOME"]);
}

#[test]
fn empty_ports_canonicalizes_to_deny() {
    let s = Blueprint { net: NetPosture::Ports(vec![]), ..Blueprint::empty() }.canonicalize();
    assert_eq!(s.net, NetPosture::Deny);
}

#[test]
fn ports_canonicalize_sorted_and_deduped() {
    let s = Blueprint { net: NetPosture::Ports(vec![8080, 443, 8080]), ..Blueprint::empty() }.canonicalize();
    assert_eq!(s.net, NetPosture::Ports(vec![443, 8080]));
}

#[test]
fn canonicalize_is_idempotent_on_a_concrete_blueprint() {
    let b = Blueprint {
        fs: FsBlueprint { reads: vec![pp("/b/**"), pp("/a/x"), pp("/a/**")], ..Default::default() },
        net: NetPosture::Ports(vec![9, 1, 9]),
        ..Blueprint::empty()
    };
    let once = b.canonicalize();
    assert_eq!(once.canonicalize(), once);
    assert_eq!(once.fs.reads, vec![pp("/a/**"), pp("/b/**")]);
}

#[test]
fn floor_only_permissive_is_ambient_minus_subtract() {
    let b = Blueprint::floor_only_permissive();
    assert_eq!(b.fs.read_mode, ReadMode::AmbientMinusSubtract);
    assert_eq!(b.fs.writes, vec![pp("/**")]);
}

// ---------------------------------------------------------------------------------------------
// Narrowing

#[test]
fn read_intersection_clamps_to_narrower() {
    let parent = Blueprint { fs: FsBlueprint { reads: vec![pp("/work/**")], ..Default::default() }, ..Blueprint::empty() };
    let req = Blueprint {
        fs: FsBlueprint { reads: vec![pp("/work/project/**"), pp("/etc/**")], ..Default::default() },
        ..Blueprint::empty()
    };
    let n = parent.narrow(&req);
    assert_eq!(n.fs.reads, vec![pp("/work/project/**")]);
}

#[test]
fn subtract_unions_under_narrowing() {
    let parent = Blueprint { fs: FsBlueprint { subtract: vec![pp("/a/**")], ..Default::default() }, ..Blueprint::empty() };
    let req = Blueprint { fs: FsBlueprint { subtract: vec![pp("/b/**")], ..Default::default() }, ..Blueprint::empty() };
    let n = parent.narrow(&req);
    assert_eq!(n.fs.subtract, vec![pp("/a/**"), pp("/b/**")]);
}

#[test]
fn net_narrows_to_deny_or_intersection() {
    let ports = |v: Vec<u16>| Blueprint { net: NetPosture::Ports(v), ..Blueprint::empty() };
    assert_eq!(ports(vec![80, 443]).narrow(&ports(vec![443, 8080])).net, NetPosture::Ports(vec![443]));
    assert_eq!(ports(vec![80]).narrow(&ports(vec![443])).net, NetPosture::Deny);
    assert_eq!(ports(vec![80]).narrow(&Blueprint::empty()).net, NetPosture::Deny);
}

#[test]
fn mcp_server_absent_in_parent_cannot_appear() {
    let req = Blueprint {
        mcp: servers("secret", McpPolicy { tools: Visibility::AllowAll, ..Default::default() }),
        ..Blueprint::empty()
    };
    let n = Blueprint::empty().narrow(&req);
    assert!(n.mcp.is_empty());
}

#[test]
fn mcp_visibility_intersects() {
    let mk = |v: Visibility| Blueprint {
        mcp: servers("s", McpPolicy { tools: v, ..Default::default() }),
        ..Blueprint::empty()
    };
    let n = mk(Visibility::Allow(vec!["a".into(), "b".into()])).narrow(&mk(Visibility::Allow(vec!["b".into(), "c".into()])));
    assert_eq!(n.mcp.get("s").unwrap().tools, Visibility::Allow(vec!["b".into()]));
    let n2 = mk(Visibility::AllowAll).narrow(&mk(Visibility::Allow(vec!["x".into()])));
    assert_eq!(n2.mcp.get("s").unwrap().tools, Visibility::Allow(vec!["x".into()]));
}

#[test]
fn env_narrow_never_admits_more_than_either_side() {
    let parent = Blueprint { env: EnvPosture::Allowlist(vec!["PATH".into(), "GH_TOKEN".into()]), ..Blueprint::empty() };
    let req = Blueprint {
        env: EnvPosture::Scrub(EnvScrub { allow: vec!["PATH".into()], deny: vec!["GH_TOKEN".into()] }),
        ..Blueprint::empty()
    };
    let admits = |bp: &Blueprint, name: &str| !bp.env.apply(vec![(name.to_string(), "x".to_string())]).is_empty();
    let n = parent.narrow(&req);
    assert!(!admits(&n, "GH_TOKEN"), "narrow must not admit a var the request scrubbed");
    assert!(admits(&req, "PATH") && admits(&parent, "PATH"));
    assert_eq!(n.env, EnvPosture::Allowlist(vec!["PATH".into()]));
}

#[test]
fn narrowing_is_idempotent() {
    let s = Blueprint {
        fs: FsBlueprint {
            reads: vec![pp("/work/**")],
            writes: vec![pp("/work/project/**")],
            subtract: vec![pp("/work/.ssh/**")],
            ..Default::default()
        },
        net: NetPosture::Ports(vec![8080, 80]),
        ..Blueprint::empty()
    };
    assert_eq!(s.narrow(&s), s.canonicalize());
}

#[test]
fn intersect_grants_keeps_only_what_both_cover() {
    let r = intersect_grants(&vec![pp("/a/**"), pp("/c/x")], &vec![pp("/a/b/**"), pp("/d/**")]);
    assert_eq!(r, vec![pp("/a/b/**")]);
}

#[test]
fn narrowing_the_credential_lift_keeps_only_common_types() {
    let a = Blueprint { allow_credentials: vec!["aws".into(), "gcp".into()], ..Blueprint::empty() };
    let b = Blueprint { allow_credentials: vec!["gcp".into(), "ssh".into()], ..Blueprint::empty() };
    assert_eq!(a.narrow(&b).allow_credentials, vec!["gcp".to_string()]);
}

// ---------------------------------------------------------------------------------------------
// Path patterns

#[test]
fn normalization_collapses_and_resolves() {
    assert_eq!(p("/work//project/./x").canonical(), "/work/project/x");
    assert_eq!(p("/work/project/../other").canonical(), "/work/other");
    assert_eq!(p("/work/project/").canonical(), "/work/project");
}

#[test]
fn subtree_marker_parsed_and_rendered() {
    assert!(p("/work/**").is_subtree());
    assert_eq!(p("/work/**").canonical(), "/work/**");
    assert_eq!(p("/**").canonical(), "/**");
    assert!(p("/**").is_subtree());
    assert!(!p("/work/file").is_subtree());
}

#[test]
fn rejects_relative_and_escaping() {
    assert!(matches!(PathPattern::parse("work/x"), Err(PathError::NotAbsolute(_))));
    assert!(matches!(PathPattern::parse("/../x"), Err(PathError::EscapesRoot(_))));
    assert!(matches!(PathPattern::parse(""), Err(PathError::Empty)));
}

#[test]
fn any_depth_parses_literal_and_subtree() {
    let env = p("**/.env");
    assert!(env.is_any_depth());
    assert!(!env.is_subtree());
    assert_eq!(env.canonical(), "**/.env");
    let hooks = p("**/.git/hooks/**");
    assert!(hooks.is_any_depth());
    assert!(hooks.is_subtree());
    assert_eq!(hooks.canonical(), "**/.git/hooks/**");
    assert_eq!(p("**/.git/config").canonical(), "**/.git/config");
}

#[test]
fn any_depth_rejects_degenerate_and_interior_globs() {
    assert!(matches!(PathPattern::parse("**/"), Err(PathError::Empty)));
    assert!(matches!(PathPattern::parse("**/**"), Err(PathError::Empty)));
    assert!(matches!(PathPattern::parse("**/a/**/b"), Err(PathError::EscapesRoot(_))));
    assert!(matches!(PathPattern::parse("**/../etc"), Err(PathError::EscapesRoot(_))));
}

#[test]
fn subtree_covers_descendants_literal_covers_only_self() {
    assert!(p("/work/**").covers(&p("/work/project/x")));
    assert!(p("/work/**").covers(&p("/work/**")));
    assert!(p("/work/**").covers(&p("/work/project/**")));
    assert!(!p("/work/project/**").covers(&p("/work/other")));
    assert!(p("/work/f").covers(&p("/work/f")));
    assert!(!p("/work/f").covers(&p("/work/**")));
    assert!(!p("/work/f").covers(&p("/work/f/child")));
}

#[test]
fn covers_is_component_aware_not_string_prefix() {
    assert!(!p("/work/proj/**").covers(&p("/work/project/x")));
}

#[test]
fn any_depth_covers_only_within_form_except_root_grant() {
    assert!(p("**/.git/**").covers(&p("**/.git/hooks/**")));
    assert!(p("**/.env").covers(&p("**/.env")));
    assert!(!p("**/.env").covers(&p("**/.envrc")));
    assert!(p("/**").covers(&p("**/.env")));
    assert!(!p("/work/**").covers(&p("**/.env")));
    assert!(!p("**/.env").covers(&p("/work/.env")));
}

#[test]
fn anchored_any_depth_parses_matches_and_covers() {
    let cred = p("/home/x/**/credentials");
    assert!(cred.is_any_depth());
    assert_eq!(cred.anchor().unwrap(), "/home/x");
    assert_eq!(cred.canonical(), "/home/x/**/credentials");
    assert!(cred.matches_path("/home/x/credentials"));
    assert!(cred.matches_path("/home/x/.someprovider/credentials"));
    assert!(cred.matches_path("/home/x/a/b/credentials"));
    assert!(!cred.matches_path("/etc/credentials"));
    assert!(!cred.matches_path("/home/y/credentials"));
    let hooks = p("/home/x/**/.git/hooks/**");
    assert!(hooks.is_subtree());
    assert!(hooks.matches_path("/home/x/proj/.git/hooks/pre-commit"));
    assert!(!hooks.matches_path("/srv/proj/.git/hooks/pre-commit"));
    assert!(p("**/credentials").covers(&cred));
    assert!(!cred.covers(&p("**/credentials")));
    assert!(p("/home/**").covers(&cred));
    assert!(!p("/srv/**").covers(&cred));
    assert!(p("/**").covers(&cred));
    assert_eq!(p("/**/x").canonical(), "**/x");
    // The text form round-trips: the canonical string parses back to the same pattern.
    assert_eq!(cred.canonical(), "/home/x/**/credentials");
    assert_eq!(PathPattern::parse(&cred.canonical()).unwrap(), cred);
}

#[test]
fn anchored_rejects_relative_and_multi_glob() {
    assert!(matches!(PathPattern::parse("home/**/credentials"), Err(PathError::NotAbsolute(_))));
    assert!(matches!(PathPattern::parse("/a/**/b/**/c"), Err(PathError::EscapesRoot(_))));
    assert!(matches!(PathPattern::parse("/a/**/"), Err(PathError::Empty)));
}

#[test]
fn canonicalize_drops_redundant() {
    let set = vec![p("/work/**"), p("/work/project/x"), p("/etc/hosts"), p("/work/project/**")];
    let c = canonicalize_set(&set);
    assert_eq!(c, vec![p("/etc/hosts"), p("/work/**")]);
}

#[test]
fn serde_roundtrip_is_canonical_string() {
    let j = p("/a//b/../c/**").canonical();
    assert_eq!(j, "/a/c/**");
    let back = PathPattern::parse(&j).unwrap();
    assert_eq!(back, p("/a/c/**"));
    let j2 = p("**/.env").canonical();
    assert_eq!(j2, "**/.env");
    assert_eq!(PathPattern::parse(&j2).unwrap(), p("**/.env"));
}

#[test]
fn canonicalize_set_ignores_input_order() {
    let a = canonicalize_set(&vec![p("/b"), p("/a/**"), p("/a/x"), p("/b")]);
    let b = canonicalize_set(&vec![p("/a/x"), p("/b"), p("/a/**")]);
    assert_eq!(a, b);
    assert_eq!(canonicalize_set(&a), a);
}

#[test]
fn parent_text_is_the_enclosing_directory() {
    assert_eq!(p("/a/b/c").parent_text(), "/a/b");
}

// ---------------------------------------------------------------------------------------------
// Layering

fn layer_with(fs: FsLayer) -> BlueprintLayer {
    BlueprintLayer { fs, ..Default::default() }
}

#[test]
fn empty_stack_is_the_fail_closed_floor() {
    assert_eq!(merge(&[]), Blueprint::empty().canonicalize());
}

#[test]
fn path_sets_union_across_layers() {
    let base = layer_with(FsLayer::default());
    let a = layer_with(FsLayer { reads: vec![pp("/work/**")], subtract: vec![pp("/work/.ssh/**")], ..Default::default() });
    let b = layer_with(FsLayer { reads: vec![pp("/data/**")], subtract: vec![pp("/work/other/**")], ..Default::default() });
    let merged = merge(&[base, a, b]);
    assert_eq!(merged.fs.reads, vec![pp("/data/**"), pp("/work/**")]);
    assert_eq!(merged.fs.subtract, vec![pp("/work/.ssh/**"), pp("/work/other/**")]);
}

#[test]
fn postures_are_last_set_wins_and_unset_inherits() {
    let a = BlueprintLayer { net: Some(NetPosture::Ports(vec![443])), ..Default::default() };
    let b = layer_with(FsLayer::default());
    let c = BlueprintLayer { net: Some(NetPosture::Deny), ..Default::default() };
    assert_eq!(merge(&[a.clone(), b.clone()]).net, NetPosture::Ports(vec![443]));
    assert_eq!(merge(&[a, b, c]).net, NetPosture::Deny);
}

#[test]
fn read_mode_unset_inherits_rather_than_meaning_closed() {
    let base = layer_with(FsLayer { read_mode: Some(ReadMode::AmbientMinusSubtract), ..Default::default() });
    let over = layer_with(FsLayer { writes: vec![pp("/work/project/**")], ..Default::default() });
    let merged = merge(&[base, over]);
    assert_eq!(merged.fs.read_mode, ReadMode::AmbientMinusSubtract);
}

#[test]
fn env_posture_layering_replaces_wholesale() {
    let base = BlueprintLayer {
        env: Some(EnvPosture::Scrub(EnvScrub { allow: vec!["ANTHROPIC_API_KEY".into()], deny: vec![] })),
        ..Default::default()
    };
    let over = BlueprintLayer { env: Some(EnvPosture::Allowlist(vec!["PATH".into(), "HOME".into()])), ..Default::default() };
    let merged = merge(&[base.clone(), over]);
    assert_eq!(merged.env, EnvPosture::Allowlist(vec!["HOME".into(), "PATH".into()]));
    let scrub_only = merge(&[base]);
    assert_eq!(scrub_only.env, EnvPosture::Scrub(EnvScrub { allow: vec!["ANTHROPIC_API_KEY".into()], deny: vec![] }));
}

#[test]
fn mcp_merges_per_server_last_set_wins() {
    let mut am = NameMap::new();
    am.insert("files".to_string(), McpPolicy { tools: Visibility::Allow(vec!["read_file".into(), "write_file".into()]), ..Default::default() });
    am.insert("web".to_string(), McpPolicy { tools: Visibility::AllowAll, ..Default::default() });
    let a = BlueprintLayer { mcp: am, ..Default::default() };
    let b = BlueprintLayer {
        mcp: servers("files", McpPolicy { tools: Visibility::Allow(vec!["read_file".into()]), ..Default::default() }),
        ..Default::default()
    };
    let merged = merge(&[a, b]);
    assert_eq!(merged.mcp.get("files").unwrap().tools, Visibility::Allow(vec!["read_file".into()]));
    assert_eq!(merged.mcp.get("web").unwrap().tools, Visibility::AllowAll);
}

#[test]
fn allow_credentials_and_zone_union_and_dedupe() {
    let mut a = BlueprintLayer { allow_credentials: vec!["aws".into()], ..Default::default() };
    a.discovery.auto_widen = vec![pp("/work/project/**")];
    let b = BlueprintLayer { allow_credentials: vec!["aws".into(), "gcp".into()], ..Default::default() };
    let merged = merge(&[a, b]);
    assert_eq!(merged.allow_credentials, vec!["aws", "gcp"]);
    assert_eq!(merged.discovery.auto_widen, vec![pp("/work/project/**")]);
}

#[test]
fn merge_is_deterministic_across_repeats() {
    let layers = vec![
        layer_with(FsLayer { reads: vec![pp("/b/**"), pp("/a/**")], ..Default::default() }),
        BlueprintLayer { net: Some(NetPosture::Ports(vec![8080, 443])), ..Default::default() },
    ];
    assert_eq!(merge(&layers), merge(&layers));
    assert_eq!(format!("{:?}", merge(&layers)), format!("{:?}", merge(&layers)));
}

#[test]
fn single_full_layer_equals_direct_blueprint_parse() {
    let direct = Blueprint {
        fs: FsBlueprint {
            read_mode: ReadMode::Closed,
            reads: vec![pp("/work/project/**")],
            writes: vec![pp("/work/project/**")],
            subtract: vec![pp("/work/project/.git/**")],
            ..Default::default()
        },
        net: NetPosture::Ports(vec![8080]),
        exec_posture: ExecPosture::Unrestricted,
        mcp: servers("files", McpPolicy { tools: Visibility::Allow(vec!["read_file".into()]), ..Default::default() }),
        ..Blueprint::empty()
    };
    let layer = BlueprintLayer {
        fs: FsLayer {
            read_mode: Some(ReadMode::Closed),
            reads: vec![pp("/work/project/**")],
            writes: vec![pp("/work/project/**")],
            subtract: vec![pp("/work/project/.git/**")],
            ..Default::default()
        },
        net: Some(NetPosture::Ports(vec![8080])),
        exec_posture: Some(ExecPosture::Unrestricted),
        mcp: servers("files", McpPolicy { tools: Visibility::Allow(vec!["read_file".into()]), ..Default::default() }),
        ..Default::default()
    };
    assert_eq!(merge(&[layer]), direct.canonicalize());
}

#[test]
fn provenance_is_metadata_not_grant() {
    let mut discovered = layer_with(FsLayer { reads: vec![pp("/opt/toolchain/**")], ..Default::default() });
    discovered.discovery.provenance.insert(
        "/opt/toolchain/**".to_string(),
        ProvenanceEntry { added_via: "discovery".into(), run_id: "learn-1234".into() },
    );
    let merged = merge(std::slice::from_ref(&discovered));
    assert_eq!(merged.fs.reads, vec![pp("/opt/toolchain/**")]);
    assert_eq!(discovered.discovery.provenance.get("/opt/toolchain/**").unwrap().run_id, "learn-1234");
}

#[test]
fn from_blueprint_round_trips_through_merge() {
    let bp = Blueprint {
        fs: FsBlueprint {
            read_mode: ReadMode::AmbientMinusSubtract,
            reads: vec![pp("/**")],
            writes: vec![pp("/tmp/**")],
            subtract: vec![pp("**/.env")],
            write_subtract: vec![pp("**/.git/config")],
            ..Default::default()
        },
        net: NetPosture::Ports(vec![443]),
        ..Blueprint::empty()
    };
    assert_eq!(merge(&[BlueprintLayer::from_blueprint(&bp)]), bp.canonicalize());
}

#[test]
fn covering_pattern_matches_what_the_covered_one_matches() {
    let cases = [
        ("/home/**", "/home/a/**", "/home/a/b/c"),
        ("/home/**", "/home/a/b", "/home/a/b"),
        ("**/.git/**", "/work/**/.git/hooks/**", "/work/p/.git/hooks/pre-commit"),
        ("**/.env", "/work/**/.env", "/work/p/.env"),
        ("/work/**", "/work/**/.env", "/work/p/q/.env"),
    ];
    for (big, small, path) in cases {
        assert!(p(big).covers(&p(small)), "{big} covers {small}");
        assert!(p(small).matches_path(path), "{small} matches {path}");
        assert!(p(big).matches_path(path), "{big} matches {path}");
    }
    assert!(!p("**/.env").covers(&p("/work/.env")));
}

#[test]
fn patterns_covering_each_other_are_equal() {
    assert!(p("/a/**").covers(&p("/a/./**")) && p("/a/./**").covers(&p("/a/**")));
    assert_eq!(p("/a/**"), p("/a/./**"));
    assert!(p("/a/**").covers(&p("/a/b/**")) && !p("/a/b/**").covers(&p("/a/**")));
}

#[test]
fn narrowing_keeps_every_deny_hole_of_either_side() {
    let parent = Blueprint { fs: FsBlueprint { subtract: vec![pp("/a/**")], write_subtract: vec![pp("/w/x")], ..Default::default() }, ..Blueprint::empty() };
    let req = Blueprint { fs: FsBlueprint { subtract: vec![pp("/a/b/**"), pp("/c")], write_subtract: vec![pp("/w/**")], ..Default::default() }, ..Blueprint::empty() };
    let n = parent.narrow(&req);
    for hole in [pp("/a/**"), pp("/a/b/**"), pp("/c")] {
        assert!(n.fs.subtract.iter().any(|h| h.covers(&hole)), "{hole:?}");
    }
    for hole in [pp("/w/x"), pp("/w/**")] {
        assert!(n.fs.write_subtract.iter().any(|h| h.covers(&hole)), "{hole:?}");
    }
}

#[test]
fn canonical_text_parses_back_to_the_pattern() {
    for s in ["/a//b/../c/**", "/", "/**", "/x/./y", "**/.git/hooks/**", "**/.env", "/home/u/**/credentials", "/w/**/node_modules/**"] {
        let q = p(s);
        assert_eq!(PathPattern::parse(&q.canonical()), Ok(q.clone()), "{s}");
        let text = q.canonical();
        assert_eq!(q.is_any_depth(), text.starts_with("**/") || text.contains("/**/"), "{s}");
    }
    assert_eq!(p("/a//b/../c/**").canonical(), "/a/c/**");
    assert_ne!(p("/a/**").canonical(), p("/a").canonical());
}

#[test]
fn env_posture_partitions_the_environment() {
    let scrub = EnvPosture::Scrub(EnvScrub { allow: vec![], deny: vec!["EDITOR".into()] });
    let vars: Vec<(String, String)> = vec![
        ("PATH".into(), "/usr/bin".into()),
        ("GITHUB_TOKEN".into(), "ghp_x".into()),
        ("EDITOR".into(), "vim".into()),
        ("HOME".into(), "/home/x".into()),
    ];
    let kept = scrub.apply(vars.clone());
    let dropped = scrub.dropped_names(&vars);
    assert_eq!(kept.len() + dropped.len(), vars.len());
    for (name, value) in &vars {
        let is_kept = kept.contains(&(name.clone(), value.clone()));
        assert_ne!(is_kept, dropped.contains(name), "{name}");
    }
}

#[test]
fn intersect_grants_is_symmetric_and_within_both() {
    let a = vec![pp("/a/**"), pp("/c/x"), pp("/e/f")];
    let b = vec![pp("/a/b/**"), pp("/c/**"), pp("/d/**")];
    let r = intersect_grants(&a, &b);
    assert_eq!(r, intersect_grants(&b, &a));
    assert_eq!(r, canonicalize_set(&r));
    for x in &r {
        assert!(a.iter().any(|y| y.covers(x)) && b.iter().any(|y| y.covers(x)), "{x:?}");
    }
    assert_eq!(r, vec![pp("/a/b/**"), pp("/c/x")]);
}

#[test]
fn canonicalize_set_keeps_every_input_covered() {
    let input = vec![pp("/work/**"), pp("/work/project/x"), pp("/etc/hosts"), pp("/work/project/**")];
    let r = canonicalize_set(&input);
    assert_eq!(r, vec![pp("/etc/hosts"), pp("/work/**")]);
    for x in &input {
        assert!(r.iter().any(|y| y.covers(x)), "{x:?}");
    }
    let mut shuffled = input.clone();
    shuffled.reverse();
    shuffled.push(pp("/etc/hosts"));
    assert_eq!(canonicalize_set(&shuffled), r);
}
