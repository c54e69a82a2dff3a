use formwork::blueprint::{McpPolicy, NetPosture, Visibility};
use formwork::names::NameMap;
use formwork::spec::{canonicalize_set, FsSpec, PathError, PathPattern, Spec};

fn p(s: &str) -> PathPattern {
    PathPattern::parse(s).unwrap()
}

fn pp(s: &str) -> PathPattern {
    PathPattern::parse(s).unwrap()
}

fn servers(name: &str, policy: McpPolicy) -> NameMap<McpPolicy> {
    let mut m = NameMap::new();
    m.insert(name.to_string(), policy);
    m
}

#[test]
fn path_normalization_collapses_and_resolves() {
    assert_eq!(p("/work//project/./x").canonical(), "/work/project/x");
    assert_eq!(p("/work/project/../other").canonical(), "/work/other");
    assert_eq!(p("/work/project/").canonical(), "/work/project");
}

#[test]
fn path_subtree_marker_parsed_and_rendered() {
    assert!(p("/work/**").is_subtree());
    assert_eq!(p("/work/**").canonical(), "/work/**");
    assert_eq!(p("/**").canonical(), "/**");
    assert!(p("/**").is_subtree());
    assert!(!p("/work/file").is_subtree());
}

#[test]
fn path_rejects_relative_and_escaping() {
    assert!(matches!(PathPattern::parse("work/x"), Err(PathError::NotAbsolute(_))));
    assert!(matches!(PathPattern::parse("/../x"), Err(PathError::EscapesRoot(_))));
    assert!(matches!(PathPattern::parse(""), Err(PathError::Empty)));
}

#[test]
fn path_subtree_covers_descendants_literal_covers_only_self() {
    assert!(p("/work/**").covers(&p("/work/project/x")));
    assert!(p("/work/**").covers(&p("/work/**")));
    assert!(p("/work/**").covers(&p("/work/project/**")));
    assert!(!p("/work/project/**").covers(&p("/work/other")));
    assert!(p("/work/f").covers(&p("/work/f")));
    assert!(!p("/work/f").covers(&p("/work/**")));
    assert!(!p("/work/f").covers(&p("/work/f/child")));
}

#[test]
fn path_covers_is_component_aware_not_string_prefix() {
    assert!(!p("/work/proj/**").covers(&p("/work/project/x")));
}

#[test]
fn path_canonicalize_drops_redundant() {
    let set = vec![p("/work/**"), p("/work/project/x"), p("/etc/hosts"), p("/work/project/**")];
    let c = canonicalize_set(&set);
    assert_eq!(c, vec![p("/etc/hosts"), p("/work/**")]);
}

#[test]
fn path_serde_roundtrip_is_canonical_string() {
    let j = p("/a//b/../c/**").canonical();
    assert_eq!(j, "/a/c/**");
    let back = PathPattern::parse(&j).unwrap();
    assert_eq!(back, p("/a/c/**"));
}

#[test]
fn spec_patterns_are_absolute_only() {
    assert!(matches!(PathPattern::parse("**/.env"), Err(PathError::NotAbsolute(_))));
    assert_eq!(p("/w/**").base(), "/w");
}

#[test]
fn narrow_read_intersection_clamps_to_narrower() {
    let parent = Spec { fs: FsSpec { reads: vec![pp("/work/**")], ..Default::default() }, ..Spec::empty() };
    let req = Spec { fs: FsSpec { reads: vec![pp("/work/project/**"), pp("/etc/**")], ..Default::default() }, ..Spec::empty() };
    let n = parent.narrow(&req);
    assert_eq!(n.fs.reads, vec![pp("/work/project/**")]);
}

#[test]
fn narrow_subtract_unions_under_narrowing() {
    let parent = Spec { fs: FsSpec { subtract: vec![pp("/a/**")], ..Default::default() }, ..Spec::empty() };
    let req = Spec { fs: FsSpec { subtract: vec![pp("/b/**")], ..Default::default() }, ..Spec::empty() };
    let n = parent.narrow(&req);
    assert_eq!(n.fs.subtract, vec![pp("/a/**"), pp("/b/**")]);
}

#[test]
fn narrow_net_narrows_to_deny_or_intersection() {
    let ports = |v: Vec<u16>| Spec { net: NetPosture::Ports(v), ..Spec::empty() };
    assert_eq!(ports(vec![80, 443]).narrow(&ports(vec![443, 8080])).net, NetPosture::Ports(vec![443]));
    assert_eq!(ports(vec![80]).narrow(&ports(vec![443])).net, NetPosture::Deny);
    assert_eq!(ports(vec![80]).narrow(&Spec::empty()).net, NetPosture::Deny);
}

#[test]
fn narrow_mcp_server_absent_in_parent_cannot_appear() {
    let req = Spec { mcp: servers("secret", McpPolicy { tools: Visibility::AllowAll, ..Default::default() }), ..Spec::empty() };
    let n = Spec::empty().narrow(&req);
    assert!(n.mcp.is_empty());
}

#[test]
fn narrow_mcp_visibility_intersects() {
    let mk = |v: Visibility| Spec { mcp: servers("s", McpPolicy { tools: v, ..Default::default() }), ..Spec::empty() };
    let n = mk(Visibility::Allow(vec!["a".into(), "b".into()])).narrow(&mk(Visibility::Allow(vec!["b".into(), "c".into()])));
    assert_eq!(n.mcp.get("s").unwrap().tools, Visibility::Allow(vec!["b".into()]));
    let n2 = mk(Visibility::AllowAll).narrow(&mk(Visibility::Allow(vec!["x".into()])));
    assert_eq!(n2.mcp.get("s").unwrap().tools, Visibility::Allow(vec!["x".into()]));
}

#[test]
fn narrow_narrowing_is_idempotent() {
    let s = Spec {
        fs: FsSpec {
            reads: vec![pp("/work/**")],
            writes: vec![pp("/work/project/**")],
            subtract: vec![pp("/work/.ssh/**")],
            ..Default::default()
        },
        net: NetPosture::Ports(vec![8080, 80]),
        ..Spec::empty()
    };
    assert_eq!(s.narrow(&s), s.canonicalize());
}
