use formwork::seam::{
    advertised_fd, closed_descriptor, env_var_for, fd_text, mint_reply, mint_request, mint_request_line, seam_slots, slot_targets,
    ControlLine, ControlStep, SeamError, SeamPlan, STATUS_ERR, STATUS_OK,
};

fn protocol(e: SeamError) -> String {
    match e {
        SeamError::Protocol(m) => m,
        other => panic!("unexpected {other:?}"),
    }
}

fn env(e: SeamError) -> String {
    match e {
        SeamError::Env(m) => m,
        other => panic!("unexpected {other:?}"),
    }
}

#[test]
fn env_var_for_uppercases_and_sanitizes() {
    assert_eq!(env_var_for("gateway"), "FORMWORK_FD_GATEWAY");
    assert_eq!(env_var_for("mcp-files"), "FORMWORK_FD_MCP_FILES");
    assert_eq!(env_var_for("a.b/c"), "FORMWORK_FD_A_B_C");
}

#[test]
fn slots_put_control_first_and_refuse_collisions() {
    let plan = SeamPlan::new().with_control().preopen("gateway").preopen("db");
    assert_eq!(seam_slots(&plan).unwrap(), vec!["FORMWORK_FD_CONTROL", "FORMWORK_FD_GATEWAY", "FORMWORK_FD_DB"]);
    let clash = SeamPlan::new().preopen("mcp-files").preopen("mcp.files");
    assert_eq!(
        protocol(seam_slots(&clash).unwrap_err()),
        "connection name \"mcp.files\" maps to environment variable FORMWORK_FD_MCP_FILES, which collides with another channel"
    );
    let empty = SeamPlan::new().preopen("");
    assert_eq!(protocol(seam_slots(&empty).unwrap_err()), "connection name must not be empty");
    assert!(seam_slots(&SeamPlan::new()).unwrap().is_empty());
}

#[test]
fn slot_targets_sit_above_every_source() {
    assert_eq!(slot_targets(&vec![5, 9, 7], 3), vec![10, 11, 12]);
    assert_eq!(slot_targets(&vec![], 2), vec![3, 4]);
    assert_eq!(fd_text(12), "12");
}

#[test]
fn control_requests_are_read_byte_by_byte() {
    let mut line = ControlLine::new();
    assert!(line.at_eof().is_ok());
    for b in b"mint db" {
        assert!(matches!(line.push(*b), ControlStep::More));
    }
    assert_eq!(protocol(line.at_eof().unwrap_err()), "CONTROL channel closed mid-request");
    assert!(matches!(line.push(b'\n'), ControlStep::Done));
    assert_eq!(line.request().unwrap(), "db");
    assert_eq!(protocol(ControlLine::too_long()), "CONTROL request exceeded the maximum length");
}

#[test]
fn mint_requests_are_checked() {
    assert_eq!(mint_request(b"mint gateway").unwrap(), "gateway");
    assert_eq!(protocol(mint_request(b"mint ").unwrap_err()), "unrecognized CONTROL request: \"mint \"");
    assert_eq!(protocol(mint_request(b"open x").unwrap_err()), "unrecognized CONTROL request: \"open x\"");
    assert_eq!(protocol(mint_request(&[0xff, 0xfe]).unwrap_err()), "CONTROL request was not valid UTF-8");
    assert_eq!(mint_request_line("db").unwrap(), "mint db\n");
    assert_eq!(protocol(mint_request_line("a\nb").unwrap_err()), "connection name must not contain a newline");
}

#[test]
fn mint_replies_are_read_honestly() {
    assert!(mint_reply(Some((STATUS_OK, true)), "db").is_ok());
    assert_eq!(protocol(mint_reply(Some((STATUS_OK, false)), "db").unwrap_err()), "gateway acknowledged the mint but passed no descriptor");
    assert_eq!(protocol(mint_reply(Some((STATUS_ERR, false)), "db").unwrap_err()), "gateway refused to mint a connection named \"db\"");
    assert_eq!(protocol(mint_reply(Some((0x3f, false)), "db").unwrap_err()), "gateway replied with an unknown status byte 0x3f");
    assert_eq!(protocol(mint_reply(None, "db").unwrap_err()), "gateway closed the CONTROL channel before replying");
}

#[test]
fn missing_or_bad_advertisements_fail_honestly() {
    assert_eq!(advertised_fd("FORMWORK_FD_DB", Some("7")).unwrap(), 7);
    assert_eq!(
        env(advertised_fd("FORMWORK_FD_DB", None).unwrap_err()),
        "FORMWORK_FD_DB is not set; was this process spawned through the seam?"
    );
    assert_eq!(
        env(advertised_fd("FORMWORK_FD_DB", Some("x7")).unwrap_err()),
        "FORMWORK_FD_DB=\"x7\" is not a valid file-descriptor number"
    );
    assert_eq!(advertised_fd("V", Some("-3")).unwrap(), -3);
    assert!(advertised_fd("V", Some("2147483648")).is_err());
    assert_eq!(env(closed_descriptor("FORMWORK_FD_DB", 42)), "FORMWORK_FD_DB=42 does not refer to an open descriptor");
}
