use herdr::session::{
    check_header_line, check_session_header, codex_session_id, session_date, session_header_cwd,
    session_search, AgentSessionInfo, AgentSessionRefKind, SessionDate, SessionError,
    SessionHeader, SessionMetadata, SessionScan, MAX_DIRECTORY_ENTRIES, MAX_HEADER_BYTES,
};

const ID: &str = "01a08517-0000-7000-8000-000000000001";
const OTHER_ID: &str = "01a08528-0000-7000-8000-000000000002";

fn file_name(id: &str) -> String {
    format!("rollout-2026-09-09T01-00-00-{id}.jsonl")
}

/// The JSON line of a session header record.
fn header(id: &str, cwd: &str) -> String {
    format!(
        "{{\"type\":\"session_meta\",\"payload\":{{\"id\":{},\"cwd\":{}}}}}\n",
        serde_json::to_string(id).unwrap(),
        serde_json::to_string(cwd).unwrap()
    )
}

/// Parses the first record of a session file into a header, as the reader
/// of session files does.
fn parse_header(line: &str) -> Result<SessionHeader, SessionError> {
    let value: serde_json::Value =
        serde_json::from_str(line).map_err(|_| SessionError::MalformedHeader)?;
    let kind = value.get("type").and_then(|v| v.as_str()).ok_or(SessionError::MalformedHeader)?;
    let payload = value.get("payload").ok_or(SessionError::MalformedHeader)?;
    let id = payload.get("id").and_then(|v| v.as_str()).ok_or(SessionError::MalformedHeader)?;
    let cwd = payload.get("cwd").and_then(|v| v.as_str()).ok_or(SessionError::MalformedHeader)?;
    Ok(SessionHeader {
        kind: kind.to_string(),
        payload: SessionMetadata { id: id.to_string(), cwd: cwd.to_string() },
    })
}

/// The working directory that the first line of a session file declares,
/// read within the header limit.
fn cwd_of(contents: &str, expected_id: &str) -> Result<String, SessionError> {
    let bytes = contents.as_bytes();
    let limited = &bytes[..bytes.len().min(MAX_HEADER_BYTES)];
    let end = limited.iter().position(|&b| b == b'\n').map_or(limited.len(), |i| i + 1);
    let line = &limited[..end];
    check_header_line(line)?;
    let header = parse_header(std::str::from_utf8(line).map_err(|_| SessionError::MalformedHeader)?)?;
    session_header_cwd(&header, expected_id)
}

/// The files that a scan of the session directories selects, given each
/// directory's entries as (name, is a regular file).
fn scan(search_id: &str, directories: &[Vec<(String, bool)>]) -> Result<Option<String>, SessionError> {
    let search = session_search(search_id)?;
    let mut scan = SessionScan::new();
    let mut found = None;
    for entries in directories {
        for (name, regular) in entries {
            scan.count_entry()?;
            if !search.matches_file_name(name) {
                continue;
            }
            scan.accept_file(*regular)?;
            found = Some(name.clone());
        }
    }
    Ok(found)
}

#[test]
fn exact_session_id_selects_its_header_and_ignores_other_projects_and_body() {
    let cwd = "/tmp/herdr-session/中文 project";
    let day = vec![
        (file_name(OTHER_ID), true),
        (file_name(ID), true),
    ];
    let found = scan(ID, &[Vec::new(), day, Vec::new(), Vec::new()]).unwrap();
    assert_eq!(found, Some(file_name(ID)));
    let contents = header(ID, cwd) + "not JSON chat body; never parsed\n";
    assert_eq!(cwd_of(&contents, ID), Ok(cwd.to_string()));
    assert!(cwd_of("corrupt other session\n", OTHER_ID).is_err());
}

#[test]
fn rejects_mismatched_ids_forged_body_corruption_and_relative_directories() {
    let absolute = "/tmp/herdr-session/project";
    for text in [
        header(OTHER_ID, absolute),
        "{\"type\":\"event_msg\",\"payload\":{\"message\":\"session_meta\"}}\n".to_owned()
            + &header(ID, absolute),
        "broken JSON\n".into(),
        header(ID, "relative/project"),
        header(ID, "/tmp/a\0b"),
    ] {
        assert!(cwd_of(&text, ID).is_err());
    }
    assert_eq!(cwd_of(&header(OTHER_ID, absolute), ID), Err(SessionError::HeaderMismatch));
    assert_eq!(cwd_of("broken JSON\n", ID), Err(SessionError::MalformedHeader));
    assert_eq!(
        cwd_of(&header(ID, "relative/project"), ID),
        Err(SessionError::RelativeWorkingDirectory)
    );
    assert_eq!(
        cwd_of(&header(ID, "/tmp/a\0b"), ID),
        Err(SessionError::RelativeWorkingDirectory)
    );
}

#[test]
fn date_neighbors_and_archived_sessions_are_supported_but_duplicates_rejected() {
    let search = session_search(ID).unwrap();
    assert_eq!(
        search.directories,
        vec![
            "sessions/2026/09/08".to_string(),
            "sessions/2026/09/09".to_string(),
            "sessions/2026/09/10".to_string(),
            "archived_sessions".to_string(),
        ]
    );
    for index in 0..4 {
        let mut directories = vec![Vec::new(), Vec::new(), Vec::new(), Vec::new()];
        directories[index].push((file_name(ID), true));
        assert_eq!(scan(ID, &directories).unwrap(), Some(file_name(ID)));
        let other = if index == 3 { 1 } else { 3 };
        directories[other].push((file_name(ID), true));
        assert_eq!(scan(ID, &directories), Err(SessionError::DuplicateSession));
    }
}

#[test]
fn invalid_ids_missing_sessions_and_oversized_headers_are_bounded() {
    let empty = vec![Vec::new(), Vec::new(), Vec::new(), Vec::new()];
    assert_eq!(scan(ID, &empty).unwrap(), None);
    for id in ["latest", "../session", "01a08517-0000-4000-8000-000000000001"] {
        assert!(scan(id, &empty).is_err());
        assert_eq!(session_search(id).err(), Some(SessionError::InvalidId));
    }
    let oversized = " ".repeat(MAX_HEADER_BYTES + 1);
    assert!(cwd_of(&oversized, ID).is_err());
    assert_eq!(cwd_of(&oversized, ID), Err(SessionError::HeaderTooLarge));
    assert_eq!(
        session_date(ID).unwrap(),
        SessionDate { year: 2026, month: 9, day: 9 }
    );
}

#[test]
fn ignores_other_agents_and_non_id_session_references() {
    let mut session = AgentSessionInfo {
        source: "test".into(),
        agent: "aider".into(),
        kind: AgentSessionRefKind::Id,
        value: ID.into(),
    };
    assert_eq!(codex_session_id(&session), None);
    session.agent = "codex".into();
    session.kind = AgentSessionRefKind::Path;
    assert_eq!(codex_session_id(&session), None);
    session.kind = AgentSessionRefKind::Id;
    assert_eq!(codex_session_id(&session), Some(ID));
}

#[test]
fn session_dates_cross_month_ends() {
    let search = session_search("01a0f4de-3b40-7abc-9def-0123456789ab").unwrap();
    assert_eq!(
        search.directories,
        vec![
            "sessions/2026/09/30".to_string(),
            "sessions/2026/10/01".to_string(),
            "sessions/2026/10/02".to_string(),
            "archived_sessions".to_string(),
        ]
    );
}

#[test]
fn session_ids_match_file_names_in_lower_case() {
    let upper = "01A0F4DE-3B40-7ABC-9DEF-0123456789AB";
    let search = session_search(upper).unwrap();
    assert_eq!(search.id, "01a0f4de-3b40-7abc-9def-0123456789ab");
    assert_eq!(search.file_suffix, "-01a0f4de-3b40-7abc-9def-0123456789ab.jsonl");
    assert!(search.matches_file_name("rollout-x-01a0f4de-3b40-7abc-9def-0123456789ab.jsonl"));
    assert!(!search.matches_file_name("rollout-x-01A0F4DE-3B40-7ABC-9DEF-0123456789AB.jsonl"));
    assert!(!search.matches_file_name("session-01a0f4de-3b40-7abc-9def-0123456789ab.jsonl"));
    assert!(!search.matches_file_name("rollout-01a0f4de-3b40-7abc-9def-0123456789ab.json"));
}

#[test]
fn timestamps_and_dates_out_of_range_are_errors() {
    assert_eq!(
        session_date("ffffffff-ffff-7fff-8fff-ffffffffffff"),
        Err(SessionError::TimestampOutOfRange)
    );
    assert_eq!(
        session_date("e677d21f-d818-7000-8000-000000000000"),
        Ok(SessionDate { year: 9999, month: 12, day: 31 })
    );
    assert_eq!(
        session_search("e677d21f-d818-7000-8000-000000000000").err(),
        Some(SessionError::DateOutOfRange)
    );
    assert_eq!(
        session_date("01a08517-0000-7000-c000-000000000001"),
        Err(SessionError::InvalidId)
    );
    assert_eq!(
        session_date("01a08517x0000-7000-8000-000000000001"),
        Err(SessionError::InvalidId)
    );
}

#[test]
fn directory_scans_are_bounded() {
    let mut scan = SessionScan::new();
    for _ in 0..MAX_DIRECTORY_ENTRIES {
        assert_eq!(scan.count_entry(), Ok(()));
    }
    assert_eq!(scan.count_entry(), Err(SessionError::ScanLimitExceeded));
    assert_eq!(scan.count_entry(), Err(SessionError::ScanLimitExceeded));
}

#[test]
fn session_files_must_be_single_regular_files() {
    let mut scan = SessionScan::new();
    assert_eq!(scan.accept_file(false), Err(SessionError::NotRegularFile));
    assert_eq!(scan.accept_file(true), Ok(()));
    assert_eq!(scan.accept_file(true), Err(SessionError::DuplicateSession));
}

#[test]
fn header_lines_end_within_the_limit() {
    let mut line = vec![b' '; MAX_HEADER_BYTES - 1];
    line.push(b'\n');
    assert_eq!(check_header_line(&line), Ok(()));
    let full = vec![b' '; MAX_HEADER_BYTES];
    assert_eq!(check_header_line(&full), Err(SessionError::HeaderTooLarge));
    assert_eq!(check_header_line(b"short"), Ok(()));
}

#[test]
fn header_ids_compare_in_any_ascii_case() {
    let header = SessionHeader {
        kind: "session_meta".into(),
        payload: SessionMetadata {
            id: ID.to_ascii_uppercase(),
            cwd: "/work".into(),
        },
    };
    assert_eq!(check_session_header(&header, ID, true), Ok("/work".to_string()));
    assert_eq!(
        check_session_header(&header, ID, false),
        Err(SessionError::RelativeWorkingDirectory)
    );
    assert_eq!(session_header_cwd(&header, ID), Ok("/work".to_string()));
    let wrong_kind = SessionHeader { kind: "session_metadata".into(), ..header.clone() };
    assert_eq!(check_session_header(&wrong_kind, ID, true), Err(SessionError::HeaderMismatch));
    let empty = SessionHeader {
        kind: "session_meta".into(),
        payload: SessionMetadata { id: ID.into(), cwd: String::new() },
    };
    assert_eq!(session_header_cwd(&empty, ID), Err(SessionError::RelativeWorkingDirectory));
}

#[test]
fn session_errors_describe_themselves() {
    assert_eq!(SessionError::InvalidId.message(), "Codex session ID must be a UUIDv7");
    assert_eq!(
        SessionError::MalformedHeader.message(),
        "malformed Codex session header"
    );
    assert_eq!(
        SessionError::HeaderTooLarge.message(),
        "Codex session header exceeds 64 KiB"
    );
}
