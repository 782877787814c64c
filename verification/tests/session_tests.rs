use tps::session::Project;
use tps::session::Session;
use tps::session::parse_session_line;
use tps::session::sanitize_session_name;

#[test]
fn parse_plain_session_line() {
    let line = "main: 2 windows (created Mon Oct 10 10:12:31 2026)".to_string();
    let s = parse_session_line(&line).expect("the line has the session shape");
    assert_eq!("main", s.name);
    assert_eq!(2, s.window_count);
    assert_eq!("Mon Oct 10 10:12:31 2026", s.date_created);
    assert!(!s.attached);
}

#[test]
fn parse_attached_session_line() {
    let line = "work: 13 windows (created Tue Jan  6 08:00:00 2026) (attached)".to_string();
    let s = parse_session_line(&line).expect("the line has the session shape");
    assert_eq!("work", s.name);
    assert_eq!(13, s.window_count);
    assert_eq!("Tue Jan  6 08:00:00 2026", s.date_created);
    assert!(s.attached);
}

#[test]
fn parse_takes_the_nonspace_run_before_the_tail() {
    let line = "my session: 3 windows (created x)".to_string();
    let s = parse_session_line(&line).expect("the line has the session shape");
    assert_eq!("session", s.name);
    assert_eq!(3, s.window_count);
    assert_eq!("x", s.date_created);
}

#[test]
fn parse_rejects_lines_without_the_session_shape() {
    assert!(parse_session_line(&"".to_string()).is_none());
    assert!(parse_session_line(&"no sessions here".to_string()).is_none());
    assert!(parse_session_line(&"name: x windows (created y)".to_string()).is_none());
    assert!(parse_session_line(&"name: 2 windows (created unterminated".to_string()).is_none());
    assert!(
        parse_session_line(&"name: 99999999999 windows (created y)".to_string()).is_none()
    );
}

#[test]
fn sanitize_replaces_dots_with_underscores() {
    assert_eq!("/a_b/c_d", sanitize_session_name(&"/a.b/c.d".to_string()));
    assert_eq!("/plain", sanitize_session_name(&"/plain".to_string()));
    assert_eq!("", sanitize_session_name(&"".to_string()));
}

#[test]
fn project_matches_the_first_session_with_its_path() {
    let sessions = vec![
        Session {
            name: "/other".to_string(),
            window_count: 1,
            date_created: "a".to_string(),
            attached: false,
        },
        Session {
            name: "/proj.x".to_string(),
            window_count: 4,
            date_created: "b".to_string(),
            attached: true,
        },
    ];
    let p = Project::new("/proj.x".to_string(), &sessions);
    assert_eq!("/proj.x", p.path);
    assert_eq!("/proj.x", p.path_name);
    assert_eq!("/proj_x", p.session_name);
    let s = p.session.expect("the second session matches");
    assert_eq!(4, s.window_count);
    assert!(s.attached);

    let q = Project::new("/nowhere".to_string(), &sessions);
    assert!(q.session.is_none());
}
