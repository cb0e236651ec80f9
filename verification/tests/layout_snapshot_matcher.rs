use glaze_layout::layout_snapshot_matcher::{
    build_layout_match_report, match_windows, match_windows_with_scores, score_window,
    LayoutMatchWindow, MatchableIdentity, MatchableWindow, MATCH_SCORE_THRESHOLD,
    SCORE_CLASS_NAME, SCORE_PROCESS_NAME, SCORE_PROCESS_PATH, SCORE_TITLE_CONTAINS,
    SCORE_TITLE_EXACT, SCORE_TITLE_FUZZY,
};


fn ident(
    path: Option<&str>,
    name: &str,
    class: Option<&str>,
    title: Option<&str>,
) -> MatchableIdentity {
    MatchableIdentity {
        process_path: path.map(str::to_string),
        process_name: name.to_string(),
        class_name: class.map(str::to_string),
        title: title.map(str::to_string),
    }
}

fn win(key: &str, identity: MatchableIdentity) -> MatchableWindow {
    MatchableWindow {
        key: key.to_string(),
        identity,
    }
}

fn match_win(
    key: &str,
    name: &str,
    title: Option<&str>,
    workspace: Option<&str>,
) -> LayoutMatchWindow {
    LayoutMatchWindow {
        key: key.to_string(),
        process_name: name.to_string(),
        process_path: None,
        class_name: None,
        title: title.map(str::to_string),
        workspace: workspace.map(str::to_string),
    }
}

#[test]
fn perfect_path_match_scores_high() {
    let snap = ident(
        Some(r"C:\Program Files\App\app.exe"),
        "app",
        Some("AppClass"),
        Some("Hello"),
    );
    let live = ident(
        Some(r"c:\program files\app\app.exe"),
        "APP",
        Some("AppClass"),
        Some("Hello"),
    );
    let score = score_window(&live, &snap);
    assert!(score >= SCORE_PROCESS_PATH + SCORE_PROCESS_NAME);
    assert!(score >= MATCH_SCORE_THRESHOLD);
}

#[test]
fn name_and_title_match_without_path() {
    let snap = ident(None, "code", None, Some("main.rs - Visual Studio Code"));
    let live = ident(
        None,
        "Code",
        Some("Chrome_WidgetWin_1"),
        Some("main.rs - Visual Studio Code"),
    );
    let score = score_window(&live, &snap);
    assert!(score >= SCORE_PROCESS_NAME + SCORE_TITLE_EXACT);
    assert!(score >= MATCH_SCORE_THRESHOLD);
}

#[test]
fn ambiguous_same_process_different_titles() {
    let snaps = vec![
        win(
            "snap-a",
            ident(None, "notepad", None, Some("notes.txt - Notepad")),
        ),
        win(
            "snap-b",
            ident(None, "notepad", None, Some("todo.txt - Notepad")),
        ),
    ];
    let lives = vec![
        win(
            "live-todo",
            ident(None, "notepad", None, Some("todo.txt - Notepad")),
        ),
        win(
            "live-notes",
            ident(None, "notepad", None, Some("notes.txt - Notepad")),
        ),
    ];

    let matched = match_windows(&snaps, &lives);
    assert_eq!(matched.len(), 2);
    assert!(matched.contains(&(
        "snap-a".to_string(),
        "live-notes".to_string()
    )));
    assert!(matched.contains(&(
        "snap-b".to_string(),
        "live-todo".to_string()
    )));
}

#[test]
fn no_double_assign_when_scores_collide() {
    let snaps = vec![
        win("snap-1", ident(None, "chrome", None, Some("Tab A"))),
        win("snap-2", ident(None, "chrome", None, Some("Tab B"))),
    ];
    // Only one live chrome window - second snapshot must remain unmatched.
    let lives = vec![win(
        "live-1",
        ident(None, "chrome", None, Some("Tab A")),
    )];

    let matched = match_windows(&snaps, &lives);
    assert_eq!(matched.len(), 1);
    assert_eq!(matched[0], ("snap-1".to_string(), "live-1".to_string()));
}

#[test]
fn weak_match_skipped_by_threshold() {
    // Different process names, only weak title overlap → below threshold.
    let snap = ident(None, "alpha", None, Some("Document"));
    let live = ident(None, "beta", None, Some("Document Draft"));
    let score = score_window(&live, &snap);
    assert!(score < MATCH_SCORE_THRESHOLD);

    let matched = match_windows(
        &[win("s", snap)],
        &[win("l", live)],
    );
    assert!(matched.is_empty());
}

#[test]
fn title_contains_scores_medium() {
    let snap = ident(None, "firefox", None, Some("GitHub"));
    let live = ident(
        None,
        "firefox",
        None,
        Some("GitHub - Pull requests"),
    );
    let score = score_window(&live, &snap);
    assert_eq!(
        score,
        SCORE_PROCESS_NAME + SCORE_TITLE_CONTAINS
    );
}

#[test]
fn fuzzy_title_prefix_handles_multibyte_utf8() {
    // 11 ASCII + 2-byte `é` would put a byte index of 12 mid-codepoint;
    // char-based prefix extraction must not panic and should still fuzzy-match.
    let snap = ident(None, "app", None, Some("aaaaaaaaaaaé rest"));
    let live = ident(None, "app", None, Some("aaaaaaaaaaaé other"));
    let score = score_window(&live, &snap);
    assert_eq!(score, SCORE_PROCESS_NAME + SCORE_TITLE_FUZZY);

    // Mixed Japanese + ASCII titles.
    let snap_jp = ident(None, "code", None, Some("編集.rs - 窓"));
    let live_jp = ident(None, "code", None, Some("編集.rs - 窓"));
    let score_jp = score_window(&live_jp, &snap_jp);
    assert!(score_jp >= SCORE_PROCESS_NAME + SCORE_TITLE_EXACT);

    // Emoji + ASCII: must not panic even when titles only weakly overlap.
    let snap_emoji = ident(None, "chat", None, Some("🔥hello world"));
    let live_emoji = ident(None, "chat", None, Some("🔥hello there"));
    let score_emoji = score_window(&live_emoji, &snap_emoji);
    assert!(score_emoji >= SCORE_PROCESS_NAME);
}

#[test]
fn match_windows_with_scores_returns_score() {
    let snaps = vec![win(
        "s",
        ident(None, "notepad", None, Some("a.txt - Notepad")),
    )];
    let lives = vec![win(
        "l",
        ident(None, "notepad", None, Some("a.txt - Notepad")),
    )];
    let scored = match_windows_with_scores(&snaps, &lives);
    assert_eq!(scored.len(), 1);
    assert_eq!(scored[0].0, "s");
    assert_eq!(scored[0].1, "l");
    assert!(scored[0].2 >= MATCH_SCORE_THRESHOLD);
}

#[test]
fn build_layout_match_report_includes_planned_move_and_unmatched() {
    let snaps = vec![
        match_win("snap-a", "notepad", Some("a.txt"), Some("work")),
        match_win("snap-b", "chrome", Some("Tab"), Some("web")),
    ];
    let lives = vec![
        match_win("live-a", "notepad", Some("a.txt"), Some("home")),
        match_win("live-c", "spotify", Some("Music"), Some("media")),
    ];

    let report = build_layout_match_report(&snaps, &lives);
    assert_eq!(report.matched.len(), 1);
    assert_eq!(report.matched[0].snapshot.key, "snap-a");
    assert_eq!(report.matched[0].live.key, "live-a");
    assert!(report.matched[0].score >= MATCH_SCORE_THRESHOLD);
    let plan = report.matched[0]
        .planned_workspace_move
        .as_ref()
        .expect("planned move");
    assert_eq!(plan.from.as_deref(), Some("home"));
    assert_eq!(plan.to, "work");

    assert_eq!(report.unmatched_snapshot.len(), 1);
    assert_eq!(report.unmatched_snapshot[0].key, "snap-b");
    assert_eq!(report.unmatched_live.len(), 1);
    assert_eq!(report.unmatched_live[0].key, "live-c");
}

#[test]
fn build_layout_match_report_no_move_when_workspace_same() {
    let snaps = vec![match_win(
        "snap-a",
        "notepad",
        Some("a.txt"),
        Some("work"),
    )];
    let lives = vec![match_win(
        "live-a",
        "notepad",
        Some("a.txt"),
        Some("work"),
    )];
    let report = build_layout_match_report(&snaps, &lives);
    assert_eq!(report.matched.len(), 1);
    assert!(report.matched[0].planned_workspace_move.is_none());
    assert!(report.unmatched_snapshot.is_empty());
    assert!(report.unmatched_live.is_empty());
}

#[test]
fn every_part_of_the_identity_scores() {
    let full = ident(Some("C:\\a.exe"), "a", Some("K"), Some("T"));
    assert_eq!(
        score_window(&full, &ident(Some("c:\\A.EXE"), "A", Some("K"), Some("t"))),
        SCORE_PROCESS_PATH + SCORE_PROCESS_NAME + SCORE_CLASS_NAME + SCORE_TITLE_EXACT
    );
    assert_eq!(score_window(&full, &ident(None, "b", Some("k"), None)), 0);
}

#[test]
fn titles_are_compared_in_lower_case() {
    // The capital sharp s has a lower-case form beyond ASCII.
    let snap = ident(None, "app", None, Some("STRA\u{1e9e}E"));
    let live = ident(None, "app", None, Some("stra\u{df}e"));
    assert_eq!(score_window(&live, &snap), SCORE_PROCESS_NAME + SCORE_TITLE_EXACT);
}

#[test]
fn best_pair_is_taken_first() {
    let snaps = vec![
        win("s-weak", ident(None, "app", None, Some("one document"))),
        win("s-strong", ident(None, "app", None, Some("one"))),
    ];
    let lives = vec![win("l", ident(None, "app", None, Some("one")))];
    let scored = match_windows_with_scores(&snaps, &lives);
    assert_eq!(
        scored,
        vec![("s-strong".to_string(), "l".to_string(), SCORE_PROCESS_NAME + SCORE_TITLE_EXACT)]
    );
}

#[test]
fn match_window_entries_convert_both_ways() {
    let entry = match_win("k", "app", Some("T"), Some("1"));
    let matchable = entry.to_matchable();
    assert_eq!(matchable.key, "k");
    assert_eq!(matchable.identity, ident(None, "app", None, Some("T")));
    assert_eq!(LayoutMatchWindow::from_matchable(&matchable, Some("1".to_string())), entry);
}

#[test]
fn store_app_matches_across_versions() {
    let at = |path: &str| ident(Some(path), "WindowsTerminal", None, None);
    let saved =
        at(r"C:\Program Files\WindowsApps\WT_1.18.0.0_x64__8wek\WindowsTerminal.exe");
    let live =
        at(r"C:\Program Files\WindowsApps\WT_1.19.0.0_x64__8wek\WindowsTerminal.exe");
    assert_eq!(score_window(&live, &saved), SCORE_PROCESS_PATH + SCORE_PROCESS_NAME);
    assert_eq!(score_window(&live, &saved), 150);
    assert_eq!(score_window(&saved, &live), 150);

    let upper =
        at(r"c:\program files\windowsapps\wt_1.19.0.0_x64__8wek\windowsterminal.exe");
    assert_eq!(score_window(&upper, &saved), 150);
}

#[test]
fn only_the_package_version_may_differ() {
    let at = |path: &str| ident(Some(path), "app", None, None);
    let saved = at(r"C:\Program Files\WindowsApps\WT_1.18_x64__8wek\app.exe");
    let others = [
        r"C:\Program Files\WindowsApps\Other_1.18_x64__8wek\app.exe",
        r"C:\Program Files\WindowsApps\WT_1.18_x64__8wek\bin\app.exe",
        r"C:\Program Files\Elsewhere\WT_1.19_x64__8wek\app.exe",
        r"D:\Program Files\WindowsApps\WT_1.19_x64__8wek\app.exe",
    ];
    for other in others {
        assert_eq!(score_window(&at(other), &saved), SCORE_PROCESS_NAME);
    }
    let plain = at(r"C:\Apps\tool_1.0\app.exe");
    assert_eq!(score_window(&at(r"C:\Apps\tool_1.1\app.exe"), &plain), SCORE_PROCESS_NAME);
}

#[test]
fn report_counts_every_window_once() {
    let live = [
        match_win("a", "alpha", None, Some("1")),
        match_win("b", "beta", None, Some("1")),
        match_win("c", "gamma", None, None),
    ];
    let snap = [
        match_win("x", "alpha", None, Some("1")),
        match_win("y", "delta", None, Some("2")),
    ];
    let report = build_layout_match_report(&snap, &live);
    assert_eq!(report.matched.len(), 1);
    assert_eq!(report.matched.len() + report.unmatched_live.len(), live.len());
    assert_eq!(report.matched.len() + report.unmatched_snapshot.len(), snap.len());
}
