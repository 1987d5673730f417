use rust_kart::gh_prs::{
    column_shown, count_human_comments, count_review_body_comments, derive_ci_emoji, derive_review_emoji, is_bot,
    keep_since, parse_duration, parse_since, relative_time_text, since_error, Author, Comment, Review, Since,
    Span, SpanUnit, StatusCheck,
};

fn author(login: &str) -> Option<Author> {
    Some(Author { login: login.to_string() })
}

fn check(state: Option<&str>, status: Option<&str>, conclusion: Option<&str>) -> StatusCheck {
    StatusCheck {
        state: state.map(String::from),
        status: status.map(String::from),
        conclusion: conclusion.map(String::from),
    }
}

#[test]
fn bots_are_recognised_by_suffix_or_name() {
    assert!(is_bot("dependabot[bot]"));
    assert!(is_bot("Renovate"));
    assert!(is_bot("my-bot"));
    assert!(is_bot("GITHUB-ACTIONS"));
    assert!(!is_bot("alice"));
    assert!(!is_bot("robot"));
    assert!(!is_bot("linearity"));
}

#[test]
fn only_human_authored_comments_count() {
    let comments = vec![
        Comment { author: author("alice") },
        Comment { author: None },
        Comment { author: author("github-actions") },
        Comment { author: author("bob") },
    ];
    assert_eq!(count_human_comments(&comments), 2);
    assert_eq!(count_human_comments(&[]), 0);
}

#[test]
fn review_bodies_count_when_not_blank_and_human() {
    let reviews = vec![
        Review { author: author("alice"), body: "looks good".to_string() },
        Review { author: author("alice"), body: "  \n ".to_string() },
        Review { author: author("codecov"), body: "coverage".to_string() },
        Review { author: None, body: "anonymous".to_string() },
    ];
    assert_eq!(count_review_body_comments(&reviews), 1);
}

#[test]
fn review_decision_marks() {
    assert_eq!(derive_review_emoji(Some("APPROVED")), "✅");
    assert_eq!(derive_review_emoji(Some("CHANGES_REQUESTED")), "❌");
    assert_eq!(derive_review_emoji(Some("REVIEW_REQUIRED")), "");
    assert_eq!(derive_review_emoji(None), "");
}

#[test]
fn ci_marks() {
    assert_eq!(derive_ci_emoji(&[]), "");
    assert_eq!(derive_ci_emoji(&[check(Some("FAILURE"), None, None)]), "❌");
    assert_eq!(derive_ci_emoji(&[check(None, Some("COMPLETED"), Some("SUCCESS"))]), "✅");
    assert_eq!(derive_ci_emoji(&[check(None, Some("IN_PROGRESS"), None)]), "⏳");
    assert_eq!(derive_ci_emoji(&[check(Some("PENDING"), None, None)]), "⏳");
    assert_eq!(
        derive_ci_emoji(&[check(Some("PENDING"), None, None), check(None, None, Some("TIMED_OUT"))]),
        "❌"
    );
    assert_eq!(derive_ci_emoji(&[check(Some("SUCCESS"), None, Some("NEUTRAL"))]), "✅");
}

#[test]
fn durations_are_read_by_their_unit() {
    assert_eq!(parse_duration("7d"), Some(Span { count: 7, unit: SpanUnit::Days }));
    assert_eq!(parse_duration("2w"), Some(Span { count: 2, unit: SpanUnit::Weeks }));
    assert_eq!(parse_duration("24h"), Some(Span { count: 24, unit: SpanUnit::Hours }));
    assert_eq!(parse_duration("3m"), Some(Span { count: 90, unit: SpanUnit::Days }));
    assert_eq!(parse_duration("-1d"), Some(Span { count: -1, unit: SpanUnit::Days }));
    assert_eq!(parse_duration("5x"), None);
    assert_eq!(parse_duration("2024-01-01"), None);
    assert_eq!(parse_duration("d"), None);
}

#[test]
fn since_error_names_the_value() {
    assert_eq!(
        since_error("soon"),
        "Cannot parse 'soon' - expected duration (7d, 2w, 24h, 3m) or date (YYYY-MM-DD)"
    );
}

#[test]
fn relative_time_uses_the_largest_positive_unit() {
    assert_eq!(relative_time_text(2, 50, 3000), "2d ago");
    assert_eq!(relative_time_text(0, 5, 300), "5h ago");
    assert_eq!(relative_time_text(0, 0, 7), "7m ago");
    assert_eq!(relative_time_text(0, 0, 0), "just now");
    assert_eq!(relative_time_text(-1, -1, -1), "just now");
}

#[test]
fn since_values_are_durations_dates_or_times() {
    assert_eq!(parse_since("7d"), Ok(Since::Ago(Span { count: 7, unit: SpanUnit::Days })));
    assert_eq!(parse_since("3m"), Ok(Since::Ago(Span { count: 90, unit: SpanUnit::Days })));
    assert_eq!(parse_since("2024-01-15"), Ok(Since::At { secs: 1705276800, nanos: 0 }));
    assert_eq!(
        parse_since("2024-01-15T10:00:00.5+02:00"),
        Ok(Since::At { secs: 1705305600, nanos: 500_000_000 })
    );
    assert_eq!(
        parse_since("soon"),
        Err("Cannot parse 'soon' - expected duration (7d, 2w, 24h, 3m) or date (YYYY-MM-DD)".to_string())
    );
    assert!(parse_since("2024-02-30").is_err());
}

#[test]
fn the_since_cutoff_keeps_what_was_updated_at_or_after_it() {
    assert!(keep_since((100, 5), None));
    assert!(keep_since((100, 5), Some((100, 5))));
    assert!(keep_since((101, 0), Some((100, 999))));
    assert!(!keep_since((100, 4), Some((100, 5))));
    assert!(!keep_since((99, 999_999_999), Some((100, 0))));
}

#[test]
fn a_column_is_shown_when_a_row_has_a_mark() {
    assert!(!column_shown(&vec![String::new(), String::new()]));
    assert!(column_shown(&vec![String::new(), "✅".to_string()]));
    assert!(!column_shown(&Vec::new()));
}
