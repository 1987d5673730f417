//! What the listing of one's open GitHub pull requests decides: who is a bot,
//! which comments count, how review and CI states are shown, how a `--since`
//! value is read (a duration, or a date or time that chrono parses), and how
//! long ago an update was.  Running `gh`, reading its JSON and the clock are
//! the program's business.
use vstd::prelude::*;
use crate::numbers::{parse_i64, parse_int, IntErrorKind};
use crate::text::{
    append_chars, chars_eq, chars_of, ends_with, lowercase, str_is, string_of, to_lowercase, trim,
    trim_chars,
};
use crate::git_branches::{decimal, decimal_u64};

verus! {

/// The author of a comment or review.
#[derive(Debug)]
pub struct Author {
    pub login: String,
}

/// A comment on a pull request.
#[derive(Debug)]
pub struct Comment {
    pub author: Option<Author>,
}

/// A review of a pull request.
#[derive(Debug)]
pub struct Review {
    pub author: Option<Author>,
    pub body: String,
}

/// One CI check of a pull request.
#[derive(Debug)]
pub struct StatusCheck {
    pub state: Option<String>,
    pub status: Option<String>,
    pub conclusion: Option<String>,
}

/// Accounts known to be bots, by lower-case login.
pub open spec fn bot_names() -> Seq<Seq<char>> {
    seq![
        "github-actions"@,
        "dependabot"@,
        "renovate"@,
        "codecov"@,
        "netlify"@,
        "vercel"@,
        "semantic-release-bot"@,
        "snyk-bot"@,
        "imgbot"@,
        "allcontributors"@,
        "greenkeeper"@,
        "linear"@,
    ]
}

/// Whether `s` ends with `p`.
pub open spec fn has_suffix(s: Seq<char>, p: Seq<char>) -> bool {
    p.len() <= s.len() && s.skip(s.len() - p.len()) == p
}

/// Whether the account `login` is a bot: its lower-cased login ends with
/// `[bot]` or `-bot`, or is a known bot's.
pub open spec fn bot(login: Seq<char>) -> bool {
    let l = lowercase(login);
    has_suffix(l, "[bot]"@) || has_suffix(l, "-bot"@) || bot_names().contains(l)
}

/// Whether `login` is one of the known bots' logins.
fn is_bot_name(l: &str) -> (r: bool)
    ensures
        r == bot_names().contains(l@),
{
    let names = [
        "github-actions",
        "dependabot",
        "renovate",
        "codecov",
        "netlify",
        "vercel",
        "semantic-release-bot",
        "snyk-bot",
        "imgbot",
        "allcontributors",
        "greenkeeper",
        "linear",
    ];
    let ghost ns = bot_names();
    assert(names@.map_values(|n: &str| n@) =~= ns);
    let mut i: usize = 0;
    while i < 12
        invariant
            i <= 12,
            ns == bot_names(),
            names@.map_values(|n: &str| n@) == ns,
            forall|k: int| 0 <= k < i ==> ns[k] != l@,
        decreases 12 - i,
    {
        assert(names@[i as int]@ == ns[i as int]);
        if str_is(l, names[i]) {
            assert(ns[i as int] == l@);
            return true;
        }
        i = i + 1;
    }
    false
}

/// Whether the account `login` is a bot.
pub fn is_bot(login: &str) -> (r: bool)
    ensures
        r == bot(login@),
{
    let lower = to_lowercase(login);
    let l = chars_of(lower.as_str());
    ends_with(&l, &chars_of("[bot]")) || ends_with(&l, &chars_of("-bot")) || is_bot_name(
        lower.as_str(),
    )
}

/// Whether an item by `author` is by a human: it has an author, not a bot.
pub open spec fn by_human(author: Option<Author>) -> bool {
    match author {
        Some(a) => !bot(a.login@),
        None => false,
    }
}

/// How many of the comments are by humans.
pub open spec fn human_comments(cs: Seq<Comment>) -> nat
    decreases cs.len(),
{
    if cs.len() == 0 {
        0
    } else {
        human_comments(cs.drop_last()) + if by_human(cs.last().author) {
            1nat
        } else {
            0nat
        }
    }
}

/// Count the comments written by humans.
pub fn count_human_comments(comments: &[Comment]) -> (r: usize)
    ensures
        r == human_comments(comments@),
{
    let mut n: usize = 0;
    let mut i: usize = 0;
    while i < comments.len()
        invariant
            i <= comments@.len(),
            n == human_comments(comments@.take(i as int)),
            n <= i,
        decreases comments@.len() - i,
    {
        assert(comments@.take(i + 1).drop_last() =~= comments@.take(i as int));
        let human = match &comments[i].author {
            Some(a) => !is_bot(a.login.as_str()),
            None => false,
        };
        if human {
            n = n + 1;
        }
        i = i + 1;
    }
    assert(comments@.take(comments@.len() as int) =~= comments@);
    n
}

/// How many of the reviews are by humans and have a body that is not blank.
pub open spec fn review_comments(rs: Seq<Review>) -> nat
    decreases rs.len(),
{
    if rs.len() == 0 {
        0
    } else {
        review_comments(rs.drop_last()) + if trim(rs.last().body@).len() > 0 && by_human(
            rs.last().author,
        ) {
            1nat
        } else {
            0nat
        }
    }
}

/// Count the reviews by humans whose body says something.
pub fn count_review_body_comments(reviews: &[Review]) -> (r: usize)
    ensures
        r == review_comments(reviews@),
{
    let mut n: usize = 0;
    let mut i: usize = 0;
    while i < reviews.len()
        invariant
            i <= reviews@.len(),
            n == review_comments(reviews@.take(i as int)),
            n <= i,
        decreases reviews@.len() - i,
    {
        assert(reviews@.take(i + 1).drop_last() =~= reviews@.take(i as int));
        let r = &reviews[i];
        let body = trim_chars(&chars_of(r.body.as_str()));
        let counts = body.len() > 0 && match &r.author {
            Some(a) => !is_bot(a.login.as_str()),
            None => false,
        };
        if counts {
            n = n + 1;
        }
        i = i + 1;
    }
    assert(reviews@.take(reviews@.len() as int) =~= reviews@);
    n
}

/// The mark shown for a review decision.
pub open spec fn review_mark(decision: Option<Seq<char>>) -> Seq<char> {
    match decision {
        Some(d) => if d == "APPROVED"@ {
            "✅"@
        } else if d == "CHANGES_REQUESTED"@ {
            "❌"@
        } else {
            Seq::empty()
        },
        None => Seq::empty(),
    }
}

/// Derive the mark shown for a review decision.
pub fn derive_review_emoji(review_decision: Option<&str>) -> (r: String)
    ensures
        r@ == review_mark(
            match review_decision {
                Some(d) => Some(d@),
                None => None,
            },
        ),
{
    match review_decision {
        Some(d) => {
            if str_is(d, "APPROVED") {
                String::from_str("✅")
            } else if str_is(d, "CHANGES_REQUESTED") {
                String::from_str("❌")
            } else {
                String::new()
            }
        },
        None => String::new(),
    }
}

/// Whether `v` is present and is one of `names`.
pub open spec fn is_one_of(v: Option<String>, names: Seq<Seq<char>>) -> bool {
    match v {
        Some(s) => names.contains(s@),
        None => false,
    }
}

/// Whether a check has failed.
pub open spec fn check_failed(c: StatusCheck) -> bool {
    is_one_of(c.state, seq!["FAILURE"@, "ERROR"@]) || is_one_of(
        c.conclusion,
        seq!["FAILURE"@, "TIMED_OUT"@, "CANCELLED"@, "ACTION_REQUIRED"@],
    )
}

/// Whether a check is still pending.
pub open spec fn check_pending(c: StatusCheck) -> bool {
    (match c.state {
        Some(s) => s@ == "PENDING"@,
        None => false,
    }) || (match c.status {
        Some(s) => s@ != "COMPLETED"@,
        None => false,
    })
}

/// The mark shown for a pull request's checks: none without checks; a cross
/// if any failed; an hourglass if any is pending; else a tick.
pub open spec fn ci_mark(checks: Seq<StatusCheck>) -> Seq<char> {
    if checks.len() == 0 {
        Seq::empty()
    } else if exists|i: int| 0 <= i < checks.len() && check_failed(#[trigger] checks[i]) {
        "❌"@
    } else if exists|i: int| 0 <= i < checks.len() && check_pending(#[trigger] checks[i]) {
        "⏳"@
    } else {
        "✅"@
    }
}

fn any_of(v: &Option<String>, names: &[&str]) -> (r: bool)
    ensures
        r == is_one_of(*v, names@.map_values(|n: &str| n@)),
{
    match v {
        None => false,
        Some(s) => {
            let ghost ns = names@.map_values(|n: &str| n@);
            let mut i: usize = 0;
            while i < names.len()
                invariant
                    i <= names@.len(),
                    *v == Some(*s),
                    ns == names@.map_values(|n: &str| n@),
                    forall|k: int| 0 <= k < i ==> ns[k] != s@,
                decreases names@.len() - i,
            {
                if str_is(s.as_str(), names[i]) {
                    assert(ns[i as int] == s@);
                    assert(ns.contains(s@));
                    return true;
                }
                i = i + 1;
            }
            false
        },
    }
}

/// Derive the mark shown for a pull request's checks.
pub fn derive_ci_emoji(checks: &[StatusCheck]) -> (r: String)
    ensures
        r@ == ci_mark(checks@),
{
    if checks.len() == 0 {
        return String::new();
    }
    let state_fail = ["FAILURE", "ERROR"];
    let conclusion_fail = ["FAILURE", "TIMED_OUT", "CANCELLED", "ACTION_REQUIRED"];
    assert(state_fail@.map_values(|n: &str| n@) =~= seq!["FAILURE"@, "ERROR"@]);
    assert(conclusion_fail@.map_values(|n: &str| n@) =~= seq![
        "FAILURE"@,
        "TIMED_OUT"@,
        "CANCELLED"@,
        "ACTION_REQUIRED"@,
    ]);
    let mut has_pending = false;
    let mut i: usize = 0;
    while i < checks.len()
        invariant
            i <= checks@.len(),
            state_fail@.map_values(|n: &str| n@) == seq!["FAILURE"@, "ERROR"@],
            conclusion_fail@.map_values(|n: &str| n@) == seq![
                "FAILURE"@,
                "TIMED_OUT"@,
                "CANCELLED"@,
                "ACTION_REQUIRED"@,
            ],
            forall|k: int| 0 <= k < i ==> !check_failed(#[trigger] checks@[k]),
            has_pending == exists|k: int| 0 <= k < i && check_pending(#[trigger] checks@[k]),
        decreases checks@.len() - i,
    {
        let c = &checks[i];
        if any_of(&c.state, &state_fail) || any_of(&c.conclusion, &conclusion_fail) {
            assert(check_failed(checks@[i as int]));
            return String::from_str("❌");
        }
        let pending_state = match &c.state {
            Some(s) => str_is(s.as_str(), "PENDING"),
            None => false,
        };
        let unfinished = match &c.status {
            Some(s) => !str_is(s.as_str(), "COMPLETED"),
            None => false,
        };
        if pending_state || unfinished {
            has_pending = true;
            assert(check_pending(checks@[i as int]));
        }
        i = i + 1;
    }
    if has_pending {
        String::from_str("⏳")
    } else {
        String::from_str("✅")
    }
}

/// The unit of a relative `--since` duration.
#[derive(Debug, Clone, Copy, PartialEq, Eq, Structural)]
pub enum SpanUnit {
    Days,
    Weeks,
    Hours,
}

/// A relative duration: a count of days, weeks or hours.
#[derive(Debug, Clone, Copy, PartialEq, Eq, Structural)]
pub struct Span {
    pub count: i64,
    pub unit: SpanUnit,
}

/// The duration `s` spells: a number, then `d`, `w`, `h`, or `m` (thirty
/// days).
pub open spec fn span_of(s: Seq<char>) -> Option<Span> {
    let num = parse_int(s.drop_last(), i64::MIN as int, i64::MAX as int, true);
    let unit = s.last();
    match num {
        Ok(n) => if unit == 'd' {
            Some(Span { count: n as i64, unit: SpanUnit::Days })
        } else if unit == 'w' {
            Some(Span { count: n as i64, unit: SpanUnit::Weeks })
        } else if unit == 'h' {
            Some(Span { count: n as i64, unit: SpanUnit::Hours })
        } else if unit == 'm' {
            Some(Span { count: (n * 30) as i64, unit: SpanUnit::Days })
        } else {
            None
        },
        Err(_) => None,
    }
}

/// Read a relative duration such as `7d`, `2w`, `24h` or `3m`.
pub fn parse_duration(s: &str) -> (r: Option<Span>)
    requires
        s@.len() > 0,
        (s@.last() as u32) < 0x80,
        s@.last() == 'm' ==> (parse_int(s@.drop_last(), i64::MIN as int, i64::MAX as int, true) matches Ok(
            n,
        ) ==> i64::MIN <= n * 30 <= i64::MAX),
    ensures
        r == span_of(s@),
{
    let cs = chars_of(s);
    let num_str = crate::text::slice_range(&cs, 0, cs.len() - 1);
    assert(num_str@ =~= s@.drop_last());
    let unit = cs[cs.len() - 1];
    match parse_i64(&num_str) {
        Err(_) => None,
        Ok(n) => {
            if unit == 'd' {
                Some(Span { count: n, unit: SpanUnit::Days })
            } else if unit == 'w' {
                Some(Span { count: n, unit: SpanUnit::Weeks })
            } else if unit == 'h' {
                Some(Span { count: n, unit: SpanUnit::Hours })
            } else if unit == 'm' {
                Some(Span { count: n * 30, unit: SpanUnit::Days })
            } else {
                None
            }
        },
    }
}

/// The message for a `--since` value that is neither a duration nor a date.
pub fn since_error(s: &str) -> (r: String)
    ensures
        r@ == "Cannot parse '"@ + s@
            + "' - expected duration (7d, 2w, 24h, 3m) or date (YYYY-MM-DD)"@,
{
    let mut t = chars_of("Cannot parse '");
    append_chars(&mut t, &chars_of(s));
    append_chars(&mut t, &chars_of("' - expected duration (7d, 2w, 24h, 3m) or date (YYYY-MM-DD)"));
    string_of(&t)
}

/// What `chrono::NaiveDate::parse_from_str(s, "%Y-%m-%d")` reads from `s`,
/// as the Unix time in seconds of that day's midnight in UTC; `None` where
/// chrono reads no date.
pub uninterp spec fn chrono_ymd_midnight(s: Seq<char>) -> Option<i64>;

/// What `chrono::DateTime::parse_from_rfc3339` reads from `s`, as the Unix
/// time in seconds and the nanoseconds past them of that moment in UTC;
/// `None` where chrono reads no time.
pub uninterp spec fn chrono_rfc3339(s: Seq<char>) -> Option<(i64, u32)>;

/// Parses `s` with `chrono::NaiveDate::parse_from_str` and the format
/// `%Y-%m-%d`, and gives the timestamp of that day at midnight UTC.  Claimed:
/// the result is `chrono_ymd_midnight` of `s` (chrono reads nothing else).
#[verifier::external_body]
fn parse_ymd_midnight(s: &str) -> (r: Option<i64>)
    ensures
        r == chrono_ymd_midnight(s@),
{
    let date = chrono::NaiveDate::parse_from_str(s, "%Y-%m-%d").ok()?;
    Some(date.and_hms_opt(0, 0, 0)?.and_utc().timestamp())
}

/// Parses `s` with `chrono::DateTime::parse_from_rfc3339` and gives the
/// moment's timestamp and nanoseconds in UTC.  Claimed: the result is
/// `chrono_rfc3339` of `s` (chrono reads nothing else).
#[verifier::external_body]
fn parse_rfc3339(s: &str) -> (r: Option<(i64, u32)>)
    ensures
        r == chrono_rfc3339(s@),
{
    let moment = chrono::DateTime::parse_from_rfc3339(s).ok()?.with_timezone(&chrono::Utc);
    Some((moment.timestamp(), moment.timestamp_subsec_nanos()))
}

/// What a `--since` value names: a duration back from now, or a moment in
/// UTC (seconds since the Unix epoch and the nanoseconds past them).
#[derive(Debug, Clone, Copy, PartialEq, Eq, Structural)]
pub enum Since {
    Ago(Span),
    At { secs: i64, nanos: u32 },
}

/// How a `--since` value is read: a duration first, then a date at midnight
/// UTC, then a full RFC 3339 time; otherwise the error message.
pub open spec fn since_of(s: Seq<char>) -> Result<Since, Seq<char>> {
    match span_of(s) {
        Some(span) => Ok(Since::Ago(span)),
        None => match chrono_ymd_midnight(s) {
            Some(secs) => Ok(Since::At { secs, nanos: 0 }),
            None => match chrono_rfc3339(s) {
                Some((secs, nanos)) => Ok(Since::At { secs, nanos }),
                None => Err(
                    "Cannot parse '"@ + s
                        + "' - expected duration (7d, 2w, 24h, 3m) or date (YYYY-MM-DD)"@,
                ),
            },
        },
    }
}

/// Read a `--since` value: a relative duration (`7d`, `2w`, `24h`, `3m`), a
/// date (`YYYY-MM-DD`, midnight UTC) or an RFC 3339 time.
pub fn parse_since(s: &str) -> (r: Result<Since, String>)
    requires
        s@.len() > 0,
        (s@.last() as u32) < 0x80,
        s@.last() == 'm' ==> (parse_int(s@.drop_last(), i64::MIN as int, i64::MAX as int, true) matches Ok(
            n,
        ) ==> i64::MIN <= n * 30 <= i64::MAX),
    ensures
        match since_of(s@) {
            Ok(v) => r == Ok::<Since, String>(v),
            Err(e) => r matches Err(m) && m@ == e,
        },
{
    if let Some(span) = parse_duration(s) {
        return Ok(Since::Ago(span));
    }
    if let Some(secs) = parse_ymd_midnight(s) {
        return Ok(Since::At { secs, nanos: 0 });
    }
    if let Some((secs, nanos)) = parse_rfc3339(s) {
        return Ok(Since::At { secs, nanos });
    }
    Err(since_error(s))
}

/// How long ago something happened, given the whole days, hours and minutes
/// elapsed: the largest positive of them, or `just now`.
pub open spec fn ago_text(days: i64, hours: i64, minutes: i64) -> Seq<char> {
    if days > 0 {
        decimal(days as nat) + "d ago"@
    } else if hours > 0 {
        decimal(hours as nat) + "h ago"@
    } else if minutes > 0 {
        decimal(minutes as nat) + "m ago"@
    } else {
        "just now"@
    }
}

/// The text of how long ago something happened.
pub fn relative_time_text(days: i64, hours: i64, minutes: i64) -> (r: String)
    ensures
        r@ == ago_text(days, hours, minutes),
{
    if days > 0 {
        let mut t = decimal_u64(days as u64);
        append_chars(&mut t, &chars_of("d ago"));
        string_of(&t)
    } else if hours > 0 {
        let mut t = decimal_u64(hours as u64);
        append_chars(&mut t, &chars_of("h ago"));
        string_of(&t)
    } else if minutes > 0 {
        let mut t = decimal_u64(minutes as u64);
        append_chars(&mut t, &chars_of("m ago"));
        string_of(&t)
    } else {
        String::from_str("just now")
    }
}

/// Whether a pull request updated at `updated` (seconds and nanoseconds since
/// the epoch) is listed under the cutoff `since`: always without a cutoff,
/// else unless it was updated before the cutoff.
pub open spec fn kept_since(updated: (i64, u32), since: Option<(i64, u32)>) -> bool {
    match since {
        None => true,
        Some(c) => !(updated.0 < c.0 || (updated.0 == c.0 && updated.1 < c.1)),
    }
}

/// Whether a pull request updated at `updated` is listed under `since`.
pub fn keep_since(updated: (i64, u32), since: Option<(i64, u32)>) -> (r: bool)
    ensures
        r == kept_since(updated, since),
{
    match since {
        None => true,
        Some(c) => !(updated.0 < c.0 || (updated.0 == c.0 && updated.1 < c.1)),
    }
}

/// A column of marks is shown when some row has a mark in it.
pub fn column_shown(marks: &Vec<String>) -> (r: bool)
    ensures
        r == exists|i: int| 0 <= i < marks@.len() && (#[trigger] marks@[i])@.len() > 0,
{
    let mut i: usize = 0;
    while i < marks.len()
        invariant
            i <= marks@.len(),
            forall|k: int| 0 <= k < i ==> (#[trigger] marks@[k])@.len() == 0,
        decreases marks@.len() - i,
    {
        if chars_of(marks[i].as_str()).len() > 0 {
            return true;
        }
        i = i + 1;
    }
    false
}


/// Whether a check reports failure in the words GitHub uses: its state is
/// `FAILURE` or `ERROR`, or its conclusion is `FAILURE`, `TIMED_OUT`,
/// `CANCELLED` or `ACTION_REQUIRED`.
pub open spec fn reports_failure(c: StatusCheck) -> bool {
    (match c.state {
        Some(s) => s@ == "FAILURE"@ || s@ == "ERROR"@,
        None => false,
    }) || (match c.conclusion {
        Some(k) => k@ == "FAILURE"@ || k@ == "TIMED_OUT"@ || k@ == "CANCELLED"@ || k@
            == "ACTION_REQUIRED"@,
        None => false,
    })
}

/// One failed, cancelled or timed-out check makes the mark a cross, whatever
/// the other checks say; and a cross is shown only when some check reports
/// such a failure.
pub proof fn lemma_failure_marks_cross(checks: Seq<StatusCheck>, i: int)
    requires
        0 <= i < checks.len(),
    ensures
        reports_failure(checks[i]) ==> ci_mark(checks) == "❌"@,
        ci_mark(checks) == "❌"@ ==> exists|j: int|
            0 <= j < checks.len() && reports_failure(#[trigger] checks[j]),
{
    let c = checks[i];
    if reports_failure(c) {
        let sf = seq!["FAILURE"@, "ERROR"@];
        let cf = seq!["FAILURE"@, "TIMED_OUT"@, "CANCELLED"@, "ACTION_REQUIRED"@];
        match c.state {
            Some(s) => {
                if s@ == "FAILURE"@ {
                    assert(sf[0] == s@);
                } else if s@ == "ERROR"@ {
                    assert(sf[1] == s@);
                }
            },
            None => {},
        }
        match c.conclusion {
            Some(k) => {
                if k@ == "FAILURE"@ {
                    assert(cf[0] == k@);
                } else if k@ == "TIMED_OUT"@ {
                    assert(cf[1] == k@);
                } else if k@ == "CANCELLED"@ {
                    assert(cf[2] == k@);
                } else if k@ == "ACTION_REQUIRED"@ {
                    assert(cf[3] == k@);
                }
            },
            None => {},
        }
        assert(check_failed(checks[i]));
    }
    if ci_mark(checks) == "❌"@ {
        reveal_strlit("❌");
        reveal_strlit("⏳");
        reveal_strlit("✅");
        assert(checks.len() > 0);
        assert("❌"@[0] == '❌' && "⏳"@[0] == '⏳' && "✅"@[0] == '✅');
        assert("❌"@ != "⏳"@);
        assert("❌"@ != "✅"@);
        let j = choose|j: int| 0 <= j < checks.len() && check_failed(#[trigger] checks[j]);
        assert(check_failed(checks[j]));
        assert(reports_failure(checks[j]));
    }
}

} // verus!
