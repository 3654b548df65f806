//! The envelope of the message that wakes a session when a background job
//! ends.
//!
//! ```text
//! <background-job-report>后台子代理「标题」已执行完毕：
//! - job_id: 79ea0b
//! - 任务: …
//! - 状态: 已完成（运行 12 秒）
//! - 日志: /…/79ea0b.log
//! - 子代理结论:
//! 结论正文
//! 这是系统自动触发的跟进，不是用户消息。</background-job-report>
//! ```
//!
//! What a terminal unfolds is the last section: what a subagent concluded, why
//! it failed, or how the output of a command ends.

use vstd::prelude::*;

use crate::text::{
    self, chars_of, find_str, head, rfind_str, string_of, strip_end, strip_start, tail,
    without_leading_space, without_trailing_space,
};

verus! {

pub const BACKGROUND_JOB_REPORT_TAG: &'static str = "<background-job-report>";

pub const BACKGROUND_JOB_REPORT_CLOSE_TAG: &'static str = "</background-job-report>";

/// The sentence after the last section, where that section ends.
pub const JOB_REPORT_TRAILER: &'static str = "这是系统自动触发的跟进，不是用户消息。";

/// What the last section of a report is.
#[derive(Clone, Copy, Debug, PartialEq, Eq, Structural)]
pub enum JobReportKind {
    /// What a subagent concluded.
    Conclusion,
    /// Why a subagent failed.
    Failure,
    /// The last lines of a command's output.
    OutputTail,
}

impl JobReportKind {
    /// The label in the report, the same in every language.
    pub open spec fn name(self) -> &'static str {
        match self {
            JobReportKind::Conclusion => "子代理结论",
            JobReportKind::Failure => "子代理失败",
            JobReportKind::OutputTail => "输出结尾",
        }
    }

    /// The label in the report, the same in every language.
    pub fn label(self) -> (label: &'static str)
        ensures
            label == self.name(),
    {
        match self {
            JobReportKind::Conclusion => "子代理结论",
            JobReportKind::Failure => "子代理失败",
            JobReportKind::OutputTail => "输出结尾",
        }
    }

    /// The line that opens the section.
    pub open spec fn line(self) -> Seq<char> {
        "\n- "@ + self.name()@ + ":\n"@
    }
}

/// The last section of a report.
#[derive(Debug, PartialEq, Eq)]
pub struct JobReportResult {
    pub kind: JobReportKind,
    pub body: String,
}

/// Where the section of kind `kind` starts in `s`, if there is one.
pub open spec fn section_start(s: Seq<char>, kind: JobReportKind) -> Option<int> {
    match text::find(s, kind.line()) {
        Some(at) => Some(at + kind.line().len()),
        None => None,
    }
}

/// The earlier of two sections, the first where they start together.
pub open spec fn earlier(
    a: Option<(JobReportKind, int)>,
    b: Option<(JobReportKind, int)>,
) -> Option<(JobReportKind, int)> {
    match (a, b) {
        (Some(x), Some(y)) => if x.1 <= y.1 {
            a
        } else {
            b
        },
        (Some(_), None) => a,
        (None, _) => b,
    }
}

/// A kind and where its section starts in `s`.
pub open spec fn section(s: Seq<char>, kind: JobReportKind) -> Option<(JobReportKind, int)> {
    match section_start(s, kind) {
        Some(start) => Some((kind, start)),
        None => None,
    }
}

/// The section that starts first in `s`.
pub open spec fn first_section(s: Seq<char>) -> Option<(JobReportKind, int)> {
    earlier(
        earlier(section(s, JobReportKind::Conclusion), section(s, JobReportKind::Failure)),
        section(s, JobReportKind::OutputTail),
    )
}

/// What belongs to a section that runs on to the end of the report.
pub open spec fn section_body(s: Seq<char>) -> Seq<char> {
    text::trim_end(
        match text::rfind(s, JOB_REPORT_TRAILER@) {
            Some(at) => s.take(at),
            None => match text::strip_suffix(s, BACKGROUND_JOB_REPORT_CLOSE_TAG@) {
                Some(body) => body,
                None => s,
            },
        },
    )
}

/// The part of a report in which sections are looked for: from the status line
/// on, since the line before it quotes a command that may hold anything.
pub open spec fn from_status(s: Seq<char>) -> Seq<char> {
    match text::find(s, "\n- 状态: "@) {
        Some(at) => s.skip(at + 1),
        None => s,
    }
}

/// The last section of the report `content` is. `None` where it is no report
/// or its last section says nothing.
pub open spec fn result_of(content: Seq<char>) -> Option<(JobReportKind, Seq<char>)> {
    match text::strip_prefix(text::trim_start(content), BACKGROUND_JOB_REPORT_TAG@) {
        Some(rest) => {
            let rest = from_status(rest);
            match first_section(rest) {
                Some((kind, start)) => {
                    let body = section_body(rest.skip(start));
                    if text::trim(body).len() == 0 {
                        None
                    } else {
                        Some((kind, body))
                    }
                },
                None => None,
            }
        },
        None => None,
    }
}

/// A kind and where its section starts.
fn section_at(chars: &Vec<char>, kind: JobReportKind) -> (found: Option<(JobReportKind, usize)>)
    ensures
        match found {
            Some((k, start)) => section(chars@, kind) == Some((k, start as int)) && start
                <= chars@.len(),
            None => section(chars@, kind) is None,
        },
{
    let mut line = "\n- ".to_owned();
    line.append(kind.label());
    line.append(":\n");
    assert(line@ == kind.line());
    match find_str(chars, line.as_str()) {
        Some(at) => Some((kind, at + line.as_str().unicode_len())),
        None => None,
    }
}

/// The earlier of two sections.
fn earlier_of(
    a: Option<(JobReportKind, usize)>,
    b: Option<(JobReportKind, usize)>,
) -> (r: Option<(JobReportKind, usize)>)
    ensures
        r == (match (a, b) {
            (Some(x), Some(y)) => if x.1 <= y.1 {
                a
            } else {
                b
            },
            (Some(_), None) => a,
            (None, _) => b,
        }),
{
    match (a, b) {
        (Some(x), Some(y)) => if x.1 <= y.1 {
            a
        } else {
            b
        },
        (Some(_), None) => a,
        (None, _) => b,
    }
}

/// The last section of the report `content` is. `None` where it is no report
/// or its last section says nothing.
pub fn job_report_result(content: &str) -> (result: Option<JobReportResult>)
    ensures
        match result {
            Some(r) => result_of(content@) == Some((r.kind, r.body@)),
            None => result_of(content@) is None,
        },
{
    let rest = match strip_start(
        &without_leading_space(&chars_of(content)),
        BACKGROUND_JOB_REPORT_TAG,
    ) {
        Some(rest) => rest,
        None => return None,
    };
    proof {
        reveal_strlit("\n- 状态: ");
    }
    let rest = match find_str(&rest, "\n- 状态: ") {
        Some(at) => tail(&rest, at + 1),
        None => rest,
    };
    let first = earlier_of(
        earlier_of(
            section_at(&rest, JobReportKind::Conclusion),
            section_at(&rest, JobReportKind::Failure),
        ),
        section_at(&rest, JobReportKind::OutputTail),
    );
    let (kind, start) = match first {
        Some(found) => found,
        None => return None,
    };
    let body = tail(&rest, start);
    let body = match rfind_str(&body, JOB_REPORT_TRAILER) {
        Some(at) => head(&body, at),
        None => match strip_end(&body, BACKGROUND_JOB_REPORT_CLOSE_TAG) {
            Some(inner) => inner,
            None => body,
        },
    };
    let body = without_trailing_space(&body);
    if without_trailing_space(&without_leading_space(&body)).len() == 0 {
        None
    } else {
        Some(JobReportResult { kind, body: string_of(&body) })
    }
}

/// What stands before the status line of a report does not count: two reports
/// that agree from that line on have the same last section.
pub proof fn what_precedes_the_status_line_does_not_count(
    one: Seq<char>,
    other: Seq<char>,
    rest: Seq<char>,
)
    requires
        text::find(one + "\n- 状态: "@ + rest, "\n- 状态: "@) == Some(one.len() as int),
        text::find(other + "\n- 状态: "@ + rest, "\n- 状态: "@) == Some(other.len() as int),
    ensures
        result_of(BACKGROUND_JOB_REPORT_TAG@ + (one + "\n- 状态: "@ + rest)) == result_of(
            BACKGROUND_JOB_REPORT_TAG@ + (other + "\n- 状态: "@ + rest),
        ),
{
    reveal_strlit("<background-job-report>");
    reveal_strlit("\n- 状态: ");
    let tag = BACKGROUND_JOB_REPORT_TAG@;
    let a = one + "\n- 状态: "@ + rest;
    let b = other + "\n- 状态: "@ + rest;
    assert((tag + a)[0] == '<' && (tag + b)[0] == '<');
    assert((tag + a).subrange(0, tag.len() as int) =~= tag);
    assert((tag + b).subrange(0, tag.len() as int) =~= tag);
    assert((tag + a).skip(tag.len() as int) =~= a);
    assert((tag + b).skip(tag.len() as int) =~= b);
    assert(a.skip(one.len() as int + 1) =~= b.skip(other.len() as int + 1));
}

// ---------------------------------------------------------------------------
// Laws
// ---------------------------------------------------------------------------

/// Each kind of section has its own label.
pub proof fn sections_have_their_labels(kind: JobReportKind, label: &'static str)
    requires
        call_ensures(JobReportKind::label, (kind,), label),
    ensures
        kind is Conclusion ==> label@ == "子代理结论"@,
        kind is Failure ==> label@ == "子代理失败"@,
        kind is OutputTail ==> label@ == "输出结尾"@,
        kind.line() == "\n- "@ + label@ + ":\n"@,
{
}

/// The section of a report that is given is the one that begins first, with
/// what stands between its line and the last closing sentence, without white
/// space at the end. A section with nothing but white space is none.
pub proof fn the_first_section_is_given(
    content: &str,
    result: Option<JobReportResult>,
    told: Seq<char>,
    kind: JobReportKind,
    at: int,
    body: Seq<char>,
    tail: Seq<char>,
)
    requires
        call_ensures(job_report_result, (content,), result),
        content@ == "<background-job-report>"@ + told,
        text::find(told, "\n- 状态: "@) is None,
        text::find(told, kind.line()) == Some(at),
        forall|other: JobReportKind, start: int|
            other != kind && text::find(told, #[trigger] other.line()) == Some(start)
                ==> #[trigger] later_start(at, kind, start, other),
        told.skip(at + kind.line().len()) == body + "这是系统自动触发的跟进，不是用户消息。"@ + tail,
        text::rfind(
            body + "这是系统自动触发的跟进，不是用户消息。"@ + tail,
            "这是系统自动触发的跟进，不是用户消息。"@,
        ) == Some(body.len() as int),
    ensures
        text::trim(text::trim_end(body)).len() == 0 ==> result is None,
        text::trim(text::trim_end(body)).len() > 0 ==> (result matches Some(found) && found.kind
            == kind && found.body@ == text::trim_end(body)),
{
    reveal_strlit("<background-job-report>");
    let tag = "<background-job-report>"@;
    assert(content@[0] == '<');
    text::words_are_no_space('<');
    assert(text::trim_start(content@) == content@);
    assert(content@.subrange(0, tag.len() as int) =~= tag);
    assert(content@.skip(tag.len() as int) =~= told);
    let end = body + "这是系统自动触发的跟进，不是用户消息。"@ + tail;
    assert(end.take(body.len() as int) =~= body);
    let a = section(told, JobReportKind::Conclusion);
    let b = section(told, JobReportKind::Failure);
    let c = section(told, JobReportKind::OutputTail);
    if let Some(s) = text::find(told, JobReportKind::Conclusion.line()) {
        assert(kind != JobReportKind::Conclusion ==> later_start(
            at,
            kind,
            s,
            JobReportKind::Conclusion,
        ));
    }
    if let Some(s) = text::find(told, JobReportKind::Failure.line()) {
        assert(kind != JobReportKind::Failure ==> later_start(at, kind, s, JobReportKind::Failure));
    }
    if let Some(s) = text::find(told, JobReportKind::OutputTail.line()) {
        assert(kind != JobReportKind::OutputTail ==> later_start(
            at,
            kind,
            s,
            JobReportKind::OutputTail,
        ));
    }
    assert(first_section(told) == Some((kind, at + kind.line().len())));
}

/// Whether what a section says begins behind where another's does.
pub open spec fn later_start(
    at: int,
    kind: JobReportKind,
    start: int,
    other: JobReportKind,
) -> bool {
    at + kind.line().len() < start + other.line().len()
}

/// What is no report has no section.
pub proof fn other_messages_have_no_section(content: &str, result: Option<JobReportResult>)
    requires
        call_ensures(job_report_result, (content,), result),
        !text::matches_at(text::trim_start(content@), "<background-job-report>"@, 0),
    ensures
        result is None,
{
}

} // verus!
