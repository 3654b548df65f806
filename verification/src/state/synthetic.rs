//! Messages that the service wrote itself.

use vstd::prelude::*;

use crate::text::{self, chars_of, strip_start, without_leading_space};

use super::cross_session::CROSS_SESSION_MESSAGE_TAG;
use super::job_report::BACKGROUND_JOB_REPORT_TAG;
use super::service_restart::SERVICE_RESTART_TAG;

verus! {

/// Whether a message begins with the tag of one of the envelopes.
pub open spec fn is_synthetic(content: Seq<char>) -> bool {
    let s = text::trim_start(content);
    text::matches_at(s, BACKGROUND_JOB_REPORT_TAG@, 0) || text::matches_at(
        s,
        CROSS_SESSION_MESSAGE_TAG@,
        0,
    ) || text::matches_at(s, SERVICE_RESTART_TAG@, 0)
}

/// Whether a message was written by the service and not by the user.
pub fn is_synthetic_user_content(content: &str) -> (r: bool)
    ensures
        r == is_synthetic(content@),
{
    let chars = without_leading_space(&chars_of(content));
    strip_start(&chars, BACKGROUND_JOB_REPORT_TAG).is_some() || strip_start(
        &chars,
        CROSS_SESSION_MESSAGE_TAG,
    ).is_some() || strip_start(&chars, SERVICE_RESTART_TAG).is_some()
}

// ---------------------------------------------------------------------------
// Laws
// ---------------------------------------------------------------------------

/// A message counts as one that the service wrote exactly where, behind white
/// space, it begins with the tag of a report, of a message from another session
/// or of a restart.
pub proof fn three_tags_mark_a_message(content: &str, r: bool)
    requires
        call_ensures(is_synthetic_user_content, (content,), r),
    ensures
        r <==> text::matches_at(text::trim_start(content@), "<background-job-report>"@, 0)
            || text::matches_at(text::trim_start(content@), "<cross-session-message"@, 0)
            || text::matches_at(text::trim_start(content@), "<service-restart"@, 0),
{
}

} // verus!
