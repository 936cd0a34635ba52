//! Checking a question and answer before they are recorded.
use vstd::prelude::*;

use crate::error::CoiError;
use crate::text::{trim, trim_str};

verus! {

/// The trimmed question and answer, or which of them is blank.
pub fn validate_fqa_input(question: &str, answer: &str) -> (r: Result<(String, String), CoiError>)
    ensures
        match r {
            Ok((q, a)) => q@ == trim(question@) && a@ == trim(answer@) && q@.len() > 0 && a@.len()
                > 0,
            Err(CoiError::InvalidInput { reason }) => (trim(question@).len() == 0 && reason@
                == "问题不能为空白"@) || (trim(question@).len() > 0 && trim(answer@).len() == 0
                && reason@ == "答案不能为空白"@),
            Err(_) => false,
        },
{
    let q = trim_str(question);
    let a = trim_str(answer);
    if q.as_str().is_empty() {
        return Err(CoiError::InvalidInput { reason: "问题不能为空白".to_owned() });
    }
    if a.as_str().is_empty() {
        return Err(CoiError::InvalidInput { reason: "答案不能为空白".to_owned() });
    }
    Ok((q, a))
}

} // verus!
