//! Errors of the sandboxed script runtime.
use vstd::prelude::*;
use crate::terrain_rules::{find_part, find_sub};
use crate::text::chars_of;

verus! {

/// Why a script failed: it ran out of its instruction budget, or it raised
/// an error with a message.
#[derive(Debug)]
pub enum RuntimeError {
    BudgetExceeded,
    Script(String),
}

/// The message by which the script engine reports an exhausted budget.
pub open spec fn budget_message() -> Seq<char> {
    "Lua instruction limit exceeded"@
}

impl RuntimeError {
    /// The error for a script failure with `message`: a message that reports
    /// the exhausted instruction budget is that error, any other is a script
    /// error.
    pub fn script(message: &str) -> (r: RuntimeError)
        ensures
            find_sub(message@, budget_message(), 0) is Some ==> r is BudgetExceeded,
            find_sub(message@, budget_message(), 0) is None ==> (r matches RuntimeError::Script(m)
                && m@ == message@),
    {
        let text = chars_of(message);
        let pattern = chars_of("Lua instruction limit exceeded");
        match find_part(&text, &pattern, 0) {
            Some(_) => RuntimeError::BudgetExceeded,
            None => RuntimeError::Script(String::from_str(message)),
        }
    }

    /// The protocol code of the error.
    pub fn code(&self) -> (r: &'static str)
        ensures
            self is BudgetExceeded ==> r@ == "budget_exceeded"@,
            self is Script ==> r@ == "script_error"@,
    {
        match self {
            RuntimeError::BudgetExceeded => "budget_exceeded",
            RuntimeError::Script(_) => "script_error",
        }
    }
}

} // verus!
