use vstd::prelude::*;
use crate::prompt::chars_of;

verus! {

/// The token budget left for a prompt: `percent` hundredths of the context
/// limit, rounded down, less the reserved margin; zero when the margin takes
/// all of it.
pub open spec fn effective_budget_spec(context_limit: nat, percent: nat, reserved: nat) -> nat {
    let scaled = context_limit * percent / 100;
    if scaled >= reserved {
        (scaled - reserved) as nat
    } else {
        0
    }
}

/// The token budget of one call: a safety fraction of the model's context
/// limit (in percent), less a margin reserved for the model's response.
pub fn effective_budget(context_limit: usize, safety_percent: usize, reserved: usize) -> (r: usize)
    requires
        safety_percent <= 100,
    ensures
        r == effective_budget_spec(context_limit as nat, safety_percent as nat, reserved as nat),
{
    let q = context_limit / 100;
    let m = context_limit % 100;
    proof {
        assert(q * safety_percent <= q * 100) by (nonlinear_arith)
            requires
                safety_percent <= 100,
        ;
        assert((m * safety_percent) / 100 <= m) by (nonlinear_arith)
            requires
                safety_percent <= 100,
                m < 100,
        ;
        assert(context_limit * safety_percent == 100 * (q * safety_percent) + m * safety_percent)
            by (nonlinear_arith)
            requires
                context_limit == 100 * q + m,
        ;
        assert((100 * (q * safety_percent) + m * safety_percent) / 100 == q * safety_percent + (m
            * safety_percent) / 100) by (nonlinear_arith);
    }
    let scaled = q * safety_percent + (m * safety_percent) / 100;
    if scaled >= reserved {
        scaled - reserved
    } else {
        0
    }
}

/// The input and output token limits of a model.
pub struct ModelLimits {
    pub input: usize,
    pub output: usize,
}

/// The limits of the known models, and those assumed for any other name.
pub open spec fn model_limits_spec(name: Seq<char>) -> (usize, usize) {
    if name == "gemini-2.5-flash-preview-05-20"@ {
        (1_048_576, 65_536)
    } else if name == "gemini-2.5-flash-lite-preview-06-17"@ {
        (1_000_000, 64_000)
    } else if name == "gemini-2.5-flash"@ {
        (1_048_576, 65_536)
    } else if name == "gemini-2.5-pro"@ {
        (1_048_576, 65_536)
    } else if name == "gemini-2.0-flash"@ {
        (1_048_576, 8_192)
    } else {
        (1_000_000, 8_192)
    }
}

/// Whether two strings hold the same characters.
pub fn str_eq(a: &str, b: &str) -> (r: bool)
    ensures
        r == (a@ == b@),
{
    let x = chars_of(a);
    let y = chars_of(b);
    if x.len() != y.len() {
        return false;
    }
    let mut i: usize = 0;
    while i < x.len()
        invariant
            x@ == a@,
            y@ == b@,
            x@.len() == y@.len(),
            i <= x@.len(),
            forall|j: int| 0 <= j < i ==> x@[j] == y@[j],
        decreases x@.len() - i,
    {
        if x[i] != y[i] {
            return false;
        }
        i = i + 1;
    }
    assert(x@ =~= y@);
    true
}

/// The context limits of a model, by name.
pub fn get_model_limits(model_name: &str) -> (r: ModelLimits)
    ensures
        (r.input, r.output) == model_limits_spec(model_name@),
{
    if str_eq(model_name, "gemini-2.5-flash-preview-05-20") {
        ModelLimits { input: 1_048_576, output: 65_536 }
    } else if str_eq(model_name, "gemini-2.5-flash-lite-preview-06-17") {
        ModelLimits { input: 1_000_000, output: 64_000 }
    } else if str_eq(model_name, "gemini-2.5-flash") {
        ModelLimits { input: 1_048_576, output: 65_536 }
    } else if str_eq(model_name, "gemini-2.5-pro") {
        ModelLimits { input: 1_048_576, output: 65_536 }
    } else if str_eq(model_name, "gemini-2.0-flash") {
        ModelLimits { input: 1_048_576, output: 8_192 }
    } else {
        ModelLimits { input: 1_000_000, output: 8_192 }
    }
}

} // verus!
