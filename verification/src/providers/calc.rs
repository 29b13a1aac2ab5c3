//! The calculator provider's decisions: which queries look like arithmetic, and the
//! result shown for an evaluated expression.
use vstd::prelude::*;
use crate::desktop_entry::opt_view;
use crate::text::{chars_of, extend_chars, starts_with, starts_with_exec, string_from_chars, trim, trim_chars};
use super::{SearchAction, SearchResult};

verus! {

/// Characters that make a query look like arithmetic.
pub open spec fn is_math_char(c: char) -> bool {
    c == '+' || c == '-' || c == '*' || c == '/' || c == '%' || c == '^' || c == '(' || c == ')'
}

/// The query starts with a call of a known function.
pub open spec fn starts_with_function(q: Seq<char>) -> bool {
    ||| starts_with(q, "sqrt("@)
    ||| starts_with(q, "sin("@)
    ||| starts_with(q, "cos("@)
    ||| starts_with(q, "tan("@)
    ||| starts_with(q, "abs("@)
    ||| starts_with(q, "log("@)
    ||| starts_with(q, "ln("@)
    ||| starts_with(q, "pow("@)
}

/// A query is worth evaluating when, trimmed, it is not empty and holds an operator or
/// a parenthesis, or starts with a call of a known function.
pub open spec fn potential_math(query: Seq<char>) -> bool {
    let q = trim(query);
    q.len() > 0 && ((exists|i: int| 0 <= i < q.len() && #[trigger] is_math_char(q[i]))
        || starts_with_function(q))
}

/// A query is worth evaluating exactly when, trimmed, it is not empty and holds one of
/// `+ - * / % ^ ( )`, or starts with `sqrt(`, `sin(`, `cos(`, `tan(`, `abs(`, `log(`,
/// `ln(` or `pow(`.
pub proof fn potential_math_by_operators_and_functions(query: Seq<char>)
    ensures
        potential_math(query) <==> ({
            let q = trim(query);
            &&& q.len() > 0
            &&& (exists|i: int|
                0 <= i < q.len() && {
                    let c = #[trigger] q[i];
                    c == '+' || c == '-' || c == '*' || c == '/' || c == '%' || c == '^' || c == '('
                        || c == ')'
                }) || starts_with(q, "sqrt("@) || starts_with(q, "sin("@) || starts_with(q, "cos("@)
                || starts_with(q, "tan("@) || starts_with(q, "abs("@) || starts_with(q, "log("@)
                || starts_with(q, "ln("@) || starts_with(q, "pow("@)
        }),
{
    let q = trim(query);
    if exists|i: int| 0 <= i < q.len() && #[trigger] is_math_char(q[i]) {
        let i = choose|i: int| 0 <= i < q.len() && #[trigger] is_math_char(q[i]);
        assert(is_math_char(q[i]));
    }
    if exists|i: int|
        0 <= i < q.len() && {
            let c = #[trigger] q[i];
            c == '+' || c == '-' || c == '*' || c == '/' || c == '%' || c == '^' || c == '(' || c == ')'
        } {
        let i = choose|i: int|
            0 <= i < q.len() && {
                let c = #[trigger] q[i];
                c == '+' || c == '-' || c == '*' || c == '/' || c == '%' || c == '^' || c == '(' || c
                    == ')'
            };
        assert(is_math_char(q[i]));
    }
}

fn starts_with_str(q: &Vec<char>, p: &str) -> (r: bool)
    ensures
        r == starts_with(q@, p@),
{
    let pc = chars_of(p);
    starts_with_exec(q, &pc)
}

/// Whether `query` looks like an expression for the calculator.
pub fn is_potential_math(query: &str) -> (r: bool)
    ensures
        r == potential_math(query@),
{
    let qc = chars_of(query);
    let q = trim_chars(&qc);
    if q.len() == 0 {
        return false;
    }
    let mut has_op = false;
    let mut i: usize = 0;
    while i < q.len()
        invariant
            i <= q@.len(),
            has_op == (exists|j: int| 0 <= j < i && #[trigger] is_math_char(q@[j])),
        decreases q@.len() - i,
    {
        let c = q[i];
        if c == '+' || c == '-' || c == '*' || c == '/' || c == '%' || c == '^' || c == '(' || c == ')' {
            has_op = true;
        }
        assert(is_math_char(q@[i as int]) == (c == '+' || c == '-' || c == '*' || c == '/' || c == '%'
            || c == '^' || c == '(' || c == ')'));
        assert((exists|j: int| 0 <= j < i + 1 && #[trigger] is_math_char(q@[j])) <==> ((exists|j: int|
            0 <= j < i && #[trigger] is_math_char(q@[j])) || is_math_char(q@[i as int])));
        i = i + 1;
    }
    let has_function = starts_with_str(&q, "sqrt(") || starts_with_str(&q, "sin(")
        || starts_with_str(&q, "cos(") || starts_with_str(&q, "tan(") || starts_with_str(&q, "abs(")
        || starts_with_str(&q, "log(") || starts_with_str(&q, "ln(") || starts_with_str(&q, "pow(");
    has_op || has_function
}

/// `r` is the calculator's result for `query` evaluated to the text `value`: titled by
/// the value, which choosing it copies to the clipboard.
pub open spec fn is_calc_result(r: SearchResult, query: Seq<char>, value: Seq<char>) -> bool {
    let q = trim(query);
    &&& r.id@ == "calc:"@ + q
    &&& r.title@ == value
    &&& opt_view(r.subtitle) == Some("= "@ + q + " • Enter to copy"@)
    &&& opt_view(r.icon) == Some("accessories-calculator"@)
    &&& r.score == 1000
    &&& (match r.action {
        SearchAction::CopyToClipboard { text } => text@ == value,
        _ => false,
    })
    &&& r.secondary_actions@.len() == 0
}

/// The calculator's result for a query, trimmed to `q`, and its value: titled by the
/// value, with `calc:` and `q` as id, `= q • Enter to copy` as subtitle, the calculator
/// icon, score 1000, copying the value, with no other action.
pub proof fn calc_result_fields(r: SearchResult, query: Seq<char>, value: Seq<char>)
    requires
        is_calc_result(r, query, value),
    ensures
        r.title@ == value,
        r.id@ == "calc:"@ + trim(query),
        opt_view(r.subtitle) == Some("= "@ + trim(query) + " • Enter to copy"@),
        opt_view(r.icon) == Some("accessories-calculator"@),
        r.score == 1000,
        r.action matches SearchAction::CopyToClipboard { text } && text@ == value,
        r.secondary_actions@.len() == 0,
{
}

/// The result shown for `query` once the calculator has evaluated and formatted it.
pub fn calc_result(query: &str, formatted: String) -> (r: SearchResult)
    ensures
        is_calc_result(r, query@, formatted@),
{
    let qc = chars_of(query);
    let q = trim_chars(&qc);
    let mut id = chars_of("calc:");
    extend_chars(&mut id, &q);
    let mut sub = chars_of("= ");
    extend_chars(&mut sub, &q);
    let tail = chars_of(" • Enter to copy");
    extend_chars(&mut sub, &tail);
    SearchResult {
        id: string_from_chars(id.as_slice()),
        title: formatted.clone(),
        subtitle: Some(string_from_chars(sub.as_slice())),
        icon: Some("accessories-calculator".to_owned()),
        score: 1000,
        action: SearchAction::CopyToClipboard { text: formatted },
        secondary_actions: Vec::new(),
    }
}

/// The calculator's results for `query`, given the formatted value of its evaluation
/// (`None` when it did not evaluate, or its value has no display form): one result for a
/// value, none otherwise.
pub fn calc_results(query: &str, formatted: Option<String>) -> (r: Vec<SearchResult>)
    ensures
        match formatted {
            Some(v) => r@.len() == 1 && is_calc_result(r@[0], query@, v@),
            None => r@.len() == 0,
        },
{
    let mut out: Vec<SearchResult> = Vec::new();
    match formatted {
        Some(v) => {
            out.push(calc_result(query, v));
        },
        None => {},
    }
    out
}

} // verus!
