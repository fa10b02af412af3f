//! The `bulloak check` command: checks that Solidity files match their
//! trees, and fixes what can be fixed.
use vstd::prelude::*;

use crate::text::push_str;
use crate::utils::{decimal, decimal_of, pluralize, trim_chars, trimmed};
use violation::{kind_fixable, violation_text, violations_view, reportable, SpecViolation, Violation};

pub mod context;
pub mod fixing;
pub mod location;
pub mod rules;
pub mod utils;
pub mod violation;

verus! {

/// Checks that the tests match the spec.
pub struct Check {
    /// The tree files to use as spec; the Solidity file names are inferred
    /// from them.
    pub files: Vec<String>,
    /// Whether to fix the issues found.
    pub fix: bool,
    /// With `fix`, whether to print the fixed files instead of writing them.
    pub stdout: bool,
    /// Whether missing modifiers go unreported.
    pub skip_modifiers: bool,
}

/// The number of fixable violations among `vs`.
pub open spec fn fixable_count(vs: Seq<SpecViolation>) -> nat
    decreases vs.len(),
{
    if vs.len() == 0 {
        0
    } else {
        fixable_count(vs.drop_last()) + if kind_fixable(vs.last().kind) {
            1nat
        } else {
            0nat
        }
    }
}

proof fn lemma_fixable_count_bound(vs: Seq<SpecViolation>)
    ensures
        fixable_count(vs) <= vs.len(),
    decreases vs.len(),
{
    if vs.len() > 0 {
        lemma_fixable_count_bound(vs.drop_last());
    }
}

/// The singular word when `count` is one, the plural one otherwise.
pub open spec fn plural_of(count: nat, singular: Seq<char>, plural: Seq<char>) -> Seq<char> {
    if count == 1 {
        singular
    } else {
        plural
    }
}

/// The reports of the violations, one after the other.
pub open spec fn reports_of(vs: Seq<SpecViolation>) -> Seq<char>
    decreases vs.len(),
{
    if vs.len() == 0 {
        Seq::empty()
    } else {
        reports_of(vs.drop_last()) + violation_text(vs.last())
    }
}

/// What `bulloak check` reports about the violations it found: success when
/// there are none; otherwise every violation, then how many checks failed
/// and how many fixes `--fix` would apply.
pub open spec fn check_report(vs: Seq<SpecViolation>) -> Seq<char> {
    if vs.len() == 0 {
        "All checks completed successfully! No issues found.\n"@
    } else {
        let n = vs.len();
        let k = fixable_count(vs);
        reports_of(vs) + "warn: "@ + decimal_of(n) + " "@ + plural_of(n, "check"@, "checks"@)
            + " failed"@ + if k > 0 {
            " (run `bulloak check --fix <.tree files>` to apply "@ + decimal_of(k) + " "@ + plural_of(
                k,
                "fix"@,
                "fixes"@,
            ) + ")\n"@
        } else {
            "\n"@
        }
    }
}

/// The number of fixable violations.
pub fn count_fixable(violations: &Vec<Violation>) -> (res: usize)
    ensures
        res == fixable_count(violations_view(violations@)),
{
    let ghost vv = violations_view(violations@);
    let mut res: usize = 0;
    let mut i: usize = 0;
    assert(vv.take(0) =~= Seq::<SpecViolation>::empty());
    while i < violations.len()
        invariant
            vv == violations_view(violations@),
            i <= violations@.len(),
            res == fixable_count(vv.take(i as int)),
        decreases violations@.len() - i,
    {
        assert(vv.take(i + 1).drop_last() =~= vv.take(i as int));
        assert(vv.take(i + 1).last() == violations@[i as int]@);
        proof {
            lemma_fixable_count_bound(vv.take(i as int));
        }
        if violations[i].is_fixable() {
            res = res + 1;
        }
        i = i + 1;
    }
    assert(vv.take(violations@.len() as int) =~= vv);
    res
}

/// The report of `bulloak check` about the violations it found.
pub fn report(violations: &Vec<Violation>) -> (res: String)
    requires
        forall|i: int| 0 <= i < violations@.len() ==> reportable(#[trigger] violations@[i]@),
    ensures
        res@ == check_report(violations_view(violations@)),
{
    let ghost vv = violations_view(violations@);
    if violations.len() == 0 {
        return "All checks completed successfully! No issues found.\n".to_string();
    }
    let mut res = String::new();
    let mut i: usize = 0;
    assert(vv.take(0) =~= Seq::<SpecViolation>::empty());
    while i < violations.len()
        invariant
            vv == violations_view(violations@),
            forall|j: int| 0 <= j < violations@.len() ==> reportable(#[trigger] violations@[j]@),
            i <= violations@.len(),
            res@ == reports_of(vv.take(i as int)),
        decreases violations@.len() - i,
    {
        assert(vv.take(i + 1).drop_last() =~= vv.take(i as int));
        assert(vv.take(i + 1).last() == violations@[i as int]@);
        let t = violations[i].to_string();
        push_str(&mut res, t.as_str());
        i = i + 1;
    }
    assert(vv.take(violations@.len() as int) =~= vv);
    let n = violations.len();
    let k = count_fixable(violations);
    push_str(&mut res, "warn: ");
    let d = decimal(n);
    push_str(&mut res, d.as_str());
    push_str(&mut res, " ");
    push_str(&mut res, pluralize(n, "check", "checks"));
    push_str(&mut res, " failed");
    if k > 0 {
        push_str(&mut res, " (run `bulloak check --fix <.tree files>` to apply ");
        let d = decimal(k);
        push_str(&mut res, d.as_str());
        push_str(&mut res, " ");
        push_str(&mut res, pluralize(k, "fix", "fixes"));
        push_str(&mut res, ")\n");
    } else {
        push_str(&mut res, "\n");
    }
    res
}

/// What `bulloak check --fix` reports after fixing `count` issues.
pub open spec fn fixed_report(count: nat) -> Seq<char> {
    "\nsuccess: "@ + decimal_of(count) + " "@ + plural_of(count, "issue"@, "issues"@) + " fixed.\n"@
}

/// The report of `bulloak check --fix` after fixing `count` issues.
pub fn fixed_summary(count: usize) -> (res: String)
    ensures
        res@ == fixed_report(count as nat),
{
    let mut res = String::new();
    push_str(&mut res, "\nsuccess: ");
    let d = decimal(count);
    push_str(&mut res, d.as_str());
    push_str(&mut res, " ");
    push_str(&mut res, pluralize(count, "issue", "issues"));
    push_str(&mut res, " fixed.\n");
    res
}

/// How `bulloak check --fix --stdout` shows a fixed Solidity file: its
/// path, its trimmed code, and an end marker.
pub open spec fn stdout_text(sol: Seq<char>, output: Seq<char>) -> Seq<char> {
    "--> "@ + sol + "\n"@ + trimmed(output) + "\n<--\n"@
}

/// How `bulloak check --fix --stdout` shows a fixed Solidity file.
pub fn stdout_report(sol: &str, output: &str) -> (res: String)
    ensures
        res@ == stdout_text(sol@, output@),
{
    let mut res = String::new();
    push_str(&mut res, "--> ");
    push_str(&mut res, sol);
    push_str(&mut res, "\n");
    let v = crate::text::chars_of(output);
    let t = trim_chars(v.as_slice());
    crate::text::push_chars(&mut res, t.as_slice());
    push_str(&mut res, "\n<--\n");
    res
}

} // verus!
