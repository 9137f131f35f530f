//! Lint output formats.

use vstd::prelude::*;
use crate::health::{issue_type_named, Issue, IssueType};
use crate::text::{chars_of, same_chars, str_lowercase, to_lowercase};

verus! {

/// Output format of the lint command.
#[derive(Debug, Clone, Copy, PartialEq, Eq, Structural)]
pub enum LintFormat {
    Json,
    Text,
    Github,
}

/// The format named `s`, ignoring case.
pub open spec fn lint_format_named(s: Seq<char>) -> Option<LintFormat> {
    let l = str_lowercase(s);
    if l == "json"@ {
        Some(LintFormat::Json)
    } else if l == "text"@ {
        Some(LintFormat::Text)
    } else if l == "github"@ {
        Some(LintFormat::Github)
    } else {
        None
    }
}

impl LintFormat {
    /// The format with the given name (ignoring case).
    pub fn from_str(s: &str) -> (r: Option<LintFormat>)
        ensures
            r == lint_format_named(s@),
    {
        let l = chars_of(to_lowercase(s).as_str());
        if same_chars(l.as_slice(), chars_of("json").as_slice()) {
            Some(LintFormat::Json)
        } else if same_chars(l.as_slice(), chars_of("text").as_slice()) {
            Some(LintFormat::Text)
        } else if same_chars(l.as_slice(), chars_of("github").as_slice()) {
            Some(LintFormat::Github)
        } else {
            None
        }
    }
}

/// The issue types named in `names`, in order, skipping unknown names.
pub open spec fn named_types(names: Seq<Seq<char>>) -> Seq<IssueType>
    decreases names.len(),
{
    if names.len() == 0 {
        Seq::empty()
    } else {
        named_types(names.drop_last()) + match issue_type_named(names.last()) {
            Some(t) => seq![t],
            None => Seq::empty(),
        }
    }
}

/// The texts of strings.
pub open spec fn texts_of(v: Seq<String>) -> Seq<Seq<char>> {
    v.map_values(|s: String| s@)
}

/// Parse the issue types given by name, skipping unknown names.
pub fn issue_types(names: &Vec<String>) -> (r: Vec<IssueType>)
    ensures
        r@ == named_types(texts_of(names@)),
{
    let mut r: Vec<IssueType> = Vec::new();
    let mut i: usize = 0;
    while i < names.len()
        invariant
            i <= names@.len(),
            r@ == named_types(texts_of(names@).subrange(0, i as int)),
        decreases names@.len() - i,
    {
        assert(texts_of(names@).subrange(0, i + 1).drop_last() =~= texts_of(names@).subrange(0, i as int));
        assert(texts_of(names@).subrange(0, i + 1).last() == names@[i as int]@);
        match IssueType::from_str(names[i].as_str()) {
            Some(t) => {
                r.push(t);
            },
            None => {
                assert(r@ =~= named_types(texts_of(names@).subrange(0, i + 1)));
            },
        }
        i = i + 1;
    }
    assert(texts_of(names@).subrange(0, names@.len() as int) =~= texts_of(names@));
    r
}

/// Two issues are at the same place: same file, type and line.
pub open spec fn same_spot(a: Issue, b: Issue) -> bool {
    a.file@ == b.file@ && a.issue_type == b.issue_type && a.line == b.line
}

/// Some issue that was fixed is at the same place as `i`.
pub open spec fn fixed_spot(issues: Seq<Issue>, fixed: Seq<bool>, i: Issue) -> bool {
    exists|k: int| 0 <= k < issues.len() && fixed[k] && same_spot(#[trigger] issues[k], i)
}

/// The issues that remain after fixing: in order, those whose place no
/// fixed issue shares.
pub open spec fn remaining_issues(issues: Seq<Issue>, fixed: Seq<bool>, upto: int) -> Seq<Issue>
    decreases upto,
{
    if upto <= 0 || upto > issues.len() {
        Seq::empty()
    } else {
        remaining_issues(issues, fixed, upto - 1) + if fixed_spot(issues, fixed, issues[upto - 1]) {
            Seq::<Issue>::empty()
        } else {
            seq![issues[upto - 1]]
        }
    }
}

/// Some remaining issue has a type of `fail_on`.
pub open spec fn lint_fails(remaining: Seq<Issue>, fail_on: Seq<IssueType>) -> bool {
    exists|k: int| 0 <= k < remaining.len() && fail_on.contains((#[trigger] remaining[k]).issue_type)
}

fn copy_issue(i: &Issue) -> (r: Issue)
    ensures
        r == *i,
{
    Issue {
        issue_type: i.issue_type,
        file: i.file.clone(),
        line: i.line,
        message: i.message.clone(),
        target: match &i.target {
            Some(t) => Some(t.clone()),
            None => None,
        },
        fixable: i.fixable,
    }
}

fn same_spot_exec(a: &Issue, b: &Issue) -> (r: bool)
    ensures
        r == same_spot(*a, *b),
{
    let fa = chars_of(a.file.as_str());
    let fb = chars_of(b.file.as_str());
    same_chars(fa.as_slice(), fb.as_slice()) && a.issue_type == b.issue_type && a.line == b.line
}

fn is_fixed_spot(issues: &[Issue], fixed: &[bool], i: &Issue) -> (r: bool)
    requires
        fixed@.len() == issues@.len(),
    ensures
        r == fixed_spot(issues@, fixed@, *i),
{
    let mut k: usize = 0;
    while k < issues.len()
        invariant
            k <= issues@.len(),
            fixed@.len() == issues@.len(),
            forall|m: int| 0 <= m < k ==> !(fixed@[m] && same_spot(#[trigger] issues@[m], *i)),
        decreases issues@.len() - k,
    {
        if fixed[k] && same_spot_exec(&issues[k], i) {
            return true;
        }
        k = k + 1;
    }
    false
}

/// What a lint run leaves after fixing: the issues whose place (file, type
/// and line) no successfully fixed issue shares (`fixed[k]` tells whether
/// issue `k` was fixed), and whether one of them has a type of `fail_on`,
/// which fails the run.
pub fn lint_outcome(issues: &[Issue], fixed: &[bool], fail_on: &[IssueType]) -> (r: (Vec<Issue>, bool))
    requires
        fixed@.len() == issues@.len(),
    ensures
        r.0@ == remaining_issues(issues@, fixed@, issues@.len() as int),
        r.1 == lint_fails(r.0@, fail_on@),
{
    let mut out: Vec<Issue> = Vec::new();
    let mut i: usize = 0;
    while i < issues.len()
        invariant
            i <= issues@.len(),
            fixed@.len() == issues@.len(),
            out@ == remaining_issues(issues@, fixed@, i as int),
        decreases issues@.len() - i,
    {
        if !is_fixed_spot(issues, fixed, &issues[i]) {
            out.push(copy_issue(&issues[i]));
        } else {
            assert(fixed_spot(issues@, fixed@, issues@[i as int]));
        }
        assert(out@ =~= remaining_issues(issues@, fixed@, i + 1));
        i = i + 1;
    }
    let mut fails = false;
    let mut k: usize = 0;
    while k < out.len()
        invariant
            k <= out@.len(),
            !fails ==> forall|m: int| 0 <= m < k ==> !fail_on@.contains(#[trigger] out@[m].issue_type),
            fails ==> lint_fails(out@, fail_on@),
        decreases out@.len() - k,
    {
        if !fails && type_listed(fail_on, out[k].issue_type) {
            assert(fail_on@.contains(out@[k as int].issue_type));
            fails = true;
        }
        k = k + 1;
    }
    (out, fails)
}

fn type_listed(v: &[IssueType], t: IssueType) -> (r: bool)
    ensures
        r == v@.contains(t),
{
    let mut k: usize = 0;
    while k < v.len()
        invariant
            k <= v@.len(),
            forall|m: int| 0 <= m < k ==> v@[m] != t,
        decreases v@.len() - k,
    {
        if v[k] == t {
            assert(v@[k as int] == t);
            return true;
        }
        k = k + 1;
    }
    false
}

} // verus!
