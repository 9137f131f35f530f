//! Vault health checks and issue reporting.

pub mod run;

use vstd::prelude::*;
use crate::cli::list::{glob_error, matching, notes_matching, paths_view};
use crate::str_map::StrMap;
use crate::text::{chars_of, concat, decimal, decimal_string, lit, same_chars};

verus! {

/// Kinds of issues that the checks detect.
#[derive(Debug, Clone, Copy, PartialEq, Eq, Structural, Hash)]
pub enum IssueType {
    BrokenLinks,
    BrokenEmbeds,
    BrokenHeadingLinks,
    BrokenBlockRefs,
    Orphans,
    DuplicateAliases,
    DuplicateBlockIds,
    EmptyNotes,
    MissingFrontmatter,
    InvalidFrontmatter,
}

/// The kebab-case name of an issue type.
pub open spec fn issue_name(t: IssueType) -> Seq<char> {
    match t {
        IssueType::BrokenLinks => "broken-links"@,
        IssueType::BrokenEmbeds => "broken-embeds"@,
        IssueType::BrokenHeadingLinks => "broken-heading-links"@,
        IssueType::BrokenBlockRefs => "broken-block-refs"@,
        IssueType::Orphans => "orphans"@,
        IssueType::DuplicateAliases => "duplicate-aliases"@,
        IssueType::DuplicateBlockIds => "duplicate-block-ids"@,
        IssueType::EmptyNotes => "empty-notes"@,
        IssueType::MissingFrontmatter => "missing-frontmatter"@,
        IssueType::InvalidFrontmatter => "invalid-frontmatter"@,
    }
}

/// All issue types, in declaration order.
pub open spec fn all_issue_types() -> Seq<IssueType> {
    seq![
        IssueType::BrokenLinks,
        IssueType::BrokenEmbeds,
        IssueType::BrokenHeadingLinks,
        IssueType::BrokenBlockRefs,
        IssueType::Orphans,
        IssueType::DuplicateAliases,
        IssueType::DuplicateBlockIds,
        IssueType::EmptyNotes,
        IssueType::MissingFrontmatter,
        IssueType::InvalidFrontmatter,
    ]
}

/// The issue type whose name is `s`.
pub open spec fn issue_type_named(s: Seq<char>) -> Option<IssueType> {
    if s == "broken-links"@ {
        Some(IssueType::BrokenLinks)
    } else if s == "broken-embeds"@ {
        Some(IssueType::BrokenEmbeds)
    } else if s == "broken-heading-links"@ {
        Some(IssueType::BrokenHeadingLinks)
    } else if s == "broken-block-refs"@ {
        Some(IssueType::BrokenBlockRefs)
    } else if s == "orphans"@ {
        Some(IssueType::Orphans)
    } else if s == "duplicate-aliases"@ {
        Some(IssueType::DuplicateAliases)
    } else if s == "duplicate-block-ids"@ {
        Some(IssueType::DuplicateBlockIds)
    } else if s == "empty-notes"@ {
        Some(IssueType::EmptyNotes)
    } else if s == "missing-frontmatter"@ {
        Some(IssueType::MissingFrontmatter)
    } else if s == "invalid-frontmatter"@ {
        Some(IssueType::InvalidFrontmatter)
    } else {
        None
    }
}

fn str_eq(a: &Vec<char>, b: &str) -> (r: bool)
    ensures
        r == (a@ == b@),
{
    same_chars(a.as_slice(), chars_of(b).as_slice())
}

impl IssueType {
    /// All issue types.
    pub fn all() -> (r: Vec<IssueType>)
        ensures
            r@ == all_issue_types(),
    {
        let mut v: Vec<IssueType> = Vec::new();
        v.push(IssueType::BrokenLinks);
        v.push(IssueType::BrokenEmbeds);
        v.push(IssueType::BrokenHeadingLinks);
        v.push(IssueType::BrokenBlockRefs);
        v.push(IssueType::Orphans);
        v.push(IssueType::DuplicateAliases);
        v.push(IssueType::DuplicateBlockIds);
        v.push(IssueType::EmptyNotes);
        v.push(IssueType::MissingFrontmatter);
        v.push(IssueType::InvalidFrontmatter);
        assert(v@ =~= all_issue_types());
        v
    }

    /// The issue type with the given kebab-case name.
    pub fn from_str(s: &str) -> (r: Option<IssueType>)
        ensures
            r == issue_type_named(s@),
    {
        let c = chars_of(s);
        if str_eq(&c, "broken-links") {
            Some(IssueType::BrokenLinks)
        } else if str_eq(&c, "broken-embeds") {
            Some(IssueType::BrokenEmbeds)
        } else if str_eq(&c, "broken-heading-links") {
            Some(IssueType::BrokenHeadingLinks)
        } else if str_eq(&c, "broken-block-refs") {
            Some(IssueType::BrokenBlockRefs)
        } else if str_eq(&c, "orphans") {
            Some(IssueType::Orphans)
        } else if str_eq(&c, "duplicate-aliases") {
            Some(IssueType::DuplicateAliases)
        } else if str_eq(&c, "duplicate-block-ids") {
            Some(IssueType::DuplicateBlockIds)
        } else if str_eq(&c, "empty-notes") {
            Some(IssueType::EmptyNotes)
        } else if str_eq(&c, "missing-frontmatter") {
            Some(IssueType::MissingFrontmatter)
        } else if str_eq(&c, "invalid-frontmatter") {
            Some(IssueType::InvalidFrontmatter)
        } else {
            None
        }
    }

    /// The kebab-case name of the issue type, as it is displayed.
    pub fn as_str(&self) -> (r: &'static str)
        ensures
            r@ == issue_name(*self),
    {
        match self {
            IssueType::BrokenLinks => "broken-links",
            IssueType::BrokenEmbeds => "broken-embeds",
            IssueType::BrokenHeadingLinks => "broken-heading-links",
            IssueType::BrokenBlockRefs => "broken-block-refs",
            IssueType::Orphans => "orphans",
            IssueType::DuplicateAliases => "duplicate-aliases",
            IssueType::DuplicateBlockIds => "duplicate-block-ids",
            IssueType::EmptyNotes => "empty-notes",
            IssueType::MissingFrontmatter => "missing-frontmatter",
            IssueType::InvalidFrontmatter => "invalid-frontmatter",
        }
    }

    /// The displayed name, as an owned string.
    pub fn to_string(&self) -> (r: String)
        ensures
            r@ == issue_name(*self),
    {
        lit(self.as_str())
    }

    /// Whether issues of this type can be fixed automatically.
    pub fn is_fixable(&self) -> (r: bool)
        ensures
            r == (*self == IssueType::DuplicateBlockIds || *self == IssueType::MissingFrontmatter),
    {
        match self {
            IssueType::DuplicateBlockIds | IssueType::MissingFrontmatter => true,
            _ => false,
        }
    }
}

/// Every issue type is listed by `IssueType::all` exactly once, and
/// reading an issue type's name back gives the type.
pub proof fn law_issue_name_round_trip(t: IssueType)
    ensures
        issue_type_named(issue_name(t)) == Some(t),
        all_issue_types().contains(t),
        all_issue_types().no_duplicates(),
{
    assert(all_issue_types()[0] == IssueType::BrokenLinks);
    assert(all_issue_types()[1] == IssueType::BrokenEmbeds);
    assert(all_issue_types()[2] == IssueType::BrokenHeadingLinks);
    assert(all_issue_types()[3] == IssueType::BrokenBlockRefs);
    assert(all_issue_types()[4] == IssueType::Orphans);
    assert(all_issue_types()[5] == IssueType::DuplicateAliases);
    assert(all_issue_types()[6] == IssueType::DuplicateBlockIds);
    assert(all_issue_types()[7] == IssueType::EmptyNotes);
    assert(all_issue_types()[8] == IssueType::MissingFrontmatter);
    assert(all_issue_types()[9] == IssueType::InvalidFrontmatter);
    reveal_strlit("broken-links");
    reveal_strlit("broken-embeds");
    reveal_strlit("broken-heading-links");
    reveal_strlit("broken-block-refs");
    reveal_strlit("orphans");
    reveal_strlit("duplicate-aliases");
    reveal_strlit("duplicate-block-ids");
    reveal_strlit("empty-notes");
    reveal_strlit("missing-frontmatter");
    reveal_strlit("invalid-frontmatter");
    let n = issue_name(t);
    assert(n.len() > 0);
    assert("missing-frontmatter"@[0] != "invalid-frontmatter"@[0]);
    assert("broken-links"@[7] != "broken-embeds"@[7]);
    assert("broken-heading-links"@[7] != "broken-block-refs"@[7]);
    assert("duplicate-aliases"@[10] != "duplicate-block-ids"@[10]);
}

/// An issue found in the vault.
#[derive(Debug, Clone)]
pub struct Issue {
    /// Kind of issue.
    pub issue_type: IssueType,
    /// Note path.
    pub file: String,
    /// Line number, where it applies.
    pub line: Option<usize>,
    /// Human-readable message.
    pub message: String,
    /// What the issue is about (a link target, an alias, ...).
    pub target: Option<String>,
    /// Whether it can be fixed automatically.
    pub fixable: bool,
}

/// Summary of lint results.
#[derive(Debug, Clone)]
pub struct LintSummary {
    /// Number of issues.
    pub total: usize,
    /// Number of issues of each type, by type name.
    pub by_type: StrMap<usize>,
    /// Number of fixable issues.
    pub fixable: usize,
}

/// The count held for `k`, zero when there is none.
pub open spec fn held(m: Map<Seq<char>, usize>, k: Seq<char>) -> int {
    if m.contains_key(k) {
        m[k] as int
    } else {
        0
    }
}

/// Issue counts by type name, counting issues in order.
pub open spec fn counts_by_type(issues: Seq<Issue>) -> Map<Seq<char>, usize>
    decreases issues.len(),
{
    if issues.len() == 0 {
        Map::empty()
    } else {
        let m = counts_by_type(issues.drop_last());
        let k = issue_name(issues.last().issue_type);
        m.insert(k, (held(m, k) + 1) as usize)
    }
}

/// Number of fixable issues.
pub open spec fn fixable_count(issues: Seq<Issue>) -> nat
    decreases issues.len(),
{
    if issues.len() == 0 {
        0
    } else {
        fixable_count(issues.drop_last()) + if issues.last().fixable {
            1nat
        } else {
            0nat
        }
    }
}

proof fn lemma_counts_bounded(issues: Seq<Issue>, k: Seq<char>)
    ensures
        held(counts_by_type(issues), k) <= issues.len(),
        fixable_count(issues) <= issues.len(),
    decreases issues.len(),
{
    if issues.len() > 0 {
        lemma_counts_bounded(issues.drop_last(), k);
    }
}

/// Summarise issues: their number, their number by type and the number of
/// fixable ones.
pub fn compute_summary(issues: &[Issue]) -> (r: LintSummary)
    ensures
        r.total == issues@.len(),
        r.by_type.wf(),
        r.by_type.view() == counts_by_type(issues@),
        r.fixable == fixable_count(issues@),
{
    let mut by_type: StrMap<usize> = StrMap::new();
    let mut fixable: usize = 0;
    let mut k: usize = 0;
    assert(counts_by_type(issues@.subrange(0, 0)) =~= Map::<Seq<char>, usize>::empty());
    while k < issues.len()
        invariant
            k <= issues@.len(),
            by_type.wf(),
            by_type.view() == counts_by_type(issues@.subrange(0, k as int)),
            fixable == fixable_count(issues@.subrange(0, k as int)),
        decreases issues@.len() - k,
    {
        let issue = &issues[k];
        let ghost pre = issues@.subrange(0, k as int);
        let name = issue.issue_type.as_str();
        proof {
            assert(issues@.subrange(0, k + 1).drop_last() == pre);
            lemma_counts_bounded(pre, name@);
        }
        let c: usize = match by_type.get(name) {
            Some(c) => *c + 1,
            None => 1,
        };
        by_type.insert(lit(name), c);
        if issue.fixable {
            fixable = fixable + 1;
        }
        k = k + 1;
    }
    assert(issues@.subrange(0, k as int) == issues@);
    LintSummary { total: issues.len(), by_type, fixable }
}

/// The annotation level of an issue type.
pub open spec fn gh_level(t: IssueType) -> Seq<char> {
    match t {
        IssueType::Orphans | IssueType::EmptyNotes | IssueType::MissingFrontmatter => "warning"@,
        _ => "error"@,
    }
}

/// The annotation line of one issue.
pub open spec fn gh_line(i: Issue) -> Seq<char> {
    "::"@ + gh_level(i.issue_type) + " file="@ + i.file@ + match i.line {
        Some(l) => ",line="@ + decimal(l as nat),
        None => Seq::empty(),
    } + "::"@ + i.message@ + "\n"@
}

/// The annotation lines of all issues.
pub open spec fn gh_lines(issues: Seq<Issue>) -> Seq<char>
    decreases issues.len(),
{
    if issues.len() == 0 {
        Seq::empty()
    } else {
        gh_lines(issues.drop_last()) + gh_line(issues.last())
    }
}

/// Format issues as GitHub Actions annotations, one line per issue.
pub fn format_github_actions(issues: &[Issue]) -> (r: String)
    ensures
        r@ == gh_lines(issues@),
{
    let mut output = String::new();
    let mut k: usize = 0;
    while k < issues.len()
        invariant
            k <= issues@.len(),
            output@ == gh_lines(issues@.subrange(0, k as int)),
        decreases issues@.len() - k,
    {
        let issue = &issues[k];
        let level = match issue.issue_type {
            IssueType::Orphans | IssueType::EmptyNotes | IssueType::MissingFrontmatter => "warning",
            _ => "error",
        };
        let line_part = match issue.line {
            Some(l) => concat(lit(",line="), decimal_string(l).as_str()),
            None => String::new(),
        };
        let m = concat(lit("::"), level);
        let m = concat(m, " file=");
        let m = concat(m, issue.file.as_str());
        let m = concat(m, line_part.as_str());
        let m = concat(m, "::");
        let m = concat(m, issue.message.as_str());
        let m = concat(m, "\n");
        let ghost before = output@;
        output = concat(output, m.as_str());
        proof {
            assert(issues@.subrange(0, k + 1).drop_last() == issues@.subrange(0, k as int));
            assert(m@ =~= gh_line(issues@[k as int]));
        }
        k = k + 1;
    }
    assert(issues@.subrange(0, k as int) == issues@);
    output
}

/// Which checks a health run performs.
#[derive(Debug, Clone)]
pub struct HealthChecker {
    /// When set, only these issue types are checked.
    pub include_types: Option<Vec<IssueType>>,
    /// Issue types that are never checked.
    pub exclude_types: Vec<IssueType>,
    /// When set, only notes matching this glob are checked.
    pub glob_pattern: Option<String>,
}

/// Whether a checker with these settings checks issues of type `t`.
pub open spec fn checks(included: Option<Seq<IssueType>>, exclude: Seq<IssueType>, t: IssueType) -> bool {
    !exclude.contains(t) && match included {
        Some(inc) => inc.contains(t),
        None => true,
    }
}

fn type_in(v: &Vec<IssueType>, t: IssueType) -> (r: bool)
    ensures
        r == v@.contains(t),
{
    let mut k: usize = 0;
    while k < v.len()
        invariant
            k <= v@.len(),
            forall|m: int| 0 <= m < k ==> v@[m] != t,
        decreases v@.len() - k,
    {
        if v[k] == t {
            return true;
        }
        k = k + 1;
    }
    false
}

impl HealthChecker {
    /// The included types, if restricted.
    pub open spec fn include_view(&self) -> Option<Seq<IssueType>> {
        match self.include_types {
            Some(v) => Some(v@),
            None => None,
        }
    }

    /// A checker that runs every check on every note.
    pub fn new() -> (r: HealthChecker)
        ensures
            r.include_types is None,
            r.exclude_types@.len() == 0,
            r.glob_pattern is None,
    {
        HealthChecker { include_types: None, exclude_types: Vec::new(), glob_pattern: None }
    }

    /// Only check the given issue types.
    pub fn only(self, types: Vec<IssueType>) -> (r: HealthChecker)
        ensures
            r.include_types matches Some(v) && v@ == types@,
            r.exclude_types@ == self.exclude_types@,
            r.glob_pattern == self.glob_pattern,
    {
        HealthChecker { include_types: Some(types), ..self }
    }

    /// Never check the given issue types.
    pub fn ignore(self, types: Vec<IssueType>) -> (r: HealthChecker)
        ensures
            r.include_view() == self.include_view(),
            r.exclude_types@ == types@,
            r.glob_pattern == self.glob_pattern,
    {
        HealthChecker { exclude_types: types, ..self }
    }

    /// Only check notes matching a glob pattern.
    pub fn glob(self, pattern: &str) -> (r: HealthChecker)
        ensures
            r.include_view() == self.include_view(),
            r.exclude_types@ == self.exclude_types@,
            r.glob_pattern matches Some(g) && g@ == pattern@,
    {
        HealthChecker { glob_pattern: Some(lit(pattern)), ..self }
    }

    /// The notes that a run checks, among the vault's note paths `paths`:
    /// those that the glob pattern matches, in order, or all of them when
    /// no pattern is set; an invalid pattern gives its error.
    pub fn notes_to_check(&self, paths: &Vec<String>) -> (r: Result<Vec<String>, crate::error::VaultError>)
        ensures
            match self.glob_pattern {
                None => r matches Ok(v) && paths_view(v@) == paths_view(paths@),
                Some(g) => match glob_error(g@) {
                    Some(e) => r matches Err(crate::error::VaultError::GlobPattern(m)) && m@ == e,
                    None => r matches Ok(v) && paths_view(v@) == matching(paths_view(paths@), g@),
                },
            },
    {
        match &self.glob_pattern {
            Some(g) => notes_matching(paths, g.as_str()),
            None => {
                let mut out: Vec<String> = Vec::new();
                let mut i: usize = 0;
                while i < paths.len()
                    invariant
                        i <= paths@.len(),
                        out@.len() == i,
                        paths_view(out@) == paths_view(paths@).subrange(0, i as int),
                    decreases paths@.len() - i,
                {
                    let ghost before = out@;
                    out.push(paths[i].clone());
                    assert forall|x: int| 0 <= x < i + 1 implies #[trigger] paths_view(out@)[x] == paths_view(paths@)[x] by {
                        if x < i {
                            assert(out@[x] == before[x]);
                            assert(paths_view(before)[x] == paths_view(paths@).subrange(0, i as int)[x]);
                        }
                    }
                    assert(paths_view(out@) =~= paths_view(paths@).subrange(0, i + 1));
                    i = i + 1;
                }
                assert(paths_view(paths@).subrange(0, paths@.len() as int) =~= paths_view(paths@));
                Ok(out)
            },
        }
    }

    /// Whether issues of type `t` are checked.
    pub fn should_check(&self, t: IssueType) -> (r: bool)
        ensures
            r == checks(self.include_view(), self.exclude_types@, t),
    {
        if type_in(&self.exclude_types, t) {
            return false;
        }
        match &self.include_types {
            Some(inc) => type_in(inc, t),
            None => true,
        }
    }
}

} // verus!
