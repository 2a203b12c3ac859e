use vstd::prelude::*;

use crate::zone::{InvisibleBorder, Zone};

verus! {

/// Which window property a rule's pattern is tested against.
#[derive(Clone, Copy, Debug, PartialEq, Eq, Structural)]
pub enum MatchType {
    Title,
    Process,
}

/// Where a window that starts floating is placed.
#[derive(Clone, Copy, Debug, PartialEq, Eq, Structural)]
pub enum SetPosition {
    Default,
    Center,
    Position(Zone),
}

/// What a matching rule does to a window.
#[derive(Clone, Copy, Debug, PartialEq, Eq, Structural)]
pub enum Rule {
    LayoutIdx(usize),
    StartFloating(SetPosition),
    FloatingPosition(Zone),
    InvisibleBorder(InvisibleBorder),
}

/// The kind of a rule, used to ask only for rules of some kinds.
#[derive(Clone, Copy, Debug, PartialEq, Eq, Structural, Hash)]
pub enum FilterRule {
    Layout,
    StartFloating,
    FloatingPosition,
    InvisibleBorder,
}

/// What a rule does, as configured: a layout is named rather than numbered.
#[derive(Clone, Debug)]
pub enum UserRule {
    Layout(String),
    StartFloating(SetPosition),
    FloatingPosition(Zone),
    InvisibleBorder(InvisibleBorder),
}

/// A configured rule: which property to test, the pattern, and what it does.
#[derive(Clone, Debug)]
pub struct UserWindowRule {
    pub match_type: MatchType,
    pub regex: String,
    pub rule: UserRule,
}

/// A rule ready for matching: a pattern and what a match does.
#[derive(Clone, Debug)]
pub struct WindowRule {
    pub regex: String,
    pub rule: Rule,
}

/// Rules on window titles, which are tried first, and rules on process names.
pub struct WindowRules {
    pub title_window_rules: Vec<WindowRule>,
    pub process_window_rules: Vec<WindowRule>,
}

/// Whether `pattern` compiles as a regular expression.
pub uninterp spec fn regex_valid(pattern: Seq<char>) -> bool;

/// Whether the compiled `pattern` matches somewhere in `haystack`.
pub uninterp spec fn regex_matches(pattern: Seq<char>, haystack: Seq<char>) -> bool;

/// Relies on `regex::Regex::new` to compile the pattern and `Regex::is_match`
/// to test the haystack; a pattern that does not compile matches nothing.
#[verifier::external_body]
fn pattern_matches(pattern: &str, haystack: &str) -> (r: bool)
    ensures
        r == (regex_valid(pattern@) && regex_matches(pattern@, haystack@)),
{
    regex::Regex::new(pattern).map(|re| re.is_match(haystack)).unwrap_or(false)
}

pub open spec fn filter_of(rule: Rule) -> FilterRule {
    match rule {
        Rule::LayoutIdx(_) => FilterRule::Layout,
        Rule::StartFloating(_) => FilterRule::StartFloating,
        Rule::FloatingPosition(_) => FilterRule::FloatingPosition,
        Rule::InvisibleBorder(_) => FilterRule::InvisibleBorder,
    }
}

impl FilterRule {
    /// The kind of `rule`.
    pub fn from(rule: &Rule) -> (r: FilterRule)
        ensures
            r == filter_of(*rule),
    {
        match rule {
            Rule::LayoutIdx(_) => FilterRule::Layout,
            Rule::StartFloating(_) => FilterRule::StartFloating,
            Rule::FloatingPosition(_) => FilterRule::FloatingPosition,
            Rule::InvisibleBorder(_) => FilterRule::InvisibleBorder,
        }
    }
}

/// Whether a rule of kind `k` passes `filter`: every kind passes no filter.
pub open spec fn passes(filter: Option<Seq<FilterRule>>, k: FilterRule) -> bool {
    match filter {
        None => true,
        Some(f) => f.contains(k),
    }
}

/// Whether `w` applies to a window whose tested property is `hay`.
pub open spec fn hits(w: WindowRule, hay: Seq<char>, filter: Option<Seq<FilterRule>>) -> bool {
    &&& regex_valid(w.regex@)
    &&& regex_matches(w.regex@, hay)
    &&& passes(filter, filter_of(w.rule))
}

/// The first rule of `rules` that applies, if any.
pub open spec fn first_hit(rules: Seq<WindowRule>, hay: Seq<char>, filter: Option<Seq<FilterRule>>) -> Option<
    Rule,
>
    decreases rules.len(),
{
    if rules.len() == 0 {
        None
    } else if hits(rules[0], hay, filter) {
        Some(rules[0].rule)
    } else {
        first_hit(rules.drop_first(), hay, filter)
    }
}

/// The rule for a window: the first applying title rule if the title is known;
/// else the first applying process rule if the process name is known.
pub open spec fn select_rule(
    rules: Seq<WindowRule>,
    process_rules: Seq<WindowRule>,
    title: Option<Seq<char>>,
    process: Option<Seq<char>>,
    filter: Option<Seq<FilterRule>>,
) -> Option<Rule> {
    let by_title = match title {
        Some(t) => first_hit(rules, t, filter),
        None => None,
    };
    if by_title is Some {
        by_title
    } else {
        match process {
            Some(p) => first_hit(process_rules, p, filter),
            None => None,
        }
    }
}

/// Among rules on one property, the first that applies is the one chosen.
pub proof fn lemma_first_applying_rule_wins(
    rules: Seq<WindowRule>,
    hay: Seq<char>,
    filter: Option<Seq<FilterRule>>,
    i: int,
)
    requires
        0 <= i < rules.len(),
        hits(rules[i], hay, filter),
        forall|j: int| 0 <= j < i ==> !hits(#[trigger] rules[j], hay, filter),
    ensures
        first_hit(rules, hay, filter) == Some(rules[i].rule),
    decreases i,
{
    if i > 0 {
        assert(!hits(rules[0], hay, filter));
        let rest = rules.drop_first();
        assert forall|j: int| 0 <= j < i - 1 implies !hits(#[trigger] rest[j], hay, filter) by {
            assert(rest[j] == rules[j + 1]);
        }
        lemma_first_applying_rule_wins(rest, hay, filter, i - 1);
    }
}

/// A title rule that applies is chosen over every process rule.
pub proof fn lemma_title_rules_first(
    rules: Seq<WindowRule>,
    process_rules: Seq<WindowRule>,
    title: Seq<char>,
    process: Option<Seq<char>>,
    filter: Option<Seq<FilterRule>>,
    i: int,
)
    requires
        0 <= i < rules.len(),
        hits(rules[i], title, filter),
        forall|j: int| 0 <= j < i ==> !hits(#[trigger] rules[j], title, filter),
    ensures
        select_rule(rules, process_rules, Some(title), process, filter) == Some(rules[i].rule),
{
    lemma_first_applying_rule_wins(rules, title, filter, i);
}

pub open spec fn filter_view(filter: Option<Vec<FilterRule>>) -> Option<Seq<FilterRule>> {
    match filter {
        Some(f) => Some(f@),
        None => None,
    }
}

pub open spec fn text_view(t: Option<&str>) -> Option<Seq<char>> {
    match t {
        Some(s) => Some(s@),
        None => None,
    }
}

fn same_kind(a: FilterRule, b: FilterRule) -> (r: bool)
    ensures
        r == (a == b),
{
    match (a, b) {
        (FilterRule::Layout, FilterRule::Layout) => true,
        (FilterRule::StartFloating, FilterRule::StartFloating) => true,
        (FilterRule::FloatingPosition, FilterRule::FloatingPosition) => true,
        (FilterRule::InvisibleBorder, FilterRule::InvisibleBorder) => true,
        _ => false,
    }
}

fn filter_passes(filter: &Option<Vec<FilterRule>>, k: FilterRule) -> (r: bool)
    ensures
        r == passes(filter_view(*filter), k),
{
    match filter {
        None => true,
        Some(f) => {
            let mut i: usize = 0;
            while i < f.len()
                invariant
                    *filter == Some(*f),
                    i <= f@.len(),
                    forall|j: int| 0 <= j < i ==> f@[j] != k,
                decreases f@.len() - i,
            {
                if same_kind(f[i], k) {
                    assert(f@[i as int] == k);
                    return true;
                }
                i = i + 1;
            }
            false
        },
    }
}

fn first_matching(rules: &Vec<WindowRule>, hay: &str, filter: &Option<Vec<FilterRule>>) -> (r:
    Option<Rule>)
    ensures
        r == first_hit(rules@, hay@, filter_view(*filter)),
{
    let mut i: usize = 0;
    assert(rules@.subrange(0, rules@.len() as int) =~= rules@);
    while i < rules.len()
        invariant
            i <= rules@.len(),
            first_hit(rules@, hay@, filter_view(*filter)) == first_hit(
                rules@.subrange(i as int, rules@.len() as int),
                hay@,
                filter_view(*filter),
            ),
        decreases rules@.len() - i,
    {
        let ghost rest = rules@.subrange(i as int, rules@.len() as int);
        assert(rest[0] == rules@[i as int]);
        assert(rest.drop_first() =~= rules@.subrange(i + 1, rules@.len() as int));
        if pattern_matches(rules[i].regex.as_str(), hay) && filter_passes(
            filter,
            FilterRule::from(&rules[i].rule),
        ) {
            return Some(rules[i].rule);
        }
        i = i + 1;
    }
    None
}

impl WindowRules {
    /// No rules.
    pub fn new() -> (r: WindowRules)
        ensures
            r.title_window_rules@.len() == 0,
            r.process_window_rules@.len() == 0,
    {
        WindowRules { title_window_rules: Vec::new(), process_window_rules: Vec::new() }
    }

    /// The rule for a window with the given title and process name, where they
    /// could be read, asking only for rules whose kind is in `filter` if given:
    /// title rules are tried before process rules, and within each the first
    /// that applies wins.
    pub fn get_window_rule(
        &self,
        title: Option<&str>,
        process: Option<&str>,
        filter: &Option<Vec<FilterRule>>,
    ) -> (r: Option<Rule>)
        ensures
            r == select_rule(
                self.title_window_rules@,
                self.process_window_rules@,
                text_view(title),
                text_view(process),
                filter_view(*filter),
            ),
    {
        if let Some(t) = title {
            let found = first_matching(&self.title_window_rules, t, filter);
            if found.is_some() {
                return found;
            }
        }
        match process {
            Some(p) => first_matching(&self.process_window_rules, p, filter),
            None => None,
        }
    }
}

/// Where the layout named `name` stands in `names`: the first such place.
pub fn layout_index(names: &Vec<String>, name: &String) -> (r: Option<usize>)
    ensures
        match r {
            Some(i) => i < names@.len() && names@[i as int]@ == name@ && forall|j: int|
                0 <= j < i ==> names@[j]@ != name@,
            None => forall|j: int| 0 <= j < names@.len() ==> names@[j]@ != name@,
        },
{
    let mut i: usize = 0;
    while i < names.len()
        invariant
            i <= names@.len(),
            forall|j: int| 0 <= j < i ==> names@[j]@ != name@,
        decreases names@.len() - i,
    {
        if names[i].eq(name) {
            return Some(i);
        }
        i = i + 1;
    }
    None
}

} // verus!
