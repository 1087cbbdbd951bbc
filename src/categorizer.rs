use vstd::prelude::*;
use crate::model::{opt_text, Ticket};
use crate::text::{contains_text, has_substring, lower_of, lowercase, same_text};

verus! {

/// A user-authored classification rule.
pub struct CategoryRule {
    pub id: String,
    pub name: String,
    /// Display color, opaque to the engine.
    pub color: String,
    pub conditions: Vec<RuleCondition>,
    pub match_mode: MatchMode,
}

/// One test on a ticket field.
pub struct RuleCondition {
    /// One of `summary`, `issue_type`, `project_key`, `labels`; any other makes the condition false.
    pub field: String,
    /// One of `contains`, `equals`, `regex`; any other makes the condition false.
    pub operator: String,
    pub value: String,
    pub case_sensitive: bool,
}

#[derive(PartialEq, Eq, Structural, Clone, Copy, Debug)]
pub enum MatchMode {
    All,
    Any,
}

/// The ordered rule list as the settings payload carries it.
pub struct CategoryRulesWrapper {
    pub category_rules: Vec<CategoryRule>,
}

/// Whether a regular expression search finds `pattern` in `text`; false when
/// `pattern` does not compile.
pub uninterp spec fn regex_finds(pattern: Seq<char>, text: Seq<char>) -> bool;

/// Relies on `regex::Regex::new` and `Regex::is_match`: compiles the pattern
/// and reports whether it matches anywhere in the text; a pattern that does
/// not compile counts as no match.
#[verifier::external_body]
fn regex_search(pattern: &str, text: &str) -> (r: bool)
    ensures
        r == regex_finds(pattern@, text@),
{
    regex::Regex::new(pattern).map(|re| re.is_match(text)).unwrap_or(false)
}

/// The ticket text that a field selector names, if the selector is supported.
pub open spec fn field_text(t: Ticket, field: Seq<char>) -> Option<Seq<char>> {
    if field == "summary"@ {
        Some(t.summary@)
    } else if field == "issue_type"@ {
        Some(t.issue_type@)
    } else if field == "project_key"@ {
        Some(t.project_key@)
    } else if field == "labels"@ {
        Some(t.labels@)
    } else {
        None
    }
}

/// `contains` and `equals` on text already brought to the compared form;
/// other operators do not hold.
pub open spec fn text_test(operator: Seq<char>, f: Seq<char>, v: Seq<char>) -> bool {
    if operator == "contains"@ {
        has_substring(f, v)
    } else if operator == "equals"@ {
        f == v
    } else {
        false
    }
}

/// Whether a condition holds of a ticket.
pub open spec fn condition_holds(t: Ticket, c: RuleCondition) -> bool {
    match field_text(t, c.field@) {
        None => false,
        Some(f) => if c.operator@ == "regex"@ {
            regex_finds(c.value@, f)
        } else if c.case_sensitive {
            text_test(c.operator@, f, c.value@)
        } else {
            text_test(c.operator@, lower_of(f), lower_of(c.value@))
        },
    }
}

/// Whether a rule matches a ticket under its match mode.
pub open spec fn rule_holds(t: Ticket, r: CategoryRule) -> bool {
    match r.match_mode {
        MatchMode::All => forall|i: int|
            0 <= i < r.conditions@.len() ==> condition_holds(t, #[trigger] r.conditions@[i]),
        MatchMode::Any => exists|i: int|
            0 <= i < r.conditions@.len() && condition_holds(t, #[trigger] r.conditions@[i]),
    }
}

/// Rule `i` is the first rule of `rules` that matches the ticket.
pub open spec fn is_first_match(t: Ticket, rules: Seq<CategoryRule>, i: int) -> bool {
    &&& 0 <= i < rules.len()
    &&& rule_holds(t, rules[i])
    &&& forall|j: int| 0 <= j < i ==> !rule_holds(t, #[trigger] rules[j])
}

/// The category that first-match categorization gives a ticket.
pub open spec fn categorized(t: Ticket, rules: Seq<CategoryRule>) -> Option<Seq<char>> {
    if exists|i: int| is_first_match(t, rules, i) {
        Some(rules[choose|i: int| is_first_match(t, rules, i)].name@)
    } else {
        None
    }
}

/// `contains` / `equals` on two texts that are already in the form to compare.
pub fn compare_text(operator: &str, field_value: &str, value: &str) -> (r: bool)
    ensures
        r == text_test(operator@, field_value@, value@),
{
    if same_text(operator, "contains") {
        contains_text(field_value, value)
    } else if same_text(operator, "equals") {
        same_text(field_value, value)
    } else {
        false
    }
}

/// Evaluates one condition; unknown fields, unknown operators and invalid
/// patterns give `false`.
pub fn eval_condition(ticket: &Ticket, cond: &RuleCondition) -> (r: bool)
    ensures
        r == condition_holds(*ticket, *cond),
{
    let field_value: &String = if same_text(&cond.field, "summary") {
        &ticket.summary
    } else if same_text(&cond.field, "issue_type") {
        &ticket.issue_type
    } else if same_text(&cond.field, "project_key") {
        &ticket.project_key
    } else if same_text(&cond.field, "labels") {
        &ticket.labels
    } else {
        return false;
    };
    assert(field_text(*ticket, cond.field@) == Some(field_value@));
    if same_text(&cond.operator, "regex") {
        regex_search(&cond.value, field_value)
    } else if cond.case_sensitive {
        compare_text(&cond.operator, field_value, &cond.value)
    } else {
        let f = lowercase(field_value);
        let v = lowercase(&cond.value);
        compare_text(&cond.operator, &f, &v)
    }
}

/// Whether a rule matches, conditions taken in order.
pub fn rule_matches(ticket: &Ticket, rule: &CategoryRule) -> (r: bool)
    ensures
        r == rule_holds(*ticket, *rule),
{
    let n = rule.conditions.len();
    let mut i: usize = 0;
    match rule.match_mode {
        MatchMode::All => {
            while i < n
                invariant
                    n == rule.conditions@.len(),
                    i <= n,
                    rule.match_mode == MatchMode::All,
                    forall|k: int| 0 <= k < i ==> condition_holds(*ticket, #[trigger] rule.conditions@[k]),
                decreases n - i,
            {
                if !eval_condition(ticket, &rule.conditions[i]) {
                    assert(!condition_holds(*ticket, rule.conditions@[i as int]));
                    return false;
                }
                i = i + 1;
            }
            true
        },
        MatchMode::Any => {
            while i < n
                invariant
                    n == rule.conditions@.len(),
                    i <= n,
                    rule.match_mode == MatchMode::Any,
                    forall|k: int| 0 <= k < i ==> !condition_holds(*ticket, #[trigger] rule.conditions@[k]),
                decreases n - i,
            {
                if eval_condition(ticket, &rule.conditions[i]) {
                    assert(condition_holds(*ticket, rule.conditions@[i as int]));
                    return true;
                }
                i = i + 1;
            }
            false
        },
    }
}

/// First-match categorization: the name of the first rule, in list order,
/// whose conditions match; `None` when no rule matches.
pub fn categorize_ticket(ticket: &Ticket, rules: &[CategoryRule]) -> (r: Option<String>)
    ensures
        match r {
            None => forall|i: int| 0 <= i < rules@.len() ==> !rule_holds(*ticket, #[trigger] rules@[i]),
            Some(name) => exists|i: int|
                is_first_match(*ticket, rules@, i) && name@ == (#[trigger] rules@[i]).name@,
        },
        opt_text(r) == categorized(*ticket, rules@),
{
    let n = rules.len();
    let mut i: usize = 0;
    while i < n
        invariant
            n == rules@.len(),
            i <= n,
            forall|k: int| 0 <= k < i ==> !rule_holds(*ticket, #[trigger] rules@[k]),
        decreases n - i,
    {
        if rule_matches(ticket, &rules[i]) {
            let name = rules[i].name.clone();
            assert(is_first_match(*ticket, rules@, i as int));
            proof {
                let c = choose|k: int| is_first_match(*ticket, rules@, k);
                lemma_first_match_unique(*ticket, rules@, c, i as int);
            }
            return Some(name);
        }
        i = i + 1;
    }
    assert forall|k: int| !is_first_match(*ticket, rules@, k) by {
        if 0 <= k < n {
            assert(!rule_holds(*ticket, rules@[k]));
        }
    }
    None
}

/// Only one rule index can be the first match.
pub proof fn lemma_first_match_unique(t: Ticket, rules: Seq<CategoryRule>, i: int, j: int)
    requires
        is_first_match(t, rules, i),
        is_first_match(t, rules, j),
    ensures
        i == j,
{
    if i < j {
        assert(!rule_holds(t, rules[i]));
    } else if j < i {
        assert(!rule_holds(t, rules[j]));
    }
}

/// Rule precedence: when an earlier rule matches, a later rule that also
/// matches never decides the category.
pub proof fn lemma_earlier_rule_wins(t: Ticket, rules: Seq<CategoryRule>, a: int, b: int)
    requires
        0 <= a < b < rules.len(),
        rule_holds(t, rules[a]),
    ensures
        !is_first_match(t, rules, b),
{
}

} // verus!
