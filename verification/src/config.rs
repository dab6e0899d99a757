use vstd::prelude::*;

use crate::text::{chars_eq, chars_of};

verus! {

/// A per-rule severity override from the configuration.
#[derive(Clone, Copy, Debug, PartialEq, Eq, Structural)]
pub enum RuleSeverityConfig {
    Off,
    Warn,
    Error,
}

/// Per-rule overrides, keyed by rule id (`category/rule-name`).
#[derive(Debug)]
pub struct RuleOverrides {
    entries: Vec<(String, RuleSeverityConfig)>,
}

/// The override recorded for `rule` in `entries`, searching from index `n` down.
pub open spec fn lookup_from(entries: Seq<(String, RuleSeverityConfig)>, rule: Seq<char>, n: int) -> Option<RuleSeverityConfig>
    decreases n,
{
    if n <= 0 {
        None
    } else if entries[n - 1].0@ == rule {
        Some(entries[n - 1].1)
    } else {
        lookup_from(entries, rule, n - 1)
    }
}

impl RuleOverrides {
    /// The override for `rule`, if one was set.
    pub closed spec fn get_spec(&self, rule: Seq<char>) -> Option<RuleSeverityConfig> {
        lookup_from(self.entries@, rule, self.entries@.len() as int)
    }

    pub fn new() -> (r: RuleOverrides)
        ensures
            forall|rule: Seq<char>| r.get_spec(rule) is None,
    {
        RuleOverrides { entries: Vec::new() }
    }

    /// Set the override for `rule`, replacing any earlier one.
    pub fn insert(&mut self, rule: String, severity: RuleSeverityConfig)
        ensures
            forall|r: Seq<char>| #[trigger] final(self).get_spec(r) == if r == rule@ {
                Some(severity)
            } else {
                old(self).get_spec(r)
            },
    {
        let ghost old_entries = self.entries@;
        let ghost key = rule@;
        self.entries.push((rule, severity));
        assert forall|r: Seq<char>| #[trigger] self.get_spec(r) == if r == key {
            Some(severity)
        } else {
            lookup_from(old_entries, r, old_entries.len() as int)
        } by {
            if r != key {
                lemma_lookup_prefix(self.entries@, old_entries, r, old_entries.len() as int);
            }
        }
    }

    /// The override for `rule`, if one was set.
    pub fn get(&self, rule: &[char]) -> (r: Option<RuleSeverityConfig>)
        ensures
            r == self.get_spec(rule@),
    {
        let mut n = self.entries.len();
        while n > 0
            invariant
                n <= self.entries@.len(),
                lookup_from(self.entries@, rule@, self.entries@.len() as int)
                    == lookup_from(self.entries@, rule@, n as int),
            decreases n,
        {
            let key = chars_of(self.entries[n - 1].0.as_str());
            if chars_eq(&key, rule) {
                return Some(self.entries[n - 1].1);
            }
            n = n - 1;
        }
        None
    }
}

proof fn lemma_lookup_prefix(
    longer: Seq<(String, RuleSeverityConfig)>,
    shorter: Seq<(String, RuleSeverityConfig)>,
    rule: Seq<char>,
    n: int,
)
    requires
        0 <= n <= shorter.len() <= longer.len(),
        forall|i: int| 0 <= i < shorter.len() ==> longer[i] == shorter[i],
    ensures
        lookup_from(longer, rule, n) == lookup_from(shorter, rule, n),
    decreases n,
{
    if n > 0 {
        lemma_lookup_prefix(longer, shorter, rule, n - 1);
    }
}

/// Linter settings: limits for the quality rules and per-rule overrides.
#[derive(Debug)]
pub struct Config {
    pub max_line_length: usize,
    pub use_tabs: bool,
    pub max_function_length: usize,
    pub max_file_length: usize,
    pub max_parameters: usize,
    pub max_returns: usize,
    pub max_nesting_depth: usize,
    pub max_local_variables: usize,
    pub max_branches: usize,
    pub max_class_variables: usize,
    pub max_public_methods: usize,
    pub max_inner_classes: usize,
    pub exclude: Vec<String>,
    pub rules: RuleOverrides,
}

/// The advisory rules that stay off unless the configuration enables them.
pub open spec fn is_off_by_default(rule: Seq<char>) -> bool {
    rule == "quality/type-hint"@ || rule == "quality/empty-function"@ || rule
        == "quality/no-debug-print"@
}

/// Whether `rule` runs under the configuration with overrides `o`.
pub open spec fn rule_enabled(o: Option<RuleSeverityConfig>, rule: Seq<char>) -> bool {
    match o {
        Some(RuleSeverityConfig::Off) => false,
        Some(_) => true,
        None => !is_off_by_default(rule),
    }
}

impl Config {
    /// Whether `rule` is enabled: an override decides, otherwise every rule
    /// but the advisory ones is on.
    pub fn is_rule_enabled(&self, rule: &str) -> (r: bool)
        ensures
            r == rule_enabled(self.rules.get_spec(rule@), rule@),
    {
        let name = chars_of(rule);
        match self.rules.get(&name) {
            Some(RuleSeverityConfig::Off) => false,
            Some(_) => true,
            None => {
                let a = chars_of("quality/type-hint");
                let b = chars_of("quality/empty-function");
                let c = chars_of("quality/no-debug-print");
                !(chars_eq(&name, &a) || chars_eq(&name, &b) || chars_eq(&name, &c))
            },
        }
    }
}

impl Default for Config {
    fn default() -> (c: Config)
        ensures
            c.max_line_length == 100,
            c.use_tabs,
            c.max_function_length == 50,
            c.max_file_length == 1000,
            c.max_parameters == 5,
            c.max_returns == 6,
            c.max_nesting_depth == 4,
            c.max_local_variables == 10,
            c.max_branches == 8,
            c.max_class_variables == 15,
            c.max_public_methods == 20,
            c.max_inner_classes == 5,
            c.exclude@.len() == 2,
            c.exclude@[0]@ == ".godot"@,
            c.exclude@[1]@ == "addons"@,
            forall|rule: Seq<char>| c.rules.get_spec(rule) is None,
    {
        let mut exclude: Vec<String> = Vec::new();
        exclude.push(".godot".to_owned());
        exclude.push("addons".to_owned());
        Config {
            max_line_length: 100,
            use_tabs: true,
            max_function_length: 50,
            max_file_length: 1000,
            max_parameters: 5,
            max_returns: 6,
            max_nesting_depth: 4,
            max_local_variables: 10,
            max_branches: 8,
            max_class_variables: 15,
            max_public_methods: 20,
            max_inner_classes: 5,
            exclude,
            rules: RuleOverrides::new(),
        }
    }
}

} // verus!
