//! Machine parts with four ratings pass through workflows of rules until
//! they are accepted or rejected; part two counts the combinations of
//! ratings that are accepted.

use vstd::prelude::*;
use vstd::string::StringSliceAdditionalSpecFns;
use crate::text::{
    split_lines, split_bytes, parse_usize, find_byte, copy_range, same_bytes, append_str,
    append_bytes, chars_of, views, lines, split, first_index, parse_nat,
};

verus! {

/// Why a text is no list of workflows and parts.
#[derive(Debug, PartialEq, Eq)]
pub enum InputError {
    Category(String),
    Comparison(String),
    Params(String),
    Numerical(String),
    _Rule(String),
    Workflow(String),
    Part(String),
}

impl InputError {
    /// The kind of the error, a dash, and its message.
    pub fn to_string(&self) -> (s: String)
        ensures
            s@ == match self {
                InputError::Category(msg) => "Category - "@ + msg@,
                InputError::Comparison(msg) => "Comparison - "@ + msg@,
                InputError::Params(msg) => "Params - "@ + msg@,
                InputError::Numerical(msg) => "Numerical - "@ + msg@,
                InputError::_Rule(msg) => "Rule - "@ + msg@,
                InputError::Workflow(msg) => "Workflow - "@ + msg@,
                InputError::Part(msg) => "Part - "@ + msg@,
            },
    {
        let mut s = String::new();
        match self {
            InputError::Category(msg) => {
                append_str(&mut s, "Category - ");
                append_str(&mut s, msg.as_str());
            },
            InputError::Comparison(msg) => {
                append_str(&mut s, "Comparison - ");
                append_str(&mut s, msg.as_str());
            },
            InputError::Params(msg) => {
                append_str(&mut s, "Params - ");
                append_str(&mut s, msg.as_str());
            },
            InputError::Numerical(msg) => {
                append_str(&mut s, "Numerical - ");
                append_str(&mut s, msg.as_str());
            },
            InputError::_Rule(msg) => {
                append_str(&mut s, "Rule - ");
                append_str(&mut s, msg.as_str());
            },
            InputError::Workflow(msg) => {
                append_str(&mut s, "Workflow - ");
                append_str(&mut s, msg.as_str());
            },
            InputError::Part(msg) => {
                append_str(&mut s, "Part - ");
                append_str(&mut s, msg.as_str());
            },
        }
        s
    }
}

/// The message for a word that could not be read.
fn invalid(word: &[u8]) -> (s: String)
    ensures
        s@ == "Invalid input: "@ + chars_of(word@),
{
    let mut s = String::new();
    append_str(&mut s, "Invalid input: ");
    append_bytes(&mut s, word);
    s
}

#[derive(Debug, Clone, Copy, PartialEq, Eq, Structural)]
pub enum Category {
    X,
    M,
    A,
    S,
}

/// The category that a word names.
pub open spec fn category_of(value: Seq<u8>) -> Option<Category> {
    if value.len() != 1 {
        None
    } else if value[0] == 120 {
        Some(Category::X)
    } else if value[0] == 109 {
        Some(Category::M)
    } else if value[0] == 97 {
        Some(Category::A)
    } else if value[0] == 115 {
        Some(Category::S)
    } else {
        None
    }
}

impl Category {
    pub fn try_from(value: &[u8]) -> (r: Result<Category, InputError>)
        ensures
            match r {
                Ok(c) => category_of(value@) == Some(c),
                Err(e) => category_of(value@) is None && e == InputError::Category(e->Category_0)
                    && e->Category_0@ == "Invalid input: "@ + chars_of(value@),
            },
    {
        if value.len() == 1 && value[0] == 120 {
            Ok(Category::X)
        } else if value.len() == 1 && value[0] == 109 {
            Ok(Category::M)
        } else if value.len() == 1 && value[0] == 97 {
            Ok(Category::A)
        } else if value.len() == 1 && value[0] == 115 {
            Ok(Category::S)
        } else {
            Err(InputError::Category(invalid(value)))
        }
    }
}

#[derive(Debug, Clone, Copy, PartialEq, Eq, Structural)]
pub enum Comparison {
    Greater,
    Less,
}

/// The comparison that a word writes.
pub open spec fn comparison_of(value: Seq<u8>) -> Option<Comparison> {
    if value.len() != 1 {
        None
    } else if value[0] == 60 {
        Some(Comparison::Less)
    } else if value[0] == 62 {
        Some(Comparison::Greater)
    } else {
        None
    }
}

impl Comparison {
    pub fn try_from(value: &[u8]) -> (r: Result<Comparison, InputError>)
        ensures
            match r {
                Ok(c) => comparison_of(value@) == Some(c),
                Err(e) => comparison_of(value@) is None && e is Comparison,
            },
    {
        if value.len() == 1 && value[0] == 60 {
            Ok(Comparison::Less)
        } else if value.len() == 1 && value[0] == 62 {
            Ok(Comparison::Greater)
        } else {
            Err(InputError::Comparison(invalid(value)))
        }
    }
}

/// Where a rule sends a part: to acceptance, to rejection, or to the
/// workflow with a name.
#[derive(Debug, PartialEq, Eq)]
pub enum Destination {
    Accepted,
    Rejected,
    Other(Vec<u8>),
}

impl Destination {
    /// The destination that `value` names: `A`, `R`, or a workflow.
    pub fn from(value: &[u8]) -> (r: Destination)
        ensures
            match r {
                Destination::Accepted => value@ == seq![65u8],
                Destination::Rejected => value@ == seq![82u8],
                Destination::Other(name) => name@ == value@ && value@ != seq![65u8] && value@
                    != seq![82u8],
            },
    {
        if value.len() == 1 && value[0] == 65 {
            assert(value@ =~= seq![65u8]);
            Destination::Accepted
        } else if value.len() == 1 && value[0] == 82 {
            assert(value@ =~= seq![82u8]);
            Destination::Rejected
        } else {
            proof {
                if value@ == seq![65u8] {
                    assert(value@[0] == seq![65u8][0]);
                }
                if value@ == seq![82u8] {
                    assert(value@[0] == seq![82u8][0]);
                }
            }
            let name = copy_range(value, 0, value.len());
            assert(name@ =~= value@);
            Destination::Other(name)
        }
    }
}

/// A rule with a condition: parts whose rating in `category` compares to
/// `val` as `comparison` says go to `dest`.
#[derive(Debug)]
pub struct Params {
    pub category: Category,
    pub comparison: Comparison,
    pub val: usize,
    pub dest: Destination,
}

#[derive(Debug)]
pub enum Rule {
    Dest(Destination),
    Eval(Params),
}

/// The number that a word writes, if it writes one that fits the machine
/// word.
pub open spec fn word_value(word: Seq<u8>) -> Option<usize> {
    match parse_nat(word) {
        Some(v) => if v <= usize::MAX {
            Some(v as usize)
        } else {
            None
        },
        None => None,
    }
}

/// `dest` is the destination that `word` names.
pub open spec fn names_dest(dest: Destination, word: Seq<u8>) -> bool {
    match dest {
        Destination::Accepted => word == seq![65u8],
        Destination::Rejected => word == seq![82u8],
        Destination::Other(name) => name@ == word && word != seq![65u8] && word != seq![82u8],
    }
}

/// The word writes a rule with a condition: a category, a comparison, a
/// number, a colon and a destination.
pub open spec fn params_ok(value: Seq<u8>) -> bool {
    let colon = first_index(value, 58u8);
    &&& 2 <= colon
    &&& colon + 1 < value.len()
    &&& category_of(value.subrange(0, 1)) is Some
    &&& comparison_of(value.subrange(1, 2)) is Some
    &&& word_value(value.subrange(2, colon)) is Some
}

/// `p` is the rule with a condition that the word writes.
pub open spec fn reads_params(value: Seq<u8>, p: Params) -> bool {
    let colon = first_index(value, 58u8);
    &&& params_ok(value)
    &&& category_of(value.subrange(0, 1)) == Some(p.category)
    &&& comparison_of(value.subrange(1, 2)) == Some(p.comparison)
    &&& word_value(value.subrange(2, colon)) == Some(p.val)
    &&& names_dest(p.dest, value.subrange(colon + 1, value.len() as int))
}

/// The word writes a rule: one with a condition if it has a colon.
pub open spec fn rule_ok(value: Seq<u8>) -> bool {
    !value.contains(58u8) || params_ok(value)
}

/// `rule` is the rule that the word writes.
pub open spec fn reads_rule(value: Seq<u8>, rule: Rule) -> bool {
    match rule {
        Rule::Dest(dest) => !value.contains(58u8) && names_dest(dest, value),
        Rule::Eval(params) => value.contains(58u8) && reads_params(value, params),
    }
}

/// The words between the braces of a workflow, cut at the commas.
pub open spec fn rule_words(value: Seq<u8>) -> Seq<Seq<u8>> {
    split(value.subrange(first_index(value, 123u8) + 1, first_index(value, 125u8)), 44u8)
}

/// The line writes a workflow: a name and, in braces that open before
/// they close, rules with commas between them.
pub open spec fn workflow_ok(value: Seq<u8>) -> bool {
    &&& first_index(value, 123u8) < first_index(value, 125u8) < value.len()
    &&& forall|i: int| 0 <= i < rule_words(value).len() ==> rule_ok(#[trigger] rule_words(value)[i])
}

/// `name` and `rules` are those of the workflow that the line writes.
pub open spec fn reads_workflow(value: Seq<u8>, name: Seq<u8>, rules: Seq<Rule>) -> bool {
    &&& workflow_ok(value)
    &&& name == value.subrange(0, first_index(value, 123u8))
    &&& rules.len() == rule_words(value).len()
    &&& forall|i: int| 0 <= i < rules.len() ==> reads_rule(rule_words(value)[i], #[trigger] rules[i])
}

/// The words between the braces of a part, cut at the commas.
pub open spec fn part_words(value: Seq<u8>) -> Seq<Seq<u8>> {
    split(value.subrange(1, value.len() - 1), 44u8)
}

/// The rating that a word of a part gives: the number behind its first
/// two bytes.
pub open spec fn rating_in(word: Seq<u8>) -> Option<usize> {
    if word.len() < 2 {
        None
    } else {
        word_value(word.subrange(2, word.len() as int))
    }
}

/// The line writes a part: four ratings in braces, with commas between
/// them.
pub open spec fn part_ok(value: Seq<u8>) -> bool {
    &&& value.len() >= 2
    &&& value[0] == 123
    &&& value[value.len() - 1] == 125
    &&& part_words(value).len() == 4
    &&& forall|i: int| 0 <= i < 4 ==> rating_in(#[trigger] part_words(value)[i]) is Some
}

/// `part` is the part that the line writes.
pub open spec fn reads_part(value: Seq<u8>, part: Part) -> bool {
    &&& part_ok(value)
    &&& rating_in(part_words(value)[0]) == Some(part.x)
    &&& rating_in(part_words(value)[1]) == Some(part.m)
    &&& rating_in(part_words(value)[2]) == Some(part.a)
    &&& rating_in(part_words(value)[3]) == Some(part.s)
}

impl Params {
    /// Reads a category, a comparison, a value, a colon and a
    /// destination.
    pub fn try_from(value: &[u8]) -> (r: Result<Params, InputError>)
        ensures
            r matches Ok(p) ==> value@.len() >= 4 && category_of(value@.subrange(0, 1)) == Some(
                p.category,
            ) && comparison_of(value@.subrange(1, 2)) == Some(p.comparison),
            match r {
                Ok(p) => reads_params(value@, p),
                Err(_) => !params_ok(value@),
            },
    {
        let len = value.len();
        let colon = match find_byte(value, 58u8) {
            Some(colon) => colon,
            None => {
                return Err(InputError::Params("No colon found".to_owned()));
            },
        };
        if colon == len - 1 {
            return Err(InputError::Params("No destination found".to_owned()));
        }
        let first = copy_range(value, 0, 1);
        let category = match Category::try_from(first.as_slice()) {
            Ok(category) => category,
            Err(e) => {
                return Err(e);
            },
        };
        let second = copy_range(value, 1, 2);
        let comparison = match Comparison::try_from(second.as_slice()) {
            Ok(comparison) => comparison,
            Err(e) => {
                return Err(e);
            },
        };
        if colon < 2 {
            return Err(InputError::Numerical(invalid(second.as_slice())));
        }
        let number = copy_range(value, 2, colon);
        let val = match parse_usize(number.as_slice()) {
            Some(val) => val,
            None => {
                return Err(InputError::Numerical(invalid(number.as_slice())));
            },
        };
        let rest = copy_range(value, colon + 1, len);
        let dest = Destination::from(rest.as_slice());
        Ok(Params { category, comparison, val, dest })
    }

    /// Whether the rule applies to `part`.
    pub fn matches(&self, part: &Part) -> (r: bool)
        ensures
            r == match self.comparison {
                Comparison::Greater => rating(*part, self.category) > self.val,
                Comparison::Less => rating(*part, self.category) < self.val,
            },
    {
        match self.comparison {
            Comparison::Greater => self.val < part.index(self.category),
            Comparison::Less => self.val > part.index(self.category),
        }
    }
}

impl Rule {
    /// Reads a rule: with a colon a condition and a destination, without
    /// one a destination alone.
    pub fn try_from(value: &[u8]) -> (r: Result<Rule, InputError>)
        ensures
            r matches Ok(Rule::Dest(_)) ==> !value@.contains(58u8),
            r matches Ok(Rule::Eval(_)) ==> value@.contains(58u8),
            match r {
                Ok(rule) => reads_rule(value@, rule),
                Err(_) => !rule_ok(value@),
            },
    {
        match find_byte(value, 58u8) {
            Some(_) => match Params::try_from(value) {
                Ok(params) => Ok(Rule::Eval(params)),
                Err(e) => Err(e),
            },
            None => Ok(Rule::Dest(Destination::from(value))),
        }
    }
}

/// A workflow: its name and its rules.
#[derive(Debug)]
pub struct Workflow(pub Vec<u8>, pub Vec<Rule>);

impl Workflow {
    /// Reads a name and, in braces, rules with commas between them.
    pub fn try_from(value: &[u8]) -> (r: Result<Workflow, InputError>)
        ensures
            match r {
                Ok(workflow) => reads_workflow(value@, workflow.0@, workflow.1@),
                Err(_) => !workflow_ok(value@),
            },
    {
        let (rule_start, rule_end) = match (find_byte(value, 123u8), find_byte(value, 125u8)) {
            (Some(start), Some(end)) => (start, end),
            _ => {
                return Err(InputError::Workflow("No rules found".to_owned()));
            },
        };
        if rule_end <= rule_start {
            return Err(InputError::Workflow("No rules found".to_owned()));
        }
        let name = copy_range(value, 0, rule_start);
        let body = copy_range(value, rule_start + 1, rule_end);
        let words = split_bytes(body.as_slice(), 44u8);
        assert(views(words@) == rule_words(value@));
        let mut rules: Vec<Rule> = Vec::new();
        let mut i: usize = 0;
        while i < words.len()
            invariant
                i <= words@.len(),
                views(words@) == rule_words(value@),
                rules@.len() == i,
                forall|k: int|
                    0 <= k < i ==> reads_rule(rule_words(value@)[k], #[trigger] rules@[k]),
                forall|k: int| 0 <= k < i ==> rule_ok(#[trigger] rule_words(value@)[k]),
            decreases words@.len() - i,
        {
            assert(views(words@)[i as int] == words@[i as int]@);
            match Rule::try_from(words[i].as_slice()) {
                Ok(rule) => {
                    let ghost before = rules@;
                    rules.push(rule);
                    assert forall|k: int| 0 <= k < i + 1 implies reads_rule(
                        rule_words(value@)[k],
                        #[trigger] rules@[k],
                    ) by {
                        if k < i {
                            assert(rules@[k] == before[k]);
                        }
                    }
                },
                Err(e) => {
                    assert(!rule_ok(rule_words(value@)[i as int]));
                    return Err(e);
                },
            }
            i += 1;
        }
        Ok(Workflow(name, rules))
    }
}

/// The first place from `k` on at which `name` stands among the names.
pub open spec fn place_of(names: Seq<Vec<u8>>, name: Seq<u8>, k: int) -> Option<int>
    decreases names.len() - k,
{
    if k < 0 || k >= names.len() {
        None
    } else if names[k]@ == name {
        Some(k)
    } else {
        place_of(names, name, k + 1)
    }
}

/// A place that is found lies among the names.
pub proof fn lemma_place_of(names: Seq<Vec<u8>>, name: Seq<u8>, k: int)
    requires
        0 <= k,
    ensures
        place_of(names, name, k) matches Some(i) ==> k <= i < names.len() && names[i]@ == name,
    decreases names.len() - k,
{
    if k < names.len() && names[k]@ != name {
        lemma_place_of(names, name, k + 1);
    }
}

/// The workflows by name.
pub struct Workflows {
    pub names: Vec<Vec<u8>>,
    pub rules: Vec<Vec<Rule>>,
}

impl Workflows {
    /// Every name has its rules.
    pub open spec fn wf(&self) -> bool {
        self.names@.len() == self.rules@.len()
    }

    /// The place of the first workflow with the name `name`.
    pub fn get(&self, name: &[u8]) -> (r: Option<usize>)
        requires
            self.wf(),
        ensures
            r matches Some(i) ==> i < self.rules@.len() && self.names@[i as int]@ == name@,
            r == match place_of(self.names@, name@, 0) {
                Some(i) => Some(i as usize),
                None => None,
            },
    {
        let n = self.names.len();
        let mut i: usize = 0;
        while i < n
            invariant
                self.wf(),
                n == self.names@.len(),
                i <= n,
                place_of(self.names@, name@, 0) == place_of(self.names@, name@, i as int),
            decreases n - i,
        {
            if same_bytes(self.names[i].as_slice(), name) {
                return Some(i);
            }
            i += 1;
        }
        None
    }

    /// Enters a workflow; one of the same name is replaced.
    pub fn insert(&mut self, workflow: Workflow)
        requires
            old(self).wf(),
        ensures
            final(self).wf(),
            match place_of(old(self).names@, workflow.0@, 0) {
                Some(i) => final(self).names@ == old(self).names@ && final(self).rules@
                    == old(self).rules@.update(i, workflow.1),
                None => final(self).names@ == old(self).names@.push(workflow.0)
                    && final(self).rules@ == old(self).rules@.push(workflow.1),
            },
    {
        let Workflow(name, rules) = workflow;
        proof {
            lemma_place_of(self.names@, name@, 0);
            vstd::std_specs::vec::axiom_spec_len(&self.names);
        }
        match self.get(name.as_slice()) {
            Some(i) => {
                self.rules.set(i, rules);
            },
            None => {
                self.names.push(name);
                self.rules.push(rules);
            },
        }
    }
}

#[derive(Debug, Clone, Copy, PartialEq, Eq)]
pub struct Part {
    pub x: usize,
    pub m: usize,
    pub a: usize,
    pub s: usize,
}

/// The rating of a part in a category.
pub open spec fn rating(part: Part, idx: Category) -> usize {
    match idx {
        Category::X => part.x,
        Category::M => part.m,
        Category::A => part.a,
        Category::S => part.s,
    }
}

/// The destination of the first rule from index `k` on that applies to
/// the part, as the index of that rule.
pub open spec fn first_rule(part: Part, rules: Seq<Rule>, k: int) -> Option<int>
    decreases rules.len() - k,
{
    if k < 0 || k >= rules.len() {
        None
    } else {
        match rules[k] {
            Rule::Dest(_) => Some(k),
            Rule::Eval(params) => if match params.comparison {
                Comparison::Greater => rating(part, params.category) > params.val,
                Comparison::Less => rating(part, params.category) < params.val,
            } {
                Some(k)
            } else {
                first_rule(part, rules, k + 1)
            },
        }
    }
}

/// Where a rule sends the parts that it applies to.
pub open spec fn target(rule: Rule) -> Destination {
    match rule {
        Rule::Dest(dest) => dest,
        Rule::Eval(params) => params.dest,
    }
}

/// The name of the workflow that every part enters first, `in`.
pub open spec fn in_name() -> Seq<u8> {
    seq![105u8, 110u8]
}

/// Where the part ends when it enters the workflow at place `at` and may
/// pass `fuel` workflows: the first rule that applies sends it on to
/// another workflow or to its end. Nothing if no rule applies, a workflow
/// is missing, or the part has passed `fuel` workflows.
pub open spec fn sorted_from(part: Part, workflows: Workflows, at: int, fuel: nat) -> Option<
    Destination,
>
    decreases fuel,
{
    if fuel == 0 {
        None
    } else {
        match first_rule(part, workflows.rules@[at]@, 0) {
            None => None,
            Some(k) => match target(workflows.rules@[at]@[k]) {
                Destination::Other(next) => match place_of(workflows.names@, next@, 0) {
                    Some(n) => sorted_from(part, workflows, n, (fuel - 1) as nat),
                    None => None,
                },
                dest => Some(dest),
            },
        }
    }
}

/// Where the part ends when it enters the workflow `in` and may pass as
/// many workflows as there are.
pub open spec fn sorted(part: Part, workflows: Workflows) -> Option<Destination> {
    match place_of(workflows.names@, in_name(), 0) {
        Some(at) => sorted_from(part, workflows, at, workflows.rules@.len()),
        None => None,
    }
}

impl Part {
    /// Reads four ratings in braces, each behind a name and an equals
    /// sign, with commas between them.
    pub fn try_from(value: &[u8]) -> (r: Result<Part, InputError>)
        ensures
            match r {
                Ok(part) => reads_part(value@, part),
                Err(_) => !part_ok(value@),
            },
    {
        let len = value.len();
        if !(len >= 2 && value[0] == 123 && value[len - 1] == 125) {
            return Err(InputError::Part("Not contained in {{}}".to_owned()));
        }
        let body = copy_range(value, 1, len - 1);
        let words = split_bytes(body.as_slice(), 44u8);
        assert(views(words@) == part_words(value@));
        let mut values: Vec<usize> = Vec::new();
        let mut i: usize = 0;
        while i < words.len()
            invariant
                i <= words@.len(),
                values@.len() == i,
                views(words@) == part_words(value@),
                forall|k: int|
                    0 <= k < i ==> rating_in(part_words(value@)[k]) == Some(#[trigger] values@[k]),
            decreases words@.len() - i,
        {
            let word = &words[i];
            assert(views(words@)[i as int] == word@);
            let n = word.len();
            if n < 2 {
                assert(rating_in(part_words(value@)[i as int]) is None);
                return Err(InputError::Part("Missing categories".to_owned()));
            }
            let number = copy_range(word.as_slice(), 2, n);
            match parse_usize(number.as_slice()) {
                Some(v) => {
                    let ghost before = values@;
                    values.push(v);
                    assert forall|k: int| 0 <= k < i + 1 implies rating_in(part_words(value@)[k])
                        == Some(#[trigger] values@[k]) by {
                        if k < i {
                            assert(values@[k] == before[k]);
                        }
                    }
                },
                None => {
                    assert(rating_in(part_words(value@)[i as int]) is None);
                    return Err(InputError::Numerical(invalid(number.as_slice())));
                },
            }
            i += 1;
        }
        assert(values@.len() == part_words(value@).len());
        if values.len() == 4 {
            Ok(Part { x: values[0], m: values[1], a: values[2], s: values[3] })
        } else {
            Err(InputError::Part("Missing categories".to_owned()))
        }
    }

    /// The rating of the part in the category `idx`.
    pub fn index(&self, idx: Category) -> (r: usize)
        ensures
            r == rating(*self, idx),
    {
        match idx {
            Category::X => self.x,
            Category::M => self.m,
            Category::A => self.a,
            Category::S => self.s,
        }
    }

    /// The destination of the first rule that applies to the part; `None`
    /// if no rule applies.
    pub fn apply_rules<'a>(&self, rules: &'a Vec<Rule>) -> (r: Option<&'a Destination>)
        ensures
            match r {
                Some(dest) => first_rule(*self, rules@, 0) is Some && *dest == target(
                    rules@[first_rule(*self, rules@, 0)->0],
                ),
                None => first_rule(*self, rules@, 0) is None,
            },
    {
        let n = rules.len();
        let mut k: usize = 0;
        while k < n
            invariant
                n == rules@.len(),
                k <= n,
                first_rule(*self, rules@, 0) == first_rule(*self, rules@, k as int),
            decreases n - k,
        {
            match &rules[k] {
                Rule::Dest(dest) => {
                    return Some(dest);
                },
                Rule::Eval(params) => {
                    if params.matches(self) {
                        return Some(&params.dest);
                    }
                },
            }
            k += 1;
        }
        None
    }

    /// Passes the part through the workflows, beginning with `in`, until
    /// it is accepted or rejected. `None` if a workflow is missing or has
    /// no rule for the part, or the part passes more workflows than there
    /// are.
    pub fn sort<'a>(&self, workflows: &'a Workflows) -> (r: Option<&'a Destination>)
        requires
            workflows.wf(),
        ensures
            r matches Some(dest) ==> *dest == Destination::Accepted || *dest
                == Destination::Rejected,
            match r {
                Some(dest) => sorted(*self, *workflows) == Some(*dest),
                None => sorted(*self, *workflows) is None,
            },
    {
        proof {
            vstd::string::is_ascii_spec_bytes("in");
            reveal_strlit("in");
            assert("in".spec_bytes() =~= in_name());
            lemma_place_of(workflows.names@, in_name(), 0);
            vstd::std_specs::vec::axiom_spec_len(&workflows.names);
        }
        let mut wf = match workflows.get("in".as_bytes()) {
            Some(wf) => wf,
            None => {
                return None;
            },
        };
        let n = workflows.rules.len();
        let mut passed: usize = 0;
        while passed < n
            invariant
                workflows.wf(),
                n == workflows.rules@.len(),
                wf < n,
                passed <= n,
                sorted(*self, *workflows) == sorted_from(
                    *self,
                    *workflows,
                    wf as int,
                    (n - passed) as nat,
                ),
            decreases n - passed,
        {
            proof {
                vstd::std_specs::vec::axiom_spec_len(&workflows.names);
            }
            let dest = match self.apply_rules(&workflows.rules[wf]) {
                Some(dest) => dest,
                None => {
                    return None;
                },
            };
            match dest {
                Destination::Other(next) => {
                    proof {
                        lemma_place_of(workflows.names@, next@, 0);
                    }
                    wf = match workflows.get(next.as_slice()) {
                        Some(wf) => wf,
                        None => {
                            return None;
                        },
                    };
                },
                Destination::Accepted => {
                    return Some(dest);
                },
                Destination::Rejected => {
                    return Some(dest);
                },
            }
            passed += 1;
        }
        None
    }

    /// The sum of the four ratings, if it fits the machine word.
    pub fn sum(&self) -> (r: Option<usize>)
        ensures
            match r {
                Some(total) => total == self.x + self.m + self.a + self.s,
                None => self.x + self.m + self.a + self.s > usize::MAX,
            },
    {
        match self.x.checked_add(self.m) {
            Some(xm) => match xm.checked_add(self.a) {
                Some(xma) => xma.checked_add(self.s),
                None => None,
            },
            None => None,
        }
    }
}

/// For each category a range of ratings, from the first number up to the
/// second, which is left out.
#[derive(Debug, Clone, Copy, PartialEq, Eq)]
pub struct PartRange {
    pub x: (usize, usize),
    pub m: (usize, usize),
    pub a: (usize, usize),
    pub s: (usize, usize),
}

/// The range of a category.
pub open spec fn range_of(range: PartRange, idx: Category) -> (usize, usize) {
    match idx {
        Category::X => range.x,
        Category::M => range.m,
        Category::A => range.a,
        Category::S => range.s,
    }
}

/// The ranges with `value` in the place of the range of `idx`.
pub open spec fn with_range(range: PartRange, idx: Category, value: (usize, usize)) -> PartRange {
    match idx {
        Category::X => PartRange { x: value, ..range },
        Category::M => PartRange { m: value, ..range },
        Category::A => PartRange { a: value, ..range },
        Category::S => PartRange { s: value, ..range },
    }
}

/// Where the rule cuts the range of its category: above its value for
/// `>`, at its value for `<`.
pub open spec fn cut_of(params: Params) -> int {
    match params.comparison {
        Comparison::Greater => params.val + 1,
        Comparison::Less => params.val as int,
    }
}

/// No range ends before it begins, and the product of the lengths of the
/// first two, the first three and all four ranges fits the machine word.
pub open spec fn countable(range: PartRange) -> bool {
    &&& range.x.0 <= range.x.1
    &&& range.m.0 <= range.m.1
    &&& range.a.0 <= range.a.1
    &&& range.s.0 <= range.s.1
    &&& (range.x.1 - range.x.0) * (range.m.1 - range.m.0) <= usize::MAX
    &&& (range.x.1 - range.x.0) * (range.m.1 - range.m.0) * (range.a.1 - range.a.0) <= usize::MAX
    &&& (range.x.1 - range.x.0) * (range.m.1 - range.m.0) * (range.a.1 - range.a.0) * (range.s.1
        - range.s.0) <= usize::MAX
}

/// What is left of the ranges, and what was taken from them, with the
/// number of the rule that took it, after the first `k` rules: a rule with
/// a condition whose value lies in the range of its category takes the
/// part that it applies to; a rule without one takes what is left, which
/// goes on all the same.
pub open spec fn split_upto(range: PartRange, rules: Seq<Rule>, k: nat) -> (
    PartRange,
    Seq<(PartRange, int)>,
)
    decreases k,
{
    if k == 0 {
        (range, Seq::empty())
    } else {
        let (rest, taken) = split_upto(range, rules, (k - 1) as nat);
        match rules[k - 1] {
            Rule::Dest(_) => (rest, taken.push((rest, k - 1))),
            Rule::Eval(params) => {
                let whole = range_of(rest, params.category);
                if whole.0 <= params.val < whole.1 {
                    let low = with_range(rest, params.category, (whole.0, cut_of(params) as usize));
                    let high = with_range(
                        rest,
                        params.category,
                        (cut_of(params) as usize, whole.1),
                    );
                    match params.comparison {
                        Comparison::Greater => (low, taken.push((high, k - 1))),
                        Comparison::Less => (high, taken.push((low, k - 1))),
                    }
                } else {
                    (rest, taken)
                }
            },
        }
    }
}

/// `splits` holds what the rules take from the ranges, each part with the
/// destination of the rule that took it.
pub open spec fn is_split(
    range: PartRange,
    rules: Seq<Rule>,
    k: nat,
    splits: Seq<(PartRange, &Destination)>,
) -> bool {
    let taken = split_upto(range, rules, k).1;
    &&& splits.len() == taken.len()
    &&& forall|i: int|
        0 <= i < splits.len() ==> (#[trigger] splits[i]).0 == taken[i].0 && 0 <= taken[i].1 < k
            && *splits[i].1 == target(rules[taken[i].1])
}

impl PartRange {
    /// The range of the category `idx`.
    pub fn index(&self, idx: Category) -> (r: (usize, usize))
        ensures
            r == range_of(*self, idx),
    {
        match idx {
            Category::X => self.x,
            Category::M => self.m,
            Category::A => self.a,
            Category::S => self.s,
        }
    }

    /// Puts `value` in the place of the range of the category `idx`.
    pub fn index_mut(&mut self, idx: Category, value: (usize, usize))
        ensures
            *final(self) == with_range(*old(self), idx, value),
    {
        match idx {
            Category::X => {
                self.x = value;
            },
            Category::M => {
                self.m = value;
            },
            Category::A => {
                self.a = value;
            },
            Category::S => {
                self.s = value;
            },
        }
    }

    /// Passes the ranges through the rules: each rule with a condition
    /// whose value lies in the range of its category takes the part of
    /// the ranges that it applies to, and the rest goes on to the next
    /// rule; a rule without a condition takes what is left, which goes on
    /// all the same.
    pub fn split<'a>(self, rules: &'a Vec<Rule>) -> (splits: Vec<(PartRange, &'a Destination)>)
        ensures
            splits@.len() <= rules@.len(),
            is_split(self, rules@, rules@.len(), splits@),
    {
        let mut rest = self;
        let mut splits: Vec<(PartRange, &'a Destination)> = Vec::new();
        let n = rules.len();
        let mut k: usize = 0;
        while k < n
            invariant
                n == rules@.len(),
                k <= n,
                splits@.len() <= k,
                rest == split_upto(self, rules@, k as nat).0,
                is_split(self, rules@, k as nat, splits@),
            decreases n - k,
        {
            let ghost before = splits@;
            let ghost taken = split_upto(self, rules@, k as nat).1;
            match &rules[k] {
                Rule::Dest(dest) => {
                    splits.push((rest, dest));
                },
                Rule::Eval(params) => {
                    if rest.contains(params.val, params.category) {
                        let halves = rest.split_at_category(params);
                        rest = halves[1];
                        splits.push((halves[0], &params.dest));
                    }
                },
            }
            proof {
                let after = split_upto(self, rules@, (k + 1) as nat).1;
                assert(splits@.len() == after.len());
                assert forall|i: int| 0 <= i < splits@.len() implies (#[trigger] splits@[i]).0
                    == after[i].0 && 0 <= after[i].1 < k + 1 && *splits@[i].1 == target(
                    rules@[after[i].1],
                ) by {
                    if i < before.len() {
                        assert(splits@[i] == before[i]);
                        assert(after[i] == taken[i]);
                    }
                }
            }
            k += 1;
        }
        splits
    }

    /// Cuts the range of the rule's category in two, and returns first
    /// the ranges that the rule applies to, then the others.
    pub fn split_at_category(self, params: &Params) -> (halves: [PartRange; 2])
        requires
            params.val < usize::MAX,
        ensures
            ({
                let range = range_of(self, params.category);
                let low = with_range(self, params.category, (range.0, cut_of(*params) as usize));
                let high = with_range(self, params.category, (cut_of(*params) as usize, range.1));
                match params.comparison {
                    Comparison::Greater => halves@[0] == high && halves@[1] == low,
                    Comparison::Less => halves@[0] == low && halves@[1] == high,
                }
            }),
    {
        let mut low = self;
        let mut high = self;
        let split = match params.comparison {
            Comparison::Greater => params.val + 1,
            Comparison::Less => params.val,
        };
        let range = self.index(params.category);
        high.index_mut(params.category, (split, range.1));
        low.index_mut(params.category, (range.0, split));
        match params.comparison {
            Comparison::Greater => [high, low],
            Comparison::Less => [low, high],
        }
    }

    /// Whether `split_idx` lies in the range of `category`.
    pub fn contains(&self, split_idx: usize, category: Category) -> (r: bool)
        ensures
            r == (range_of(*self, category).0 <= split_idx < range_of(*self, category).1),
            r ==> split_idx < usize::MAX,
    {
        match category {
            Category::X => self.x.0 <= split_idx && split_idx < self.x.1,
            Category::M => self.m.0 <= split_idx && split_idx < self.m.1,
            Category::A => self.a.0 <= split_idx && split_idx < self.a.1,
            Category::S => self.s.0 <= split_idx && split_idx < self.s.1,
        }
    }

    /// The number of combinations of ratings in the ranges: the product
    /// of their lengths. `None` if a range ends before it begins, or the
    /// product does not fit the machine word.
    pub fn combinations(&self) -> (r: Option<usize>)
        ensures
            r matches Some(n) ==> n == (self.x.1 - self.x.0) * (self.m.1 - self.m.0) * (self.a.1
                - self.a.0) * (self.s.1 - self.s.0),
            r is Some <==> countable(*self),
    {
        if self.x.1 < self.x.0 || self.m.1 < self.m.0 || self.a.1 < self.a.0 || self.s.1
            < self.s.0 {
            return None;
        }
        match (self.x.1 - self.x.0).checked_mul(self.m.1 - self.m.0) {
            Some(xm) => match xm.checked_mul(self.a.1 - self.a.0) {
                Some(xma) => xma.checked_mul(self.s.1 - self.s.0),
                None => None,
            },
            None => None,
        }
    }
}

/// What is accepted of `range` when it is sent to `dest`, added to `acc`,
/// and whether every workflow on the way was found and none was entered
/// more deeply than `fuel` allows; what comes behind the first failure is
/// left out.
pub open spec fn accepted_from(
    workflows: Workflows,
    range: PartRange,
    dest: Destination,
    fuel: nat,
    acc: Seq<PartRange>,
) -> (bool, Seq<PartRange>)
    decreases fuel, 1nat,
{
    match dest {
        Destination::Accepted => (true, acc.push(range)),
        Destination::Rejected => (true, acc),
        Destination::Other(name) => accepted_in(workflows, range, name@, fuel, acc),
    }
}

/// What is accepted of `range` when it enters the workflow with the name
/// `name`: the parts that its rules take are sent on, the last first.
pub open spec fn accepted_in(
    workflows: Workflows,
    range: PartRange,
    name: Seq<u8>,
    fuel: nat,
    acc: Seq<PartRange>,
) -> (bool, Seq<PartRange>)
    decreases fuel, 0nat,
{
    if fuel == 0 {
        (false, acc)
    } else {
        match place_of(workflows.names@, name, 0) {
            None => (false, acc),
            Some(at) => {
                let rules = workflows.rules@[at]@;
                let taken = split_upto(range, rules, rules.len()).1;
                accepted_of(workflows, rules, taken, taken.len(), (fuel - 1) as nat, acc)
            },
        }
    }
}

/// What is accepted of the first `k` parts that the rules took, the last
/// of them first.
pub open spec fn accepted_of(
    workflows: Workflows,
    rules: Seq<Rule>,
    taken: Seq<(PartRange, int)>,
    k: nat,
    fuel: nat,
    acc: Seq<PartRange>,
) -> (bool, Seq<PartRange>)
    decreases fuel, k + 2,
{
    if k == 0 {
        (true, acc)
    } else {
        let (done, more) = accepted_from(
            workflows,
            taken[k - 1].0,
            target(rules[taken[k - 1].1]),
            fuel,
            acc,
        );
        if done {
            accepted_of(workflows, rules, taken, (k - 1) as nat, fuel, more)
        } else {
            (false, more)
        }
    }
}

/// Passes `range` on to `dest` and collects what is accepted. Returns
/// whether every workflow on the way was found and none was entered more
/// deeply than `fuel` allows.
fn filter_from(
    workflows: &Workflows,
    range: PartRange,
    dest: &Destination,
    fuel: usize,
    accepted: &mut Vec<PartRange>,
) -> (done: bool)
    requires
        workflows.wf(),
    ensures
        (done, final(accepted)@) == accepted_from(
            *workflows,
            range,
            *dest,
            fuel as nat,
            old(accepted)@,
        ),
    decreases fuel,
{
    match dest {
        Destination::Accepted => {
            accepted.push(range);
            true
        },
        Destination::Rejected => true,
        Destination::Other(name) => {
            if fuel == 0 {
                return false;
            }
            proof {
                lemma_place_of(workflows.names@, name@, 0);
                vstd::std_specs::vec::axiom_spec_len(&workflows.names);
            }
            let at = match workflows.get(name.as_slice()) {
                Some(at) => at,
                None => {
                    return false;
                },
            };
            let splits = range.split(&workflows.rules[at]);
            let ghost rules = workflows.rules@[at as int]@;
            let ghost taken = split_upto(range, rules, rules.len()).1;
            let ghost goal = accepted_from(*workflows, range, *dest, fuel as nat, old(accepted)@);
            let mut k: usize = splits.len();
            while k > 0
                invariant
                    workflows.wf(),
                    k <= splits@.len(),
                    fuel > 0,
                    is_split(range, rules, rules.len(), splits@),
                    taken == split_upto(range, rules, rules.len()).1,
                    goal == accepted_from(
                        *workflows,
                        range,
                        *dest,
                        fuel as nat,
                        old(accepted)@,
                    ),
                    goal == accepted_of(
                        *workflows,
                        rules,
                        taken,
                        k as nat,
                        (fuel - 1) as nat,
                        accepted@,
                    ),
                decreases k,
            {
                k -= 1;
                assert(splits@[k as int].0 == taken[k as int].0 && *splits@[k as int].1 == target(
                    rules[taken[k as int].1],
                ));
                if !filter_from(workflows, splits[k].0, splits[k].1, fuel - 1, accepted) {
                    return false;
                }
            }
            true
        },
    }
}

/// What the workflows accept of all ratings from 1 to 4000, beginning in
/// the workflow `in`, entered no more deeply than there are workflows.
pub open spec fn accepted_of_all(workflows: Workflows) -> (bool, Seq<PartRange>) {
    accepted_in(
        workflows,
        PartRange { x: (1, 4001), m: (1, 4001), a: (1, 4001), s: (1, 4001) },
        in_name(),
        workflows.rules@.len(),
        Seq::empty(),
    )
}

/// The ranges of ratings that the workflows accept, beginning with all
/// ratings from 1 to 4000 in the workflow `in`. `None` if a workflow is
/// missing or the workflows lead in a circle.
pub fn filter(workflows: Workflows) -> (r: Option<Vec<PartRange>>)
    requires
        workflows.wf(),
    ensures
        match r {
            Some(ranges) => accepted_of_all(workflows) == (true, ranges@),
            None => !accepted_of_all(workflows).0,
        },
{
    proof {
        vstd::string::is_ascii_spec_bytes("in");
        reveal_strlit("in");
        assert("in".spec_bytes() =~= in_name());
    }
    let start = PartRange { x: (1, 4001), m: (1, 4001), a: (1, 4001), s: (1, 4001) };
    let name = copy_range("in".as_bytes(), 0, "in".as_bytes().len());
    assert(name@ =~= in_name());
    let dest = Destination::Other(name);
    let mut accepted: Vec<PartRange> = Vec::new();
    let fuel = workflows.rules.len();
    if filter_from(&workflows, start, &dest, fuel, &mut accepted) {
        Some(accepted)
    } else {
        None
    }
}

/// The place of the first empty row from `k` on, or the number of rows.
pub open spec fn gap(rows: Seq<Seq<u8>>, k: int) -> int
    decreases rows.len() - k,
{
    if k < 0 || k >= rows.len() {
        rows.len() as int
    } else if rows[k].len() == 0 {
        k
    } else {
        gap(rows, k + 1)
    }
}

/// Every row before the first empty row writes a workflow, and every row
/// behind it a part.
pub open spec fn input_ok(rows: Seq<Seq<u8>>) -> bool {
    &&& forall|i: int| 0 <= i < gap(rows, 0) ==> workflow_ok(#[trigger] rows[i])
    &&& forall|i: int| gap(rows, 0) < i < rows.len() ==> part_ok(#[trigger] rows[i])
}

/// The name of the workflow that a row writes: what stands before the
/// brace.
pub open spec fn workflow_name(row: Seq<u8>) -> Seq<u8> {
    row.subrange(0, first_index(row, 123u8))
}

/// A name that has a place keeps one when a name is added, and the name
/// added has one.
pub proof fn lemma_place_kept(names: Seq<Vec<u8>>, extra: Vec<u8>, name: Seq<u8>, k: int)
    requires
        0 <= k <= names.len(),
    ensures
        place_of(names, name, k) is Some ==> place_of(names.push(extra), name, k) is Some,
        place_of(names.push(extra), extra@, k) is Some,
    decreases names.len() - k,
{
    let more = names.push(extra);
    if k < names.len() {
        assert(more[k] == names[k]);
        lemma_place_kept(names, extra, name, k + 1);
    } else {
        assert(more[k] == extra);
    }
}

/// One of the first `k` rows writes the workflow with this name and these
/// rules.
pub open spec fn from_row(rows: Seq<Seq<u8>>, k: int, name: Seq<u8>, rules: Seq<Rule>) -> bool {
    exists|i: int| 0 <= i < k && i < rows.len() && #[trigger] reads_workflow(rows[i], name, rules)
}

/// Every workflow held is written by a row before the first empty row,
/// and `parts` holds the parts of the rows behind it, in their order.
pub open spec fn reads_input(rows: Seq<Seq<u8>>, workflows: Workflows, parts: Seq<Part>) -> bool {
    &&& input_ok(rows)
    &&& workflows.wf()
    &&& forall|p: int|
        0 <= p < workflows.names@.len() ==> from_row(
            rows,
            gap(rows, 0),
            (#[trigger] workflows.names@[p])@,
            workflows.rules@[p]@,
        )
    &&& forall|i: int|
        0 <= i < gap(rows, 0) ==> place_of(workflows.names@, workflow_name(#[trigger] rows[i]), 0)
            is Some
    &&& parts.len() == if gap(rows, 0) < rows.len() {
        rows.len() - gap(rows, 0) - 1
    } else {
        0
    }
    &&& forall|j: int|
        0 <= j < parts.len() ==> reads_part(rows[gap(rows, 0) + 1 + j], #[trigger] parts[j])
}

/// The first empty row from `k` on lies at or behind `k`.
pub proof fn lemma_gap(rows: Seq<Seq<u8>>, k: int)
    requires
        0 <= k <= rows.len(),
    ensures
        k <= gap(rows, k) <= rows.len(),
    decreases rows.len() - k,
{
    if k < rows.len() && rows[k].len() != 0 {
        lemma_gap(rows, k + 1);
    }
}

/// Reads the workflows up to the first empty line, and the parts behind
/// it; the first error ends the reading.
pub fn parse_input(inp: &str) -> (r: Result<(Workflows, Vec<Part>), InputError>)
    ensures
        r matches Ok((workflows, parts)) ==> workflows.wf(),
        match r {
            Ok((workflows, parts)) => reads_input(lines(inp.spec_bytes()), workflows, parts@),
            Err(_) => !input_ok(lines(inp.spec_bytes())),
        },
{
    let all = split_lines(inp.as_bytes());
    let ghost rows = lines(inp.spec_bytes());
    let mut workflows = Workflows { names: Vec::new(), rules: Vec::new() };
    let mut i: usize = 0;
    proof {
        lemma_gap(rows, 0);
    }
    while i < all.len() && all[i].len() > 0
        invariant
            i <= all@.len(),
            workflows.wf(),
            rows == lines(inp.spec_bytes()),
            rows == views(all@),
            gap(rows, 0) == gap(rows, i as int),
            forall|k: int| 0 <= k < i ==> workflow_ok(#[trigger] rows[k]),
            forall|p: int|
                0 <= p < workflows.names@.len() ==> from_row(
                    rows,
                    i as int,
                    (#[trigger] workflows.names@[p])@,
                    workflows.rules@[p]@,
                ),
            forall|k: int|
                0 <= k < i ==> place_of(workflows.names@, workflow_name(#[trigger] rows[k]), 0)
                    is Some,
        decreases all@.len() - i,
    {
        assert(rows[i as int] == all@[i as int]@);
        proof {
            lemma_gap(rows, i + 1);
        }
        match Workflow::try_from(all[i].as_slice()) {
            Ok(workflow) => {
                let ghost before = workflows;
                let ghost name = workflow.0@;
                let ghost rules = workflow.1@;
                proof {
                    lemma_place_of(workflows.names@, name, 0);
                }
                workflows.insert(workflow);
                assert forall|k: int| 0 <= k < i + 1 implies place_of(
                    workflows.names@,
                    workflow_name(#[trigger] rows[k]),
                    0,
                ) is Some by {
                    if workflows.names@ != before.names@ {
                        lemma_place_kept(
                            before.names@,
                            workflows.names@.last(),
                            workflow_name(rows[k]),
                            0,
                        );
                        assert(workflows.names@ == before.names@.push(workflows.names@.last()));
                    }
                    if k == i {
                        assert(name == workflow_name(rows[i as int]));
                    }
                }
                assert forall|p: int| 0 <= p < workflows.names@.len() implies from_row(
                    rows,
                    i + 1,
                    (#[trigger] workflows.names@[p])@,
                    workflows.rules@[p]@,
                ) by {
                    if workflows.names@[p]@ == name && workflows.rules@[p]@ == rules {
                        assert(reads_workflow(rows[i as int], name, rules));
                    } else {
                        assert(p < before.names@.len());
                        assert(workflows.names@[p] == before.names@[p]);
                        assert(workflows.rules@[p] == before.rules@[p]);
                        assert(from_row(rows, i as int, before.names@[p]@, before.rules@[p]@));
                        let w = choose|w: int|
                            0 <= w < i && w < rows.len() && #[trigger] reads_workflow(
                                rows[w],
                                before.names@[p]@,
                                before.rules@[p]@,
                            );
                        assert(reads_workflow(rows[w], workflows.names@[p]@, workflows.rules@[p]@));
                    }
                }
            },
            Err(e) => {
                assert(!workflow_ok(rows[i as int]));
                return Err(e);
            },
        }
        i += 1;
    }
    let ghost b = i as int;
    assert(b == gap(rows, 0));
    if i < all.len() {
        i += 1;
    }
    let ghost first = i as int;
    let mut parts: Vec<Part> = Vec::new();
    while i < all.len()
        invariant
            first <= i <= all@.len(),
            rows == lines(inp.spec_bytes()),
            rows == views(all@),
            b == gap(rows, 0),
            first == if b < rows.len() {
                b + 1
            } else {
                b
            },
            parts@.len() == i - first,
            forall|k: int| 0 <= k < b ==> workflow_ok(#[trigger] rows[k]),
            forall|k: int| first <= k < i ==> part_ok(#[trigger] rows[k]),
            forall|j: int| 0 <= j < parts@.len() ==> reads_part(rows[first + j], #[trigger] parts@[j]),
        decreases all@.len() - i,
    {
        assert(rows[i as int] == all@[i as int]@);
        match Part::try_from(all[i].as_slice()) {
            Ok(part) => {
                let ghost before = parts@;
                parts.push(part);
                assert forall|j: int| 0 <= j < parts@.len() implies reads_part(
                    rows[first + j],
                    #[trigger] parts@[j],
                ) by {
                    if j < before.len() {
                        assert(parts@[j] == before[j]);
                    }
                }
            },
            Err(e) => {
                assert(!part_ok(rows[i as int]));
                return Err(e);
            },
        }
        i += 1;
    }
    Ok((workflows, parts))
}

/// The sum of the ratings of those of the first `k` parts that the
/// workflows accept.
pub open spec fn ratings_sum(parts: Seq<Part>, workflows: Workflows, k: nat) -> nat
    decreases k,
{
    if k == 0 {
        0
    } else {
        let part = parts[k - 1];
        ratings_sum(parts, workflows, (k - 1) as nat) + if sorted(part, workflows) == Some(
            Destination::Accepted,
        ) {
            (part.x + part.m + part.a + part.s) as nat
        } else {
            0
        }
    }
}

/// The sum of the ratings grows with the number of parts.
pub proof fn lemma_ratings_sum_grows(parts: Seq<Part>, workflows: Workflows, a: nat, b: nat)
    requires
        a <= b,
    ensures
        ratings_sum(parts, workflows, a) <= ratings_sum(parts, workflows, b),
    decreases b,
{
    if a < b {
        lemma_ratings_sum_grows(parts, workflows, a, (b - 1) as nat);
    }
}

/// Every part finds its end in the workflows.
pub open spec fn sortable(parts: Seq<Part>, workflows: Workflows) -> bool {
    forall|i: int| 0 <= i < parts.len() ==> sorted(#[trigger] parts[i], workflows) is Some
}

/// The outcome of adding up the accepted parts that the rows write: the
/// sum, or nothing where a part finds no end or the sum does not fit the
/// machine word.
pub open spec fn rated(rows: Seq<Seq<u8>>, outcome: Option<usize>) -> bool {
    exists|workflows: Workflows, parts: Seq<Part>| #[trigger]
        reads_input(rows, workflows, parts) && match outcome {
            Some(total) => sortable(parts, workflows) && total == ratings_sum(
                parts,
                workflows,
                parts.len(),
            ),
            None => !sortable(parts, workflows) || ratings_sum(parts, workflows, parts.len())
                > usize::MAX,
        }
}

/// The sum of the ratings of all parts that are accepted. `Ok(None)` if a
/// part finds no end or the sum does not fit the machine word.
pub fn get_solution_1(input: &str) -> (r: Result<Option<usize>, InputError>)
    ensures
        match r {
            Ok(outcome) => rated(lines(input.spec_bytes()), outcome),
            Err(_) => !input_ok(lines(input.spec_bytes())),
        },
{
    let (workflows, parts) = match parse_input(input) {
        Ok(parsed) => parsed,
        Err(e) => {
            return Err(e);
        },
    };
    let ghost rows = lines(input.spec_bytes());
    let mut total: usize = 0;
    let mut i: usize = 0;
    while i < parts.len()
        invariant
            workflows.wf(),
            i <= parts@.len(),
            rows == lines(input.spec_bytes()),
            reads_input(rows, workflows, parts@),
            total == ratings_sum(parts@, workflows, i as nat),
            forall|k: int| 0 <= k < i ==> sorted(#[trigger] parts@[k], workflows) is Some,
        decreases parts@.len() - i,
    {
        match parts[i].sort(&workflows) {
            Some(Destination::Accepted) => {
                let ratings = match parts[i].sum() {
                    Some(ratings) => ratings,
                    None => {
                        proof {
                            lemma_ratings_sum_grows(
                                parts@,
                                workflows,
                                (i + 1) as nat,
                                parts@.len(),
                            );
                            assert(rated(rows, None));
                        }
                        return Ok(None);
                    },
                };
                total = match total.checked_add(ratings) {
                    Some(total) => total,
                    None => {
                        proof {
                            lemma_ratings_sum_grows(
                                parts@,
                                workflows,
                                (i + 1) as nat,
                                parts@.len(),
                            );
                            assert(rated(rows, None));
                        }
                        return Ok(None);
                    },
                };
            },
            Some(_) => {},
            None => {
                proof {
                    assert(sorted(parts@[i as int], workflows) is None);
                    assert(!sortable(parts@, workflows));
                    assert(rated(rows, None));
                }
                return Ok(None);
            },
        }
        i += 1;
    }
    proof {
        assert(sortable(parts@, workflows));
        assert(rated(rows, Some(total)));
    }
    Ok(Some(total))
}

/// The number of combinations of ratings in the first `k` ranges.
pub open spec fn combos_sum(ranges: Seq<PartRange>, k: nat) -> int
    decreases k,
{
    if k == 0 {
        0
    } else {
        let range = ranges[k - 1];
        combos_sum(ranges, (k - 1) as nat) + (range.x.1 - range.x.0) * (range.m.1 - range.m.0) * (
        range.a.1 - range.a.0) * (range.s.1 - range.s.0)
    }
}

/// Every range can be counted, and the sum of the counts fits the machine
/// word after each range.
pub open spec fn all_countable(ranges: Seq<PartRange>) -> bool {
    &&& forall|i: int| 0 <= i < ranges.len() ==> countable(#[trigger] ranges[i])
    &&& forall|k: nat| k <= ranges.len() ==> #[trigger] combos_sum(ranges, k) <= usize::MAX
}

/// The outcome of counting the combinations that the workflows of the
/// rows accept: their number, or nothing where a workflow is missing, the
/// workflows lead in a circle, or a number does not fit the machine word.
pub open spec fn counted(rows: Seq<Seq<u8>>, outcome: Option<usize>) -> bool {
    exists|workflows: Workflows, parts: Seq<Part>| #[trigger]
        reads_input(rows, workflows, parts) && match outcome {
            Some(total) => accepted_of_all(workflows).0 && all_countable(
                accepted_of_all(workflows).1,
            ) && total == combos_sum(
                accepted_of_all(workflows).1,
                accepted_of_all(workflows).1.len(),
            ),
            None => !accepted_of_all(workflows).0 || !all_countable(accepted_of_all(workflows).1),
        }
}

/// The number of combinations of ratings that are accepted. `Ok(None)` if
/// the workflows lead nowhere or the number does not fit the machine
/// word.
pub fn get_solution_2(input: &str) -> (r: Result<Option<usize>, InputError>)
    ensures
        match r {
            Ok(outcome) => counted(lines(input.spec_bytes()), outcome),
            Err(_) => !input_ok(lines(input.spec_bytes())),
        },
{
    let (workflows, parts) = match parse_input(input) {
        Ok(parsed) => parsed,
        Err(e) => {
            return Err(e);
        },
    };
    let ghost rows = lines(input.spec_bytes());
    let ghost held = workflows;
    let ghost read = parts@;
    let ranges = match filter(workflows) {
        Some(ranges) => ranges,
        None => {
            assert(reads_input(rows, held, read));
            assert(counted(rows, None));
            return Ok(None);
        },
    };
    let mut total: usize = 0;
    let mut i: usize = 0;
    while i < ranges.len()
        invariant
            i <= ranges@.len(),
            rows == lines(input.spec_bytes()),
            reads_input(rows, held, read),
            accepted_of_all(held) == (true, ranges@),
            total == combos_sum(ranges@, i as nat),
            forall|k: int| 0 <= k < i ==> countable(#[trigger] ranges@[k]),
            forall|k: nat| k <= i ==> #[trigger] combos_sum(ranges@, k) <= usize::MAX,
        decreases ranges@.len() - i,
    {
        let n = match ranges[i].combinations() {
            Some(n) => n,
            None => {
                proof {
                    assert(!countable(ranges@[i as int]));
                    assert(!all_countable(ranges@));
                    assert(counted(rows, None));
                }
                return Ok(None);
            },
        };
        total = match total.checked_add(n) {
            Some(total) => total,
            None => {
                proof {
                    assert(combos_sum(ranges@, (i + 1) as nat) > usize::MAX);
                    assert(!all_countable(ranges@));
                    assert(counted(rows, None));
                }
                return Ok(None);
            },
        };
        i += 1;
    }
    proof {
        assert(all_countable(ranges@));
        assert(counted(rows, Some(total)));
    }
    Ok(Some(total))
}

} // verus!
