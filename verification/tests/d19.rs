use advent::d19::{
    filter, get_solution_1, get_solution_2, parse_input, Category, Comparison, Destination,
    InputError, Params, Part, PartRange, Rule, Workflow,
};

const SYSTEM: &str = "px{a<2006:qkq,m>2090:A,rfg}
pv{a>1716:R,A}
lnx{m>1548:A,A}
rfg{s<537:gd,x>2440:R,A}
qs{s>3448:A,lnx}
qkq{x<1416:A,crn}
crn{x>2662:A,R}
in{s<1351:px,qqz}
qqz{s>2770:qs,m<1801:hdj,R}
gd{a>3333:R,R}
hdj{m>838:A,pv}

{x=787,m=2655,a=1222,s=2876}
{x=1679,m=44,a=2067,s=496}
{x=2036,m=264,a=79,s=2244}
{x=2461,m=1339,a=466,s=291}
{x=2127,m=1623,a=2188,s=1013}
";

#[test]
fn words_are_read() {
    assert_eq!(Category::try_from(b"x"), Ok(Category::X));
    assert_eq!(Category::try_from(b"m"), Ok(Category::M));
    assert_eq!(Category::try_from(b"a"), Ok(Category::A));
    assert_eq!(Category::try_from(b"s"), Ok(Category::S));
    assert_eq!(Category::try_from(b"q"), Err(InputError::Category("Invalid input: q".to_string())));
    assert_eq!(Comparison::try_from(b"<"), Ok(Comparison::Less));
    assert_eq!(Comparison::try_from(b">"), Ok(Comparison::Greater));
    assert_eq!(Comparison::try_from(b"="), Err(InputError::Comparison("Invalid input: =".to_string())));
    assert_eq!(Destination::from(b"A"), Destination::Accepted);
    assert_eq!(Destination::from(b"R"), Destination::Rejected);
    assert_eq!(Destination::from(b"px"), Destination::Other(b"px".to_vec()));
}

#[test]
fn errors_are_written() {
    assert_eq!(InputError::Category("c".to_string()).to_string(), "Category - c");
    assert_eq!(InputError::Comparison("c".to_string()).to_string(), "Comparison - c");
    assert_eq!(InputError::Params("p".to_string()).to_string(), "Params - p");
    assert_eq!(InputError::Numerical("n".to_string()).to_string(), "Numerical - n");
    assert_eq!(InputError::_Rule("r".to_string()).to_string(), "Rule - r");
    assert_eq!(InputError::Workflow("w".to_string()).to_string(), "Workflow - w");
    assert_eq!(InputError::Part("p".to_string()).to_string(), "Part - p");
}

#[test]
fn rules_are_read() {
    let params = Params::try_from(b"a<2006:qkq").ok().unwrap();
    assert_eq!(params.category, Category::A);
    assert_eq!(params.comparison, Comparison::Less);
    assert_eq!(params.val, 2006);
    assert_eq!(params.dest, Destination::Other(b"qkq".to_vec()));
    assert_eq!(Params::try_from(b"a<2006").err(), Some(InputError::Params("No colon found".to_string())));
    assert_eq!(Params::try_from(b"a<2006:").err(), Some(InputError::Params("No destination found".to_string())));
    assert_eq!(Params::try_from(b"q<2006:A").err(), Some(InputError::Category("Invalid input: q".to_string())));
    assert_eq!(Params::try_from(b"a=2006:A").err(), Some(InputError::Comparison("Invalid input: =".to_string())));
    assert_eq!(Params::try_from(b"a<x:A").err(), Some(InputError::Numerical("Invalid input: x".to_string())));
    assert!(matches!(Rule::try_from(b"rfg"), Ok(Rule::Dest(Destination::Other(_)))));
    assert!(matches!(Rule::try_from(b"m>2090:A"), Ok(Rule::Eval(_))));
    let Workflow(name, rules) = Workflow::try_from(b"pv{a>1716:R,A}").ok().unwrap();
    assert_eq!(name, b"pv".to_vec());
    assert_eq!(rules.len(), 2);
    assert_eq!(Workflow::try_from(b"pv").err(), Some(InputError::Workflow("No rules found".to_string())));
    assert_eq!(Workflow::try_from(b"pv}{").err(), Some(InputError::Workflow("No rules found".to_string())));
}

#[test]
fn parts_are_read() {
    let part = Part::try_from(b"{x=787,m=2655,a=1222,s=2876}").ok().unwrap();
    assert_eq!(part, Part { x: 787, m: 2655, a: 1222, s: 2876 });
    assert_eq!(part.index(Category::X), 787);
    assert_eq!(part.index(Category::M), 2655);
    assert_eq!(part.index(Category::A), 1222);
    assert_eq!(part.index(Category::S), 2876);
    assert_eq!(part.sum(), Some(7540));
    assert_eq!(Part { x: usize::MAX, m: 1, a: 0, s: 0 }.sum(), None);
    assert_eq!(Part::try_from(b"x=1").err(), Some(InputError::Part("Not contained in {{}}".to_string())));
    assert_eq!(Part::try_from(b"{x=1,m=2}").err(), Some(InputError::Part("Missing categories".to_string())));
    assert_eq!(Part::try_from(b"{x=1,m=2,a=q,s=4}").err(), Some(InputError::Numerical("Invalid input: q".to_string())));
    assert_eq!(Part::try_from(b"{}").err(), Some(InputError::Part("Missing categories".to_string())));
}

#[test]
fn parts_pass_through_the_workflows() {
    let (workflows, parts) = parse_input(SYSTEM).ok().unwrap();
    assert_eq!(parts.len(), 5);
    assert_eq!(workflows.names.len(), 11);
    let ends: Vec<bool> = parts.iter().map(|p| p.sort(&workflows) == Some(&Destination::Accepted)).collect();
    assert_eq!(ends, vec![true, false, true, false, true]);
    let at = workflows.get(b"in").unwrap();
    assert_eq!(parts[0].apply_rules(&workflows.rules[at]), Some(&Destination::Other(b"qqz".to_vec())));
    assert_eq!(parts[1].apply_rules(&workflows.rules[at]), Some(&Destination::Other(b"px".to_vec())));
    assert_eq!(parts[0].apply_rules(&vec![]), None);
    assert!(workflows.get(b"nope").is_none());
    assert_eq!(get_solution_1(SYSTEM), Ok(Some(19114)));
}

#[test]
fn ranges_are_cut() {
    let all = PartRange { x: (1, 4001), m: (1, 4001), a: (1, 4001), s: (1, 4001) };
    assert_eq!(all.combinations(), Some(256000000000000));
    assert!(all.contains(1, Category::X));
    assert!(all.contains(4000, Category::S));
    assert!(!all.contains(4001, Category::M));
    assert!(!all.contains(0, Category::A));
    let less = Params::try_from(b"s<1351:px").ok().unwrap();
    let halves = all.split_at_category(&less);
    assert_eq!(halves[0].s, (1, 1351));
    assert_eq!(halves[1].s, (1351, 4001));
    let greater = Params::try_from(b"s>2770:qs").ok().unwrap();
    let halves = all.split_at_category(&greater);
    assert_eq!(halves[0].s, (2771, 4001));
    assert_eq!(halves[1].s, (1, 2771));
    assert_eq!(halves[0].x, (1, 4001));
    let Workflow(_, rules) = Workflow::try_from(b"in{s<1351:px,qqz}").ok().unwrap();
    let splits = all.split(&rules);
    assert_eq!(splits.len(), 2);
    assert_eq!(splits[0].0.s, (1, 1351));
    assert_eq!(splits[0].1, &Destination::Other(b"px".to_vec()));
    assert_eq!(splits[1].0.s, (1351, 4001));
    let mut range = all;
    range.index_mut(Category::M, (5, 9));
    assert_eq!(range.index(Category::M), (5, 9));
    assert_eq!(range.combinations(), Some(4 * 4000 * 4000 * 4000));
    assert_eq!(PartRange { x: (5, 1), ..all }.combinations(), None);
}

#[test]
fn accepted_combinations() {
    let (workflows, _) = parse_input(SYSTEM).ok().unwrap();
    let accepted = filter(workflows).unwrap();
    assert_eq!(accepted.len(), 9);
    assert_eq!(get_solution_2(SYSTEM), Ok(Some(167409079868000)));
    assert_eq!(get_solution_2("in{x<5:in,A}\n"), Ok(None));
    assert_eq!(get_solution_2("in{x<5:out,A}\n"), Ok(None));
    assert_eq!(get_solution_1("in{x<5:A,R}\n\n{x=1,m=1,a=1,s=1}\n{x=9,m=1,a=1,s=1}\n"), Ok(Some(4)));
    assert_eq!(get_solution_1("in{x<5:in,R}\n\n{x=1,m=1,a=1,s=1}\n"), Ok(None));
    assert_eq!(get_solution_1("in\n"), Err(InputError::Workflow("No rules found".to_string())));
}
