use advent::d20::{get_solution_1, get_solution_2, parse_input, press, ModuleTypeMem, Node};

const MODULES: &str = "broadcaster -> a, b, c
%a -> b
%b -> c
%c -> inv
&inv -> a
";

#[test]
fn modules_are_read() {
    let graph = parse_input(MODULES).unwrap();
    let names: Vec<&[u8]> = graph.names.iter().map(|n| n.as_slice()).collect();
    assert_eq!(names, vec![&b"broadcaster"[..], b"a", b"b", b"c", b"inv", b"rx"]);
    assert_eq!(graph.nodes[0].children, vec![1, 2, 3]);
    assert_eq!(graph.nodes[4].children, vec![1]);
    assert!(matches!(graph.nodes[0].typ, ModuleTypeMem::Broadcast));
    assert!(matches!(graph.nodes[1].typ, ModuleTypeMem::FlipFlop(false)));
    assert!(matches!(graph.nodes[5].typ, ModuleTypeMem::Out));
    match &graph.nodes[4].typ {
        ModuleTypeMem::Conjunction(mem) => assert_eq!(mem, &vec![(3, false)]),
        _ => panic!("inv is a conjunction"),
    }
    assert!(parse_input("broadcaster a\n").is_none());
    assert!(parse_input("caster -> a\n%a -> a\n").is_none());
    assert!(parse_input("broadcaster -> output\n").is_none());
}

#[test]
fn kinds_of_modules() {
    assert!(matches!(Node::new(b"broadcaster", vec![]).unwrap().typ, ModuleTypeMem::Broadcast));
    assert!(matches!(Node::new(b"&x", vec![]).unwrap().typ, ModuleTypeMem::Conjunction(_)));
    assert!(matches!(Node::new(b"%x", vec![]).unwrap().typ, ModuleTypeMem::FlipFlop(false)));
    assert!(matches!(Node::new(b"rx", vec![]).unwrap().typ, ModuleTypeMem::Out));
    assert!(Node::new(b"x", vec![]).is_none());
    assert!(Node::new(b"", vec![]).is_none());
}

#[test]
fn pulses_are_handled() {
    let mut flip = ModuleTypeMem::FlipFlop(false);
    assert_eq!(flip.handle_pulse(true, 0), None);
    assert_eq!(flip.handle_pulse(false, 0), Some(true));
    assert_eq!(flip.handle_pulse(false, 0), Some(false));
    let mut conj = ModuleTypeMem::Conjunction(vec![(3, false), (7, false)]);
    assert!(conj.has_input(3) && conj.has_input(7) && !conj.has_input(4));
    assert_eq!(conj.handle_pulse(true, 3), Some(true));
    assert_eq!(conj.handle_pulse(true, 7), Some(false));
    assert_eq!(conj.handle_pulse(false, 3), Some(true));
    assert_eq!(ModuleTypeMem::Broadcast.handle_pulse(true, 9), Some(false));
    assert_eq!(ModuleTypeMem::Out.handle_pulse(false, 9), None);
}

#[test]
fn one_press_of_the_button() {
    let mut graph = parse_input(MODULES).unwrap();
    let watch = vec![false, false, false, false, true, false];
    let mut fired = vec![false; 6];
    assert_eq!(press(&mut graph, 0, &watch, &mut fired), Some((8, 4)));
    assert_eq!(fired, vec![false, false, false, false, true, false]);
    assert!(!graph.nodes[1].last_pulse);
    assert_eq!(get_solution_1(MODULES), Some(32000000));
    assert_eq!(get_solution_2(MODULES), None);
    assert_eq!(get_solution_1(""), None);
}

#[test]
fn watched_modules_fire() {
    let text = "broadcaster -> br, lf, rz, fk\n%br -> rx\n%lf -> rx\n%rz -> x\n%x -> fk\n%fk -> rx\n";
    assert_eq!(get_solution_2(text), Some(1));
    let endless = "broadcaster -> a\n&a -> b\n&b -> a\n";
    assert_eq!(get_solution_1(endless), None);
}
