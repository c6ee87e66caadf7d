use advent::d15::{find_op, get_solution_1, get_solution_2, hash_bytes, parse_input, AocHashMap, Lens};

const STEPS: &str = "rn=1,cm-,qp=3,cm=2,qp-,pc=4,ot=9,ab=5,pc-,pc=6,ot=7";

fn step(text: &str) -> Vec<u8> {
    text.as_bytes().to_vec()
}

#[test]
fn test_hash() {
    assert_eq!(
        1320,
        parse_input(STEPS)
            .into_iter()
            .map(|s| s.hash_p1())
            .sum::<usize>()
    );
}

#[test]
fn hash_of_the_word_hash() {
    assert_eq!(hash_bytes(&step("HASH")), 52);
    assert_eq!(hash_bytes(&step("")), 0);
    assert_eq!(step("rn=1").hash_p1(), 30);
    assert_eq!(step("rn=1").hash(), 0);
    assert_eq!(step("qp-").hash(), 1);
}

#[test]
fn parts_of_a_step() {
    let lens = step("pc=4");
    assert_eq!(lens.label(), step("pc"));
    assert_eq!(lens.op(), b'=');
    assert_eq!(lens.focusing_power(), Some(4));
    assert_eq!(step("cm-").op(), b'-');
    assert_eq!(step("cm-").focusing_power(), None);
    assert_eq!(step("cm-").label(), step("cm"));
    assert!(step("cm-").comp(&step("cm=2")));
    assert!(!step("cm-").comp(&step("cn=2")));
    assert_eq!(find_op(&step("abc")), 3);
    assert_eq!(find_op(&step("a=b-c")), 1);
}

#[test]
fn steps_are_cut_at_commas() {
    assert_eq!(parse_input("a=1,b-\n"), vec![step("a=1"), step("b-")]);
    assert_eq!(parse_input(""), vec![step("")]);
}

#[test]
fn lenses_go_in_and_out_of_boxes() {
    let mut map: AocHashMap<Vec<u8>> = AocHashMap::new();
    assert_eq!(map.buckets.len(), 256);
    assert_eq!(map.insert(step("rn=1")), None);
    assert_eq!(map.remove(step("cm-")), None);
    assert_eq!(map.insert(step("qp=3")), None);
    assert_eq!(map.insert(step("cm=2")), None);
    assert_eq!(map.buckets[0], vec![step("rn=1"), step("cm=2")]);
    assert_eq!(map.remove(step("qp-")), Some(step("qp=3")));
    assert_eq!(map.insert(step("rn=7")), Some(step("rn=1")));
    assert_eq!(map.buckets[0], vec![step("rn=7"), step("cm=2")]);
    assert_eq!(map.remove(step("rn-")), Some(step("rn=7")));
    assert_eq!(map.buckets[0], vec![step("cm=2")]);
    assert_eq!(map.buckets[1], Vec::<Vec<u8>>::new());
    assert_eq!(map.focusing_power(), Some(2));
}

#[test]
fn sums_over_the_steps() {
    assert_eq!(get_solution_1(STEPS), Some(20));
    assert_eq!(get_solution_2(STEPS), Some(145));
    assert_eq!(get_solution_1("rn=1,cm"), None);
    assert_eq!(get_solution_2("rn=1,cm"), None);
    assert_eq!(get_solution_2("rn=x"), Some(0));
}
