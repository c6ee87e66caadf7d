use advent::d17::{dijkstra, get_solution_1, get_solution_2, is_city, parse_input, Dir, Node, Position, Queue};

const CITY: &str = "2413432311323
3215453535623
3255245654254
3446585845452
4546657867536
1438598798454
4457876987766
3637877979653
4654967986887
4564679986453
1224686865563
2546548887735
4322674655533
";

const LANE: &str = "111111111111
999999999991
999999999991
999999999991
999999999991
";

#[test]
fn city_is_read() {
    let map = parse_input(CITY);
    assert_eq!(map.len(), 13);
    assert_eq!(map[0], vec![2, 4, 1, 3, 4, 3, 2, 3, 1, 1, 3, 2, 3]);
    assert_eq!(parse_input("1x2\n\n3\n"), vec![vec![1, 2], vec![], vec![3]]);
    assert!(is_city(&map));
    assert!(!is_city(&vec![]));
    assert!(!is_city(&vec![vec![], vec![1]]));
}

#[test]
fn directions_and_positions() {
    assert!(Dir::Up.is_opposite(&Dir::Down));
    assert!(Dir::Down.is_opposite(&Dir::Up));
    assert!(Dir::Left.is_opposite(&Dir::Right));
    assert!(Dir::Right.is_opposite(&Dir::Left));
    assert!(!Dir::Up.is_opposite(&Dir::Up));
    assert!(!Dir::Up.is_opposite(&Dir::Left));
    assert_eq!(Dir::Down.index(), 2);
    assert_eq!((3, 4).move_pos(&Dir::Up), (3, 3));
    assert_eq!((3, 4).move_pos(&Dir::Right), (4, 4));
    assert_eq!((3, 4).move_pos(&Dir::Down), (3, 5));
    assert_eq!((3, 4).move_pos(&Dir::Left), (2, 4));
    assert_eq!((0, 0).move_pos(&Dir::Up), (0, usize::MAX));
    assert_eq!((0, 0).move_pos(&Dir::Left), (usize::MAX, 0));
}

#[test]
fn crucibles_turn_in_time() {
    let node = Node::new(7, (1, 2), Dir::Right, 3);
    assert_eq!((node.cost, node.pos, node.dir, node.steps), (7, (1, 2), Dir::Right, 3));
    assert_eq!(node.can_move_p1(Dir::Right), None);
    assert_eq!(node.can_move_p1(Dir::Down), Some(1));
    assert_eq!(Node::new(0, (0, 0), Dir::Right, 2).can_move_p1(Dir::Right), Some(3));
    assert_eq!(node.can_move_p2(Dir::Right), Some(4));
    assert_eq!(node.can_move_p2(Dir::Down), None);
    assert_eq!(Node::new(0, (0, 0), Dir::Right, 4).can_move_p2(Dir::Down), Some(1));
    assert_eq!(Node::new(0, (0, 0), Dir::Right, 10).can_move_p2(Dir::Right), None);
    assert_eq!(Node::new(0, (0, 0), Dir::Right, 10).can_move_p2(Dir::Up), Some(1));
    assert!(node.same_state(&Node::new(99, (1, 2), Dir::Right, 3)));
    assert!(!node.same_state(&Node::new(7, (1, 2), Dir::Right, 2)));
    assert!(!node.same_state(&Node::new(7, (1, 2), Dir::Left, 3)));
    assert!(!node.same_state(&Node::new(7, (2, 2), Dir::Right, 3)));
}

#[test]
fn queue_gives_the_least_loss_first() {
    let mut queue = Queue::new();
    assert!(queue.pop().is_none());
    assert!(queue.push(Node::new(5, (0, 0), Dir::Up, 0)));
    assert!(queue.push(Node::new(2, (1, 0), Dir::Up, 0)));
    assert!(queue.push(Node::new(9, (2, 0), Dir::Up, 0)));
    assert_eq!(queue.pop().unwrap().cost, 2);
    assert!(queue.push(Node::new(1, (3, 0), Dir::Up, 0)));
    assert_eq!(queue.pop().unwrap().pos, (3, 0));
    assert_eq!(queue.pop().unwrap().cost, 5);
    assert_eq!(queue.pop().unwrap().cost, 9);
    assert!(queue.pop().is_none());
    assert!(!queue.push(Node::new(usize::MAX, (0, 0), Dir::Up, 0)));
    assert!(queue.pop().is_none());
}

#[test]
fn least_heat_loss() {
    let map = parse_input(CITY);
    assert_eq!(dijkstra(&map, Node::can_move_p1, 0), Some(102));
    assert_eq!(dijkstra(&map, Node::can_move_p2, 4), Some(94));
    assert_eq!(get_solution_1(CITY), Some(102));
    assert_eq!(get_solution_2(CITY), Some(94));
    assert_eq!(get_solution_2(LANE), Some(71));
    assert_eq!(get_solution_1("1\n"), Some(0));
    assert_eq!(get_solution_2("1\n"), None);
    assert_eq!(get_solution_1(""), None);
    assert_eq!(get_solution_1("12\n3\n"), None);
}
