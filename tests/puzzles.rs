use synacor::orb_vault::{evaluate_route, solve_route, Cell, OrbVaultMap};
use synacor::strange_monument::{coin_value, formula, parse_inventory, solution, solution_for};
use synacor::twisty_passages::{Exploration, Location};

fn grid(w: usize, h: usize, cells: Vec<Cell>) -> OrbVaultMap {
    OrbVaultMap::new(w, h, cells).unwrap()
}

#[test]
fn two_by_two_grid_has_no_route_to_nine() {
    // start 22 in one corner, goal 9 in the other, operators between
    let m = grid(2, 2, vec![Cell::Num(22), Cell::Sub, Cell::Mul, Cell::Num(9)]);
    assert_eq!(solve_route(&m, 9, 12), None);
}

#[test]
fn two_by_two_grid_routes() {
    let m = grid(2, 2, vec![Cell::Num(22), Cell::Sub, Cell::Mul, Cell::Num(9)]);
    let r = solve_route(&m, 13, 12).unwrap();
    assert_eq!(r, vec!['e', 'n']);
    assert_eq!(evaluate_route(&m, &r), Some(13));
    let r = solve_route(&m, 198, 12).unwrap();
    assert_eq!(r, vec!['n', 'e']);
    assert_eq!(evaluate_route(&m, &r), Some(198));
    assert_eq!(evaluate_route(&m, &vec!['e']), None);
    assert_eq!(evaluate_route(&m, &vec!['w', 'n']), None);
}

fn vault() -> OrbVaultMap {
    grid(
        4,
        4,
        vec![
            Cell::Num(22), Cell::Sub, Cell::Num(9), Cell::Mul, //
            Cell::Add, Cell::Num(4), Cell::Sub, Cell::Num(18), //
            Cell::Num(4), Cell::Mul, Cell::Num(11), Cell::Mul, //
            Cell::Mul, Cell::Num(8), Cell::Sub, Cell::Num(1),
        ],
    )
}

#[test]
fn vault_route_reaches_thirty() {
    let m = vault();
    let r = solve_route(&m, 30, 16).unwrap();
    assert_eq!(evaluate_route(&m, &r), Some(30));
    assert_eq!(r.len(), 8);
    for short in 0..8 {
        assert_eq!(solve_route(&m, 30, short), None);
    }
}

#[test]
fn grid_shape_is_checked() {
    assert!(OrbVaultMap::new(2, 2, vec![Cell::Num(1)]).is_none());
    assert!(OrbVaultMap::new(0, 1, vec![]).is_none());
    let one = grid(1, 1, vec![Cell::Num(5)]);
    assert_eq!(solve_route(&one, 5, 4), Some(vec![]));
    assert_eq!(solve_route(&one, 6, 4), None);
}

#[test]
fn monument_equation() {
    assert_eq!(formula(9, 2, 5, 7, 3), 399);
    assert_eq!(formula(0, 0, 0, 0, 1), -1);
    assert_eq!(solution(), vec![9, 2, 5, 7, 3]);
    assert_eq!(solution_for(&vec![1, 1, 1, 1], 2), Vec::<u16>::new());
    assert_eq!(solution_for(&vec![1, 1, 1, 1, 1], 2), vec![1, 1, 1, 1, 1]);
}

fn chars(s: &str) -> Vec<char> {
    s.chars().collect()
}

#[test]
fn inventory_listing() {
    let text = "\nYour inventory:\n- red coin\n- tablet\n\nWhat do I do?\n- not this";
    assert_eq!(
        parse_inventory(text.to_string()),
        vec!["red coin".to_string(), "tablet".to_string()]
    );
    assert!(parse_inventory("nothing here".to_string()).is_empty());
}

#[test]
fn coin_descriptions() {
    assert_eq!(coin_value(&chars("a triangle on one side")), 3);
    assert_eq!(coin_value(&chars("the number two")), 2);
    assert_eq!(coin_value(&chars("a pentagon")), 5);
    assert_eq!(coin_value(&chars("seven dots")), 7);
    assert_eq!(coin_value(&chars("nine dots")), 9);
    assert_eq!(coin_value(&chars("blank")), 0);
}

/// A graph of five locations and seven one-way exits.
fn probe(path: &[String]) -> Location {
    let edges: Vec<(u16, &str, u16)> = vec![
        (10, "a", 20),
        (10, "b", 30),
        (20, "c", 30),
        (20, "d", 40),
        (30, "e", 40),
        (40, "f", 50),
        (50, "g", 10),
    ];
    let mut at = 10u16;
    for step in path {
        at = edges
            .iter()
            .find(|(from, name, _)| *from == at && *name == step.as_str())
            .unwrap()
            .2;
    }
    Location {
        id: at,
        exits: edges
            .iter()
            .filter(|(from, _, _)| *from == at)
            .map(|(_, name, _)| name.to_string())
            .collect(),
        items: if at == 40 { vec!["can".to_string()] } else { vec![] },
    }
}

#[test]
fn exploration_visits_each_location_once_by_shortest_path() {
    let mut ex = Exploration::new(probe(&[]));
    let mut probes = 0;
    while let Some(p) = ex.next_path() {
        ex.record(probe(&p));
        probes += 1;
    }
    assert!(ex.is_done());
    assert_eq!(probes, 7);
    assert_eq!(ex.len(), 5);
    let nodes: Vec<_> = (0..ex.len()).map(|k| ex.node(k)).collect();
    let mut ids: Vec<u16> = nodes.iter().map(|n| n.id).collect();
    assert_eq!(ids, vec![10, 20, 30, 40, 50]);
    ids.sort();
    ids.dedup();
    assert_eq!(ids.len(), 5);
    let path_of = |id: u16| nodes.iter().find(|n| n.id == id).unwrap().path.clone();
    assert_eq!(path_of(10), Vec::<String>::new());
    assert_eq!(path_of(30), vec!["b".to_string()]);
    assert_eq!(path_of(40), vec!["a".to_string(), "d".to_string()]);
    assert_eq!(path_of(50), vec!["a".to_string(), "d".to_string(), "f".to_string()]);
    assert_eq!(nodes[1].targets, vec![30, 40]);
    assert_eq!(nodes[4].targets, vec![10]);
    assert_eq!(ex.first_with_items(), Some(3));
}

#[test]
fn final_pair_may_exceed_the_bound() {
    let m = grid(2, 2, vec![Cell::Num(300), Cell::Mul, Cell::Add, Cell::Num(300)]);
    assert_eq!(evaluate_route(&m, &vec!['e', 'n']), Some(90000));
    assert_eq!(evaluate_route(&m, &vec!['n', 'e']), Some(600));
    assert_eq!(solve_route(&m, 90000, 4), Some(vec!['e', 'n']));
    // evaluation has no bound on the value; the search prunes instead
    assert_eq!(evaluate_route(&m, &vec!['e', 'w', 'e', 'n']), Some(27_000_000));
    assert_eq!(solve_route(&m, 27_000_000, 8), None);
    // entering the goal before the end is no route
    assert_eq!(evaluate_route(&m, &vec!['e', 'n', 's', 'w']), None);
}

#[test]
fn first_route_in_move_order_is_returned() {
    // both routes of two moves give 22 - 9 = 13 on this grid
    let m = grid(2, 2, vec![Cell::Num(22), Cell::Sub, Cell::Sub, Cell::Num(9)]);
    assert_eq!(solve_route(&m, 13, 8), Some(vec!['n', 'e']));
}
