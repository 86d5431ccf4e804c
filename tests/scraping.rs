use synacor::interdimensional_physics::bypass_confirmation;
use synacor::orb_vault::{cell_of_symbol, mirror_code, reverse, try_route, Cell};
use synacor::strange_monument::{coin_items, examine_coin, plan_coins, Coin};
use synacor::synacor_vm::{words_from_bytes, SynacorVM};
use synacor::text::{contains, decimal_of, parse_i32, pieces_of};
use synacor::twisty_passages::{explore_maze, parse_look, parse_node, walk_path, Exploration};

fn chars(s: &str) -> Vec<char> {
    s.chars().collect()
}

/// A program that reads a line, then prints `reply`, forever.
fn echo_vm(reply: &str) -> SynacorVM {
    let mut words: Vec<u16> = vec![20, 32768, 4, 32769, 32768, 10, 8, 32769, 0];
    for c in reply.chars() {
        words.push(19);
        words.push(c as u16);
    }
    words.push(6);
    words.push(0);
    let mut vm = SynacorVM::new(false);
    vm.load_mem(words).unwrap();
    vm.execute();
    assert!(vm.is_awaiting_input());
    vm
}

const ROOM: &str = "== Passage ==\nDark.\n\nThings of interest here:\n- lamp\n- key\n\nThere are 2 exits:\n- north\n- west\n\nWhat do you do?\n";

#[test]
fn bytes_pack_into_little_endian_words() {
    assert_eq!(words_from_bytes(&vec![0x34, 0x12, 0xff]), vec![0x1234, 0x00ff]);
    assert_eq!(words_from_bytes(&vec![]), Vec::<u16>::new());
    assert_eq!(words_from_bytes(&vec![9, 0, 0, 128]), vec![9, 32768]);
}

#[test]
fn integers_parse_with_sign() {
    assert_eq!(parse_i32(&chars("22")), Some(22));
    assert_eq!(parse_i32(&chars("-9")), Some(-9));
    assert_eq!(parse_i32(&chars("+7")), Some(7));
    assert_eq!(parse_i32(&chars("2147483647")), Some(i32::MAX));
    assert_eq!(parse_i32(&chars("-2147483648")), Some(i32::MIN));
    assert_eq!(parse_i32(&chars("2147483648")), None);
    assert_eq!(parse_i32(&chars("")), None);
    assert_eq!(parse_i32(&chars("-")), None);
    assert_eq!(parse_i32(&chars("1x")), None);
}

#[test]
fn symbols_become_cells() {
    assert_eq!(cell_of_symbol(&chars("*")), Some(Cell::Mul));
    assert_eq!(cell_of_symbol(&chars("+")), Some(Cell::Add));
    assert_eq!(cell_of_symbol(&chars("-")), Some(Cell::Sub));
    assert_eq!(cell_of_symbol(&chars("18")), Some(Cell::Num(18)));
    assert_eq!(cell_of_symbol(&chars("?")), None);
}

#[test]
fn mirror_reverses_and_swaps() {
    assert_eq!(reverse(&"bqpd".to_string()), "bqpd".to_string());
    assert_eq!(reverse(&"abcpx".to_string()), "xqcda".to_string());
    assert_eq!(
        mirror_code(&"You see \"dbWxq\" written on your forehead.".to_string()),
        Some("pxWdb".to_string())
    );
    assert_eq!(mirror_code(&"no quotes".to_string()), None);
}

#[test]
fn text_helpers() {
    assert!(contains(&chars("I don't understand"), &chars("understand")));
    assert!(!contains(&chars("under"), &chars("understand")));
    assert!(contains(&chars("abc"), &chars("")));
    assert_eq!(decimal_of(0), vec!['0']);
    assert_eq!(decimal_of(2733), chars("2733"));
    assert_eq!(pieces_of(&chars("a'b'c"), '\''), vec![chars("a"), chars("b"), chars("c")]);
    assert_eq!(pieces_of(&chars("x\n"), '\n'), vec![chars("x"), chars("")]);
}

#[test]
fn description_lists_items_and_exits() {
    let (items, exits) = parse_look(&chars(ROOM));
    assert_eq!(items, vec!["lamp".to_string(), "key".to_string()]);
    assert_eq!(exits, vec!["north".to_string(), "west".to_string()]);
    let (items, exits) = parse_look(&chars("nothing"));
    assert!(items.is_empty() && exits.is_empty());
}

#[test]
fn probe_reads_identity_and_description() {
    let mut vm = echo_vm(ROOM);
    vm.set_mem(2733, 77).unwrap();
    let loc = parse_node(&vm, &vec!["north".to_string()]);
    assert_eq!(loc.id, 77);
    assert_eq!(loc.items, vec!["lamp".to_string(), "key".to_string()]);
    assert_eq!(loc.exits, vec!["north".to_string(), "west".to_string()]);
    // the probe works on a copy
    assert!(vm.is_awaiting_input());
    assert_eq!(vm.output_line(false), "");
}

#[test]
fn maze_of_one_room() {
    let mut vm = echo_vm(ROOM);
    vm.set_mem(2733, 5).unwrap();
    let ex: Exploration = explore_maze(&vm);
    assert!(ex.is_done());
    assert_eq!(ex.len(), 1);
    let node = ex.node(0);
    assert_eq!(node.id, 5);
    assert_eq!(node.targets, vec![5, 5]);
    assert_eq!(ex.first_with_items(), Some(0));
}

#[test]
fn coin_is_read_from_its_description() {
    let mut vm = echo_vm("A coin with a triangle.\n");
    let coin = examine_coin(&mut vm, "red coin".to_string());
    assert_eq!(coin.name, "red coin");
    assert_eq!(coin.val, 3);
    assert_eq!(vm.output_line(false), "");
}

#[test]
fn coins_are_planned_in_solution_order() {
    let coins = vec![
        Coin { name: "red coin".to_string(), val: 2 },
        Coin { name: "blue coin".to_string(), val: 9 },
        Coin { name: "shiny coin".to_string(), val: 5 },
    ];
    assert_eq!(
        plan_coins(&coins, &vec![9, 7, 2, 5]),
        vec!["blue coin".to_string(), "red coin".to_string(), "shiny coin".to_string()]
    );
}

#[test]
fn route_commands_reach_the_machine() {
    // the echo program answers each command with "ok"
    let mut vm = echo_vm("ok\n");
    try_route(&mut vm, &vec!['n', 'e']);
    assert_eq!(vm.output_line(true), "ok\nok\nok\nok\n");
    try_route(&mut vm, &vec!['n', 'x', 'e']);
    assert_eq!(vm.output_line(true), "ok\nok\n");
}

#[test]
fn run_until_stops_at_the_address() {
    // noop; noop; noop; halt
    let mut vm = SynacorVM::new(false);
    vm.load_mem(vec![21, 21, 21, 0]).unwrap();
    assert!(vm.run_until(2, 100));
    assert_eq!(vm.get_mem_ptr(), 2);
    assert!(!vm.run_until(9, 100));
    assert!(vm.is_halted());
}

#[test]
fn bypass_without_the_check_just_runs() {
    let mut vm = echo_vm("beach\n");
    assert!(!bypass_confirmation(&mut vm, 25734));
    assert_eq!(vm.get_register(7), 25734);
    // the reply came before the output was cleared for the final run
    assert_eq!(vm.output_line(true), "");
    assert!(vm.is_awaiting_input());
}

#[test]
fn coins_are_picked_from_the_inventory() {
    let items = vec![
        "tablet".to_string(),
        "red coin".to_string(),
        "lantern".to_string(),
        "shiny coin".to_string(),
    ];
    assert_eq!(coin_items(&items), vec!["red coin".to_string(), "shiny coin".to_string()]);
    assert!(coin_items(&vec![]).is_empty());
}

#[test]
fn path_is_walked_on_the_machine() {
    let mut vm = echo_vm("moved\n");
    let outs = walk_path(&mut vm, &vec!["north".to_string(), "west".to_string()]);
    assert_eq!(outs, vec!["moved\n".to_string(), "moved\n".to_string()]);
    assert_eq!(vm.output_line(false), "");
    assert!(vm.is_awaiting_input());
}
