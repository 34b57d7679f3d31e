use lib::knapsack::{best_loot, knapsack_solve, make_table, parse_input_into_items, read_loot, write_loot, Item};

fn sample() -> (Vec<Item>, u32) {
    parse_input_into_items("10\nsword;3;10\nshield;5;4\nbow;4;7\n".to_string())
}

#[test]
fn item_reads_its_numbers() {
    let item = Item::new("lantern", "12", "+7");
    assert_eq!(item.name, "lantern");
    assert_eq!(item.weight, 12);
    assert_eq!(item.value, 7);
}

#[test]
fn loot_input_is_read_behind_an_empty_item() {
    let (items, cap) = sample();
    assert_eq!(cap, 10);
    assert_eq!(items.len(), 4);
    assert_eq!(items[0].weight, 0);
    assert_eq!(items[0].value, 0);
    assert_eq!(items[1].name, "sword");
    assert_eq!((items[2].weight, items[2].value), (5, 4));
    assert_eq!(items[3].name, "bow");
}

#[test]
fn loot_input_with_crlf_lines() {
    let (items, cap) = parse_input_into_items("7\r\nrope;2;3\r\n".to_string());
    assert_eq!(cap, 7);
    assert_eq!(items.len(), 2);
    assert_eq!(items[1].name, "rope");
    assert_eq!(items[1].value, 3);
}

#[test]
fn bad_loot_input_is_refused() {
    assert!(read_loot(String::new()).is_none());
    assert!(read_loot("ten\nsword;3;10\n".to_string()).is_none());
    assert!(read_loot("10\nsword;3\n".to_string()).is_none());
    assert!(read_loot("10\nsword;x;3\n".to_string()).is_none());
    assert!(read_loot("10\nsword;3;-1\n".to_string()).is_none());
    let (items, cap) = read_loot("3\nrope;2;3\n".to_string()).unwrap();
    assert_eq!((items.len(), cap), (2, 3));
    assert_eq!(items[0].name, "NULL ITEM");
}

#[test]
fn table_holds_best_values() {
    let (items, cap) = sample();
    let table = make_table(&items, items.len(), cap as usize);
    assert_eq!(table.len(), 4);
    assert_eq!(table[0], vec![0; 11]);
    assert_eq!(table[1][2], 0);
    assert_eq!(table[1][3], 10);
    assert_eq!(table[2][8], 14);
    assert_eq!(table[3][10], 17);
    assert_eq!(table[3][9], 17);
    assert_eq!(table[3][6], 10);
}

#[test]
fn solution_walk_appends_chosen_items() {
    let (items, cap) = sample();
    let table = make_table(&items, items.len(), cap as usize);
    let mut solns: Vec<usize> = vec![99];
    knapsack_solve(&items, &table, items.len() - 1, cap as usize, &mut solns);
    assert_eq!(solns, vec![99, 3, 1]);
}

#[test]
fn best_loot_is_worth_the_table_value() {
    let (items, cap) = sample();
    let chosen = best_loot(&items, cap);
    assert_eq!(chosen, vec![3, 1]);
    let weight: u32 = chosen.iter().map(|&i| items[i].weight).sum();
    let value: u32 = chosen.iter().map(|&i| items[i].value).sum();
    assert!(weight <= cap);
    assert_eq!(value, 17);
}

#[test]
fn nothing_fits_in_an_empty_pack() {
    let (items, _) = sample();
    assert_eq!(best_loot(&items, 0), Vec::<usize>::new());
    let only_null = vec![Item::new("NULL ITEM", "0", "0")];
    assert_eq!(best_loot(&only_null, 5), Vec::<usize>::new());
}

#[test]
fn loot_report_lists_the_chosen_items_and_totals() {
    let (items, cap) = sample();
    let chosen = best_loot(&items, cap);
    let mut out = String::new();
    write_loot(&mut out, &items, &chosen);
    assert_eq!(out, "sword, 3, 10\r\nbow, 4, 7\r\nfinal weight: 7\r\nfinal value: 17\r\n");
    let mut empty = String::from("x");
    write_loot(&mut empty, &items, &Vec::new());
    assert_eq!(empty, "xfinal weight: 0\r\nfinal value: 0\r\n");
}
