use lib::avl::{NodeAVL, TreeAVL};
use lib::names::{contains_id, read_griefer_rows, write_banned, write_not_banned, NameContainer};
use lib::scapegoat::{log32, ScapeNode, ScapeTree};

const GRIEFERS: &str = "alice 1 100\nbob 2 50\nalice 3 20\nalice 1 300\ncarl 4 7\n";

const EXPECTED: &str = "alice was banned from 2 servers. most recently on: 300\n\
bob was banned from 1 servers. most recently on: 50\n\
dora is not currently banned from any servers.\n\
carl was banned from 1 servers. most recently on: 7\n";

#[test]
fn avl_reports_recorded_bans() {
    let mut tree = TreeAVL::new(0);
    tree.parse_griefers_and_insert(GRIEFERS.to_string());
    let mut out = String::new();
    tree.search_names(&mut out, &vec!["alice", "bob", "dora", "carl"]);
    assert_eq!(out, EXPECTED);
}

#[test]
fn scapegoat_reports_recorded_bans() {
    let mut tree = ScapeTree::new(0);
    tree.parse_griefers_for_scape(GRIEFERS.to_string());
    let mut out = String::new();
    tree.search_names(&mut out, &vec!["alice", "bob", "dora", "carl"]);
    assert_eq!(out, EXPECTED);
}

fn many_griefers(count: usize, descending: bool) -> String {
    let mut text = String::new();
    for i in 0..count {
        let k = if descending { count - 1 - i } else { i };
        text.push_str(&format!("player{:04} {} {}\n", k, k % 7, 1000 + k));
    }
    for i in (0..count).step_by(3) {
        text.push_str(&format!("player{:04} {} {}\n", i, 100 + i % 5, 10));
    }
    text
}

fn expected_report(count: usize, queries: &[String]) -> String {
    let mut out = String::new();
    for q in queries {
        let k: Option<usize> = q.strip_prefix("player").and_then(|d| d.parse().ok()).filter(|&k| k < count);
        match k {
            Some(k) => {
                let servers = if k % 3 == 0 { 2 } else { 1 };
                out.push_str(&format!("{} was banned from {} servers. most recently on: {}\n", q, servers, 1000 + k));
            },
            None => out.push_str(&format!("{} is not currently banned from any servers.\n", q)),
        }
    }
    out
}

#[test]
fn both_trees_agree_on_many_sorted_bans() {
    for &descending in &[false, true] {
        let count = 300;
        let text = many_griefers(count, descending);
        let mut avl = TreeAVL::new(16);
        avl.parse_griefers_and_insert(text.clone());
        let mut scape = ScapeTree::new(16);
        scape.parse_griefers_for_scape(text);
        let queries: Vec<String> = vec!["player0000", "player0001", "player0150", "player0299", "player0300", "nobody"]
            .into_iter()
            .map(|s| s.to_string())
            .collect();
        let names: Vec<&str> = queries.iter().map(|s| s.as_str()).collect();
        let mut out_avl = String::new();
        avl.search_names(&mut out_avl, &names);
        let mut out_scape = String::new();
        scape.search_names(&mut out_scape, &names);
        assert_eq!(out_avl, expected_report(count, &queries));
        assert_eq!(out_scape, out_avl);
    }
}

#[test]
fn trees_find_every_inserted_player() {
    let count = 120;
    let mut text = String::new();
    for i in 0..count {
        let k = (i * 37) % count;
        text.push_str(&format!("player{:04} {} {}\n", k, 1, 1000 + k));
    }
    let mut avl = TreeAVL::new(0);
    avl.parse_griefers_and_insert(text.clone());
    let mut scape = ScapeTree::new(0);
    scape.parse_griefers_for_scape(text);
    let queries: Vec<String> = (0..count + 2).map(|k| format!("player{:04}", k)).collect();
    let names: Vec<&str> = queries.iter().map(|s| s.as_str()).collect();
    let mut out_avl = String::new();
    avl.search_names(&mut out_avl, &names);
    let mut out_scape = String::new();
    scape.search_names(&mut out_scape, &names);
    let mut expected = String::new();
    for k in 0..count + 2 {
        if k < count {
            expected.push_str(&format!("player{:04} was banned from 1 servers. most recently on: {}\n", k, 1000 + k));
        } else {
            expected.push_str(&format!("player{:04} is not currently banned from any servers.\n", k));
        }
    }
    assert_eq!(out_avl, expected);
    assert_eq!(out_scape, expected);
}

#[test]
fn empty_query_list_on_empty_trees() {
    let avl = TreeAVL::new(4);
    let mut out = String::new();
    avl.search_names(&mut out, &Vec::new());
    assert_eq!(out, "");
    let scape = ScapeTree::new(4);
    scape.search_names(&mut out, &Vec::new());
    assert_eq!(out, "");
}

#[test]
fn queries_on_empty_trees_report_no_bans() {
    let avl = TreeAVL::new(0);
    let mut out = String::from("> ");
    avl.search_names(&mut out, &vec!["bob"]);
    assert_eq!(out, "> bob is not currently banned from any servers.\n");
    let scape = ScapeTree::new(0);
    let mut out2 = String::new();
    scape.search_names(&mut out2, &vec!["bob", "ann"]);
    assert_eq!(out2, "bob is not currently banned from any servers.\nann is not currently banned from any servers.\n");
}

#[test]
fn avl_search_from_a_node() {
    let mut tree = TreeAVL::new(0);
    tree.parse_griefers_and_insert("m 1 1\nc 1 2\nt 1 3\n".to_string());
    assert_eq!(tree.search("t", 0), 2);
    assert_eq!(tree.search("c", 0), 1);
    assert_eq!(tree.search("m", 0), 0);
    assert_eq!(tree.search("x", 0), -1);
    assert_eq!(tree.search("t", 1), -1);
    assert_eq!(tree.search("m", -1), -1);
}

#[test]
fn scapegoat_search_keeps_a_found_index() {
    let mut tree = ScapeTree::new(0);
    tree.parse_griefers_for_scape("m 1 1\nc 1 2\nt 1 3\n".to_string());
    let mut found: i32 = -1;
    tree.search("t", 0, &mut found);
    assert_eq!(found, 2);
    let mut found: i32 = 5;
    tree.search("t", 0, &mut found);
    assert_eq!(found, 5);
    let mut found: i32 = -1;
    tree.search("x", 0, &mut found);
    assert_eq!(found, -1);
    tree.search("m", -1, &mut found);
    assert_eq!(found, -1);
}

#[test]
fn scapegoat_subtree_sizes() {
    let mut tree = ScapeTree::new(0);
    tree.parse_griefers_for_scape("m 1 1\nc 1 2\nt 1 3\na 1 4\n".to_string());
    assert_eq!(tree.size(0), 4);
    assert_eq!(tree.size(1), 2);
    assert_eq!(tree.size(2), 1);
    assert_eq!(tree.size(-1), 0);
}

#[test]
fn log32_is_the_height_bound() {
    assert_eq!(log32(0), 0);
    assert_eq!(log32(1), 0);
    assert_eq!(log32(2), 1);
    assert_eq!(log32(3), 2);
    assert_eq!(log32(10), 5);
    assert_eq!(log32(100), 11);
    assert_eq!(log32(200000), 30);
    assert_eq!(log32(usize::MAX), 109);
}

#[test]
fn new_nodes_are_leaves_banned_once() {
    let a = ScapeNode::new(4, 99, 7);
    assert_eq!((a.player_name_index, a.time_banned, a.left, a.right), (4, 99, -1, -1));
    assert_eq!(a.sids, vec![7]);
    let b = NodeAVL::new(2, 5, 1);
    assert_eq!((b.player_name_index, b.time_banned, b.children, b.balance), (2, 5, [-1, -1], 0));
    assert_eq!(b.sids, vec![1]);
}

#[test]
fn name_store_skips_a_repeat_of_the_last_name() {
    let mut store = NameContainer::new(0);
    assert_eq!(store.insert("a"), 0);
    assert_eq!(store.insert("a"), 0);
    assert_eq!(store.insert("b"), 1);
    assert_eq!(store.insert("a"), 2);
    assert_eq!(store.len(), 3);
    assert_eq!(store.name_chars(1), vec!['b']);
}

#[test]
fn griefer_rows_are_read_three_words_at_a_time() {
    let rows = read_griefer_rows("x 1 2\n y 3 4 z").unwrap();
    assert_eq!(rows.len(), 2);
    assert_eq!((rows[1].name.as_str(), rows[1].sid, rows[1].ban_time), ("y", 3, 4));
    assert!(read_griefer_rows("x a 2").is_none());
    assert!(read_griefer_rows("x 1 -2").is_none());
}

#[test]
fn report_lines() {
    let mut out = String::new();
    write_banned(&mut out, "eve", 3, 12);
    write_not_banned(&mut out, "zed");
    assert_eq!(out, "eve was banned from 3 servers. most recently on: 12\nzed is not currently banned from any servers.\n");
    assert!(contains_id(&vec![4, 5], 5));
    assert!(!contains_id(&vec![4, 5], 6));
}

#[test]
fn scapegoat_traversals() {
    let mut tree = ScapeTree::new(0);
    tree.parse_griefers_for_scape("m 1 1\nc 1 2\nt 1 3\na 1 4\n".to_string());
    let mut pre = String::new();
    tree._traverse_pre_order(&mut pre, 0);
    assert_eq!(pre, "m c a NULL NULL NULL t NULL NULL ");
    let mut inorder = String::new();
    tree._traverse_in_order(&mut inorder, 0);
    assert_eq!(inorder, "NULL a NULL c NULL m NULL t NULL ");
    let mut post = String::new();
    tree._traverse_post_order(&mut post, 0);
    assert_eq!(post, "NULL NULL a NULL c NULL NULL t m ");
    let empty = ScapeTree::new(0);
    let mut none = String::new();
    empty._traverse_in_order(&mut none, 0);
    assert_eq!(none, "NULL ");
}

#[test]
fn roots_after_rebalancing() {
    let mut avl = TreeAVL::new(0);
    avl.parse_griefers_and_insert("a 1 1\nb 1 1\nc 1 1\n".to_string());
    assert_eq!(avl.root_node(), 1);
    assert_eq!(avl.search("c", avl.root_node() as isize), 2);
    let mut scape = ScapeTree::new(0);
    scape.parse_griefers_for_scape("a 1 1\nb 1 1\nc 1 1\nd 1 1\ne 1 1\n".to_string());
    assert_eq!(scape.root_node(), 2);
    let mut found: i32 = -1;
    scape.search("e", scape.root_node() as i32, &mut found);
    assert_eq!(found, 4);
    let mut shape = String::new();
    scape._traverse_pre_order(&mut shape, scape.root_node() as i32);
    assert_eq!(shape, "c b a NULL NULL NULL e d NULL NULL NULL ");
}

/// The number of levels of the tree written in pre-order with `NULL` for each empty subtree.
fn preorder_height(words: &mut std::str::SplitWhitespace) -> usize {
    match words.next() {
        Some("NULL") | None => 0,
        Some(_) => {
            let left = preorder_height(words);
            let right = preorder_height(words);
            1 + left.max(right)
        }
    }
}

#[test]
fn scapegoat_keeps_nodes_within_the_height_bound() {
    let mut scape = ScapeTree::new(0);
    let names = ["b", "a", "d", "c", "f", "e", "g", "i", "h", "j", "k"];
    for (count, name) in names.iter().enumerate() {
        scape.insert(name, 1, 1);
        let mut shape = String::new();
        scape._traverse_pre_order(&mut shape, scape.root_node() as i32);
        let depth = preorder_height(&mut shape.split_whitespace()) - 1;
        assert!(depth <= log32(count + 1));
    }
    let mut shape = String::new();
    scape._traverse_pre_order(&mut shape, scape.root_node() as i32);
    assert_eq!(shape, "f c b a NULL NULL NULL e d NULL NULL NULL i h g NULL NULL NULL k j NULL NULL NULL ");
}
