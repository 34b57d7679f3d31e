//! The loot knapsack: which items to carry for the greatest value within a weight limit,
//! by dynamic programming over items and capacities.

use vstd::prelude::*;
use crate::text::{
    chars_of, decimal, lines, lines_of, parse_number, parse_unsigned, push_chars, push_decimal, push_str,
    split_at_char, split_on, string_of, views,
};

verus! {

/// An item that can be looted.
pub struct Item {
    pub name: String,
    pub weight: u32,
    pub value: u32,
}

impl Item {
    /// An item named `name_str` whose weight and value are written in decimal.
    pub fn new(name_str: &str, weight_str: &str, value_str: &str) -> (item: Self)
        requires
            parse_unsigned(weight_str@, u32::MAX as nat) is Some,
            parse_unsigned(value_str@, u32::MAX as nat) is Some,
        ensures
            item.name@ == name_str@,
            item.weight == parse_unsigned(weight_str@, u32::MAX as nat)->0,
            item.value == parse_unsigned(value_str@, u32::MAX as nat)->0,
    {
        let w = chars_of(weight_str);
        let v = chars_of(value_str);
        let weight = match parse_number(&w, u32::MAX as u64) {
            Some(x) => x as u32,
            None => 0,
        };
        let value = match parse_number(&v, u32::MAX as u64) {
            Some(x) => x as u32,
            None => 0,
        };
        let name = chars_of(name_str);
        Item { name: string_of(&name), weight, value }
    }
}

/// The most value that items `1..=i` can give within total weight `j`; item 0 stands for
/// taking nothing.
pub open spec fn best_value(items: Seq<Item>, i: int, j: int) -> int
    decreases i,
{
    if i <= 0 {
        0
    } else if items[i].weight > j {
        best_value(items, i - 1, j)
    } else {
        let skip = best_value(items, i - 1, j);
        let take = best_value(items, i - 1, j - items[i].weight) + items[i].value;
        if skip >= take {
            skip
        } else {
            take
        }
    }
}

/// A choice of items: indices from `i` down to 1, each at most once, highest first.
pub open spec fn is_selection(sel: Seq<int>, i: int) -> bool {
    &&& forall|k: int| 0 <= k < sel.len() ==> 1 <= #[trigger] sel[k] <= i
    &&& forall|a: int, b: int| 0 <= a < b < sel.len() ==> sel[a] > sel[b]
}

/// The weight of the chosen items.
pub open spec fn selection_weight(items: Seq<Item>, sel: Seq<int>) -> int
    decreases sel.len(),
{
    if sel.len() == 0 {
        0
    } else {
        items[sel[0]].weight + selection_weight(items, sel.drop_first())
    }
}

/// The value of the chosen items.
pub open spec fn selection_value(items: Seq<Item>, sel: Seq<int>) -> int
    decreases sel.len(),
{
    if sel.len() == 0 {
        0
    } else {
        items[sel[0]].value + selection_value(items, sel.drop_first())
    }
}

proof fn lemma_best_nonneg(items: Seq<Item>, i: int, j: int)
    ensures
        0 <= best_value(items, i, j),
    decreases i,
{
    if i > 0 {
        lemma_best_nonneg(items, i - 1, j);
    }
}

/// More room never lowers the best value.
proof fn lemma_best_monotone_room(items: Seq<Item>, i: int, j: int, j2: int)
    requires
        j <= j2,
    ensures
        best_value(items, i, j) <= best_value(items, i, j2),
    decreases i,
{
    if i > 0 {
        lemma_best_monotone_room(items, i - 1, j, j2);
        if items[i].weight <= j {
            lemma_best_monotone_room(items, i - 1, j - items[i].weight, j2 - items[i].weight);
        }
    }
}

/// More items and more room never lower the best value.
proof fn lemma_best_monotone(items: Seq<Item>, i: int, j: int, i2: int, j2: int)
    requires
        i <= i2,
        j <= j2,
    ensures
        best_value(items, i, j) <= best_value(items, i2, j2),
    decreases i2 - i,
{
    if i < i2 {
        lemma_best_monotone(items, i, j, i2 - 1, j2);
        if i2 > 0 {
            assert(best_value(items, i2 - 1, j2) <= best_value(items, i2, j2));
        } else {
            lemma_best_monotone_room(items, i2 - 1, j2, j2);
        }
    } else {
        lemma_best_monotone_room(items, i, j, j2);
    }
}

proof fn lemma_selection_nonneg(items: Seq<Item>, sel: Seq<int>)
    ensures
        selection_weight(items, sel) >= 0,
        selection_value(items, sel) >= 0,
    decreases sel.len(),
{
    if sel.len() > 0 {
        lemma_selection_nonneg(items, sel.drop_first());
    }
}

/// No choice among items `1..=i` that weighs at most `j` is worth more than
/// `best_value(items, i, j)`.
pub proof fn lemma_best_value_is_optimal(items: Seq<Item>, i: int, j: int, sel: Seq<int>)
    requires
        is_selection(sel, i),
        selection_weight(items, sel) <= j,
    ensures
        selection_value(items, sel) <= best_value(items, i, j),
    decreases i,
{
    lemma_selection_nonneg(items, sel);
    if i <= 0 {
        if sel.len() > 0 {
            assert(1 <= sel[0] <= i);
        }
    } else if sel.len() > 0 && sel[0] == i {
        let rest = sel.drop_first();
        assert(is_selection(rest, i - 1)) by {
            assert forall|k: int| 0 <= k < rest.len() implies 1 <= #[trigger] rest[k] <= i - 1 by {
                assert(sel[0] > sel[k + 1]);
            }
        }
        lemma_selection_nonneg(items, rest);
        lemma_best_value_is_optimal(items, i - 1, j - items[i].weight, rest);
    } else {
        assert(is_selection(sel, i - 1)) by {
            assert forall|k: int| 0 <= k < sel.len() implies 1 <= #[trigger] sel[k] <= i - 1 by {
                if sel[k] == i && k > 0 {
                    assert(sel[0] > sel[k]);
                }
            }
        }
        lemma_best_value_is_optimal(items, i - 1, j, sel);
    }
}

/// The dynamic-programming table: row `i`, column `j` holds the most value that items
/// `1..=i` give within weight `j`. Row 0 is all zeros.
pub fn make_table(items: &Vec<Item>, number_of_items: usize, total_capacity: usize) -> (table: Vec<Vec<u32>>)
    requires
        number_of_items <= items.len(),
        total_capacity < usize::MAX,
        best_value(items@, number_of_items - 1, total_capacity as int) <= u32::MAX,
    ensures
        table@.len() == number_of_items,
        forall|i: int| 0 <= i < number_of_items ==> (#[trigger] table@[i])@.len() == total_capacity + 1,
        forall|i: int, j: int|
            0 <= i < number_of_items && 0 <= j <= total_capacity ==> #[trigger] table@[i]@[j]
                == best_value(items@, i, j),
{
    let mut table: Vec<Vec<u32>> = Vec::new();
    let mut i: usize = 0;
    while i < number_of_items
        invariant
            i <= number_of_items <= items.len(),
            total_capacity < usize::MAX,
            best_value(items@, number_of_items - 1, total_capacity as int) <= u32::MAX,
            table@.len() == i,
            forall|r: int| 0 <= r < i ==> (#[trigger] table@[r])@.len() == total_capacity + 1,
            forall|r: int, j: int|
                0 <= r < i && 0 <= j <= total_capacity ==> #[trigger] table@[r]@[j]
                    == best_value(items@, r, j),
        decreases number_of_items - i,
    {
        let mut row: Vec<u32> = Vec::new();
        let mut j: usize = 0;
        while j <= total_capacity
            invariant
                1 <= i + 1 <= number_of_items <= items.len(),
                total_capacity < usize::MAX,
                best_value(items@, number_of_items - 1, total_capacity as int) <= u32::MAX,
                table@.len() == i,
                forall|r: int| 0 <= r < i ==> (#[trigger] table@[r])@.len() == total_capacity + 1,
                forall|r: int, c: int|
                    0 <= r < i && 0 <= c <= total_capacity ==> #[trigger] table@[r]@[c]
                        == best_value(items@, r, c),
                j <= total_capacity + 1,
                row@.len() == j,
                forall|c: int| 0 <= c < j ==> row@[c] == best_value(items@, i as int, c),
            decreases total_capacity + 1 - j,
        {
            let cell: u32 = if i == 0 {
                0
            } else if items[i].weight as usize > j {
                table[i - 1][j]
            } else {
                let skip = table[i - 1][j];
                proof {
                    lemma_best_nonneg(items@, i - 1, j - items@[i as int].weight);
                    lemma_best_monotone(items@, i as int, j as int, number_of_items - 1, total_capacity as int);
                }
                let take = table[i - 1][j - items[i].weight as usize] + items[i].value;
                if skip >= take {
                    skip
                } else {
                    take
                }
            };
            row.push(cell);
            j += 1;
        }
        table.push(row);
        i += 1;
    }
    table
}

/// Indices as mathematical integers.
pub open spec fn as_ints(s: Seq<usize>) -> Seq<int> {
    s.map_values(|x: usize| x as int)
}

/// The table holds the best values for rows `0..=i` and capacities `0..=j`.
pub open spec fn table_holds(items: Seq<Item>, table: Seq<Vec<u32>>, i: int, j: int) -> bool {
    &&& 0 <= i < table.len()
    &&& i < items.len()
    &&& 0 <= j
    &&& forall|r: int| 0 <= r <= i ==> j < (#[trigger] table[r])@.len()
    &&& forall|r: int, c: int| 0 <= r <= i && 0 <= c <= j ==> #[trigger] table[r]@[c] == best_value(items, r, c)
}

/// The items the walk back through the table takes from row `i`, capacity `j`: item `i` when
/// it raises the best value, followed by what the walk takes from the row below with the
/// weight that remains; otherwise what the walk takes from the row below.
pub open spec fn chosen_items(items: Seq<Item>, i: int, j: int) -> Seq<int>
    decreases i,
{
    if i <= 0 {
        Seq::empty()
    } else if best_value(items, i, j) > best_value(items, i - 1, j) {
        seq![i] + chosen_items(items, i - 1, j - items[i].weight)
    } else {
        chosen_items(items, i - 1, j)
    }
}

/// Walks the table back from row `i`, capacity `j`, appending to `solns` the items of a
/// choice that weighs at most `j` and is worth `best_value(items, i, j)`, highest index first.
pub fn knapsack_solve(items: &Vec<Item>, table: &Vec<Vec<u32>>, i: usize, j: usize, solns: &mut Vec<usize>)
    requires
        table_holds(items@, table@, i as int, j as int),
    ensures
        final(solns)@.len() >= old(solns)@.len(),
        final(solns)@.take(old(solns)@.len() as int) == old(solns)@,
        is_selection(as_ints(final(solns)@.skip(old(solns)@.len() as int)), i as int),
        selection_weight(items@, as_ints(final(solns)@.skip(old(solns)@.len() as int))) <= j,
        selection_value(items@, as_ints(final(solns)@.skip(old(solns)@.len() as int))) == best_value(items@, i as int, j as int),
        as_ints(final(solns)@.skip(old(solns)@.len() as int)) == chosen_items(items@, i as int, j as int),
    decreases i,
{
    let ghost start = old(solns)@;
    if i == 0 {
        assert(solns@.skip(start.len() as int) =~= Seq::<usize>::empty());
        assert(as_ints(solns@.skip(start.len() as int)) =~= Seq::<int>::empty());
        assert(solns@.take(start.len() as int) =~= start);
        return;
    }
    if table[i][j] > table[i - 1][j] {
        assert(items@[i as int].weight <= j);
        solns.push(i);
        let ghost mid = solns@;
        knapsack_solve(items, table, i - 1, j - items[i].weight as usize, solns);
        proof {
            let rest = as_ints(solns@.skip(mid.len() as int));
            let all = as_ints(solns@.skip(start.len() as int));
            assert(solns@.take(mid.len() as int) == mid);
            assert(solns@.take(mid.len() as int)[start.len() as int] == mid[start.len() as int]);
            assert(solns@.skip(start.len() as int) =~= seq![i] + solns@.skip(mid.len() as int));
            assert(all =~= seq![i as int] + rest);
            assert(all.drop_first() =~= rest);
            assert(solns@.take(start.len() as int) =~= start);
            assert forall|a: int, b: int| 0 <= a < b < all.len() implies all[a] > all[b] by {
                if a > 0 {
                    assert(all[a] == rest[a - 1] && all[b] == rest[b - 1]);
                } else {
                    assert(all[b] == rest[b - 1]);
                }
            }
            assert forall|k: int| 0 <= k < all.len() implies 1 <= #[trigger] all[k] <= i by {
                if k > 0 {
                    assert(all[k] == rest[k - 1]);
                }
            }
        }
    } else {
        knapsack_solve(items, table, i - 1, j, solns);
    }
}

/// The items to carry for the greatest value within `capacity`, highest index first;
/// item 0 stands for taking nothing and is never chosen.
pub fn best_loot(items: &Vec<Item>, capacity: u32) -> (chosen: Vec<usize>)
    requires
        items.len() >= 1,
        (capacity as int) < usize::MAX,
        best_value(items@, items.len() - 1, capacity as int) <= u32::MAX,
    ensures
        is_selection(as_ints(chosen@), items.len() - 1),
        selection_weight(items@, as_ints(chosen@)) <= capacity,
        selection_value(items@, as_ints(chosen@)) == best_value(items@, items.len() - 1, capacity as int),
        as_ints(chosen@) == chosen_items(items@, items.len() - 1, capacity as int),
{
    let table = make_table(items, items.len(), capacity as usize);
    let mut solutions: Vec<usize> = Vec::new();
    knapsack_solve(items, &table, items.len() - 1, capacity as usize, &mut solutions);
    assert(solutions@.skip(0) =~= solutions@);
    solutions
}

/// A loot line names an item and gives its weight and value: `name;weight;value`.
pub open spec fn loot_line_ok(line: Seq<char>) -> bool {
    let f = split_on(line, ';');
    &&& f.len() >= 3
    &&& parse_unsigned(f[1], u32::MAX as nat) is Some
    &&& parse_unsigned(f[2], u32::MAX as nat) is Some
}

/// The loot input: a first line with the weight limit, then one item per line.
pub open spec fn loot_input_ok(ls: Seq<Seq<char>>) -> bool {
    &&& ls.len() >= 1
    &&& parse_unsigned(ls[0], u32::MAX as nat) is Some
    &&& forall|k: int| 1 <= k < ls.len() ==> #[trigger] loot_line_ok(ls[k])
}

/// Item `k` read from loot line `line`.
pub open spec fn item_matches(item: Item, line: Seq<char>) -> bool {
    let f = split_on(line, ';');
    &&& item.name@ == f[0]
    &&& item.weight == parse_unsigned(f[1], u32::MAX as nat)->0
    &&& item.value == parse_unsigned(f[2], u32::MAX as nat)->0
}

/// `items` and `max_weight` are what the loot input `s` gives: the weight limit on the first
/// line, an empty item 0, then the item of each further line.
pub open spec fn loot_read(items: Seq<Item>, max_weight: u32, s: Seq<char>) -> bool {
    let ls = lines_of(s);
    &&& max_weight == parse_unsigned(ls[0], u32::MAX as nat)->0
    &&& items.len() == ls.len()
    &&& items[0].name@ == "NULL ITEM"@
    &&& items[0].weight == 0
    &&& items[0].value == 0
    &&& forall|k: int| 1 <= k < ls.len() ==> #[trigger] item_matches(items[k], ls[k])
}

/// Reads the loot input into its items, behind an empty item 0, and the weight limit.
/// Gives `None` when the input has no lines, the limit does not read as a `u32`, or an
/// item line lacks a field or has a weight or value that does not read as a `u32`.
pub fn read_loot(input_data: String) -> (parsed: Option<(Vec<Item>, u32)>)
    ensures
        parsed is None <==> !loot_input_ok(lines_of(input_data@)),
        parsed matches Some((items, max_weight)) ==> loot_read(items@, max_weight, input_data@),
{
    let text = chars_of(input_data.as_str());
    let tokens = lines(&text);
    let ghost ls = lines_of(input_data@);
    if tokens.len() == 0 {
        return None;
    }
    assert(tokens@[0]@ == ls[0]);
    let max_weight = match parse_number(&tokens[0], u32::MAX as u64) {
        Some(w) => w as u32,
        None => {
            return None;
        },
    };
    let mut items: Vec<Item> = Vec::new();
    let null_name = chars_of("NULL ITEM");
    items.push(Item { name: string_of(&null_name), weight: 0, value: 0 });
    let mut row: usize = 1;
    while row < tokens.len()
        invariant
            1 <= row <= tokens.len(),
            views(tokens@) == ls,
            ls == lines_of(input_data@),
            items@.len() == row,
            items@[0].name@ == "NULL ITEM"@,
            items@[0].weight == 0,
            items@[0].value == 0,
            forall|k: int| 1 <= k < row ==> #[trigger] loot_line_ok(ls[k]),
            forall|k: int| 1 <= k < row ==> #[trigger] item_matches(items@[k], ls[k]),
        decreases tokens.len() - row,
    {
        assert(tokens@[row as int]@ == ls[row as int]);
        let fields = split_at_char(&tokens[row], ';');
        let ghost f = split_on(ls[row as int], ';');
        assert(views(fields@) == f);
        assert(fields@.len() == f.len());
        if fields.len() < 3 {
            assert(!loot_line_ok(ls[row as int]));
            return None;
        }
        assert(fields@[1]@ == split_on(ls[row as int], ';')[1]);
        assert(fields@[2]@ == split_on(ls[row as int], ';')[2]);
        assert(fields@[0]@ == split_on(ls[row as int], ';')[0]);
        let weight = match parse_number(&fields[1], u32::MAX as u64) {
            Some(w) => w as u32,
            None => {
                assert(!loot_line_ok(ls[row as int]));
                return None;
            },
        };
        let value = match parse_number(&fields[2], u32::MAX as u64) {
            Some(v) => v as u32,
            None => {
                assert(!loot_line_ok(ls[row as int]));
                return None;
            },
        };
        let item = Item { name: string_of(&fields[0]), weight, value };
        assert(item_matches(item, ls[row as int]));
        items.push(item);
        row += 1;
    }
    Some((items, max_weight))
}

/// Reads the loot input, whose limit, weights and values all read as `u32`s, into its
/// items, behind an empty item 0, and the weight limit.
pub fn parse_input_into_items(input_data: String) -> (parsed: (Vec<Item>, u32))
    requires
        loot_input_ok(lines_of(input_data@)),
    ensures
        loot_read(parsed.0@, parsed.1, input_data@),
{
    match read_loot(input_data) {
        Some(parsed) => parsed,
        None => (Vec::new(), 0),
    }
}

/// The report line of an item: its name, weight and value.
pub open spec fn loot_line(item: Item) -> Seq<char> {
    item.name@ + ", "@ + decimal(item.weight as nat) + ", "@ + decimal(item.value as nat) + "\r\n"@
}

/// The report lines of the chosen items, listed highest index first, from the last to the
/// first.
pub open spec fn loot_lines(items: Seq<Item>, chosen: Seq<usize>) -> Seq<char>
    decreases chosen.len(),
{
    if chosen.len() == 0 {
        Seq::empty()
    } else {
        loot_lines(items, chosen.drop_first()) + loot_line(items[chosen[0] as int])
    }
}

/// The item part of the loot report has one line per chosen item, the last chosen first
/// (lowest index first, as the walk lists the highest first), each line giving the item's
/// name, weight and value.
pub proof fn lemma_loot_lines_per_item(items: Seq<Item>, chosen: Seq<usize>)
    ensures
        loot_lines(items, chosen) == Seq::new(
            chosen.len(),
            (|k: int| {
                let item = items[chosen[chosen.len() - 1 - k] as int];
                item.name@ + ", "@ + decimal(item.weight as nat) + ", "@ + decimal(item.value as nat) + "\r\n"@
            }),
        ).flatten(),
    decreases chosen.len(),
{
    let m = Seq::new(
        chosen.len(),
        |k: int| {
            let item = items[chosen[chosen.len() - 1 - k] as int];
            item.name@ + ", "@ + decimal(item.weight as nat) + ", "@ + decimal(item.value as nat) + "\r\n"@
        },
    );
    m.lemma_flatten_and_flatten_alt_are_equivalent();
    if chosen.len() == 0 {
        assert(m =~= Seq::<Seq<char>>::empty());
    } else {
        let rest = chosen.drop_first();
        let mr = Seq::new(
            rest.len(),
            |k: int| {
                let item = items[rest[rest.len() - 1 - k] as int];
                item.name@ + ", "@ + decimal(item.weight as nat) + ", "@ + decimal(item.value as nat) + "\r\n"@
            },
        );
        lemma_loot_lines_per_item(items, rest);
        assert(m.drop_last() =~= mr);
        mr.lemma_flatten_and_flatten_alt_are_equivalent();
    }
}

/// The chosen items after the first `i` weigh and are worth no more than all of them.
proof fn lemma_selection_suffix(items: Seq<Item>, sel: Seq<int>, i: int)
    requires
        0 <= i <= sel.len(),
    ensures
        selection_weight(items, sel.skip(i)) <= selection_weight(items, sel),
        selection_value(items, sel.skip(i)) <= selection_value(items, sel),
    decreases i,
{
    if i == 0 {
        assert(sel.skip(0) =~= sel);
    } else {
        lemma_selection_suffix(items, sel, i - 1);
        assert(sel.skip(i - 1).drop_first() =~= sel.skip(i));
        lemma_selection_nonneg(items, sel.skip(i));
    }
}

/// Writes the report of the chosen items (listed highest index first): a line for each,
/// lowest index first, then their total weight and total value.
pub fn write_loot(output: &mut String, items: &Vec<Item>, chosen: &Vec<usize>)
    requires
        forall|k: int| 0 <= k < chosen@.len() ==> #[trigger] chosen@[k] < items@.len(),
        selection_weight(items@, as_ints(chosen@)) <= u32::MAX,
        selection_value(items@, as_ints(chosen@)) <= u32::MAX,
    ensures
        final(output)@ == old(output)@ + loot_lines(items@, chosen@) + "final weight: "@ + decimal(
            selection_weight(items@, as_ints(chosen@)) as nat,
        ) + "\r\n"@ + "final value: "@ + decimal(selection_value(items@, as_ints(chosen@)) as nat) + "\r\n"@,
        final(output)@ == old(output)@ + Seq::new(
            chosen@.len(),
            (|k: int| {
                let item = items@[chosen@[chosen@.len() - 1 - k] as int];
                item.name@ + ", "@ + decimal(item.weight as nat) + ", "@ + decimal(item.value as nat) + "\r\n"@
            }),
        ).flatten() + "final weight: "@ + decimal(selection_weight(items@, as_ints(chosen@)) as nat) + "\r\n"@
            + "final value: "@ + decimal(selection_value(items@, as_ints(chosen@)) as nat) + "\r\n"@,
{
    let ghost sel = as_ints(chosen@);
    let n = chosen.len();
    let mut total_weight: u32 = 0;
    let mut total_value: u32 = 0;
    let mut i: usize = n;
    assert(chosen@.skip(n as int) =~= Seq::<usize>::empty());
    assert(sel.skip(n as int) =~= Seq::<int>::empty());
    while i > 0
        invariant
            n == chosen@.len(),
            sel == as_ints(chosen@),
            i <= n,
            forall|k: int| 0 <= k < chosen@.len() ==> #[trigger] chosen@[k] < items@.len(),
            selection_weight(items@, sel) <= u32::MAX,
            selection_value(items@, sel) <= u32::MAX,
            output@ == old(output)@ + loot_lines(items@, chosen@.skip(i as int)),
            total_weight == selection_weight(items@, sel.skip(i as int)),
            total_value == selection_value(items@, sel.skip(i as int)),
        decreases i,
    {
        let item = &items[chosen[i - 1]];
        proof {
            assert(chosen@.skip(i - 1).drop_first() =~= chosen@.skip(i as int));
            assert(sel.skip(i - 1).drop_first() =~= sel.skip(i as int));
            assert(sel.skip(i - 1)[0] == chosen@[i - 1]);
            lemma_selection_suffix(items@, sel, i - 1);
            lemma_selection_nonneg(items@, sel.skip(i as int));
        }
        push_str(output, item.name.as_str());
        push_str(output, ", ");
        push_decimal(output, item.weight as u64);
        push_str(output, ", ");
        push_decimal(output, item.value as u64);
        push_str(output, "\r\n");
        total_weight = total_weight + item.weight;
        total_value = total_value + item.value;
        i -= 1;
        proof {
            assert(output@ =~= old(output)@ + loot_lines(items@, chosen@.skip(i as int)));
        }
    }
    assert(chosen@.skip(0) =~= chosen@);
    assert(sel.skip(0) =~= sel);
    push_str(output, "final weight: ");
    push_decimal(output, total_weight as u64);
    push_str(output, "\r\n");
    push_str(output, "final value: ");
    push_decimal(output, total_value as u64);
    push_str(output, "\r\n");
    proof {
        lemma_loot_lines_per_item(items@, chosen@);
    }
}

} // verus!
