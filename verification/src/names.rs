//! Banned players: the store of player names shared by both trees, what is recorded of a
//! player, and the griefer list that fills a tree.

use vstd::prelude::*;
use crate::text::{chars_equal, decimal, push_decimal, push_str, chars_of, parse_number, parse_unsigned, split_whitespace, string_of, views, ws_tokens};

verus! {

/// The names seen so far, a name being stored again only when it differs from the last one.
pub struct NameContainer {
    names: Vec<String>,
    number_of_names: usize,
}

impl NameContainer {
    /// The stored names.
    pub closed spec fn view(&self) -> Seq<Seq<char>> {
        self.names@.map_values(|s: String| s@)
    }

    pub closed spec fn wf(&self) -> bool {
        self.number_of_names == self.names.len()
    }

    /// An empty store with room reserved for `capacity` names (64 when `capacity` is 0).
    pub fn new(capacity: usize) -> (store: Self)
        ensures
            store.wf(),
            store@ == Seq::<Seq<char>>::empty(),
    {
        let capacity = if capacity == 0 {
            64
        } else {
            capacity
        };
        let store = NameContainer { names: Vec::with_capacity(capacity), number_of_names: 0 };
        assert(store@ =~= Seq::<Seq<char>>::empty());
        store
    }

    /// How many names are stored.
    pub fn len(&self) -> (n: usize)
        requires
            self.wf(),
        ensures
            n == self@.len(),
    {
        self.number_of_names
    }

    /// Stores `name` unless it is the last name stored, and gives its index.
    pub fn insert(&mut self, name: &str) -> (index: usize)
        requires
            old(self).wf(),
            old(self)@.len() < usize::MAX,
        ensures
            final(self).wf(),
            old(self)@.len() > 0 && old(self)@.last() == name@ ==> final(self)@ == old(self)@
                && index == old(self)@.len() - 1,
            !(old(self)@.len() > 0 && old(self)@.last() == name@) ==> final(self)@ == old(
                self,
            )@.push(name@) && index == old(self)@.len(),
    {
        let text = chars_of(name);
        if self.number_of_names == 0 {
            self.names.push(string_of(&text));
            self.number_of_names += 1;
            assert(self@ =~= old(self)@.push(name@));
            return self.number_of_names - 1;
        }
        let last = chars_of(self.names[self.number_of_names - 1].as_str());
        assert(last@ == old(self)@.last());
        if !chars_equal(&last, &text) {
            self.names.push(string_of(&text));
            self.number_of_names += 1;
            assert(self@ =~= old(self)@.push(name@));
            return self.number_of_names - 1;
        }
        self.number_of_names - 1
    }

    /// The characters of the name stored at `i`.
    pub fn name_chars(&self, i: usize) -> (c: Vec<char>)
        requires
            self.wf(),
            i < self@.len(),
        ensures
            c@ == self@[i as int],
    {
        chars_of(self.names[i].as_str())
    }
}

/// What is known of a banned player: the servers that banned them, each once, in the order
/// first seen, and the most recent ban time.
pub struct BanRecord {
    pub sids: Seq<usize>,
    pub time: usize,
}

/// The record of a player after a ban on server `sid` at `time`.
pub open spec fn record_after(r: Option<BanRecord>, time: usize, sid: usize) -> BanRecord {
    match r {
        Some(old) => BanRecord {
            sids: if old.sids.contains(sid) {
                old.sids
            } else {
                old.sids.push(sid)
            },
            time: if time > old.time {
                time
            } else {
                old.time
            },
        },
        None => BanRecord { sids: seq![sid], time },
    }
}

/// The record for `k` after a ban of the player `name`.
pub open spec fn record_step(r: Option<BanRecord>, k: Seq<char>, name: Seq<char>, time: usize, sid: usize) -> Option<BanRecord> {
    if k == name {
        Some(record_after(r, time, sid))
    } else {
        r
    }
}

/// Whether `v` holds `x`.
pub fn contains_id(v: &Vec<usize>, x: usize) -> (r: bool)
    ensures
        r == v@.contains(x),
{
    let mut i: usize = 0;
    while i < v.len()
        invariant
            i <= v.len(),
            forall|k: int| 0 <= k < i ==> v@[k] != x,
        decreases v.len() - i,
    {
        if v[i] == x {
            return true;
        }
        i += 1;
    }
    false
}

/// One entry of the griefer list: a player, the server that banned them, and when.
pub struct GrieferRow {
    pub name: String,
    pub sid: usize,
    pub ban_time: usize,
}

/// A griefer entry as read: name, server, time.
pub struct RowSpec {
    pub name: Seq<char>,
    pub sid: usize,
    pub ban_time: usize,
}

/// Every entry's server and time read as `usize`.
pub open spec fn rows_parse(toks: Seq<Seq<char>>) -> bool {
    forall|r: int|
        0 <= r < toks.len() / 3 ==> (#[trigger] parse_unsigned(toks[3 * r + 1], usize::MAX as nat)) is Some
            && parse_unsigned(toks[3 * r + 2], usize::MAX as nat) is Some
}

/// The entries of the griefer list whose words are `toks`, three words to an entry; the
/// words of a last incomplete entry are ignored.
pub open spec fn griefer_rows(toks: Seq<Seq<char>>) -> Seq<RowSpec> {
    Seq::new(
        toks.len() / 3,
        |r: int|
            RowSpec {
                name: toks[3 * r],
                sid: parse_unsigned(toks[3 * r + 1], usize::MAX as nat)->0 as usize,
                ban_time: parse_unsigned(toks[3 * r + 2], usize::MAX as nat)->0 as usize,
            },
    )
}

/// The entry as read.
pub open spec fn row_view(row: GrieferRow) -> RowSpec {
    RowSpec { name: row.name@, sid: row.sid, ban_time: row.ban_time }
}

/// The record of `k` after the entries `rows`, in order, starting from `r`.
pub open spec fn record_after_rows(r: Option<BanRecord>, rows: Seq<RowSpec>, k: Seq<char>) -> Option<BanRecord>
    decreases rows.len(),
{
    if rows.len() == 0 {
        r
    } else {
        let last = rows.last();
        record_step(record_after_rows(r, rows.drop_last(), k), k, last.name, last.ban_time, last.sid)
    }
}

/// Reads the griefer list: white-space separated entries of a name, a server number and a
/// ban time. Gives `None` when a server number or time does not read as a `usize`.
pub fn read_griefer_rows(griefers: &str) -> (rows: Option<Vec<GrieferRow>>)
    ensures
        rows is None <==> !rows_parse(ws_tokens(griefers@)),
        rows matches Some(v) ==> v@.map_values(|g: GrieferRow| row_view(g)) == griefer_rows(ws_tokens(griefers@)),
{
    let text = chars_of(griefers);
    let items = split_whitespace(&text);
    let ghost toks = ws_tokens(griefers@);
    let n = items.len();
    let count = n / 3;
    let mut out: Vec<GrieferRow> = Vec::new();
    let mut row: usize = 0;
    while row < count
        invariant
            views(items@) == toks,
            toks == ws_tokens(griefers@),
            count == items@.len() / 3,
            n == items@.len(),
            row <= count,
            out@.len() == row,
            forall|r: int| 0 <= r < row ==> (#[trigger] parse_unsigned(toks[3 * r + 1], usize::MAX as nat)) is Some
                && parse_unsigned(toks[3 * r + 2], usize::MAX as nat) is Some,
            forall|r: int| 0 <= r < row ==> row_view(#[trigger] out@[r]) == griefer_rows(toks)[r],
        decreases count - row,
    {
        assert(row * 3 + 2 < items@.len()) by (nonlinear_arith)
            requires
                row < count,
                count == items@.len() / 3,
        ;
        let base = row * 3;
        assert(items@[base + 1]@ == toks[3 * row + 1]);
        assert(items@[base + 2]@ == toks[3 * row + 2]);
        assert(items@[base as int]@ == toks[3 * row]);
        let sid = match parse_number(&items[base + 1], usize::MAX as u64) {
            Some(v) => v as usize,
            None => {
                assert(!rows_parse(toks));
                return None;
            },
        };
        let ban_time = match parse_number(&items[base + 2], usize::MAX as u64) {
            Some(v) => v as usize,
            None => {
                assert(!rows_parse(toks));
                return None;
            },
        };
        let entry = GrieferRow { name: string_of(&items[base]), sid, ban_time };
        assert(row_view(entry) == griefer_rows(toks)[row as int]);
        out.push(entry);
        row += 1;
    }
    assert(out@.map_values(|g: GrieferRow| row_view(g)) =~= griefer_rows(toks));
    Some(out)
}

/// The report line for a queried player.
pub open spec fn ban_line(name: Seq<char>, r: Option<BanRecord>) -> Seq<char> {
    match r {
        Some(rec) => name + " was banned from "@ + decimal(rec.sids.len()) + " servers. most recently on: "@
            + decimal(rec.time as nat) + "\n"@,
        None => name + " is not currently banned from any servers.\n"@,
    }
}

/// The report for the queried players `names`, in order, given what is recorded of each.
pub open spec fn ban_report(records: spec_fn(Seq<char>) -> Option<BanRecord>, names: Seq<Seq<char>>) -> Seq<char>
    decreases names.len(),
{
    if names.len() == 0 {
        Seq::empty()
    } else {
        ban_report(records, names.drop_last()) + ban_line(names.last(), records(names.last()))
    }
}

/// Appends the report line for `name`, banned from `servers` servers, most recently at `time`.
pub fn write_banned(output: &mut String, name: &str, servers: usize, time: usize)
    ensures
        final(output)@ == old(output)@ + ban_line(
            name@,
            Some(BanRecord { sids: Seq::new(servers as nat, |i: int| 0usize), time }),
        ),
{
    push_str(output, name);
    push_str(output, " was banned from ");
    push_decimal(output, servers as u64);
    push_str(output, " servers. most recently on: ");
    push_decimal(output, time as u64);
    push_str(output, "\n");
    assert(output@ =~= old(output)@ + ban_line(
        name@,
        Some(BanRecord { sids: Seq::new(servers as nat, |i: int| 0usize), time }),
    ));
}

/// Appends the report line for `name`, who is not banned.
pub fn write_not_banned(output: &mut String, name: &str)
    ensures
        final(output)@ == old(output)@ + ban_line(name@, None),
{
    push_str(output, name);
    push_str(output, " is not currently banned from any servers.\n");
    assert(output@ =~= old(output)@ + ban_line(name@, None));
}

/// Entry `i` of `rows` is a ban of the player `k`.
pub open spec fn names_player(rows: Seq<RowSpec>, i: int, k: Seq<char>) -> bool {
    0 <= i < rows.len() && rows[i].name == k
}

/// What a griefer list records of a player: a record exactly when some entry names them,
/// and then each server that banned them, once, and the latest of their ban times.
pub proof fn lemma_record_after_rows(rows: Seq<RowSpec>, k: Seq<char>)
    ensures
        record_after_rows(None, rows, k) is Some <==> exists|i: int| #[trigger] names_player(rows, i, k),
        record_after_rows(None, rows, k) matches Some(rec) ==> {
            &&& rec.sids.no_duplicates()
            &&& forall|s: usize| rec.sids.contains(s) <==> exists|i: int| #[trigger] names_player(rows, i, k) && rows[i].sid == s
            &&& exists|i: int| #[trigger] names_player(rows, i, k) && rows[i].ban_time == rec.time
            &&& forall|i: int| #[trigger] names_player(rows, i, k) ==> rows[i].ban_time <= rec.time
        },
    decreases rows.len(),
{
    if rows.len() == 0 {
        return;
    }
    let pre = rows.drop_last();
    let last = rows.last();
    let n = rows.len() - 1;
    lemma_record_after_rows(pre, k);
    let before = record_after_rows(None, pre, k);
    assert forall|i: int| 0 <= i < n implies #[trigger] names_player(rows, i, k) == names_player(pre, i, k) by {
        assert(rows[i] == pre[i]);
    }
    if last.name != k {
        assert(!names_player(rows, n, k));
        if exists|i: int| #[trigger] names_player(rows, i, k) {
            let i = choose|i: int| #[trigger] names_player(rows, i, k);
            assert(names_player(pre, i, k));
        }
        if let Some(rec) = before {
            assert forall|s: usize| rec.sids.contains(s) <==> exists|i: int| #[trigger] names_player(rows, i, k) && rows[i].sid == s by {
                if rec.sids.contains(s) {
                    let i = choose|i: int| #[trigger] names_player(pre, i, k) && pre[i].sid == s;
                    assert(names_player(rows, i, k) && rows[i].sid == s);
                }
                if exists|i: int| #[trigger] names_player(rows, i, k) && rows[i].sid == s {
                    let i = choose|i: int| #[trigger] names_player(rows, i, k) && rows[i].sid == s;
                    assert(names_player(pre, i, k) && pre[i].sid == s);
                }
            }
            let j = choose|i: int| #[trigger] names_player(pre, i, k) && pre[i].ban_time == rec.time;
            assert(names_player(rows, j, k) && rows[j].ban_time == rec.time);
            assert forall|i: int| #[trigger] names_player(rows, i, k) implies rows[i].ban_time <= rec.time by {
                assert(names_player(pre, i, k));
            }
        }
    } else {
        assert(names_player(rows, n, k));
        let rec = record_after(before, last.ban_time, last.sid);
        assert(record_after_rows(None, rows, k) == Some(rec));
        match before {
            None => {
                assert(rec.sids =~= seq![last.sid]);
                assert forall|s: usize| rec.sids.contains(s) <==> exists|i: int| #[trigger] names_player(rows, i, k) && rows[i].sid == s by {
                    if exists|i: int| #[trigger] names_player(rows, i, k) && rows[i].sid == s {
                        let i = choose|i: int| #[trigger] names_player(rows, i, k) && rows[i].sid == s;
                        if i < n {
                            assert(names_player(pre, i, k));
                        }
                        assert(rec.sids[0] == s);
                    }
                    if rec.sids.contains(s) {
                        assert(rec.sids[0] == s);
                        assert(names_player(rows, n, k) && rows[n].sid == s);
                    }
                }
                assert(names_player(rows, n, k) && rows[n].ban_time == rec.time);
                assert forall|i: int| #[trigger] names_player(rows, i, k) implies rows[i].ban_time <= rec.time by {
                    if i < n {
                        assert(names_player(pre, i, k));
                    }
                }
            },
            Some(old) => {
                if !old.sids.contains(last.sid) {
                    assert forall|a: int, b: int| 0 <= a < b < rec.sids.len() implies rec.sids[a] != rec.sids[b] by {
                        if b == old.sids.len() {
                            assert(old.sids.contains(old.sids[a]));
                        }
                    }
                }
                assert forall|s: usize| rec.sids.contains(s) <==> exists|i: int| #[trigger] names_player(rows, i, k) && rows[i].sid == s by {
                    if rec.sids.contains(s) {
                        if old.sids.contains(s) {
                            let i = choose|i: int| #[trigger] names_player(pre, i, k) && pre[i].sid == s;
                            assert(names_player(rows, i, k) && rows[i].sid == s);
                        } else {
                            let p = choose|p: int| 0 <= p < rec.sids.len() && rec.sids[p] == s;
                            assert(s == last.sid);
                            assert(names_player(rows, n, k) && rows[n].sid == s);
                        }
                    }
                    if exists|i: int| #[trigger] names_player(rows, i, k) && rows[i].sid == s {
                        let i = choose|i: int| #[trigger] names_player(rows, i, k) && rows[i].sid == s;
                        if i < n {
                            assert(names_player(pre, i, k) && pre[i].sid == s);
                            assert(old.sids.contains(s));
                            if !old.sids.contains(last.sid) {
                                let p = choose|p: int| 0 <= p < old.sids.len() && old.sids[p] == s;
                                assert(rec.sids[p] == s);
                            }
                        } else {
                            if !old.sids.contains(last.sid) {
                                assert(rec.sids[old.sids.len() as int] == s);
                            }
                        }
                    }
                }
                if last.ban_time > old.time {
                    assert(names_player(rows, n, k) && rows[n].ban_time == rec.time);
                } else {
                    let j = choose|i: int| #[trigger] names_player(pre, i, k) && pre[i].ban_time == old.time;
                    assert(names_player(rows, j, k) && rows[j].ban_time == rec.time);
                }
                assert forall|i: int| #[trigger] names_player(rows, i, k) implies rows[i].ban_time <= rec.time by {
                    if i < n {
                        assert(names_player(pre, i, k));
                    }
                }
            },
        }
    }
}

} // verus!
