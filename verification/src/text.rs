//! Text handling shared by the input readers and report writers: splitting on white
//! space, lines and separators, decimal numbers, and lexicographic order of names.

use vstd::prelude::*;

verus! {

/// The characters of `s`, in order.
pub fn chars_of(s: &str) -> (v: Vec<char>)
    ensures
        v@ == s@,
{
    let mut v: Vec<char> = Vec::new();
    for c in it: s.chars()
        invariant
            v@ == it.seq().take(it.index() as int),
            it.seq() == s@,
    {
        v.push(c);
    }
    v
}

/// Unicode white space, as `char::is_whitespace` has it.
pub open spec fn is_whitespace(c: char) -> bool {
    ||| '\u{9}' <= c <= '\u{D}'
    ||| c == ' '
    ||| c == '\u{85}'
    ||| c == '\u{A0}'
    ||| c == '\u{1680}'
    ||| '\u{2000}' <= c <= '\u{200A}'
    ||| c == '\u{2028}'
    ||| c == '\u{2029}'
    ||| c == '\u{202F}'
    ||| c == '\u{205F}'
    ||| c == '\u{3000}'
}

/// Whether `c` is white space.
pub fn is_space(c: char) -> (r: bool)
    ensures
        r == is_whitespace(c),
{
    ('\u{9}' <= c && c <= '\u{D}') || c == ' ' || c == '\u{85}' || c == '\u{A0}' || c
        == '\u{1680}' || ('\u{2000}' <= c && c <= '\u{200A}') || c == '\u{2028}' || c
        == '\u{2029}' || c == '\u{202F}' || c == '\u{205F}' || c == '\u{3000}'
}

/// How many characters at the front of `s` are not white space.
pub open spec fn word_len(s: Seq<char>) -> nat
    decreases s.len(),
{
    if s.len() == 0 || is_whitespace(s[0]) {
        0
    } else {
        1 + word_len(s.drop_first())
    }
}

/// A word fits in the text, and a text that starts with a word character starts a word.
pub proof fn lemma_word_len_bound(s: Seq<char>)
    ensures
        word_len(s) <= s.len(),
        s.len() > 0 && !is_whitespace(s[0]) ==> word_len(s) >= 1,
    decreases s.len(),
{
    if s.len() > 0 && !is_whitespace(s[0]) {
        lemma_word_len_bound(s.drop_first());
    }
}

/// The words of `s`: its maximal runs of characters that are not white space, in order.
pub open spec fn ws_tokens(s: Seq<char>) -> Seq<Seq<char>>
    decreases s.len(),
{
    if s.len() == 0 {
        Seq::empty()
    } else if is_whitespace(s[0]) {
        ws_tokens(s.drop_first())
    } else {
        proof {
            lemma_word_len_bound(s);
        }
        seq![s.take(word_len(s) as int)] + ws_tokens(s.skip(word_len(s) as int))
    }
}

/// The views of a sequence of character vectors.
pub open spec fn views(v: Seq<Vec<char>>) -> Seq<Seq<char>> {
    v.map_values(|t: Vec<char>| t@)
}

proof fn lemma_word_len_at(s: Seq<char>, i: int, j: int)
    requires
        0 <= i <= j <= s.len(),
        forall|k: int| i <= k < j ==> !is_whitespace(s[k]),
        j == s.len() || is_whitespace(s[j]),
    ensures
        word_len(s.skip(i)) == j - i,
    decreases j - i,
{
    if i < j {
        lemma_word_len_at(s, i + 1, j);
        assert(s.skip(i).drop_first() =~= s.skip(i + 1));
    }
}

/// The words of `s`, as `str::split_whitespace` yields them.
pub fn split_whitespace(s: &Vec<char>) -> (toks: Vec<Vec<char>>)
    ensures
        views(toks@) == ws_tokens(s@),
{
    let n = s.len();
    let mut out: Vec<Vec<char>> = Vec::new();
    let mut i: usize = 0;
    assert(s@.skip(0) =~= s@);
    while i < n
        invariant
            n == s.len(),
            i <= n,
            views(out@) + ws_tokens(s@.skip(i as int)) == ws_tokens(s@),
        decreases n - i,
    {
        if is_space(s[i]) {
            assert(s@.skip(i as int).drop_first() =~= s@.skip(i + 1));
            i += 1;
        } else {
            let mut j = i;
            let mut tok: Vec<char> = Vec::new();
            while j < n && !is_space(s[j])
                invariant
                    n == s.len(),
                    i <= j <= n,
                    tok@ == s@.subrange(i as int, j as int),
                    forall|k: int| i <= k < j ==> !is_whitespace(s@[k]),
                decreases n - j,
            {
                tok.push(s[j]);
                j += 1;
            }
            proof {
                lemma_word_len_at(s@, i as int, j as int);
                let rest = s@.skip(i as int);
                assert(rest.take(j - i) =~= tok@);
                assert(rest.skip(j - i) =~= s@.skip(j as int));
                assert(ws_tokens(rest) == seq![tok@] + ws_tokens(s@.skip(j as int)));
                assert(views(out@.push(tok)) =~= views(out@).push(tok@));
                assert(views(out@).push(tok@) + ws_tokens(s@.skip(j as int)) =~= views(out@) + (
                seq![tok@] + ws_tokens(s@.skip(j as int))));
            }
            out.push(tok);
            i = j;
        }
    }
    assert(views(out@) + ws_tokens(s@.skip(n as int)) =~= views(out@));
    out
}

/// How many characters at the front of `s` differ from `sep`.
pub open spec fn piece_len(s: Seq<char>, sep: char) -> nat
    decreases s.len(),
{
    if s.len() == 0 || s[0] == sep {
        0
    } else {
        1 + piece_len(s.drop_first(), sep)
    }
}

/// A piece fits in the text, holds no separator, and ends at one unless it ends the text.
pub proof fn lemma_piece_len_bound(s: Seq<char>, sep: char)
    ensures
        piece_len(s, sep) <= s.len(),
        piece_len(s, sep) < s.len() ==> s[piece_len(s, sep) as int] == sep,
        forall|k: int| 0 <= k < piece_len(s, sep) ==> s[k] != sep,
    decreases s.len(),
{
    if s.len() > 0 && s[0] != sep {
        lemma_piece_len_bound(s.drop_first(), sep);
        assert forall|k: int| 0 <= k < piece_len(s, sep) implies s[k] != sep by {
            if k > 0 {
                assert(s[k] == s.drop_first()[k - 1]);
            }
        }
    }
}

/// The pieces of `s` between occurrences of `sep`, empty ones included, as
/// `str::split` with a character yields them.
pub open spec fn split_on(s: Seq<char>, sep: char) -> Seq<Seq<char>>
    decreases s.len(),
{
    proof {
        lemma_piece_len_bound(s, sep);
    }
    if piece_len(s, sep) == s.len() {
        seq![s]
    } else {
        seq![s.take(piece_len(s, sep) as int)] + split_on(s.skip(piece_len(s, sep) + 1int), sep)
    }
}

/// A line without the carriage return that ended it.
pub open spec fn strip_cr(t: Seq<char>) -> Seq<char> {
    if t.len() > 0 && t.last() == '\r' {
        t.drop_last()
    } else {
        t
    }
}

/// The lines of `s`, as `str::lines` yields them: split at each `'\n'`, with a `'\r'`
/// right before it dropped, and no line after a final `'\n'`.
pub open spec fn lines_of(s: Seq<char>) -> Seq<Seq<char>>
    decreases s.len(),
{
    proof {
        lemma_piece_len_bound(s, '\n');
    }
    if s.len() == 0 {
        Seq::empty()
    } else if piece_len(s, '\n') == s.len() {
        seq![s]
    } else {
        seq![strip_cr(s.take(piece_len(s, '\n') as int))] + lines_of(
            s.skip(piece_len(s, '\n') + 1int),
        )
    }
}

proof fn lemma_piece_len_at(s: Seq<char>, sep: char, i: int, j: int)
    requires
        0 <= i <= j <= s.len(),
        forall|k: int| i <= k < j ==> s[k] != sep,
        j == s.len() || s[j] == sep,
    ensures
        piece_len(s.skip(i), sep) == j - i,
    decreases j - i,
{
    if i < j {
        lemma_piece_len_at(s, sep, i + 1, j);
        assert(s.skip(i).drop_first() =~= s.skip(i + 1));
    }
}

/// The piece of `s` that starts at `i` and runs up to the next `sep` or the end.
fn piece_from(s: &Vec<char>, sep: char, i: usize) -> (r: (Vec<char>, usize))
    requires
        i <= s.len(),
    ensures
        i <= r.1 <= s.len(),
        r.0@ == s@.subrange(i as int, r.1 as int),
        piece_len(s@.skip(i as int), sep) == r.1 - i,
{
    let n = s.len();
    let mut j = i;
    let mut tok: Vec<char> = Vec::new();
    while j < n && s[j] != sep
        invariant
            n == s.len(),
            i <= j <= n,
            tok@ == s@.subrange(i as int, j as int),
            forall|k: int| i <= k < j ==> s@[k] != sep,
        decreases n - j,
    {
        tok.push(s[j]);
        j += 1;
    }
    proof {
        lemma_piece_len_at(s@, sep, i as int, j as int);
    }
    (tok, j)
}

/// The pieces of `s` between occurrences of `sep`.
pub fn split_at_char(s: &Vec<char>, sep: char) -> (pieces: Vec<Vec<char>>)
    ensures
        views(pieces@) == split_on(s@, sep),
{
    let n = s.len();
    let mut out: Vec<Vec<char>> = Vec::new();
    let mut i: usize = 0;
    assert(s@.skip(0) =~= s@);
    loop
        invariant
            n == s.len(),
            i <= n,
            views(out@) + split_on(s@.skip(i as int), sep) == split_on(s@, sep),
        decreases n - i,
    {
        let (tok, j) = piece_from(s, sep, i);
        let ghost rest = s@.skip(i as int);
        proof {
            assert(rest.take(j - i) =~= tok@);
            assert(views(out@.push(tok)) =~= views(out@).push(tok@));
        }
        if j == n {
            assert(rest =~= tok@);
            assert(views(out@.push(tok)) =~= views(out@) + split_on(rest, sep));
            out.push(tok);
            return out;
        }
        proof {
            assert(rest.skip(j - i + 1) =~= s@.skip(j + 1));
            assert(views(out@).push(tok@) + split_on(s@.skip(j + 1), sep) =~= views(out@) + (
            seq![tok@] + split_on(s@.skip(j + 1), sep)));
        }
        out.push(tok);
        i = j + 1;
    }
}

/// The lines of `s`.
pub fn lines(s: &Vec<char>) -> (ls: Vec<Vec<char>>)
    ensures
        views(ls@) == lines_of(s@),
{
    let n = s.len();
    let mut out: Vec<Vec<char>> = Vec::new();
    let mut i: usize = 0;
    assert(s@.skip(0) =~= s@);
    while i < n
        invariant
            n == s.len(),
            i <= n,
            views(out@) + lines_of(s@.skip(i as int)) == lines_of(s@),
        decreases n - i,
    {
        let (tok, j) = piece_from(s, '\n', i);
        let ghost rest = s@.skip(i as int);
        proof {
            assert(rest.take(j - i) =~= tok@);
        }
        if j == n {
            assert(rest =~= tok@);
            assert(views(out@.push(tok)) =~= views(out@) + lines_of(rest));
            out.push(tok);
            return out;
        }
        let mut line = tok;
        let len = line.len();
        if len > 0 && line[len - 1] == '\r' {
            line.pop();
        }
        proof {
            assert(line@ == strip_cr(rest.take(j - i)));
            assert(rest.skip(j - i + 1) =~= s@.skip(j + 1));
            assert(views(out@.push(line)) =~= views(out@).push(line@));
            assert(views(out@).push(line@) + lines_of(s@.skip(j + 1)) =~= views(out@) + (
            seq![line@] + lines_of(s@.skip(j + 1))));
        }
        out.push(line);
        i = j + 1;
    }
    assert(views(out@) + lines_of(s@.skip(n as int)) =~= views(out@));
    out
}

/// A decimal digit.
pub open spec fn is_digit(c: char) -> bool {
    '0' <= c <= '9'
}

/// The value of the decimal digit `c`.
pub open spec fn digit_value(c: char) -> nat {
    (c as u32 - '0' as u32) as nat
}

/// The number written by the decimal digits `s` (zero for no digits).
pub open spec fn decimal_value(s: Seq<char>) -> nat
    decreases s.len(),
{
    if s.len() == 0 {
        0
    } else {
        decimal_value(s.drop_last()) * 10 + digit_value(s.last())
    }
}

/// Every character of `s` is a decimal digit.
pub open spec fn all_digits(s: Seq<char>) -> bool {
    forall|k: int| 0 <= k < s.len() ==> is_digit(s[k])
}

/// The digits of an unsigned number: the text without one leading `'+'`.
pub open spec fn unsigned_digits(t: Seq<char>) -> Seq<char> {
    if t.len() > 0 && t[0] == '+' {
        t.drop_first()
    } else {
        t
    }
}

/// What `str::parse` gives for an unsigned integer type whose largest value is `max`:
/// an optional `'+'`, then one or more decimal digits, for a value of at most `max`.
pub open spec fn parse_unsigned(t: Seq<char>, max: nat) -> Option<nat> {
    let d = unsigned_digits(t);
    if d.len() > 0 && all_digits(d) && decimal_value(d) <= max {
        Some(decimal_value(d))
    } else {
        None
    }
}

proof fn lemma_decimal_prefix_le(s: Seq<char>, k: int)
    requires
        0 <= k <= s.len(),
    ensures
        decimal_value(s.take(k)) <= decimal_value(s),
    decreases s.len() - k,
{
    if k < s.len() {
        lemma_decimal_prefix_le(s, k + 1);
        assert(s.take(k + 1).drop_last() =~= s.take(k));
    } else {
        assert(s.take(k) =~= s);
    }
}

/// Reads the unsigned number `t` (an optional `'+'` and decimal digits) if its value is
/// at most `max`.
pub fn parse_number(t: &Vec<char>, max: u64) -> (r: Option<u64>)
    ensures
        r == match parse_unsigned(t@, max as nat) {
            Some(v) => Some(v as u64),
            None => None::<u64>,
        },
{
    let n = t.len();
    let start: usize = if n > 0 && t[0] == '+' {
        1
    } else {
        0
    };
    let ghost d = unsigned_digits(t@);
    assert(d =~= t@.skip(start as int));
    if start == n {
        return None;
    }
    let mut value: u128 = 0;
    let mut i = start;
    while i < n
        invariant
            n == t.len(),
            start <= i <= n,
            d == t@.skip(start as int),
            d == unsigned_digits(t@),
            value == decimal_value(d.take(i - start)),
            value <= max,
            all_digits(d.take(i - start)),
        decreases n - i,
    {
        let c = t[i];
        if !('0' <= c && c <= '9') {
            assert(d[i - start] == c);
            assert(!is_digit(d[i - start]));

            return None;
        }
        let ghost k = i - start;
        assert(d.take(k + 1).drop_last() =~= d.take(k));
        value = value * 10 + (c as u32 - '0' as u32) as u128;
        i += 1;
        assert(value == decimal_value(d.take(k + 1)));
        if value > max as u128 {
            proof {
                if all_digits(d) {
                    lemma_decimal_prefix_le(d, k + 1);
                }
            }
            return None;
        }
    }
    assert(d.take(n - start) =~= d);
    Some(value as u64)
}

/// The character of the decimal digit `d`.
pub open spec fn digit_char(d: nat) -> char {
    if d == 0 {
        '0'
    } else if d == 1 {
        '1'
    } else if d == 2 {
        '2'
    } else if d == 3 {
        '3'
    } else if d == 4 {
        '4'
    } else if d == 5 {
        '5'
    } else if d == 6 {
        '6'
    } else if d == 7 {
        '7'
    } else if d == 8 {
        '8'
    } else {
        '9'
    }
}

/// The decimal digits of `n`, as `Display` writes an unsigned integer.
pub open spec fn decimal(n: nat) -> Seq<char>
    decreases n,
{
    if n < 10 {
        seq![digit_char(n)]
    } else {
        decimal(n / 10).push(digit_char(n % 10))
    }
}

fn char_of_digit(d: u64) -> (c: char)
    requires
        d < 10,
    ensures
        c == digit_char(d as nat),
{
    if d == 0 {
        '0'
    } else if d == 1 {
        '1'
    } else if d == 2 {
        '2'
    } else if d == 3 {
        '3'
    } else if d == 4 {
        '4'
    } else if d == 5 {
        '5'
    } else if d == 6 {
        '6'
    } else if d == 7 {
        '7'
    } else if d == 8 {
        '8'
    } else {
        '9'
    }
}

/// Appends `c` to `s` with `String::push`; the contract claims what that method documents,
/// that the text afterwards is the text before with `c` at its end.
#[verifier::external_body]
fn push_char(s: &mut String, c: char)
    ensures
        final(s)@ == old(s)@.push(c),
{
    s.push(c);
}

/// Appends the characters of `text`.
pub fn push_chars(out: &mut String, text: &Vec<char>)
    ensures
        final(out)@ == old(out)@ + text@,
{
    let mut i: usize = 0;
    while i < text.len()
        invariant
            i <= text.len(),
            out@ == old(out)@ + text@.take(i as int),
        decreases text.len() - i,
    {
        assert(text@.take(i + 1) =~= text@.take(i as int).push(text@[i as int]));
        push_char(out, text[i]);
        i += 1;
    }
    assert(text@.take(text.len() as int) =~= text@);
}

/// Appends the text of `s`.
pub fn push_str(out: &mut String, s: &str)
    ensures
        final(out)@ == old(out)@ + s@,
{
    let v = chars_of(s);
    push_chars(out, &v);
}

/// Appends one character.
pub fn push_one(out: &mut String, c: char)
    ensures
        final(out)@ == old(out)@.push(c),
{
    push_char(out, c);
}

/// Appends the decimal digits of `n`.
pub fn push_decimal(out: &mut String, n: u64)
    ensures
        final(out)@ == old(out)@ + decimal(n as nat),
    decreases n,
{
    if n >= 10 {
        push_decimal(out, n / 10);
    }
    let ghost mid = out@;
    push_char(out, char_of_digit(n % 10));
    proof {
        if n >= 10 {
            assert(out@ =~= old(out)@ + decimal(n as nat));
        } else {
            assert(out@ =~= old(out)@ + decimal(n as nat));
        }
    }
}

/// A string holding the characters of `v`.
pub fn string_of(v: &Vec<char>) -> (s: String)
    ensures
        s@ == v@,
{
    let mut s = String::new();
    push_chars(&mut s, v);
    assert(Seq::<char>::empty() + v@ =~= v@);
    s
}

/// `a` comes before `b` in the order of `str`: character by character, a proper prefix first.
pub open spec fn lex_less(a: Seq<char>, b: Seq<char>) -> bool
    decreases a.len(),
{
    if a.len() == 0 {
        b.len() > 0
    } else if b.len() == 0 {
        false
    } else if a[0] != b[0] {
        a[0] < b[0]
    } else {
        lex_less(a.drop_first(), b.drop_first())
    }
}

/// No name comes before itself.
pub proof fn lemma_lex_irreflexive(a: Seq<char>)
    ensures
        !lex_less(a, a),
    decreases a.len(),
{
    if a.len() > 0 {
        lemma_lex_irreflexive(a.drop_first());
    }
}

/// Of two names, at most one comes before the other.
pub proof fn lemma_lex_asymmetric(a: Seq<char>, b: Seq<char>)
    ensures
        !(lex_less(a, b) && lex_less(b, a)),
    decreases a.len(),
{
    if a.len() > 0 && b.len() > 0 && a[0] == b[0] {
        lemma_lex_asymmetric(a.drop_first(), b.drop_first());
    }
}

/// Of two different names, one comes before the other.
pub proof fn lemma_lex_total(a: Seq<char>, b: Seq<char>)
    ensures
        a != b ==> lex_less(a, b) || lex_less(b, a),
    decreases a.len(),
{
    if a.len() > 0 && b.len() > 0 && a[0] == b[0] {
        lemma_lex_total(a.drop_first(), b.drop_first());
        if a.drop_first() == b.drop_first() {
            assert(a =~= seq![a[0]] + a.drop_first());
            assert(b =~= seq![b[0]] + b.drop_first());
        }
    } else if a.len() == 0 && b.len() == 0 {
        assert(a =~= b);
    }
}

/// The order of names is transitive.
pub proof fn lemma_lex_transitive(a: Seq<char>, b: Seq<char>, c: Seq<char>)
    requires
        lex_less(a, b),
        lex_less(b, c),
    ensures
        lex_less(a, c),
    decreases a.len(),
{
    if a.len() > 0 && b.len() > 0 && c.len() > 0 && a[0] == b[0] && b[0] == c[0] {
        lemma_lex_transitive(a.drop_first(), b.drop_first(), c.drop_first());
    }
}

/// Whether `a` comes before `b`, comparing their characters in order.
pub fn chars_less(a: &Vec<char>, b: &Vec<char>) -> (r: bool)
    ensures
        r == lex_less(a@, b@),
{
    let mut i: usize = 0;
    assert(a@.skip(0) =~= a@);
    assert(b@.skip(0) =~= b@);
    while i < a.len() && i < b.len() && a[i] == b[i]
        invariant
            i <= a.len(),
            i <= b.len(),
            lex_less(a@.skip(i as int), b@.skip(i as int)) == lex_less(a@, b@),
        decreases a.len() - i,
    {
        assert(a@.skip(i as int).drop_first() =~= a@.skip(i + 1));
        assert(b@.skip(i as int).drop_first() =~= b@.skip(i + 1));
        i += 1;
    }
    if i == a.len() {
        i < b.len()
    } else if i == b.len() {
        false
    } else {
        a[i] < b[i]
    }
}

/// Whether `a` and `b` hold the same characters.
pub fn chars_equal(a: &Vec<char>, b: &Vec<char>) -> (r: bool)
    ensures
        r == (a@ == b@),
{
    if a.len() != b.len() {
        return false;
    }
    let mut i: usize = 0;
    while i < a.len()
        invariant
            i <= a.len() == b.len(),
            a@.take(i as int) == b@.take(i as int),
        decreases a.len() - i,
    {
        if a[i] != b[i] {
            return false;
        }
        assert(a@.take(i + 1) =~= a@.take(i as int).push(a@[i as int]));
        assert(b@.take(i + 1) =~= b@.take(i as int).push(b@[i as int]));
        i += 1;
    }
    assert(a@.take(i as int) =~= a@);
    assert(b@.take(i as int) =~= b@);
    true
}

} // verus!
