//! The persisted snapshot format of a [`Library`](crate::Library).
//!
//! One file holds one library as a single JSON document:
//!
//! `{"id_counter":N,"books":{"ID":{"id":ID,"title":"TITLE"},...}}`
//!
//! Keys of the `books` object are the decimal form of each book id and must
//! equal the `id` field of their entry.  The writer emits the entries in
//! ascending id order with no whitespace; the reader accepts whitespace
//! between tokens and entries in any order.  Inside a title, `"` and `\`
//! are escaped with a backslash, and control characters are written as
//! `\u00XX`; the reader also accepts the short escapes `\b \f \n \r \t \/`.
//! Characters beyond the control range appear literally (the file is UTF-8
//! text), so `\uXXXX` is only accepted for the control range.

use vstd::prelude::*;

use crate::Book;
use crate::BookId;
use crate::BookView;

verus! {

// ---------------------------------------------------------------------
// Character classes
// ---------------------------------------------------------------------
/// The JSON whitespace characters.
pub open spec fn is_ws_char(c: char) -> bool {
    c == ' ' || c == '\t' || c == '\n' || c == '\r'
}

/// A decimal digit.
pub open spec fn is_digit_char(c: char) -> bool {
    '0' <= c && c <= '9'
}

/// The value of a decimal digit.
pub open spec fn digit_val(c: char) -> nat {
    if c == '0' {
        0
    } else if c == '1' {
        1
    } else if c == '2' {
        2
    } else if c == '3' {
        3
    } else if c == '4' {
        4
    } else if c == '5' {
        5
    } else if c == '6' {
        6
    } else if c == '7' {
        7
    } else if c == '8' {
        8
    } else {
        9
    }
}

/// The digit for a value below ten.
pub open spec fn digit_char(d: nat) -> char {
    if d == 0 {
        '0'
    } else if d == 1 {
        '1'
    } else if d == 2 {
        '2'
    } else if d == 3 {
        '3'
    } else if d == 4 {
        '4'
    } else if d == 5 {
        '5'
    } else if d == 6 {
        '6'
    } else if d == 7 {
        '7'
    } else if d == 8 {
        '8'
    } else {
        '9'
    }
}

/// A hexadecimal digit, lower case letters included.
pub open spec fn is_hex_char(c: char) -> bool {
    is_digit_char(c) || ('a' <= c && c <= 'f')
}

/// The value of a hexadecimal digit.
pub open spec fn hex_val(c: char) -> nat {
    if is_digit_char(c) {
        digit_val(c)
    } else if c == 'a' {
        10
    } else if c == 'b' {
        11
    } else if c == 'c' {
        12
    } else if c == 'd' {
        13
    } else if c == 'e' {
        14
    } else {
        15
    }
}

/// The lower-case hexadecimal digit for a value below sixteen.
pub open spec fn hex_char(d: nat) -> char {
    if d < 10 {
        digit_char(d)
    } else if d == 10 {
        'a'
    } else if d == 11 {
        'b'
    } else if d == 12 {
        'c'
    } else if d == 13 {
        'd'
    } else if d == 14 {
        'e'
    } else {
        'f'
    }
}

// ---------------------------------------------------------------------
// What the writer emits
// ---------------------------------------------------------------------
/// The decimal digits of `n`, most significant first, no sign, no leading
/// zero (except for `0` itself).
pub open spec fn spec_dec(n: nat) -> Seq<char>
    decreases n,
{
    if n < 10 {
        seq![digit_char(n)]
    } else {
        spec_dec(n / 10).push(digit_char(n % 10))
    }
}

/// The number a sequence of decimal digits denotes.
pub open spec fn val_of_digits(ds: Seq<char>) -> nat
    decreases ds.len(),
{
    if ds.len() == 0 {
        0
    } else {
        val_of_digits(ds.drop_last()) * 10 + digit_val(ds.last())
    }
}

/// How one title character is written: `"` and `\` get a backslash, a
/// control character becomes `\u00XX`, anything else stands as itself.
pub open spec fn esc_char(c: char) -> Seq<char> {
    if c == '"' {
        seq!['\\', '"']
    } else if c == '\\' {
        seq!['\\', '\\']
    } else if (c as u32) < 0x20 {
        seq![
            '\\',
            'u',
            '0',
            '0',
            hex_char(((c as u32) / 16) as nat),
            hex_char(((c as u32) % 16) as nat),
        ]
    } else {
        seq![c]
    }
}

/// How a whole title is written between its quotes.
pub open spec fn esc(t: Seq<char>) -> Seq<char>
    decreases t.len(),
{
    if t.len() == 0 {
        Seq::empty()
    } else {
        esc_char(t[0]) + esc(t.drop_first())
    }
}

/// One entry of the `books` object: the decimal id as the key, then the
/// book object with its `id` and `title` fields.
pub open spec fn spec_entry(b: BookView) -> Seq<char> {
    seq!['"'] + spec_dec(b.id as nat) + seq!['"', ':', '{', '"', 'i', 'd', '"', ':'] + spec_dec(
        b.id as nat,
    ) + seq![',', '"', 't', 'i', 't', 'l', 'e', '"', ':', '"'] + esc(b.title) + seq!['"', '}']
}

/// The entries after the first, each preceded by a comma.
pub open spec fn spec_entries_sep(s: Seq<BookView>) -> Seq<char>
    decreases s.len(),
{
    if s.len() == 0 {
        Seq::empty()
    } else {
        seq![','] + spec_entry(s[0]) + spec_entries_sep(s.drop_first())
    }
}

/// The comma-separated list of entries of the `books` object.
pub open spec fn spec_entries(s: Seq<BookView>) -> Seq<char> {
    if s.len() == 0 {
        Seq::empty()
    } else {
        spec_entry(s[0]) + spec_entries_sep(s.drop_first())
    }
}

/// The whole document for a counter and a list of entries.
pub open spec fn spec_doc(id_counter: BookId, s: Seq<BookView>) -> Seq<char> {
    seq!['{', '"', 'i', 'd', '_', 'c', 'o', 'u', 'n', 't', 'e', 'r', '"', ':'] + spec_dec(
        id_counter as nat,
    ) + seq![',', '"', 'b', 'o', 'o', 'k', 's', '"', ':', '{'] + spec_entries(s) + seq!['}', '}']
}

// ---------------------------------------------------------------------
// The parser, as specification
// ---------------------------------------------------------------------
/// The first position at or after `i` holding no whitespace.
pub open spec fn skip_ws(s: Seq<char>, i: int) -> int
    decreases s.len() - i,
{
    if 0 <= i < s.len() && is_ws_char(s[i]) {
        skip_ws(s, i + 1)
    } else {
        i
    }
}

/// Consume one expected character, whitespace before it allowed.
pub open spec fn parse_char(s: Seq<char>, i: int, c: char) -> Option<int> {
    let j = skip_ws(s, i);
    if j < s.len() && s[j] == c {
        Some(j + 1)
    } else {
        None
    }
}

/// The position right after the run of digits starting at `i`.
pub open spec fn digits_end(s: Seq<char>, i: int) -> int
    decreases s.len() - i,
{
    if 0 <= i < s.len() && is_digit_char(s[i]) {
        digits_end(s, i + 1)
    } else {
        i
    }
}

/// Consume an unsigned decimal number that fits in a `usize`.
pub open spec fn parse_number(s: Seq<char>, i: int) -> Option<(nat, int)> {
    let j = skip_ws(s, i);
    if j < s.len() && is_digit_char(s[j]) {
        let e = digits_end(s, j);
        let v = val_of_digits(s.subrange(j, e));
        if v <= usize::MAX as nat {
            Some((v, e))
        } else {
            None
        }
    } else {
        None
    }
}

/// Consume the body of a quoted string, from right after the opening
/// quote through the closing quote.  A raw control character is refused;
/// a backslash introduces one of the short escapes or `\u00XX`.
pub open spec fn parse_str_body(s: Seq<char>, i: int) -> Option<(Seq<char>, int)>
    decreases s.len() - i,
{
    if i < 0 || i >= s.len() {
        None
    } else if s[i] == '"' {
        Some((Seq::empty(), i + 1))
    } else if s[i] == '\\' {
        if i + 1 >= s.len() {
            None
        } else if s[i + 1] == 'u' {
            if i + 5 >= s.len() {
                None
            } else if s[i + 2] == '0' && s[i + 3] == '0' && is_hex_char(s[i + 4]) && is_hex_char(
                s[i + 5],
            ) && hex_val(s[i + 4]) * 16 + hex_val(s[i + 5]) < 0x20 {
                let c = ((hex_val(s[i + 4]) * 16 + hex_val(s[i + 5])) as u32) as char;
                match parse_str_body(s, i + 6) {
                    Some((t, e)) => Some((seq![c] + t, e)),
                    None => None,
                }
            } else {
                None
            }
        } else if s[i + 1] == '"' || s[i + 1] == '\\' || s[i + 1] == '/' || s[i + 1] == 'b' || s[i
            + 1] == 'f' || s[i + 1] == 'n' || s[i + 1] == 'r' || s[i + 1] == 't' {
            let c = unescaped(s[i + 1]);
            match parse_str_body(s, i + 2) {
                Some((t, e)) => Some((seq![c] + t, e)),
                None => None,
            }
        } else {
            None
        }
    } else if (s[i] as u32) < 0x20 {
        None
    } else {
        match parse_str_body(s, i + 1) {
            Some((t, e)) => Some((seq![s[i]] + t, e)),
            None => None,
        }
    }
}

/// The character a short escape stands for.
pub open spec fn unescaped(c: char) -> char {
    if c == 'b' {
        '\u{8}'
    } else if c == 'f' {
        '\u{c}'
    } else if c == 'n' {
        '\n'
    } else if c == 'r' {
        '\r'
    } else if c == 't' {
        '\t'
    } else {
        c
    }
}

/// Consume a quoted string, whitespace before it allowed.
pub open spec fn parse_string(s: Seq<char>, i: int) -> Option<(Seq<char>, int)> {
    let j = skip_ws(s, i);
    if j < s.len() && s[j] == '"' {
        parse_str_body(s, j + 1)
    } else {
        None
    }
}

/// Is every character of `ds` a decimal digit?
pub open spec fn all_digits(ds: Seq<char>) -> bool {
    forall|k: int| 0 <= k < ds.len() ==> is_digit_char(ds[k])
}

/// Consume one entry of the `books` object: a decimal key, then a book
/// object whose `id` field equals the key and whose `title` field is a
/// string; the two fields come in that order.
pub open spec fn parse_entry(s: Seq<char>, i: int) -> Option<(BookView, int)> {
    match parse_string(s, i) {
        None => None,
        Some((key, j1)) => match parse_char(s, j1, ':') {
            None => None,
            Some(j2) => match parse_char(s, j2, '{') {
                None => None,
                Some(j3) => match parse_string(s, j3) {
                    None => None,
                    Some((k1, j4)) => if k1 != seq!['i', 'd'] {
                        None
                    } else {
                        match parse_char(s, j4, ':') {
                            None => None,
                            Some(j5) => match parse_number(s, j5) {
                                None => None,
                                Some((idv, j6)) => if !(key.len() > 0 && all_digits(key)
                                    && val_of_digits(key) == idv) {
                                    None
                                } else {
                                    match parse_char(s, j6, ',') {
                                        None => None,
                                        Some(j7) => match parse_string(s, j7) {
                                            None => None,
                                            Some((k2, j8)) => if k2 != seq![
                                                't',
                                                'i',
                                                't',
                                                'l',
                                                'e',
                                            ] {
                                                None
                                            } else {
                                                match parse_char(s, j8, ':') {
                                                    None => None,
                                                    Some(j9) => match parse_string(s, j9) {
                                                        None => None,
                                                        Some((t, j10)) => match parse_char(
                                                            s,
                                                            j10,
                                                            '}',
                                                        ) {
                                                            None => None,
                                                            Some(j11) => Some(
                                                                (
                                                                    BookView {
                                                                        id: idv as BookId,
                                                                        title: t,
                                                                    },
                                                                    j11,
                                                                ),
                                                            ),
                                                        },
                                                    },
                                                }
                                            },
                                        },
                                    }
                                },
                            },
                        }
                    },
                },
            },
        },
    }
}

/// Consume the entries after the first, each preceded by a comma, through
/// the closing brace of the `books` object.  (An entry that would not move
/// the position forward is refused; no entry ever behaves so.)
pub open spec fn parse_entries_tail(s: Seq<char>, i: int) -> Option<(Seq<BookView>, int)>
    decreases s.len() - i,
{
    let j = skip_ws(s, i);
    if j < s.len() && s[j] == '}' {
        Some((Seq::empty(), j + 1))
    } else if j < s.len() && s[j] == ',' {
        match parse_entry(s, j + 1) {
            None => None,
            Some((b, e)) => if i < e <= s.len() {
                match parse_entries_tail(s, e) {
                    None => None,
                    Some((bs, e2)) => Some((seq![b] + bs, e2)),
                }
            } else {
                None
            },
        }
    } else {
        None
    }
}

/// Consume the inside of the `books` object, from right after its opening
/// brace through its closing brace.
pub open spec fn parse_entries(s: Seq<char>, i: int) -> Option<(Seq<BookView>, int)> {
    let j = skip_ws(s, i);
    if j < s.len() && s[j] == '}' {
        Some((Seq::empty(), j + 1))
    } else {
        match parse_entry(s, i) {
            None => None,
            Some((b, e)) => if i < e <= s.len() {
                match parse_entries_tail(s, e) {
                    None => None,
                    Some((bs, e2)) => Some((seq![b] + bs, e2)),
                }
            } else {
                None
            },
        }
    }
}

/// Consume a whole document: the `id_counter` field, then the `books`
/// object, in that order.
pub open spec fn parse_doc(s: Seq<char>) -> Option<(BookId, Seq<BookView>, int)> {
    match parse_char(s, 0, '{') {
        None => None,
        Some(j1) => match parse_string(s, j1) {
            None => None,
            Some((k1, j2)) => if k1 != seq!['i', 'd', '_', 'c', 'o', 'u', 'n', 't', 'e', 'r'] {
                None
            } else {
                match parse_char(s, j2, ':') {
                    None => None,
                    Some(j3) => match parse_number(s, j3) {
                        None => None,
                        Some((c, j4)) => match parse_char(s, j4, ',') {
                            None => None,
                            Some(j5) => match parse_string(s, j5) {
                                None => None,
                                Some((k2, j6)) => if k2 != seq!['b', 'o', 'o', 'k', 's'] {
                                    None
                                } else {
                                    match parse_char(s, j6, ':') {
                                        None => None,
                                        Some(j7) => match parse_char(s, j7, '{') {
                                            None => None,
                                            Some(j8) => match parse_entries(s, j8) {
                                                None => None,
                                                Some((bs, j9)) => match parse_char(s, j9, '}') {
                                                    None => None,
                                                    Some(j10) => Some((c as BookId, bs, j10)),
                                                },
                                            },
                                        },
                                    }
                                },
                            },
                        },
                    },
                }
            },
        },
    }
}

/// Do the entries describe a library the counter could have issued:
/// pairwise distinct ids, each below the counter?
pub open spec fn valid_entries(s: Seq<BookView>, id_counter: BookId) -> bool {
    &&& crate::entries_distinct(s)
    &&& forall|k: int| 0 <= k < s.len() ==> (#[trigger] s[k]).id < id_counter
}

/// What loading a document yields: the parsed snapshot, provided the
/// document parses, only whitespace follows it, and its entries are ones
/// the counter could have issued.
pub open spec fn spec_load(s: Seq<char>) -> Option<crate::LibraryView> {
    match parse_doc(s) {
        None => None,
        Some((c, bs, end)) => if skip_ws(s, end) == s.len() && valid_entries(bs, c) {
            Some(crate::LibraryView { id_counter: c, books: crate::map_of_entries(bs) })
        } else {
            None
        },
    }
}

// ---------------------------------------------------------------------
// The writer's output parses back: supporting lemmas
// ---------------------------------------------------------------------
/// Decimal digits are at least one, and digits throughout.
pub proof fn lemma_spec_dec_digits(n: nat)
    ensures
        spec_dec(n).len() >= 1,
        all_digits(spec_dec(n)),
    decreases n,
{
    if n >= 10 {
        lemma_spec_dec_digits(n / 10);
        assert forall|k: int| 0 <= k < spec_dec(n).len() implies is_digit_char(
            spec_dec(n)[k],
        ) by {
            if k < spec_dec(n).len() - 1 {
                assert(spec_dec(n)[k] == spec_dec(n / 10)[k]);
            }
        }
    }
}

/// Reading the digits of `n` gives `n` back.
pub proof fn lemma_val_dec(n: nat)
    ensures
        val_of_digits(spec_dec(n)) == n,
    decreases n,
{
    if n < 10 {
        assert(seq![digit_char(n)].drop_last() =~= Seq::<char>::empty());
        assert(val_of_digits(Seq::<char>::empty()) == 0);
        assert(seq![digit_char(n)].last() == digit_char(n));
        assert(val_of_digits(seq![digit_char(n)]) == val_of_digits(
            seq![digit_char(n)].drop_last(),
        ) * 10 + digit_val(seq![digit_char(n)].last()));
        assert(val_of_digits(seq![digit_char(n)]) == digit_val(digit_char(n)));
    } else {
        lemma_val_dec(n / 10);
        lemma_spec_dec_digits(n / 10);
        assert(spec_dec(n).drop_last() =~= spec_dec(n / 10));
        assert(spec_dec(n).last() == digit_char(n % 10));
        assert(spec_dec(n).len() > 0);
        assert(val_of_digits(spec_dec(n)) == val_of_digits(spec_dec(n / 10)) * 10 + digit_val(
            digit_char(n % 10),
        ));
        assert(digit_val(digit_char(n % 10)) == n % 10);
    }
}

/// Skipping whitespace at a non-whitespace position stays put.
pub proof fn lemma_skip_ws_at(s: Seq<char>, i: int)
    requires
        0 <= i <= s.len(),
        i == s.len() || !is_ws_char(s[i]),
    ensures
        skip_ws(s, i) == i,
{
}

/// A run of digits ends exactly where the digits stop.
pub proof fn lemma_digits_end_run(s: Seq<char>, i: int, e: int)
    requires
        0 <= i <= e <= s.len(),
        forall|k: int| i <= k < e ==> is_digit_char(#[trigger] s[k]),
        e == s.len() || !is_digit_char(s[e]),
    ensures
        digits_end(s, i) == e,
    decreases e - i,
{
    if i < e {
        lemma_digits_end_run(s, i + 1, e);
    }
}

/// Where the text holds the digits of `n` with no digit following, the
/// number parser reads exactly `n` and stops after those digits.
pub proof fn lemma_parse_number_at(s: Seq<char>, i: int, n: nat)
    requires
        0 <= i,
        i + spec_dec(n).len() <= s.len(),
        s.subrange(i, i + spec_dec(n).len() as int) == spec_dec(n),
        i + spec_dec(n).len() == s.len() || !is_digit_char(s[i + spec_dec(n).len()]),
        n <= usize::MAX as nat,
    ensures
        parse_number(s, i) == Some((n, i + spec_dec(n).len())),
{
    let l = spec_dec(n).len() as int;
    lemma_spec_dec_digits(n);
    assert forall|k: int| i <= k < i + l implies is_digit_char(#[trigger] s[k]) by {
        assert(s[k] == s.subrange(i, i + l)[k - i]);
    }
    assert(s[i] == spec_dec(n)[0]);
    assert(is_digit_char(s[i]));
    assert(!is_ws_char(s[i]));
    lemma_skip_ws_at(s, i);
    lemma_digits_end_run(s, i, i + l);
    lemma_val_dec(n);
}

/// Escaping distributes over concatenation.
pub proof fn lemma_esc_concat(a: Seq<char>, b: Seq<char>)
    ensures
        esc(a + b) == esc(a) + esc(b),
    decreases a.len(),
{
    if a.len() == 0 {
        assert(a + b =~= b);
        assert(esc(a) + esc(b) =~= esc(b));
    } else {
        assert((a + b).drop_first() =~= a.drop_first() + b);
        lemma_esc_concat(a.drop_first(), b);
        assert((a + b)[0] == a[0]);
        assert(esc_char(a[0]) + (esc(a.drop_first()) + esc(b)) =~= (esc_char(a[0]) + esc(
            a.drop_first(),
        )) + esc(b));
    }
}

/// A text with no quote, no backslash and no control character escapes to
/// itself.
pub proof fn lemma_esc_plain(t: Seq<char>)
    requires
        forall|k: int|
            0 <= k < t.len() ==> (#[trigger] t[k]) != '"' && t[k] != '\\' && (t[k] as u32) >= 0x20,
    ensures
        esc(t) == t,
    decreases t.len(),
{
    if t.len() > 0 {
        assert forall|k: int|
            0 <= k < t.drop_first().len() implies (#[trigger] t.drop_first()[k]) != '"'
            && t.drop_first()[k] != '\\' && (t.drop_first()[k] as u32) >= 0x20 by {
            assert(t.drop_first()[k] == t[k + 1]);
        }
        lemma_esc_plain(t.drop_first());
        assert(esc_char(t[0]) =~= seq![t[0]]);
        assert(esc(t) =~= t);
    }
}

/// Digits are plain text: they escape to themselves.
pub proof fn lemma_esc_digits(t: Seq<char>)
    requires
        all_digits(t),
    ensures
        esc(t) == t,
{
    lemma_esc_plain(t);
}

/// Where the text holds `x + y`, it holds `x` and then `y`.
pub proof fn lemma_split_at(s: Seq<char>, i: int, x: Seq<char>, y: Seq<char>)
    requires
        0 <= i,
        i + x.len() + y.len() <= s.len(),
        s.subrange(i, i + x.len() + y.len()) == x + y,
    ensures
        s.subrange(i, i + x.len() as int) == x,
        s.subrange(i + x.len() as int, i + x.len() + y.len()) == y,
{
    let w = s.subrange(i, i + x.len() + y.len());
    assert forall|k: int| 0 <= k < x.len() implies s.subrange(i, i + x.len() as int)[k]
        == x[k] by {
        assert(w[k] == (x + y)[k]);
    }
    assert(s.subrange(i, i + x.len() as int) =~= x);
    assert forall|k: int| 0 <= k < y.len() implies s.subrange(
        i + x.len() as int,
        i + x.len() + y.len(),
    )[k] == y[k] by {
        assert(w[x.len() + k] == (x + y)[x.len() + k]);
    }
    assert(s.subrange(i + x.len() as int, i + x.len() + y.len()) =~= y);
}

/// A hexadecimal digit reads back as its value.
pub proof fn lemma_hex_roundtrip(x: nat)
    requires
        x < 16,
    ensures
        is_hex_char(hex_char(x)),
        hex_val(hex_char(x)) == x,
{
}

/// Where the text is the expected character, the one-character parser
/// consumes exactly it.
pub proof fn lemma_parse_char_at(s: Seq<char>, i: int, c: char)
    requires
        0 <= i < s.len(),
        s[i] == c,
        !is_ws_char(c),
    ensures
        parse_char(s, i, c) == Some(i + 1),
{
    lemma_skip_ws_at(s, i);
}

/// Where the text holds the escaped form of `t` and then a quote, the
/// string-body parser reads back exactly `t` and stops after the quote.
pub proof fn lemma_parse_str_body_at(s: Seq<char>, i: int, t: Seq<char>)
    requires
        0 <= i,
        i + esc(t).len() < s.len(),
        s.subrange(i, i + esc(t).len() as int) == esc(t),
        s[i + esc(t).len()] == '"',
    ensures
        parse_str_body(s, i) == Some((t, i + esc(t).len() + 1)),
    decreases t.len(),
{
    if t.len() == 0 {
        assert(esc(t).len() == 0);
        assert(s[i] == '"');
        assert(t =~= Seq::<char>::empty());
    } else {
        let c = t[0];
        let rest = t.drop_first();
        assert(esc(t) == esc_char(c) + esc(rest));
        let w = esc_char(c).len() as int;
        let e2 = esc(rest).len() as int;
        lemma_split_at(s, i, esc_char(c), esc(rest));
        assert forall|k: int| 0 <= k < w implies s[i + k] == esc_char(c)[k] by {
            assert(s.subrange(i, i + w)[k] == s[i + k]);
        }
        lemma_parse_str_body_at(s, i + w, rest);
        assert(seq![c] + rest =~= t);
        if c == '"' {
            assert(s[i] == '\\' && s[i + 1] == '"');
            assert(unescaped('"') == '"');
        } else if c == '\\' {
            assert(s[i] == '\\' && s[i + 1] == '\\');
        } else if (c as u32) < 0x20 {
            assert(s[i] == '\\' && s[i + 1] == 'u' && s[i + 2] == '0' && s[i + 3] == '0');
            let hi = ((c as u32) / 16) as nat;
            let lo = ((c as u32) % 16) as nat;
            assert(s[i + 4] == hex_char(hi) && s[i + 5] == hex_char(lo));
            lemma_hex_roundtrip(hi);
            lemma_hex_roundtrip(lo);
            assert(hex_val(s[i + 4]) * 16 + hex_val(s[i + 5]) == c as u32);
            vstd::utf8::char_u32_cast(c, c as u32);
            assert(((hex_val(s[i + 4]) * 16 + hex_val(s[i + 5])) as u32) as char == c);
        } else {
            assert(s[i] == c);
        }
    }
}

/// Where the text holds a quoted, escaped form of `t`, the string parser
/// reads back exactly `t` and stops after the closing quote.
pub proof fn lemma_parse_string_at(s: Seq<char>, i: int, t: Seq<char>)
    requires
        0 <= i < s.len(),
        s[i] == '"',
        i + 1 + esc(t).len() < s.len(),
        s.subrange(i + 1, i + 1 + esc(t).len() as int) == esc(t),
        s[i + 1 + esc(t).len()] == '"',
    ensures
        parse_string(s, i) == Some((t, i + esc(t).len() + 2)),
{
    lemma_skip_ws_at(s, i);
    lemma_parse_str_body_at(s, i + 1, t);
}

/// Where the text holds the written form of entry `b`, the entry parser
/// reads back exactly `b` and stops right after it.
#[verifier::rlimit(100)]
pub proof fn lemma_parse_entry_at(s: Seq<char>, i: int, b: BookView)
    requires
        0 <= i,
        i + spec_entry(b).len() <= s.len(),
        s.subrange(i, i + spec_entry(b).len() as int) == spec_entry(b),
    ensures
        parse_entry(s, i) == Some((b, i + spec_entry(b).len())),
{
    let a1 = seq!['"'];
    let d = spec_dec(b.id as nat);
    let a2 = seq!['"', ':', '{', '"', 'i', 'd', '"', ':'];
    let a3 = seq![',', '"', 't', 'i', 't', 'l', 'e', '"', ':', '"'];
    let e = esc(b.title);
    let a4 = seq!['"', '}'];
    let dl = d.len() as int;
    let el = e.len() as int;
    lemma_spec_dec_digits(b.id as nat);
    lemma_val_dec(b.id as nat);
    lemma_esc_digits(d);
    // Peel the entry apart, right to left.
    let z5 = a1 + d + a2 + d + a3 + e;
    let z4 = a1 + d + a2 + d + a3;
    let z3 = a1 + d + a2 + d;
    let z2 = a1 + d + a2;
    let z1 = a1 + d;
    lemma_split_at(s, i, z5, a4);
    lemma_split_at(s, i, z4, e);
    lemma_split_at(s, i, z3, a3);
    lemma_split_at(s, i, z2, d);
    lemma_split_at(s, i, z1, a2);
    lemma_split_at(s, i, a1, d);
    assert(s[i] == '"') by {
        assert(s.subrange(i, i + 1)[0] == s[i]);
    }
    assert forall|k: int| 0 <= k < 8 implies s[i + 1 + dl + k] == a2[k] by {
        assert(s.subrange(i + 1 + dl, i + 1 + dl + 8)[k] == s[i + 1 + dl + k]);
    }
    assert forall|k: int| 0 <= k < dl implies s[i + 9 + dl + k] == d[k] by {
        assert(s.subrange(i + 9 + dl, i + 9 + 2 * dl)[k] == s[i + 9 + dl + k]);
    }
    assert forall|k: int| 0 <= k < 10 implies s[i + 9 + 2 * dl + k] == a3[k] by {
        assert(s.subrange(i + 9 + 2 * dl, i + 19 + 2 * dl)[k] == s[i + 9 + 2 * dl + k]);
    }
    assert forall|k: int| 0 <= k < 2 implies s[i + 19 + 2 * dl + el + k] == a4[k] by {
        assert(s.subrange(i + 19 + 2 * dl + el, i + 21 + 2 * dl + el)[k] == s[i + 19 + 2 * dl
            + el + k]);
    }
    // The key: the decimal id between quotes.
    lemma_parse_string_at(s, i, d);
    assert(parse_string(s, i) == Some((d, i + dl + 2)));
    lemma_parse_char_at(s, i + dl + 2, ':');
    lemma_parse_char_at(s, i + dl + 3, '{');
    // The "id" field.
    let kid = seq!['i', 'd'];
    assert(esc(kid) == kid) by {
        lemma_esc_plain(kid);
    }
    assert(s.subrange(i + 1 + dl + 4, i + 1 + dl + 6) =~= kid);
    lemma_parse_string_at(s, i + dl + 4, kid);
    lemma_parse_char_at(s, i + dl + 8, ':');
    assert(s.subrange(i + 9 + dl, i + 9 + 2 * dl) =~= d);
    lemma_parse_number_at(s, i + dl + 9, b.id as nat);
    assert(parse_number(s, i + dl + 9) == Some((b.id as nat, i + 2 * dl + 9)));
    lemma_parse_char_at(s, i + 2 * dl + 9, ',');
    // The "title" field.
    let ktitle = seq!['t', 'i', 't', 'l', 'e'];
    assert(esc(ktitle) == ktitle) by {
        lemma_esc_plain(ktitle);
    }
    assert(s.subrange(i + 2 * dl + 11, i + 2 * dl + 16) =~= ktitle);
    lemma_parse_string_at(s, i + 2 * dl + 10, ktitle);
    lemma_parse_char_at(s, i + 2 * dl + 17, ':');
    assert(s.subrange(i + 19 + 2 * dl, i + 19 + 2 * dl + el) =~= e);
    lemma_parse_string_at(s, i + 2 * dl + 18, b.title);
    lemma_parse_char_at(s, i + 2 * dl + 20 + el, '}');
    assert(spec_entry(b).len() == 21 + 2 * dl + el);
    assert(b == BookView { id: (b.id as nat) as BookId, title: b.title });
}

/// Where the text holds comma-preceded entries and then a brace, the tail
/// parser reads back exactly those entries and stops after the brace.
pub proof fn lemma_parse_entries_tail_at(s: Seq<char>, i: int, es: Seq<BookView>)
    requires
        0 <= i,
        i + spec_entries_sep(es).len() < s.len(),
        s.subrange(i, i + spec_entries_sep(es).len() as int) == spec_entries_sep(es),
        s[i + spec_entries_sep(es).len()] == '}',
    ensures
        parse_entries_tail(s, i) == Some((es, i + spec_entries_sep(es).len() + 1)),
    decreases es.len(),
{
    if es.len() == 0 {
        assert(s[i] == '}');
        lemma_skip_ws_at(s, i);
        assert(es =~= Seq::<BookView>::empty());
    } else {
        let b = es[0];
        let rest = es.drop_first();
        let head = seq![','] + spec_entry(b);
        assert(spec_entries_sep(es) == head + spec_entries_sep(rest));
        lemma_split_at(s, i, head, spec_entries_sep(rest));
        lemma_split_at(s, i, seq![','], spec_entry(b));
        assert(s[i] == ',') by {
            assert(s.subrange(i, i + 1)[0] == s[i]);
        }
        lemma_skip_ws_at(s, i);
        lemma_parse_entry_at(s, i + 1, b);
        let e = i + 1 + spec_entry(b).len() as int;
        lemma_parse_entries_tail_at(s, e, rest);
        assert(seq![b] + rest =~= es);
    }
}

/// Where the text holds the written entry list and then a brace, the
/// entries parser reads back exactly those entries and stops after the
/// brace.
pub proof fn lemma_parse_entries_at(s: Seq<char>, i: int, es: Seq<BookView>)
    requires
        0 <= i,
        i + spec_entries(es).len() < s.len(),
        s.subrange(i, i + spec_entries(es).len() as int) == spec_entries(es),
        s[i + spec_entries(es).len()] == '}',
    ensures
        parse_entries(s, i) == Some((es, i + spec_entries(es).len() + 1)),
{
    if es.len() == 0 {
        assert(s[i] == '}');
        lemma_skip_ws_at(s, i);
        assert(es =~= Seq::<BookView>::empty());
    } else {
        let b = es[0];
        let rest = es.drop_first();
        assert(spec_entries(es) == spec_entry(b) + spec_entries_sep(rest));
        lemma_split_at(s, i, spec_entry(b), spec_entries_sep(rest));
        assert(s[i] == '"') by {
            assert(s.subrange(i, i + spec_entry(b).len() as int)[0] == s[i]);
            assert(spec_entry(b)[0] == '"');
        }
        lemma_skip_ws_at(s, i);
        lemma_parse_entry_at(s, i, b);
        let e = i + spec_entry(b).len() as int;
        lemma_parse_entries_tail_at(s, e, rest);
        assert(seq![b] + rest =~= es);
    }
}

/// Where the written document's pieces lie in it: the header, the
/// counter digits, the `books` header, the entries, the closing braces.
#[verifier::rlimit(100)]
pub proof fn lemma_doc_layout(c: BookId, es: Seq<BookView>)
    ensures
        ({
            let s = spec_doc(c, es);
            let h = seq!['{', '"', 'i', 'd', '_', 'c', 'o', 'u', 'n', 't', 'e', 'r', '"', ':'];
            let m = seq![',', '"', 'b', 'o', 'o', 'k', 's', '"', ':', '{'];
            let dl = spec_dec(c as nat).len() as int;
            let el = spec_entries(es).len() as int;
            &&& s.len() == 26 + dl + el
            &&& forall|k: int| 0 <= k < 14 ==> s[k] == h[k]
            &&& s.subrange(14, 14 + dl) == spec_dec(c as nat)
            &&& forall|k: int| 0 <= k < 10 ==> s[14 + dl + k] == m[k]
            &&& s.subrange(24 + dl, 24 + dl + el) == spec_entries(es)
            &&& s[24 + dl + el] == '}'
            &&& s[25 + dl + el] == '}'
        }),
{
    let s = spec_doc(c, es);
    let h = seq!['{', '"', 'i', 'd', '_', 'c', 'o', 'u', 'n', 't', 'e', 'r', '"', ':'];
    let d = spec_dec(c as nat);
    let m = seq![',', '"', 'b', 'o', 'o', 'k', 's', '"', ':', '{'];
    let en = spec_entries(es);
    let tl = seq!['}', '}'];
    let dl = d.len() as int;
    let el = en.len() as int;
    assert(s.subrange(0, s.len() as int) =~= s);
    let z3 = h + d + m + en;
    let z2 = h + d + m;
    let z1 = h + d;
    lemma_split_at(s, 0, z3, tl);
    lemma_split_at(s, 0, z2, en);
    lemma_split_at(s, 0, z1, m);
    lemma_split_at(s, 0, h, d);
    assert forall|k: int| 0 <= k < 14 implies s[k] == h[k] by {
        assert(s.subrange(0, 14)[k] == s[k]);
    }
    assert forall|k: int| 0 <= k < 10 implies s[14 + dl + k] == m[k] by {
        assert(s.subrange(14 + dl, 24 + dl)[k] == s[14 + dl + k]);
    }
    assert forall|k: int| 0 <= k < 2 implies s[24 + dl + el + k] == tl[k] by {
        assert(s.subrange(24 + dl + el, 26 + dl + el)[k] == s[24 + dl + el + k]);
    }
}

/// The steps the document parser takes over a written document, up to the
/// opening brace of the `books` object.
#[verifier::rlimit(100)]
pub proof fn lemma_parse_doc_header(c: BookId, es: Seq<BookView>)
    ensures
        ({
            let s = spec_doc(c, es);
            let dl = spec_dec(c as nat).len() as int;
            &&& parse_char(s, 0, '{') == Some(1int)
            &&& parse_string(s, 1) == Some(
                (seq!['i', 'd', '_', 'c', 'o', 'u', 'n', 't', 'e', 'r'], 13int),
            )
            &&& parse_char(s, 13, ':') == Some(14int)
            &&& parse_number(s, 14) == Some((c as nat, 14 + dl))
            &&& parse_char(s, 14 + dl, ',') == Some(15 + dl)
            &&& parse_string(s, 15 + dl) == Some((seq!['b', 'o', 'o', 'k', 's'], 22 + dl))
            &&& parse_char(s, 22 + dl, ':') == Some(23 + dl)
            &&& parse_char(s, 23 + dl, '{') == Some(24 + dl)
        }),
{
    let s = spec_doc(c, es);
    let d = spec_dec(c as nat);
    let dl = d.len() as int;
    let el = spec_entries(es).len() as int;
    lemma_spec_dec_digits(c as nat);
    lemma_doc_layout(c, es);
    lemma_parse_char_at(s, 0, '{');
    let kc = seq!['i', 'd', '_', 'c', 'o', 'u', 'n', 't', 'e', 'r'];
    assert(esc(kc) == kc) by {
        lemma_esc_plain(kc);
    }
    assert(s.subrange(2, 12) =~= kc);
    lemma_parse_string_at(s, 1, kc);
    lemma_parse_char_at(s, 13, ':');
    lemma_parse_number_at(s, 14, c as nat);
    lemma_parse_char_at(s, 14 + dl, ',');
    let kb = seq!['b', 'o', 'o', 'k', 's'];
    assert(esc(kb) == kb) by {
        lemma_esc_plain(kb);
    }
    assert(s.subrange(16 + dl, 21 + dl) =~= kb);
    lemma_parse_string_at(s, 15 + dl, kb);
    lemma_parse_char_at(s, 22 + dl, ':');
    lemma_parse_char_at(s, 23 + dl, '{');
}

/// The written document parses back to exactly the counter and entries it
/// was written from, consuming the whole text.
#[verifier::rlimit(100)]
pub proof fn lemma_parse_doc_of_spec_doc(c: BookId, es: Seq<BookView>)
    ensures
        parse_doc(spec_doc(c, es)) == Some((c, es, spec_doc(c, es).len() as int)),
{
    let s = spec_doc(c, es);
    let dl = spec_dec(c as nat).len() as int;
    let el = spec_entries(es).len() as int;
    lemma_doc_layout(c, es);
    lemma_parse_doc_header(c, es);
    lemma_parse_entries_at(s, 24 + dl, es);
    lemma_parse_char_at(s, 25 + dl + el, '}');
    assert(s.len() == 26 + dl + el);
}

/// Round trip: a document written from any counter and any list of
/// entries the counter could have issued loads back to exactly that
/// snapshot.
pub proof fn lemma_load_of_spec_doc(c: BookId, es: Seq<BookView>)
    requires
        valid_entries(es, c),
    ensures
        spec_load(spec_doc(c, es)) == Some(
            crate::LibraryView { id_counter: c, books: crate::map_of_entries(es) },
        ),
{
    lemma_parse_doc_of_spec_doc(c, es);
    let s = spec_doc(c, es);
    lemma_skip_ws_at(s, s.len() as int);
}

/// Round trip for a whole library: the document written from any
/// well-formed library loads back to exactly that library's view,
/// id counter and book contents alike.
pub proof fn lemma_save_load_round_trip(lib: crate::Library)
    requires
        lib.wf(),
    ensures
        spec_load(spec_doc(lib@.id_counter, lib.canon())) == Some(lib@),
{
    lib.lemma_view_canon();
    let es = lib.canon();
    let c = lib@.id_counter;
    crate::lemma_map_of_entries_dom(es);
    assert forall|k: int| 0 <= k < es.len() implies (#[trigger] es[k]).id < c by {
        assert(crate::entries_contain(es, es[k].id));
        assert(crate::map_of_entries(es).dom().contains(es[k].id));
        assert(lib@.books.dom().contains(es[k].id));
    }
    lemma_load_of_spec_doc(c, es);
}

/// Taking one more element appends its escape to the escaped prefix.
pub proof fn lemma_esc_take_snoc(t: Seq<char>, i: int)
    requires
        0 <= i < t.len(),
    ensures
        esc(t.take(i + 1)) == esc(t.take(i)) + esc_char(t[i]),
{
    assert(t.take(i + 1) =~= t.take(i) + seq![t[i]]);
    lemma_esc_concat(t.take(i), seq![t[i]]);
    assert(seq![t[i]].drop_first() =~= Seq::<char>::empty());
    assert(esc(seq![t[i]].drop_first()) =~= Seq::<char>::empty());
    assert(esc(seq![t[i]]) == esc_char(seq![t[i]][0]) + esc(seq![t[i]].drop_first()));
    assert(esc(seq![t[i]]) =~= esc_char(t[i]));
}

/// Taking one more entry appends its comma-preceded form to the list so
/// far.
pub proof fn lemma_sep_take_snoc(vs: Seq<BookView>, k: int)
    requires
        0 <= k < vs.len(),
    ensures
        spec_entries_sep(vs.take(k + 1)) == spec_entries_sep(vs.take(k)) + seq![','] + spec_entry(
            vs[k],
        ),
    decreases k,
{
    if k == 0 {
        assert(vs.take(1) =~= seq![vs[0]]);
        assert(seq![vs[0]].drop_first() =~= Seq::<BookView>::empty());
        assert(spec_entries_sep(seq![vs[0]].drop_first()) =~= Seq::<char>::empty());
        assert(spec_entries_sep(vs.take(0)) =~= Seq::<char>::empty());
        assert(spec_entries_sep(seq![vs[0]]) == seq![','] + spec_entry(seq![vs[0]][0])
            + spec_entries_sep(seq![vs[0]].drop_first()));
        assert(spec_entries_sep(vs.take(1)) =~= seq![','] + spec_entry(vs[0]));
        assert(spec_entries_sep(vs.take(0)) + seq![','] + spec_entry(vs[0]) =~= seq![',']
            + spec_entry(vs[0]));
    } else {
        lemma_sep_take_snoc(vs.drop_first(), k - 1);
        assert(vs.take(k + 1).drop_first() =~= vs.drop_first().take(k));
        assert(vs.take(k).drop_first() =~= vs.drop_first().take(k - 1));
        assert(vs.take(k + 1)[0] == vs[0]);
        assert(vs.take(k)[0] == vs[0]);
        assert(vs.drop_first()[k - 1] == vs[k]);
        assert(spec_entries_sep(vs.take(k + 1)) == seq![','] + spec_entry(vs[0])
            + spec_entries_sep(vs.drop_first().take(k)));
        assert(spec_entries_sep(vs.take(k + 1)) =~= spec_entries_sep(vs.take(k)) + seq![',']
            + spec_entry(vs[k]));
    }
}

/// Taking one more entry extends the comma-separated entry list by that
/// entry, with a comma before it unless it is the first.
pub proof fn lemma_entries_take_snoc(vs: Seq<BookView>, k: int)
    requires
        0 <= k < vs.len(),
    ensures
        spec_entries(vs.take(k + 1)) == spec_entries(vs.take(k)) + (if k == 0 {
            spec_entry(vs[0])
        } else {
            seq![','] + spec_entry(vs[k])
        }),
{
    if k == 0 {
        assert(vs.take(1) =~= seq![vs[0]]);
        assert(seq![vs[0]].drop_first() =~= Seq::<BookView>::empty());
        assert(spec_entries(vs.take(1)) =~= spec_entry(vs[0]));
        assert(spec_entries(vs.take(0)) + spec_entry(vs[0]) =~= spec_entry(vs[0]));
    } else {
        lemma_sep_take_snoc(vs.drop_first(), k - 1);
        assert(vs.take(k + 1).drop_first() =~= vs.drop_first().take(k));
        assert(vs.take(k).drop_first() =~= vs.drop_first().take(k - 1));
        assert(vs.take(k + 1)[0] == vs[0]);
        assert(vs.take(k)[0] == vs[0]);
        assert(vs.drop_first()[k - 1] == vs[k]);
        assert(spec_entries(vs.take(k + 1)) =~= spec_entries(vs.take(k)) + (seq![','] + spec_entry(
            vs[k],
        )));
    }
}

// ---------------------------------------------------------------------
// The writer, executable
// ---------------------------------------------------------------------
/// The digit character for a value below ten.
fn digit_char_exec(d: usize) -> (c: char)
    requires
        d < 10,
    ensures
        c == digit_char(d as nat),
{
    if d == 0 {
        '0'
    } else if d == 1 {
        '1'
    } else if d == 2 {
        '2'
    } else if d == 3 {
        '3'
    } else if d == 4 {
        '4'
    } else if d == 5 {
        '5'
    } else if d == 6 {
        '6'
    } else if d == 7 {
        '7'
    } else if d == 8 {
        '8'
    } else {
        '9'
    }
}

/// The lower-case hexadecimal digit character for a value below sixteen.
fn hex_char_exec(d: usize) -> (c: char)
    requires
        d < 16,
    ensures
        c == hex_char(d as nat),
{
    if d < 10 {
        digit_char_exec(d)
    } else if d == 10 {
        'a'
    } else if d == 11 {
        'b'
    } else if d == 12 {
        'c'
    } else if d == 13 {
        'd'
    } else if d == 14 {
        'e'
    } else {
        'f'
    }
}

/// Append the decimal digits of `n`.
fn push_dec(out: &mut Vec<char>, n: usize)
    ensures
        final(out)@ == old(out)@ + spec_dec(n as nat),
    decreases n,
{
    if n < 10 {
        out.push(digit_char_exec(n));
        proof {
            assert(final(out)@ =~= old(out)@ + spec_dec(n as nat));
        }
    } else {
        push_dec(out, n / 10);
        out.push(digit_char_exec(n % 10));
        proof {
            assert(final(out)@ =~= old(out)@ + spec_dec(n as nat));
        }
    }
}

/// Append the escaped form of `t`.
fn push_esc(out: &mut Vec<char>, t: &str)
    ensures
        final(out)@ == old(out)@ + esc(t@),
{
    let n = t.unicode_len();
    let mut i: usize = 0;
    proof {
        assert(t@.take(0) =~= Seq::<char>::empty());
        assert(out@ + esc(t@.take(0)) =~= out@);
    }
    while i < n
        invariant
            n == t@.len(),
            0 <= i <= n,
            out@ == old(out)@ + esc(t@.take(i as int)),
        decreases n - i,
    {
        let c = t.get_char(i);
        proof {
            lemma_esc_take_snoc(t@, i as int);
        }
        if c == '"' {
            out.push('\\');
            out.push('"');
        } else if c == '\\' {
            out.push('\\');
            out.push('\\');
        } else if (c as u32) < 0x20 {
            out.push('\\');
            out.push('u');
            out.push('0');
            out.push('0');
            out.push(hex_char_exec(((c as u32) / 16) as usize));
            out.push(hex_char_exec(((c as u32) % 16) as usize));
        } else {
            out.push(c);
        }
        proof {
            assert(out@ =~= old(out)@ + esc(t@.take(i + 1)));
        }
        i = i + 1;
    }
    proof {
        assert(t@.take(n as int) =~= t@);
    }
}

/// Append the written form of one entry.
fn push_entry(out: &mut Vec<char>, book: &Book)
    ensures
        final(out)@ == old(out)@ + spec_entry(book@),
{
    out.push('"');
    push_dec(out, book.id);
    out.push('"');
    out.push(':');
    out.push('{');
    out.push('"');
    out.push('i');
    out.push('d');
    out.push('"');
    out.push(':');
    push_dec(out, book.id);
    out.push(',');
    out.push('"');
    out.push('t');
    out.push('i');
    out.push('t');
    out.push('l');
    out.push('e');
    out.push('"');
    out.push(':');
    out.push('"');
    push_esc(out, book.title.as_str());
    out.push('"');
    out.push('}');
    proof {
        assert(final(out)@ =~= old(out)@ + spec_entry(book@));
    }
}

/// The written document for a counter and a list of books, as characters.
pub(crate) fn write_doc(id_counter: usize, books: &Vec<Book>) -> (out: Vec<char>)
    ensures
        out@ == spec_doc(id_counter, books@.map_values(|b: Book| b@)),
{
    let ghost vs = books@.map_values(|b: Book| b@);
    let mut out: Vec<char> = Vec::new();
    out.push('{');
    out.push('"');
    out.push('i');
    out.push('d');
    out.push('_');
    out.push('c');
    out.push('o');
    out.push('u');
    out.push('n');
    out.push('t');
    out.push('e');
    out.push('r');
    out.push('"');
    out.push(':');
    push_dec(&mut out, id_counter);
    out.push(',');
    out.push('"');
    out.push('b');
    out.push('o');
    out.push('o');
    out.push('k');
    out.push('s');
    out.push('"');
    out.push(':');
    out.push('{');
    let ghost head = out@;
    proof {
        assert(spec_entries(vs.take(0)) =~= Seq::<char>::empty());
        assert(head + spec_entries(vs.take(0)) =~= head);
    }
    let n = books.len();
    let mut k: usize = 0;
    while k < n
        invariant
            n == books.len(),
            0 <= k <= n,
            vs == books@.map_values(|b: Book| b@),
            out@ == head + spec_entries(vs.take(k as int)),
        decreases n - k,
    {
        if k > 0 {
            out.push(',');
        }
        push_entry(&mut out, &books[k]);
        proof {
            lemma_entries_take_snoc(vs, k as int);
            assert(books@[k as int]@ == vs[k as int]);
            assert(out@ =~= head + spec_entries(vs.take(k + 1)));
        }
        k = k + 1;
    }
    out.push('}');
    out.push('}');
    proof {
        assert(vs.take(n as int) =~= vs);
        assert(out@ =~= spec_doc(id_counter, vs));
    }
    out
}

// ---------------------------------------------------------------------
// The reader, executable
// ---------------------------------------------------------------------
/// Relies on `String`'s `FromIterator` over `char`: collecting characters
/// yields the string holding exactly those characters, in order.
#[verifier::external_body]
pub(crate) fn chars_to_string(v: &Vec<char>) -> (r: String)
    ensures
        r@ == v@,
{
    v.iter().copied().collect()
}

/// Relies on `char::from_u32`: every value below `0x20` is a valid scalar
/// value, for which it returns the character with that code.
#[verifier::external_body]
fn char_from_code(code: u32) -> (c: char)
    requires
        code < 0x20,
    ensures
        c == (code as char),
{
    char::from_u32(code).unwrap()
}

/// The characters of a string, in order.
pub(crate) fn str_chars(s: &str) -> (r: Vec<char>)
    ensures
        r@ == s@,
{
    let n = s.unicode_len();
    let mut r: Vec<char> = Vec::new();
    let mut i: usize = 0;
    while i < n
        invariant
            n == s@.len(),
            0 <= i <= n,
            r@ == s@.take(i as int),
        decreases n - i,
    {
        r.push(s.get_char(i));
        proof {
            assert(r@ =~= s@.take(i + 1));
        }
        i = i + 1;
    }
    proof {
        assert(s@.take(n as int) =~= s@);
    }
    r
}

/// A whitespace test matching [`is_ws_char`].
fn is_ws_exec(c: char) -> (r: bool)
    ensures
        r == is_ws_char(c),
{
    c == ' ' || c == '\t' || c == '\n' || c == '\r'
}

/// A digit test matching [`is_digit_char`].
fn is_digit_exec(c: char) -> (r: bool)
    ensures
        r == is_digit_char(c),
{
    '0' <= c && c <= '9'
}

/// The value of a digit, matching [`digit_val`].
fn digit_val_exec(c: char) -> (d: usize)
    requires
        is_digit_char(c),
    ensures
        d == digit_val(c),
{
    if c == '0' {
        0
    } else if c == '1' {
        1
    } else if c == '2' {
        2
    } else if c == '3' {
        3
    } else if c == '4' {
        4
    } else if c == '5' {
        5
    } else if c == '6' {
        6
    } else if c == '7' {
        7
    } else if c == '8' {
        8
    } else {
        9
    }
}

/// Skip whitespace, matching [`skip_ws`].
fn skip_ws_exec(s: &Vec<char>, i: usize) -> (r: usize)
    requires
        i <= s.len(),
    ensures
        r as int == skip_ws(s@, i as int),
        i <= r <= s.len(),
{
    let mut j = i;
    while j < s.len() && is_ws_exec(s[j])
        invariant
            i <= j <= s.len(),
            skip_ws(s@, i as int) == skip_ws(s@, j as int),
        decreases s.len() - j,
    {
        j = j + 1;
    }
    j
}

/// Consume one expected character, matching [`parse_char`].
fn parse_char_exec(s: &Vec<char>, i: usize, c: char) -> (r: Option<usize>)
    requires
        i <= s.len(),
    ensures
        match r {
            Some(j) => parse_char(s@, i as int, c) == Some(j as int) && i <= j <= s.len(),
            None => parse_char(s@, i as int, c) is None,
        },
{
    let j = skip_ws_exec(s, i);
    if j < s.len() && s[j] == c {
        Some(j + 1)
    } else {
        None
    }
}

/// A digit prefix never denotes more than the whole run.
pub proof fn lemma_val_of_digits_prefix(ds: Seq<char>, k: int)
    requires
        0 <= k <= ds.len(),
    ensures
        val_of_digits(ds.take(k)) <= val_of_digits(ds),
    decreases ds.len(),
{
    if k < ds.len() {
        assert(ds.drop_last().take(k) =~= ds.take(k));
        lemma_val_of_digits_prefix(ds.drop_last(), k);
        assert(val_of_digits(ds) == val_of_digits(ds.drop_last()) * 10 + digit_val(ds.last()));
        assert(val_of_digits(ds.drop_last()) * 10 >= val_of_digits(ds.drop_last())) by (
        nonlinear_arith);
    } else {
        assert(ds.take(k) =~= ds);
    }
}

/// Consume a decimal number, matching [`parse_number`].
fn parse_number_exec(s: &Vec<char>, i: usize) -> (r: Option<(usize, usize)>)
    requires
        i <= s.len(),
    ensures
        match r {
            Some((v, j)) => parse_number(s@, i as int) == Some((v as nat, j as int)) && i < j
                <= s.len(),
            None => parse_number(s@, i as int) is None,
        },
{
    let j = skip_ws_exec(s, i);
    if j >= s.len() || !is_digit_exec(s[j]) {
        return None;
    }
    // Find the end of the digit run.
    let mut e = j;
    while e < s.len() && is_digit_exec(s[e])
        invariant
            j <= e <= s.len(),
            digits_end(s@, j as int) == digits_end(s@, e as int),
            forall|k: int| j <= k < e ==> is_digit_char(#[trigger] s@[k]),
        decreases s.len() - e,
    {
        e = e + 1;
    }
    proof {
        assert(digits_end(s@, e as int) == e as int);
    }
    let ghost run = s@.subrange(j as int, e as int);
    // Accumulate its value, watching for overflow.
    let mut p = j;
    let mut acc: usize = 0;
    proof {
        assert(s@.subrange(j as int, j as int) =~= Seq::<char>::empty());
    }
    while p < e
        invariant
            i <= j <= p <= e <= s.len(),
            skip_ws(s@, i as int) == j as int,
            is_digit_char(s@[j as int]),
            digits_end(s@, j as int) == e as int,
            j < e,
            run == s@.subrange(j as int, e as int),
            forall|k: int| j <= k < e ==> is_digit_char(#[trigger] s@[k]),
            acc as nat == val_of_digits(s@.subrange(j as int, p as int)),
        decreases e - p,
    {
        let d = digit_val_exec(s[p]);
        proof {
            assert(s@.subrange(j as int, p + 1).drop_last() =~= s@.subrange(j as int, p as int));
            assert(s@.subrange(j as int, p + 1).last() == s@[p as int]);
        }
        if acc > (usize::MAX - d) / 10 {
            // The run denotes more than a usize can hold.
            proof {
                assert((acc as nat) * 10 + (d as nat) > usize::MAX as nat) by (nonlinear_arith)
                    requires
                        acc > (usize::MAX - d) / 10,
                        d < 10,
                        d <= usize::MAX,
                ;
                assert(run.take(p + 1 - j) =~= s@.subrange(j as int, p + 1));
                lemma_val_of_digits_prefix(run, p + 1 - j);
                assert(val_of_digits(run) > usize::MAX as nat);
            }
            return None;
        }
        proof {
            assert((acc as nat) * 10 + (d as nat) <= usize::MAX as nat) by (nonlinear_arith)
                requires
                    acc <= (usize::MAX - d) / 10,
                    d < 10,
                    d <= usize::MAX,
            ;
        }
        acc = acc * 10 + d;
        p = p + 1;
    }
    Some((acc, e))
}

/// A hexadecimal digit test matching [`is_hex_char`].
fn is_hex_exec(c: char) -> (r: bool)
    ensures
        r == is_hex_char(c),
{
    ('0' <= c && c <= '9') || ('a' <= c && c <= 'f')
}

/// The value of a hexadecimal digit, matching [`hex_val`].
fn hex_val_exec(c: char) -> (d: usize)
    requires
        is_hex_char(c),
    ensures
        d == hex_val(c),
{
    if '0' <= c && c <= '9' {
        digit_val_exec(c)
    } else if c == 'a' {
        10
    } else if c == 'b' {
        11
    } else if c == 'c' {
        12
    } else if c == 'd' {
        13
    } else if c == 'e' {
        14
    } else {
        15
    }
}

/// The character a short escape stands for, matching [`unescaped`].
fn unescaped_exec(c: char) -> (r: char)
    ensures
        r == unescaped(c),
{
    if c == 'b' {
        '\u{8}'
    } else if c == 'f' {
        '\u{c}'
    } else if c == 'n' {
        '\n'
    } else if c == 'r' {
        '\r'
    } else if c == 't' {
        '\t'
    } else {
        c
    }
}

/// Consume a string body, matching [`parse_str_body`].
fn parse_str_body_exec(s: &Vec<char>, i: usize) -> (r: Option<(Vec<char>, usize)>)
    requires
        i <= s.len(),
    ensures
        match r {
            Some((t, j)) => parse_str_body(s@, i as int) == Some((t@, j as int)) && i < j
                <= s.len(),
            None => parse_str_body(s@, i as int) is None,
        },
{
    let mut acc: Vec<char> = Vec::new();
    let mut j = i;
    loop
        invariant
            i <= j <= s.len(),
            parse_str_body(s@, i as int) == (match parse_str_body(s@, j as int) {
                Some((t, e)) => Some((acc@ + t, e)),
                None => None::<(Seq<char>, int)>,
            }),
        decreases s.len() - j,
    {
        if j >= s.len() {
            return None;
        }
        let c = s[j];
        if c == '"' {
            proof {
                assert(acc@ + Seq::<char>::empty() =~= acc@);
            }
            return Some((acc, j + 1));
        }
        let ghost jp = j as int;
        let ghost accp = acc@;
        let ch: char;
        if c == '\\' {
            if j + 1 >= s.len() {
                return None;
            }
            let c2 = s[j + 1];
            if c2 == 'u' {
                if s.len() - j <= 5 {
                    proof {
                        assert(j + 5 >= s.len());
                    }
                    return None;
                }
                proof {
                    assert(j + 5 < s.len());
                }
                if s[j + 2] == '0' && s[j + 3] == '0' && is_hex_exec(s[j + 4]) && is_hex_exec(
                    s[j + 5],
                ) {
                    let code = hex_val_exec(s[j + 4]) * 16 + hex_val_exec(s[j + 5]);
                    if code < 0x20 {
                        ch = char_from_code(code as u32);
                        acc.push(ch);
                        j = j + 6;
                    } else {
                        return None;
                    }
                } else {
                    return None;
                }
            } else if c2 == '"' || c2 == '\\' || c2 == '/' || c2 == 'b' || c2 == 'f' || c2 == 'n'
                || c2 == 'r' || c2 == 't' {
                ch = unescaped_exec(c2);
                acc.push(ch);
                j = j + 2;
            } else {
                return None;
            }
        } else if (c as u32) < 0x20 {
            return None;
        } else {
            ch = c;
            acc.push(ch);
            j = j + 1;
        }
        proof {
            assert(parse_str_body(s@, jp) == (match parse_str_body(s@, j as int) {
                Some((t, e)) => Some((seq![ch] + t, e)),
                None => None::<(Seq<char>, int)>,
            }));
            assert(acc@ =~= accp + seq![ch]);
            let rn = parse_str_body(s@, j as int);
            if rn is Some {
                let t = rn->Some_0.0;
                assert((accp + seq![ch]) + t =~= accp + (seq![ch] + t));
            }
        }
    }
}

/// Consume a quoted string, matching [`parse_string`].
fn parse_string_exec(s: &Vec<char>, i: usize) -> (r: Option<(Vec<char>, usize)>)
    requires
        i <= s.len(),
    ensures
        match r {
            Some((t, j)) => parse_string(s@, i as int) == Some((t@, j as int)) && i < j <= s.len(),
            None => parse_string(s@, i as int) is None,
        },
{
    let j = skip_ws_exec(s, i);
    if j < s.len() && s[j] == '"' {
        parse_str_body_exec(s, j + 1)
    } else {
        None
    }
}

/// Does the vector spell `id`?
fn chars_are_id(v: &Vec<char>) -> (r: bool)
    ensures
        r == (v@ == seq!['i', 'd']),
{
    if v.len() == 2 && v[0] == 'i' && v[1] == 'd' {
        proof {
            assert(v@ =~= seq!['i', 'd']);
        }
        true
    } else {
        false
    }
}

/// Does the vector spell `title`?
fn chars_are_title(v: &Vec<char>) -> (r: bool)
    ensures
        r == (v@ == seq!['t', 'i', 't', 'l', 'e']),
{
    if v.len() == 5 && v[0] == 't' && v[1] == 'i' && v[2] == 't' && v[3] == 'l' && v[4] == 'e' {
        proof {
            assert(v@ =~= seq!['t', 'i', 't', 'l', 'e']);
        }
        true
    } else {
        false
    }
}

/// Does the vector spell `id_counter`?
fn chars_are_id_counter(v: &Vec<char>) -> (r: bool)
    ensures
        r == (v@ == seq!['i', 'd', '_', 'c', 'o', 'u', 'n', 't', 'e', 'r']),
{
    if v.len() == 10 && v[0] == 'i' && v[1] == 'd' && v[2] == '_' && v[3] == 'c' && v[4] == 'o'
        && v[5] == 'u' && v[6] == 'n' && v[7] == 't' && v[8] == 'e' && v[9] == 'r' {
        proof {
            assert(v@ =~= seq!['i', 'd', '_', 'c', 'o', 'u', 'n', 't', 'e', 'r']);
        }
        true
    } else {
        false
    }
}

/// Does the vector spell `books`?
fn chars_are_books(v: &Vec<char>) -> (r: bool)
    ensures
        r == (v@ == seq!['b', 'o', 'o', 'k', 's']),
{
    if v.len() == 5 && v[0] == 'b' && v[1] == 'o' && v[2] == 'o' && v[3] == 'k' && v[4] == 's' {
        proof {
            assert(v@ =~= seq!['b', 'o', 'o', 'k', 's']);
        }
        true
    } else {
        false
    }
}

/// The number a digit vector denotes, where it is all digits and fits.
fn digits_value(v: &Vec<char>) -> (r: Option<usize>)
    ensures
        match r {
            Some(x) => v@.len() > 0 && all_digits(v@) && val_of_digits(v@) == x as nat,
            None => !(v@.len() > 0 && all_digits(v@)) || val_of_digits(v@) > usize::MAX as nat,
        },
{
    if v.len() == 0 {
        return None;
    }
    let mut p: usize = 0;
    let mut acc: usize = 0;
    proof {
        assert(v@.take(0) =~= Seq::<char>::empty());
    }
    while p < v.len()
        invariant
            0 <= p <= v@.len(),
            forall|k: int| 0 <= k < p ==> is_digit_char(#[trigger] v@[k]),
            acc as nat == val_of_digits(v@.take(p as int)),
        decreases v@.len() - p,
    {
        let c = v[p];
        if !is_digit_exec(c) {
            proof {
                assert(!all_digits(v@)) by {
                    assert(!is_digit_char(v@[p as int]));
                }
            }
            return None;
        }
        let d = digit_val_exec(c);
        proof {
            assert(v@.take(p + 1).drop_last() =~= v@.take(p as int));
            assert(v@.take(p + 1).last() == v@[p as int]);
        }
        if acc > (usize::MAX - d) / 10 {
            proof {
                assert((acc as nat) * 10 + (d as nat) > usize::MAX as nat) by (nonlinear_arith)
                    requires
                        acc > (usize::MAX - d) / 10,
                        d < 10,
                        d <= usize::MAX,
                ;
                lemma_val_of_digits_prefix(v@, p + 1);
            }
            return None;
        }
        proof {
            assert((acc as nat) * 10 + (d as nat) <= usize::MAX as nat) by (nonlinear_arith)
                requires
                    acc <= (usize::MAX - d) / 10,
                    d < 10,
                    d <= usize::MAX,
            ;
        }
        acc = acc * 10 + d;
        p = p + 1;
    }
    proof {
        assert(v@.take(v@.len() as int) =~= v@);
    }
    Some(acc)
}

/// Consume one entry, matching [`parse_entry`].
#[verifier::rlimit(100)]
fn parse_entry_exec(s: &Vec<char>, i: usize) -> (r: Option<(Book, usize)>)
    requires
        i <= s.len(),
    ensures
        match r {
            Some((b, j)) => parse_entry(s@, i as int) == Some((b@, j as int)) && i < j <= s.len(),
            None => parse_entry(s@, i as int) is None,
        },
{
    let (key, j1) = match parse_string_exec(s, i) {
        Some(x) => x,
        None => {
            return None;
        },
    };
    let j2 = match parse_char_exec(s, j1, ':') {
        Some(x) => x,
        None => {
            return None;
        },
    };
    let j3 = match parse_char_exec(s, j2, '{') {
        Some(x) => x,
        None => {
            return None;
        },
    };
    let (k1, j4) = match parse_string_exec(s, j3) {
        Some(x) => x,
        None => {
            return None;
        },
    };
    if !chars_are_id(&k1) {
        return None;
    }
    let j5 = match parse_char_exec(s, j4, ':') {
        Some(x) => x,
        None => {
            return None;
        },
    };
    let (idv, j6) = match parse_number_exec(s, j5) {
        Some(x) => x,
        None => {
            return None;
        },
    };
    match digits_value(&key) {
        Some(x) => if x != idv {
            return None;
        },
        None => {
            return None;
        },
    }
    let j7 = match parse_char_exec(s, j6, ',') {
        Some(x) => x,
        None => {
            return None;
        },
    };
    let (k2, j8) = match parse_string_exec(s, j7) {
        Some(x) => x,
        None => {
            return None;
        },
    };
    if !chars_are_title(&k2) {
        return None;
    }
    let j9 = match parse_char_exec(s, j8, ':') {
        Some(x) => x,
        None => {
            return None;
        },
    };
    let (t, j10) = match parse_string_exec(s, j9) {
        Some(x) => x,
        None => {
            return None;
        },
    };
    let j11 = match parse_char_exec(s, j10, '}') {
        Some(x) => x,
        None => {
            return None;
        },
    };
    let b = Book { id: idv, title: chars_to_string(&t) };
    Some((b, j11))
}

/// Consume the inside of the `books` object, matching [`parse_entries`].
fn parse_entries_exec(s: &Vec<char>, i: usize) -> (r: Option<(Vec<Book>, usize)>)
    requires
        i <= s.len(),
    ensures
        match r {
            Some((bs, j)) => parse_entries(s@, i as int) == Some(
                (bs@.map_values(|b: Book| b@), j as int),
            ) && i < j <= s.len(),
            None => parse_entries(s@, i as int) is None,
        },
{
    let j0 = skip_ws_exec(s, i);
    if j0 < s.len() && s[j0] == '}' {
        let empty: Vec<Book> = Vec::new();
        proof {
            assert(empty@.map_values(|b: Book| b@) =~= Seq::<BookView>::empty());
        }
        return Some((empty, j0 + 1));
    }
    let (b0, e0) = match parse_entry_exec(s, i) {
        Some(x) => x,
        None => {
            return None;
        },
    };
    let mut acc: Vec<Book> = Vec::new();
    let ghost b0v = b0@;
    acc.push(b0);
    let mut j = e0;
    proof {
        assert(acc@.map_values(|b: Book| b@) =~= seq![b0v]);
    }
    loop
        invariant
            i < j <= s.len(),
            parse_entries(s@, i as int) == (match parse_entries_tail(s@, j as int) {
                Some((bs, e)) => Some((acc@.map_values(|b: Book| b@) + bs, e)),
                None => None::<(Seq<BookView>, int)>,
            }),
        decreases s.len() - j,
    {
        let ghost jp = j as int;
        let ghost accp = acc@.map_values(|b: Book| b@);
        let j2 = skip_ws_exec(s, j);
        if j2 < s.len() && s[j2] == '}' {
            proof {
                assert(accp + Seq::<BookView>::empty() =~= accp);
            }
            return Some((acc, j2 + 1));
        }
        if j2 < s.len() && s[j2] == ',' {
            let (b, e) = match parse_entry_exec(s, j2 + 1) {
                Some(x) => x,
                None => {
                    return None;
                },
            };
            let ghost bv = b@;
            acc.push(b);
            proof {
                assert(acc@.map_values(|b: Book| b@) =~= accp + seq![bv]);
                let rn = parse_entries_tail(s@, e as int);
                if rn is Some {
                    let bs = rn->Some_0.0;
                    assert((accp + seq![bv]) + bs =~= accp + (seq![bv] + bs));
                }
            }
            j = e;
        } else {
            return None;
        }
    }
}

/// Consume a whole document, matching [`parse_doc`].
#[verifier::rlimit(100)]
fn parse_doc_exec(s: &Vec<char>) -> (r: Option<(usize, Vec<Book>, usize)>)
    ensures
        match r {
            Some((c, bs, j)) => parse_doc(s@) == Some(
                (c as BookId, bs@.map_values(|b: Book| b@), j as int),
            ) && j <= s.len(),
            None => parse_doc(s@) is None,
        },
{
    let j1 = match parse_char_exec(s, 0, '{') {
        Some(x) => x,
        None => {
            return None;
        },
    };
    let (k1, j2) = match parse_string_exec(s, j1) {
        Some(x) => x,
        None => {
            return None;
        },
    };
    if !chars_are_id_counter(&k1) {
        return None;
    }
    let j3 = match parse_char_exec(s, j2, ':') {
        Some(x) => x,
        None => {
            return None;
        },
    };
    let (c, j4) = match parse_number_exec(s, j3) {
        Some(x) => x,
        None => {
            return None;
        },
    };
    let j5 = match parse_char_exec(s, j4, ',') {
        Some(x) => x,
        None => {
            return None;
        },
    };
    let (k2, j6) = match parse_string_exec(s, j5) {
        Some(x) => x,
        None => {
            return None;
        },
    };
    if !chars_are_books(&k2) {
        return None;
    }
    let j7 = match parse_char_exec(s, j6, ':') {
        Some(x) => x,
        None => {
            return None;
        },
    };
    let j8 = match parse_char_exec(s, j7, '{') {
        Some(x) => x,
        None => {
            return None;
        },
    };
    let (bs, j9) = match parse_entries_exec(s, j8) {
        Some(x) => x,
        None => {
            return None;
        },
    };
    let j10 = match parse_char_exec(s, j9, '}') {
        Some(x) => x,
        None => {
            return None;
        },
    };
    Some((c, bs, j10))
}

/// Parse a document from characters: the counter, the books in file
/// order, and the end position, exactly as [`parse_doc`] reads them.
pub(crate) fn parse_doc_chars(s: &Vec<char>) -> (r: Option<(usize, Vec<Book>, usize)>)
    ensures
        match r {
            Some((c, bs, j)) => parse_doc(s@) == Some(
                (c as BookId, bs@.map_values(|b: Book| b@), j as int),
            ) && j <= s.len() && skip_ws(s@, j as int) == s@.len(),
            None => parse_doc(s@) is None || (parse_doc(s@) matches Some((c2, bs2, e2)) && skip_ws(
                s@,
                e2,
            ) != s@.len()),
        },
{
    match parse_doc_exec(s) {
        None => None,
        Some((c, bs, j)) => {
            let e = skip_ws_exec(s, j);
            if e == s.len() {
                Some((c, bs, j))
            } else {
                None
            }
        },
    }
}

} // verus!
