//! The history store document format.
//!
//! The store is persisted as a JSON document of a fixed shape:
//! `{"entries":{<signature>:{"entry_type":"Raw","contents":[<token>...]}}}`.
//! The encoder writes one canonical form: no whitespace, entries in stored
//! order, strings escaping only what JSON forces (quote, backslash, and
//! control characters as `\u00XX`). The decoder reads any JSON document of
//! that structure: insignificant whitespace between tokens, either order
//! of an entry's two members, and the standard JSON string escapes,
//! surrogate pairs included. Decoding what `enc_db` produced returns the
//! very entries encoded.

use vstd::prelude::*;

use crate::ssh_command_database::EntryModel;
use crate::ssh_command_database::entry_tokens;

verus! {

/// The lowercase hex digit for a value below sixteen.
pub open spec fn hex_digit(n: u32) -> char {
    if n == 0 {
        '0'
    } else if n == 1 {
        '1'
    } else if n == 2 {
        '2'
    } else if n == 3 {
        '3'
    } else if n == 4 {
        '4'
    } else if n == 5 {
        '5'
    } else if n == 6 {
        '6'
    } else if n == 7 {
        '7'
    } else if n == 8 {
        '8'
    } else if n == 9 {
        '9'
    } else if n == 10 {
        'a'
    } else if n == 11 {
        'b'
    } else if n == 12 {
        'c'
    } else if n == 13 {
        'd'
    } else if n == 14 {
        'e'
    } else {
        'f'
    }
}

/// Whether `c` is a hex digit, either case.
pub open spec fn is_hex(c: char) -> bool {
    c == '0' || c == '1' || c == '2' || c == '3' || c == '4' || c == '5' || c == '6' || c == '7'
        || c == '8' || c == '9' || c == 'a' || c == 'b' || c == 'c' || c == 'd' || c == 'e' || c
        == 'f' || c == 'A' || c == 'B' || c == 'C' || c == 'D' || c == 'E' || c == 'F'
}

/// The value of a hex digit, either case.
pub open spec fn hex_val(c: char) -> u32 {
    if c == '0' {
        0
    } else if c == '1' {
        1
    } else if c == '2' {
        2
    } else if c == '3' {
        3
    } else if c == '4' {
        4
    } else if c == '5' {
        5
    } else if c == '6' {
        6
    } else if c == '7' {
        7
    } else if c == '8' {
        8
    } else if c == '9' {
        9
    } else if c == 'a' || c == 'A' {
        10
    } else if c == 'b' || c == 'B' {
        11
    } else if c == 'c' || c == 'C' {
        12
    } else if c == 'd' || c == 'D' {
        13
    } else if c == 'e' || c == 'E' {
        14
    } else {
        15
    }
}

/// Whether four characters are hex digits.
pub open spec fn is_hex4(a: char, b: char, c: char, d: char) -> bool {
    is_hex(a) && is_hex(b) && is_hex(c) && is_hex(d)
}

/// The value of four hex digits.
pub open spec fn hex4_val(a: char, b: char, c: char, d: char) -> int {
    4096 * (hex_val(a) as int) + 256 * (hex_val(b) as int) + 16 * (hex_val(c) as int) + (
    hex_val(d) as int)
}

/// How one character is written inside an encoded JSON string.
pub open spec fn esc_char(c: char) -> Seq<char> {
    if c == '"' {
        seq!['\\', '"']
    } else if c == '\\' {
        seq!['\\', '\\']
    } else if (c as u32) < 32 {
        seq!['\\', 'u', '0', '0', hex_digit((c as u32) / 16), hex_digit((c as u32) % 16)]
    } else {
        seq![c]
    }
}

/// The escaped body of an encoded JSON string.
pub open spec fn esc(t: Seq<char>) -> Seq<char>
    decreases t.len(),
{
    if t.len() == 0 {
        Seq::empty()
    } else {
        esc(t.drop_last()) + esc_char(t.last())
    }
}

/// An encoded JSON string: quote, escaped body, quote.
pub open spec fn enc_string(t: Seq<char>) -> Seq<char> {
    seq!['"'] + esc(t) + seq!['"']
}

/// The comma-separated encoded tokens of an array.
pub open spec fn enc_tokens(ts: Seq<Seq<char>>) -> Seq<char>
    decreases ts.len(),
{
    if ts.len() == 0 {
        Seq::empty()
    } else if ts.len() == 1 {
        enc_string(ts[0])
    } else {
        enc_tokens(ts.drop_last()) + seq![','] + enc_string(ts.last())
    }
}

/// An encoded JSON array of strings.
pub open spec fn enc_array(ts: Seq<Seq<char>>) -> Seq<char> {
    seq!['['] + enc_tokens(ts) + seq![']']
}

/// The member name of the entries map.
pub open spec fn lit_entries() -> Seq<char> {
    "entries"@
}

/// The member name of an entry's tag.
pub open spec fn lit_entry_type() -> Seq<char> {
    "entry_type"@
}

/// The tag of a raw-invocation entry.
pub open spec fn lit_raw() -> Seq<char> {
    "Raw"@
}

/// The member name of an entry's token array.
pub open spec fn lit_contents() -> Seq<char> {
    "contents"@
}

/// One encoded entry object: tag first, then the token array.
pub open spec fn enc_entry_obj(m: EntryModel) -> Seq<char> {
    seq!['{'] + enc_string(lit_entry_type()) + seq![':'] + enc_string(lit_raw()) + seq![',']
        + enc_string(lit_contents()) + seq![':'] + enc_array(entry_tokens(m)) + seq!['}']
}

/// One encoded store entry: signature, colon, entry object.
pub open spec fn enc_entry(k: Seq<char>, m: EntryModel) -> Seq<char> {
    enc_string(k) + seq![':'] + enc_entry_obj(m)
}

/// The comma-separated encoded entries.
pub open spec fn enc_entries(ps: Seq<(Seq<char>, EntryModel)>) -> Seq<char>
    decreases ps.len(),
{
    if ps.len() == 0 {
        Seq::empty()
    } else if ps.len() == 1 {
        enc_entry(ps[0].0, ps[0].1)
    } else {
        enc_entries(ps.drop_last()) + seq![','] + enc_entry(ps.last().0, ps.last().1)
    }
}

/// The whole encoded store document for the given entries, in their order.
pub open spec fn enc_db(ps: Seq<(Seq<char>, EntryModel)>) -> Seq<char> {
    seq!['{'] + enc_string(lit_entries()) + seq![':'] + seq!['{'] + enc_entries(ps) + seq![
        '}',
        '}',
    ]
}

// ---------------------------------------------------------------------
// decoding, on the remaining suffix of the document
// ---------------------------------------------------------------------

/// The whitespace JSON allows between tokens.
pub open spec fn is_json_ws(c: char) -> bool {
    c == ' ' || c == '\t' || c == '\n' || c == '\r'
}

/// `s` with leading JSON whitespace removed.
pub open spec fn skip_ws(s: Seq<char>) -> Seq<char>
    decreases s.len(),
{
    if s.len() > 0 && is_json_ws(s[0]) {
        skip_ws(s.drop_first())
    } else {
        s
    }
}

/// Skipping whitespace never lengthens the input.
pub proof fn lemma_skip_ws_len(s: Seq<char>)
    ensures
        skip_ws(s).len() <= s.len(),
    decreases s.len(),
{
    if s.len() > 0 && is_json_ws(s[0]) {
        lemma_skip_ws_len(s.drop_first());
    }
}

/// The character a short JSON escape stands for.
pub open spec fn esc_code(c: char) -> Option<char> {
    if c == '"' {
        Some('"')
    } else if c == '\\' {
        Some('\\')
    } else if c == '/' {
        Some('/')
    } else if c == 'b' {
        Some('\u{8}')
    } else if c == 'f' {
        Some('\u{c}')
    } else if c == 'n' {
        Some('\n')
    } else if c == 'r' {
        Some('\r')
    } else if c == 't' {
        Some('\t')
    } else {
        None
    }
}

/// Reads a string body up to its closing quote: raw characters, the short
/// escapes, and `\uXXXX`, a surrogate pair standing for one character.
/// Returns the unescaped text and the rest of the input.
#[verifier::opaque]
pub open spec fn dec_str_body(s: Seq<char>) -> Option<(Seq<char>, Seq<char>)>
    decreases s.len(),
{
    if s.len() == 0 {
        None
    } else if s[0] == '"' {
        Some((Seq::empty(), s.skip(1)))
    } else if s[0] == '\\' {
        if s.len() < 2 {
            None
        } else {
            match esc_code(s[1]) {
                Some(decoded) => match dec_str_body(s.skip(2)) {
                    Some((t, r)) => Some((seq![decoded] + t, r)),
                    None => None,
                },
                None => {
                    if s.len() >= 6 && s[1] == 'u' && is_hex4(s[2], s[3], s[4], s[5]) {
                        let v = hex4_val(s[2], s[3], s[4], s[5]);
                        if v < 0xD800 || v > 0xDFFF {
                            match dec_str_body(s.skip(6)) {
                                Some((t, r)) => Some((seq![((v as u32) as char)] + t, r)),
                                None => None,
                            }
                        } else if v <= 0xDBFF {
                            if s.len() >= 12 && s[6] == '\\' && s[7] == 'u' && is_hex4(
                                s[8],
                                s[9],
                                s[10],
                                s[11],
                            ) {
                                let w = hex4_val(s[8], s[9], s[10], s[11]);
                                if 0xDC00 <= w <= 0xDFFF {
                                    match dec_str_body(s.skip(12)) {
                                        Some((t, r)) => Some(
                                            (
                                                seq![(((0x10000 + (v - 0xD800) * 0x400 + (w
                                                    - 0xDC00)) as u32) as char)] + t,
                                                r,
                                            ),
                                        ),
                                        None => None,
                                    }
                                } else {
                                    None
                                }
                            } else {
                                None
                            }
                        } else {
                            None
                        }
                    } else {
                        None
                    }
                },
            }
        }
    } else {
        match dec_str_body(s.skip(1)) {
            Some((t, r)) => Some((seq![s[0]] + t, r)),
            None => None,
        }
    }
}

/// Whatever a string body hands back is strictly shorter than its input.
pub proof fn lemma_dec_str_suffix(s: Seq<char>)
    ensures
        dec_str_body(s) matches Some((t, r)) ==> r.len() < s.len(),
    decreases s.len(),
{
    reveal(dec_str_body);
    if s.len() > 0 && s[0] != '"' {
        if s[0] == '\\' && s.len() >= 2 {
            if esc_code(s[1]) is Some {
                lemma_dec_str_suffix(s.skip(2));
            } else if s.len() >= 6 {
                lemma_dec_str_suffix(s.skip(6));
                if s.len() >= 12 {
                    lemma_dec_str_suffix(s.skip(12));
                }
            }
        } else {
            lemma_dec_str_suffix(s.skip(1));
        }
    }
}

/// Reads the strings of an array from its first quote: one string, then
/// either a comma and more, or the closing bracket.
pub open spec fn dec_tokens(s: Seq<char>) -> Option<(Seq<Seq<char>>, Seq<char>)>
    decreases s.len(),
    via dec_tokens_decreases
{
    if !(s.len() > 0 && s[0] == '"') {
        None
    } else {
        match dec_str_body(s.skip(1)) {
            None => None,
            Some((t, r0)) => {
                let r = skip_ws(r0);
                if r.len() > 0 && r[0] == ',' {
                    match dec_tokens(skip_ws(r.skip(1))) {
                        Some((ts, r2)) => Some((seq![t] + ts, r2)),
                        None => None,
                    }
                } else if r.len() > 0 && r[0] == ']' {
                    Some((seq![t], r.skip(1)))
                } else {
                    None
                }
            },
        }
    }
}

#[via_fn]
proof fn dec_tokens_decreases(s: Seq<char>) {
    if s.len() > 0 && s[0] == '"' {
        lemma_dec_str_suffix(s.skip(1));
        match dec_str_body(s.skip(1)) {
            Some((t, r0)) => {
                lemma_skip_ws_len(r0);
                let r = skip_ws(r0);
                if r.len() > 0 && r[0] == ',' {
                    lemma_skip_ws_len(r.skip(1));
                }
            },
            None => {},
        }
    }
}

/// Whatever `dec_tokens` hands back is strictly shorter than its input.
pub proof fn lemma_dec_tokens_suffix(s: Seq<char>)
    ensures
        dec_tokens(s) matches Some((ts, r)) ==> r.len() < s.len(),
    decreases s.len(),
{
    if s.len() > 0 && s[0] == '"' {
        lemma_dec_str_suffix(s.skip(1));
        match dec_str_body(s.skip(1)) {
            Some((t, r0)) => {
                lemma_skip_ws_len(r0);
                let r = skip_ws(r0);
                if r.len() > 0 && r[0] == ',' {
                    lemma_skip_ws_len(r.skip(1));
                    lemma_dec_tokens_suffix(skip_ws(r.skip(1)));
                }
            },
            None => {},
        }
    }
}

/// Reads a JSON array of strings and returns the rest of the input.
pub open spec fn dec_array(s: Seq<char>) -> Option<(Seq<Seq<char>>, Seq<char>)> {
    if !(s.len() > 0 && s[0] == '[') {
        None
    } else {
        let r = skip_ws(s.skip(1));
        if r.len() > 0 && r[0] == ']' {
            Some((Seq::empty(), r.skip(1)))
        } else {
            dec_tokens(r)
        }
    }
}

/// Whatever `dec_array` hands back is strictly shorter than its input.
pub proof fn lemma_dec_array_suffix(s: Seq<char>)
    ensures
        dec_array(s) matches Some((ts, r)) ==> r.len() < s.len(),
{
    if s.len() > 0 && s[0] == '[' {
        lemma_skip_ws_len(s.skip(1));
        lemma_dec_tokens_suffix(skip_ws(s.skip(1)));
    }
}

/// Reads one entry object: both member orders are admitted, the tag must
/// be the raw tag, and exactly the two documented members may appear.
pub open spec fn dec_entry_obj(s: Seq<char>) -> Option<(EntryModel, Seq<char>)> {
    if !(s.len() > 0 && s[0] == '{') {
        None
    } else {
        let r = skip_ws(s.skip(1));
        if !(r.len() > 0 && r[0] == '"') {
            None
        } else {
            match dec_str_body(r.skip(1)) {
                None => None,
                Some((name, r1)) => {
                    let r2 = skip_ws(r1);
                    if !(r2.len() > 0 && r2[0] == ':') {
                        None
                    } else {
                        let r3 = skip_ws(r2.skip(1));
                        if name == lit_entry_type() {
                            dec_entry_obj_tail_tag_first(r3)
                        } else if name == lit_contents() {
                            dec_entry_obj_tail_contents_first(r3)
                        } else {
                            None
                        }
                    }
                },
            }
        }
    }
}

/// The rest of an entry object whose first member was the tag: the tag
/// value, then the token array member.
pub open spec fn dec_entry_obj_tail_tag_first(s: Seq<char>) -> Option<
    (EntryModel, Seq<char>),
> {
    if !(s.len() > 0 && s[0] == '"') {
        None
    } else {
        match dec_str_body(s.skip(1)) {
            None => None,
            Some((tag, r)) => {
                if tag != lit_raw() {
                    None
                } else {
                    let r1 = skip_ws(r);
                    if !(r1.len() > 0 && r1[0] == ',') {
                        None
                    } else {
                        let r2 = skip_ws(r1.skip(1));
                        if !(r2.len() > 0 && r2[0] == '"') {
                            None
                        } else {
                            match dec_str_body(r2.skip(1)) {
                                None => None,
                                Some((name, r3)) => {
                                    if name != lit_contents() {
                                        None
                                    } else {
                                        let r4 = skip_ws(r3);
                                        if !(r4.len() > 0 && r4[0] == ':') {
                                            None
                                        } else {
                                            match dec_array(skip_ws(r4.skip(1))) {
                                                None => None,
                                                Some((ts, r5)) => {
                                                    let r6 = skip_ws(r5);
                                                    if r6.len() > 0 && r6[0] == '}' {
                                                        Some(
                                                            (EntryModel::Raw(ts), r6.skip(1)),
                                                        )
                                                    } else {
                                                        None
                                                    }
                                                },
                                            }
                                        }
                                    }
                                },
                            }
                        }
                    }
                }
            },
        }
    }
}

/// The rest of an entry object whose first member was the token array:
/// the array, then the tag member.
pub open spec fn dec_entry_obj_tail_contents_first(s: Seq<char>) -> Option<
    (EntryModel, Seq<char>),
> {
    match dec_array(s) {
        None => None,
        Some((ts, r)) => {
            let r1 = skip_ws(r);
            if !(r1.len() > 0 && r1[0] == ',') {
                None
            } else {
                let r2 = skip_ws(r1.skip(1));
                if !(r2.len() > 0 && r2[0] == '"') {
                    None
                } else {
                    match dec_str_body(r2.skip(1)) {
                        None => None,
                        Some((name, r3)) => {
                            if name != lit_entry_type() {
                                None
                            } else {
                                let r4 = skip_ws(r3);
                                if !(r4.len() > 0 && r4[0] == ':') {
                                    None
                                } else {
                                    let r5 = skip_ws(r4.skip(1));
                                    if !(r5.len() > 0 && r5[0] == '"') {
                                        None
                                    } else {
                                        match dec_str_body(r5.skip(1)) {
                                            None => None,
                                            Some((tag, r6)) => {
                                                if tag != lit_raw() {
                                                    None
                                                } else {
                                                    let r7 = skip_ws(r6);
                                                    if r7.len() > 0 && r7[0] == '}' {
                                                        Some(
                                                            (EntryModel::Raw(ts), r7.skip(1)),
                                                        )
                                                    } else {
                                                        None
                                                    }
                                                }
                                            },
                                        }
                                    }
                                }
                            }
                        },
                    }
                }
            }
        },
    }
}

/// Whatever `dec_entry_obj` hands back is strictly shorter than its input.
pub proof fn lemma_dec_entry_obj_suffix(s: Seq<char>)
    ensures
        dec_entry_obj(s) matches Some((m, r)) ==> r.len() < s.len(),
{
    if s.len() > 0 && s[0] == '{' {
        lemma_skip_ws_len(s.skip(1));
        let r = skip_ws(s.skip(1));
        if r.len() > 0 && r[0] == '"' {
            lemma_dec_str_suffix(r.skip(1));
            match dec_str_body(r.skip(1)) {
                Some((name, r1)) => {
                    lemma_skip_ws_len(r1);
                    let r2 = skip_ws(r1);
                    if r2.len() > 0 && r2[0] == ':' {
                        lemma_skip_ws_len(r2.skip(1));
                        let r3 = skip_ws(r2.skip(1));
                        lemma_dec_entry_obj_tail_tag_suffix(r3);
                        lemma_dec_entry_obj_tail_contents_suffix(r3);
                    }
                },
                None => {},
            }
        }
    }
}

/// The tag-first tail never lengthens the input.
proof fn lemma_dec_entry_obj_tail_tag_suffix(s: Seq<char>)
    ensures
        dec_entry_obj_tail_tag_first(s) matches Some((m, r)) ==> r.len() <= s.len(),
{
    if s.len() > 0 && s[0] == '"' {
        lemma_dec_str_suffix(s.skip(1));
        match dec_str_body(s.skip(1)) {
            Some((tag, r)) => {
                lemma_skip_ws_len(r);
                let r1 = skip_ws(r);
                if r1.len() > 0 && r1[0] == ',' {
                    lemma_skip_ws_len(r1.skip(1));
                    let r2 = skip_ws(r1.skip(1));
                    if r2.len() > 0 && r2[0] == '"' {
                        lemma_dec_str_suffix(r2.skip(1));
                        match dec_str_body(r2.skip(1)) {
                            Some((name, r3)) => {
                                lemma_skip_ws_len(r3);
                                let r4 = skip_ws(r3);
                                if r4.len() > 0 && r4[0] == ':' {
                                    lemma_skip_ws_len(r4.skip(1));
                                    lemma_dec_array_suffix(skip_ws(r4.skip(1)));
                                    match dec_array(skip_ws(r4.skip(1))) {
                                        Some((ts, r5)) => {
                                            lemma_skip_ws_len(r5);
                                        },
                                        None => {},
                                    }
                                }
                            },
                            None => {},
                        }
                    }
                }
            },
            None => {},
        }
    }
}

/// The array-first tail never lengthens the input.
proof fn lemma_dec_entry_obj_tail_contents_suffix(s: Seq<char>)
    ensures
        dec_entry_obj_tail_contents_first(s) matches Some((m, r)) ==> r.len() <= s.len(),
{
    lemma_dec_array_suffix(s);
    match dec_array(s) {
        Some((ts, r)) => {
            lemma_skip_ws_len(r);
            let r1 = skip_ws(r);
            if r1.len() > 0 && r1[0] == ',' {
                lemma_skip_ws_len(r1.skip(1));
                let r2 = skip_ws(r1.skip(1));
                if r2.len() > 0 && r2[0] == '"' {
                    lemma_dec_str_suffix(r2.skip(1));
                    match dec_str_body(r2.skip(1)) {
                        Some((name, r3)) => {
                            lemma_skip_ws_len(r3);
                            let r4 = skip_ws(r3);
                            if r4.len() > 0 && r4[0] == ':' {
                                lemma_skip_ws_len(r4.skip(1));
                                let r5 = skip_ws(r4.skip(1));
                                if r5.len() > 0 && r5[0] == '"' {
                                    lemma_dec_str_suffix(r5.skip(1));
                                    match dec_str_body(r5.skip(1)) {
                                        Some((tag, r6)) => {
                                            lemma_skip_ws_len(r6);
                                        },
                                        None => {},
                                    }
                                }
                            }
                        },
                        None => {},
                    }
                }
            }
        },
        None => {},
    }
}

/// Reads one store entry: the signature string, a colon, the entry object.
pub open spec fn dec_entry(s: Seq<char>) -> Option<((Seq<char>, EntryModel), Seq<char>)> {
    if !(s.len() > 0 && s[0] == '"') {
        None
    } else {
        match dec_str_body(s.skip(1)) {
            None => None,
            Some((k, r0)) => {
                let r = skip_ws(r0);
                if !(r.len() > 0 && r[0] == ':') {
                    None
                } else {
                    match dec_entry_obj(skip_ws(r.skip(1))) {
                        Some((m, r2)) => Some(((k, m), r2)),
                        None => None,
                    }
                }
            },
        }
    }
}

/// Whatever `dec_entry` hands back is strictly shorter than its input.
pub proof fn lemma_dec_entry_suffix(s: Seq<char>)
    ensures
        dec_entry(s) matches Some((p, r)) ==> r.len() < s.len(),
{
    if s.len() > 0 && s[0] == '"' {
        lemma_dec_str_suffix(s.skip(1));
        match dec_str_body(s.skip(1)) {
            Some((k, r0)) => {
                lemma_skip_ws_len(r0);
                let r = skip_ws(r0);
                if r.len() > 0 && r[0] == ':' {
                    lemma_skip_ws_len(r.skip(1));
                    lemma_dec_entry_obj_suffix(skip_ws(r.skip(1)));
                }
            },
            None => {},
        }
    }
}

/// Reads the entries of the store object: one entry, then either a comma
/// and more, or the closing brace.
pub open spec fn dec_entries(s: Seq<char>) -> Option<
    (Seq<(Seq<char>, EntryModel)>, Seq<char>),
>
    decreases s.len(),
    via dec_entries_decreases
{
    match dec_entry(s) {
        None => None,
        Some((p, r0)) => {
            let r = skip_ws(r0);
            if r.len() > 0 && r[0] == ',' {
                match dec_entries(skip_ws(r.skip(1))) {
                    Some((ps, r2)) => Some((seq![p] + ps, r2)),
                    None => None,
                }
            } else if r.len() > 0 && r[0] == '}' {
                Some((seq![p], r.skip(1)))
            } else {
                None
            }
        },
    }
}

#[via_fn]
proof fn dec_entries_decreases(s: Seq<char>) {
    lemma_dec_entry_suffix(s);
    match dec_entry(s) {
        Some((p, r0)) => {
            lemma_skip_ws_len(r0);
            let r = skip_ws(r0);
            if r.len() > 0 && r[0] == ',' {
                lemma_skip_ws_len(r.skip(1));
            }
        },
        None => {},
    }
}

/// Reads a whole store document: whitespace around and between tokens is
/// insignificant, and all of the input must be consumed.
pub open spec fn dec_db(s: Seq<char>) -> Option<Seq<(Seq<char>, EntryModel)>> {
    let r0 = skip_ws(s);
    if !(r0.len() > 0 && r0[0] == '{') {
        None
    } else {
        let r1 = skip_ws(r0.skip(1));
        if !(r1.len() > 0 && r1[0] == '"') {
            None
        } else {
            match dec_str_body(r1.skip(1)) {
                None => None,
                Some((name, r2)) => {
                    if name != lit_entries() {
                        None
                    } else {
                        let r3 = skip_ws(r2);
                        if !(r3.len() > 0 && r3[0] == ':') {
                            None
                        } else {
                            let r4 = skip_ws(r3.skip(1));
                            if !(r4.len() > 0 && r4[0] == '{') {
                                None
                            } else {
                                let r5 = skip_ws(r4.skip(1));
                                if r5.len() > 0 && r5[0] == '}' {
                                    let r6 = skip_ws(r5.skip(1));
                                    if r6.len() > 0 && r6[0] == '}' && skip_ws(
                                        r6.skip(1),
                                    ).len() == 0 {
                                        Some(Seq::empty())
                                    } else {
                                        None
                                    }
                                } else {
                                    match dec_entries(r5) {
                                        Some((ps, r6)) => {
                                            let r7 = skip_ws(r6);
                                            if r7.len() > 0 && r7[0] == '}' && skip_ws(
                                                r7.skip(1),
                                            ).len() == 0 {
                                                Some(ps)
                                            } else {
                                                None
                                            }
                                        },
                                        None => None,
                                    }
                                }
                            }
                        }
                    }
                },
            }
        }
    }
}

// ---------------------------------------------------------------------
// decoding inverts encoding
// ---------------------------------------------------------------------

/// The escaped body can also be peeled from the front.
proof fn lemma_esc_front(t: Seq<char>)
    requires
        t.len() > 0,
    ensures
        esc(t) == esc_char(t[0]) + esc(t.drop_first()),
    decreases t.len(),
{
    if t.len() == 1 {
        assert(t.drop_last() =~= Seq::<char>::empty());
        assert(t.drop_first() =~= Seq::<char>::empty());
        assert(esc(t) =~= esc_char(t[0]) + esc(t.drop_first()));
    } else {
        let d = t.drop_last();
        lemma_esc_front(d);
        assert(d[0] == t[0]);
        assert(t.drop_first().drop_last() =~= d.drop_first());
        assert(t.drop_first().last() == t.last());
        assert(esc(t.drop_first()) == esc(d.drop_first()) + esc_char(t.last()));
        assert(esc(t) == (esc_char(t[0]) + esc(d.drop_first())) + esc_char(t.last()));
        assert((esc_char(t[0]) + esc(d.drop_first())) + esc_char(t.last()) =~= esc_char(t[0])
            + (esc(d.drop_first()) + esc_char(t.last())));
    }
}

/// The hex digit of a value below sixteen reads back as that value.
proof fn lemma_hex_digit(n: u32)
    requires
        n < 16,
    ensures
        is_hex(hex_digit(n)),
        hex_val(hex_digit(n)) == n,
{
}

/// Reading a string body after an encoded body returns exactly the text
/// encoded, whatever follows the closing quote.
proof fn lemma_inv_str(t: Seq<char>, rest: Seq<char>)
    ensures
        dec_str_body(esc(t) + seq!['"'] + rest) == Some((t, rest)),
    decreases t.len(),
{
    reveal(dec_str_body);
    let s = esc(t) + seq!['"'] + rest;
    if t.len() == 0 {
        assert(esc(t) =~= Seq::<char>::empty());
        assert(s[0] == '"');
        assert(s.skip(1) =~= rest);
    } else {
        lemma_esc_front(t);
        let c = t[0];
        let tail = t.drop_first();
        assert(s =~= esc_char(c) + (esc(tail) + seq!['"'] + rest));
        let s2 = esc(tail) + seq!['"'] + rest;
        lemma_inv_str(tail, rest);
        if c == '"' {
            assert(s[0] == '\\' && s[1] == '"');
            assert(esc_code(s[1]) == Some('"'));
            assert(s.skip(2) =~= s2);
            assert(seq![c] + tail =~= t);
        } else if c == '\\' {
            assert(s[0] == '\\' && s[1] == '\\');
            assert(esc_code(s[1]) == Some('\\'));
            assert(s.skip(2) =~= s2);
            assert(seq![c] + tail =~= t);
        } else if (c as u32) < 32 {
            let v = c as u32;
            lemma_hex_digit(v / 16);
            lemma_hex_digit(v % 16);
            assert(s[0] == '\\' && s[1] == 'u' && s[2] == '0' && s[3] == '0');
            assert(esc_code('u') is None);
            assert(s[4] == hex_digit(v / 16) && s[5] == hex_digit(v % 16));
            assert(hex_val('0') == 0);
            assert(hex4_val(s[2], s[3], s[4], s[5]) == v);
            assert(v < 0xD800);
            assert(s.skip(6) =~= s2);
            vstd::utf8::char_u32_cast(c, v);
            assert(((hex4_val(s[2], s[3], s[4], s[5]) as u32) as char) == c);
            assert(seq![c] + tail =~= t);
        } else {
            assert(s[0] == c);
            assert(s.skip(1) =~= s2);
            assert(seq![c] + tail =~= t);
        }
    }
}

/// The encoded tokens can also be peeled from the front.
proof fn lemma_enc_tokens_front(ts: Seq<Seq<char>>)
    requires
        ts.len() > 1,
    ensures
        enc_tokens(ts) == enc_string(ts[0]) + seq![','] + enc_tokens(ts.drop_first()),
    decreases ts.len(),
{
    if ts.len() == 2 {
        assert(ts.drop_last().len() == 1);
        assert(ts.drop_last()[0] == ts[0]);
        assert(ts.drop_first().len() == 1);
        assert(ts.drop_first()[0] == ts[1]);
        assert(ts.last() == ts[1]);
        assert(enc_tokens(ts.drop_last()) == enc_string(ts[0]));
        assert(enc_tokens(ts.drop_first()) == enc_string(ts[1]));
        assert(enc_tokens(ts) == enc_string(ts[0]) + seq![','] + enc_string(ts[1]));
    } else {
        let d = ts.drop_last();
        lemma_enc_tokens_front(d);
        assert(d[0] == ts[0]);
        assert(ts.drop_first().drop_last() =~= d.drop_first());
        assert(ts.drop_first().last() == ts.last());
        assert(ts.drop_first().len() > 1);
        assert(enc_tokens(ts.drop_first()) == enc_tokens(d.drop_first()) + seq![',']
            + enc_string(ts.last()));
        assert(enc_tokens(ts) == (enc_string(ts[0]) + seq![','] + enc_tokens(d.drop_first()))
            + seq![','] + enc_string(ts.last()));
        assert((enc_string(ts[0]) + seq![','] + enc_tokens(d.drop_first())) + seq![',']
            + enc_string(ts.last()) =~= enc_string(ts[0]) + seq![','] + (enc_tokens(
            d.drop_first(),
        ) + seq![','] + enc_string(ts.last())));
    }
}

/// Reading tokens after encoded tokens and the closing bracket returns
/// exactly the tokens encoded.
#[verifier::rlimit(100)]
proof fn lemma_inv_tokens(ts: Seq<Seq<char>>, rest: Seq<char>)
    requires
        ts.len() > 0,
    ensures
        dec_tokens(enc_tokens(ts) + seq![']'] + rest) == Some((ts, rest)),
    decreases ts.len(),
{
    let s = enc_tokens(ts) + seq![']'] + rest;
    if ts.len() == 1 {
        let t = ts[0];
        assert(s =~= seq!['"'] + (esc(t) + seq!['"'] + (seq![']'] + rest)));
        assert(s[0] == '"');
        assert(s.skip(1) =~= esc(t) + seq!['"'] + (seq![']'] + rest));
        lemma_inv_str(t, seq![']'] + rest);
        let r0 = seq![']'] + rest;
        assert(r0[0] == ']');
        assert(skip_ws(r0) == r0);
        assert(r0.skip(1) =~= rest);
        assert(seq![t] =~= ts);
    } else {
        lemma_enc_tokens_front(ts);
        let t = ts[0];
        let tail = ts.drop_first();
        assert(s =~= seq!['"'] + (esc(t) + seq!['"'] + (seq![','] + enc_tokens(tail)
            + seq![']'] + rest)));
        assert(s[0] == '"');
        assert(s.skip(1) =~= esc(t) + seq!['"'] + (seq![','] + enc_tokens(tail) + seq![']']
            + rest));
        lemma_inv_str(t, seq![','] + enc_tokens(tail) + seq![']'] + rest);
        let r0 = seq![','] + enc_tokens(tail) + seq![']'] + rest;
        assert(r0[0] == ',');
        assert(skip_ws(r0) == r0);
        assert(r0.skip(1) =~= enc_tokens(tail) + seq![']'] + rest);
        lemma_enc_tokens_first(tail);
        assert((enc_tokens(tail) + seq![']'] + rest)[0] == '"');
        assert(skip_ws(r0.skip(1)) == r0.skip(1));
        lemma_inv_tokens(tail, rest);
        assert(seq![t] + tail =~= ts);
    }
}

/// An encoded token list opens with a quote.
proof fn lemma_enc_tokens_first(ts: Seq<Seq<char>>)
    requires
        ts.len() > 0,
    ensures
        enc_tokens(ts).len() > 0,
        enc_tokens(ts)[0] == '"',
    decreases ts.len(),
{
    if ts.len() > 1 {
        lemma_enc_tokens_front(ts);
    }
}

/// Reading an array after an encoded array returns exactly the tokens.
proof fn lemma_inv_array(ts: Seq<Seq<char>>, rest: Seq<char>)
    ensures
        dec_array(enc_array(ts) + rest) == Some((ts, rest)),
{
    let s = enc_array(ts) + rest;
    assert(s[0] == '[');
    if ts.len() == 0 {
        assert(enc_tokens(ts) =~= Seq::<char>::empty());
        assert(s.skip(1) =~= seq![']'] + rest);
        assert((seq![']'] + rest)[0] == ']');
        assert(skip_ws(s.skip(1)) == s.skip(1));
        assert((seq![']'] + rest).skip(1) =~= rest);
        assert(Seq::<Seq<char>>::empty() =~= ts);
    } else {
        lemma_enc_tokens_first(ts);
        assert(s.skip(1) =~= enc_tokens(ts) + seq![']'] + rest);
        assert(s.skip(1)[0] == '"');
        assert(skip_ws(s.skip(1)) == s.skip(1));
        assert(s.skip(1)[0] != ']');
        lemma_inv_tokens(ts, rest);
    }
}

/// Reading an entry object after an encoded one returns exactly its value.
#[verifier::rlimit(100)]
proof fn lemma_inv_entry_obj(m: EntryModel, rest: Seq<char>)
    ensures
        dec_entry_obj(enc_entry_obj(m) + rest) == Some((m, rest)),
{
    let s = enc_entry_obj(m) + rest;
    let ts = entry_tokens(m);
    assert(s[0] == '{');
    let rest1 = seq![':'] + enc_string(lit_raw()) + seq![','] + enc_string(lit_contents())
        + seq![':'] + enc_array(ts) + seq!['}'] + rest;
    assert(s.skip(1) =~= seq!['"'] + (esc(lit_entry_type()) + seq!['"'] + rest1));
    assert(s.skip(1)[0] == '"');
    assert(skip_ws(s.skip(1)) == s.skip(1));
    assert(s.skip(1).skip(1) =~= esc(lit_entry_type()) + seq!['"'] + rest1);
    lemma_inv_str(lit_entry_type(), rest1);
    assert(rest1[0] == ':');
    assert(skip_ws(rest1) == rest1);
    let rest2 = enc_string(lit_raw()) + seq![','] + enc_string(lit_contents()) + seq![':']
        + enc_array(ts) + seq!['}'] + rest;
    assert(rest1.skip(1) =~= rest2);
    assert(rest2[0] == '"');
    assert(skip_ws(rest2) == rest2);
    // the tag value
    let rest3 = seq![','] + enc_string(lit_contents()) + seq![':'] + enc_array(ts) + seq!['}']
        + rest;
    assert(rest2 =~= seq!['"'] + (esc(lit_raw()) + seq!['"'] + rest3));
    assert(rest2.skip(1) =~= esc(lit_raw()) + seq!['"'] + rest3);
    lemma_inv_str(lit_raw(), rest3);
    assert(rest3[0] == ',');
    assert(skip_ws(rest3) == rest3);
    let rest4 = enc_string(lit_contents()) + seq![':'] + enc_array(ts) + seq!['}'] + rest;
    assert(rest3.skip(1) =~= rest4);
    assert(rest4[0] == '"');
    assert(skip_ws(rest4) == rest4);
    // the contents member
    let rest5 = seq![':'] + enc_array(ts) + seq!['}'] + rest;
    assert(rest4 =~= seq!['"'] + (esc(lit_contents()) + seq!['"'] + rest5));
    assert(rest4.skip(1) =~= esc(lit_contents()) + seq!['"'] + rest5);
    lemma_inv_str(lit_contents(), rest5);
    assert(rest5[0] == ':');
    assert(skip_ws(rest5) == rest5);
    let rest6 = enc_array(ts) + (seq!['}'] + rest);
    assert(rest5.skip(1) =~= rest6);
    assert(rest6[0] == '[');
    assert(skip_ws(rest6) == rest6);
    lemma_inv_array(ts, seq!['}'] + rest);
    let rest7 = seq!['}'] + rest;
    assert(rest7[0] == '}');
    assert(skip_ws(rest7) == rest7);
    assert(rest7.skip(1) =~= rest);
    assert(EntryModel::Raw(ts) == m);
}

/// Reading one entry after an encoded entry returns exactly that entry.
proof fn lemma_inv_entry(k: Seq<char>, m: EntryModel, rest: Seq<char>)
    ensures
        dec_entry(enc_entry(k, m) + rest) == Some(((k, m), rest)),
{
    let s = enc_entry(k, m) + rest;
    let rest1 = seq![':'] + enc_entry_obj(m) + rest;
    assert(s =~= seq!['"'] + (esc(k) + seq!['"'] + rest1));
    assert(s[0] == '"');
    assert(s.skip(1) =~= esc(k) + seq!['"'] + rest1);
    lemma_inv_str(k, rest1);
    assert(rest1[0] == ':');
    assert(skip_ws(rest1) == rest1);
    let rest2 = enc_entry_obj(m) + rest;
    assert(rest1.skip(1) =~= rest2);
    assert(rest2[0] == '{');
    assert(skip_ws(rest2) == rest2);
    lemma_inv_entry_obj(m, rest);
}

/// The encoded entries can also be peeled from the front.
proof fn lemma_enc_entries_front(ps: Seq<(Seq<char>, EntryModel)>)
    requires
        ps.len() > 1,
    ensures
        enc_entries(ps) == enc_entry(ps[0].0, ps[0].1) + seq![','] + enc_entries(
            ps.drop_first(),
        ),
    decreases ps.len(),
{
    if ps.len() == 2 {
        assert(ps.drop_last().len() == 1);
        assert(ps.drop_last()[0] == ps[0]);
        assert(ps.drop_first().len() == 1);
        assert(ps.drop_first()[0] == ps[1]);
        assert(ps.last() == ps[1]);
        assert(enc_entries(ps.drop_last()) == enc_entry(ps[0].0, ps[0].1));
        assert(enc_entries(ps.drop_first()) == enc_entry(ps[1].0, ps[1].1));
        assert(enc_entries(ps) == enc_entry(ps[0].0, ps[0].1) + seq![','] + enc_entry(
            ps[1].0,
            ps[1].1,
        ));
    } else {
        let d = ps.drop_last();
        lemma_enc_entries_front(d);
        assert(d[0] == ps[0]);
        assert(ps.drop_first().drop_last() =~= d.drop_first());
        assert(ps.drop_first().last() == ps.last());
        assert(ps.drop_first().len() > 1);
        assert(enc_entries(ps.drop_first()) == enc_entries(d.drop_first()) + seq![',']
            + enc_entry(ps.last().0, ps.last().1));
        assert(enc_entries(ps) == (enc_entry(ps[0].0, ps[0].1) + seq![','] + enc_entries(
            d.drop_first(),
        )) + seq![','] + enc_entry(ps.last().0, ps.last().1));
        assert((enc_entry(ps[0].0, ps[0].1) + seq![','] + enc_entries(d.drop_first()))
            + seq![','] + enc_entry(ps.last().0, ps.last().1) =~= enc_entry(ps[0].0, ps[0].1)
            + seq![','] + (enc_entries(d.drop_first()) + seq![','] + enc_entry(
            ps.last().0,
            ps.last().1,
        )));
    }
}

/// An encoded entry list opens with a quote.
proof fn lemma_enc_entries_first(ps: Seq<(Seq<char>, EntryModel)>)
    requires
        ps.len() > 0,
    ensures
        enc_entries(ps).len() > 0,
        enc_entries(ps)[0] == '"',
    decreases ps.len(),
{
    if ps.len() > 1 {
        lemma_enc_entries_front(ps);
    }
}

/// Reading entries after encoded entries and the closing brace returns
/// exactly the entries encoded.
#[verifier::rlimit(60)]
proof fn lemma_inv_entries(ps: Seq<(Seq<char>, EntryModel)>, rest: Seq<char>)
    requires
        ps.len() > 0,
    ensures
        dec_entries(enc_entries(ps) + seq!['}'] + rest) == Some((ps, rest)),
    decreases ps.len(),
{
    let s = enc_entries(ps) + seq!['}'] + rest;
    if ps.len() == 1 {
        assert(s =~= enc_entry(ps[0].0, ps[0].1) + (seq!['}'] + rest));
        lemma_inv_entry(ps[0].0, ps[0].1, seq!['}'] + rest);
        let r0 = seq!['}'] + rest;
        assert(r0[0] == '}');
        assert(skip_ws(r0) == r0);
        assert(r0.skip(1) =~= rest);
        assert(seq![(ps[0].0, ps[0].1)] =~= ps);
    } else {
        lemma_enc_entries_front(ps);
        let tail = ps.drop_first();
        assert(s =~= enc_entry(ps[0].0, ps[0].1) + (seq![','] + enc_entries(tail) + seq!['}']
            + rest));
        lemma_inv_entry(ps[0].0, ps[0].1, seq![','] + enc_entries(tail) + seq!['}'] + rest);
        let r0 = seq![','] + enc_entries(tail) + seq!['}'] + rest;
        assert(r0[0] == ',');
        assert(skip_ws(r0) == r0);
        assert(r0.skip(1) =~= enc_entries(tail) + seq!['}'] + rest);
        lemma_enc_entries_first(tail);
        assert((enc_entries(tail) + seq!['}'] + rest)[0] == '"');
        assert(skip_ws(r0.skip(1)) == r0.skip(1));
        lemma_inv_entries(tail, rest);
        assert(seq![(ps[0].0, ps[0].1)] + tail =~= ps);
    }
}

// ---------------------------------------------------------------------
// executable encoder
// ---------------------------------------------------------------------

/// The lowercase hex digit for a value below sixteen, computed.
fn hex_digit_exec(n: u32) -> (c: char)
    requires
        n < 16,
    ensures
        c == hex_digit(n),
{
    if n == 0 {
        '0'
    } else if n == 1 {
        '1'
    } else if n == 2 {
        '2'
    } else if n == 3 {
        '3'
    } else if n == 4 {
        '4'
    } else if n == 5 {
        '5'
    } else if n == 6 {
        '6'
    } else if n == 7 {
        '7'
    } else if n == 8 {
        '8'
    } else if n == 9 {
        '9'
    } else if n == 10 {
        'a'
    } else if n == 11 {
        'b'
    } else if n == 12 {
        'c'
    } else if n == 13 {
        'd'
    } else if n == 14 {
        'e'
    } else {
        'f'
    }
}

/// Appends the escaped form of one character.
fn push_escaped(out: &mut String, c: char)
    ensures
        final(out)@ == old(out)@ + esc_char(c),
{
    if c == '"' {
        out.append("\\\"");
        proof {
            reveal_strlit("\\\"");
            assert("\\\""@ =~= seq!['\\', '"']);
        }
    } else if c == '\\' {
        out.append("\\\\");
        proof {
            reveal_strlit("\\\\");
            assert("\\\\"@ =~= seq!['\\', '\\']);
        }
    } else if (c as u32) < 32 {
        let v = c as u32;
        out.append("\\u00");
        crate::text::push_char(out, hex_digit_exec(v / 16));
        crate::text::push_char(out, hex_digit_exec(v % 16));
        proof {
            reveal_strlit("\\u00");
            assert("\\u00"@ =~= seq!['\\', 'u', '0', '0']);
            assert(old(out)@ + "\\u00"@ + seq![hex_digit(v / 16)] + seq![hex_digit(v % 16)]
                =~= old(out)@ + esc_char(c));
            assert(out@ =~= old(out)@ + "\\u00"@ + seq![hex_digit(v / 16)] + seq![hex_digit(
                v % 16,
            )]);
        }
    } else {
        crate::text::push_char(out, c);
        proof {
            assert(old(out)@.push(c) =~= old(out)@ + seq![c]);
        }
    }
}

/// Appends the encoded JSON string for `t`.
fn encode_string_into(out: &mut String, t: &str)
    ensures
        final(out)@ == old(out)@ + enc_string(t@),
{
    crate::text::push_char(out, '"');
    proof {
        assert(old(out)@.push('"') =~= old(out)@ + seq!['"']);
        assert(t@.take(0) =~= Seq::<char>::empty());
    }
    let n = t.unicode_len();
    let mut i: usize = 0;
    while i < n
        invariant
            0 <= i <= n,
            n == t@.len(),
            out@ == old(out)@ + seq!['"'] + esc(t@.take(i as int)),
        decreases n - i,
    {
        let c = t.get_char(i);
        push_escaped(out, c);
        proof {
            assert(t@.take(i + 1).drop_last() =~= t@.take(i as int));
            assert(t@.take(i + 1).last() == t@[i as int]);
            assert(out@ =~= old(out)@ + seq!['"'] + esc(t@.take(i + 1)));
        }
        i = i + 1;
    }
    crate::text::push_char(out, '"');
    proof {
        assert(t@.take(n as int) =~= t@);
        assert(out@ =~= old(out)@ + enc_string(t@));
    }
}

/// Appends the encoded JSON array for the tokens.
fn encode_array_into(out: &mut String, toks: &Vec<String>)
    ensures
        final(out)@ == old(out)@ + enc_array(toks.deep_view()),
{
    crate::text::push_char(out, '[');
    proof {
        assert(old(out)@.push('[') =~= old(out)@ + seq!['[']);
        assert(toks.deep_view().take(0) =~= Seq::<Seq<char>>::empty());
    }
    let mut i: usize = 0;
    while i < toks.len()
        invariant
            0 <= i <= toks.len(),
            toks.deep_view().len() == toks@.len(),
            forall|j: int| 0 <= j < toks@.len() ==> toks.deep_view()[j] == toks@[j]@,
            out@ == old(out)@ + seq!['['] + enc_tokens(toks.deep_view().take(i as int)),
        decreases toks.len() - i,
    {
        if i > 0 {
            crate::text::push_char(out, ',');
            proof {
                assert(out@ =~= old(out)@ + seq!['['] + enc_tokens(
                    toks.deep_view().take(i as int),
                ) + seq![',']);
            }
        }
        encode_string_into(out, toks[i].as_str());
        proof {
            let dv = toks.deep_view();
            assert(dv.take(i + 1).drop_last() =~= dv.take(i as int));
            assert(dv.take(i + 1).last() == dv[i as int]);
            if i == 0 {
                assert(dv.take(1).len() == 1);
                assert(dv.take(1)[0] == dv[0]);
                assert(out@ =~= old(out)@ + seq!['['] + enc_tokens(dv.take(i + 1)));
            } else {
                assert(enc_tokens(dv.take(i + 1)) == enc_tokens(dv.take(i as int)) + seq![',']
                    + enc_string(dv[i as int]));
                assert(out@ =~= old(out)@ + seq!['['] + enc_tokens(dv.take(i + 1)));
            }
        }
        i = i + 1;
    }
    crate::text::push_char(out, ']');
    proof {
        assert(toks.deep_view().take(toks@.len() as int) =~= toks.deep_view());
        assert(out@ =~= old(out)@ + enc_array(toks.deep_view()));
    }
}

/// Appends one encoded entry.
fn encode_entry_into(
    out: &mut String,
    key: &str,
    entry: &crate::ssh_command_database::DatabaseEntry,
)
    ensures
        final(out)@ == old(out)@ + enc_entry(key@, entry@),
{
    encode_string_into(out, key);
    crate::text::push_char(out, ':');
    crate::text::push_char(out, '{');
    encode_string_into(out, "entry_type");
    crate::text::push_char(out, ':');
    encode_string_into(out, "Raw");
    crate::text::push_char(out, ',');
    encode_string_into(out, "contents");
    crate::text::push_char(out, ':');
    match entry {
        crate::ssh_command_database::DatabaseEntry::Raw { contents } => {
            encode_array_into(out, contents);
            proof {
                assert(entry_tokens(entry@) == contents.deep_view());
            }
        },
    }
    crate::text::push_char(out, '}');
    proof {
        assert(out@ =~= old(out)@ + enc_entry(key@, entry@));
    }
}

/// Encodes the entries as the canonical store document.
pub fn encode_db(entries: &Vec<(String, crate::ssh_command_database::DatabaseEntry)>) -> (r:
    String)
    ensures
        r@ == enc_db(crate::smap::kv_view(entries@)),
{
    let ghost kv = crate::smap::kv_view(entries@);
    let mut out = String::new();
    crate::text::push_char(&mut out, '{');
    encode_string_into(&mut out, "entries");
    crate::text::push_char(&mut out, ':');
    crate::text::push_char(&mut out, '{');
    proof {
        assert(out@ =~= seq!['{'] + enc_string(lit_entries()) + seq![':'] + seq!['{']);
        assert(kv.take(0) =~= Seq::<(Seq<char>, EntryModel)>::empty());
    }
    let ghost head = out@;
    let mut i: usize = 0;
    while i < entries.len()
        invariant
            0 <= i <= entries@.len(),
            kv == crate::smap::kv_view(entries@),
            kv.len() == entries@.len(),
            head == seq!['{'] + enc_string(lit_entries()) + seq![':'] + seq!['{'],
            out@ == head + enc_entries(kv.take(i as int)),
        decreases entries@.len() - i,
    {
        if i > 0 {
            crate::text::push_char(&mut out, ',');
            proof {
                assert(out@ =~= head + enc_entries(kv.take(i as int)) + seq![',']);
            }
        }
        encode_entry_into(&mut out, entries[i].0.as_str(), &entries[i].1);
        proof {
            assert(kv[i as int] == (entries@[i as int].0@, entries@[i as int].1@));
            assert(kv.take(i + 1).drop_last() =~= kv.take(i as int));
            assert(kv.take(i + 1).last() == kv[i as int]);
            if i == 0 {
                assert(kv.take(1).len() == 1);
                assert(kv.take(1)[0] == kv[0]);
                assert(out@ =~= head + enc_entries(kv.take(i + 1)));
            } else {
                assert(enc_entries(kv.take(i + 1)) == enc_entries(kv.take(i as int))
                    + seq![','] + enc_entry(kv[i as int].0, kv[i as int].1));
                assert(out@ =~= head + enc_entries(kv.take(i + 1)));
            }
        }
        i = i + 1;
    }
    crate::text::push_char(&mut out, '}');
    crate::text::push_char(&mut out, '}');
    proof {
        assert(kv.take(kv.len() as int) =~= kv);
        assert(out@ =~= enc_db(kv));
    }
    out
}

/// Decoding a document the encoder wrote returns the entries it was given.
pub proof fn lemma_inv_db(ps: Seq<(Seq<char>, EntryModel)>)
    ensures
        dec_db(enc_db(ps)) == Some(ps),
{
    let s = enc_db(ps);
    assert(s[0] == '{');
    assert(skip_ws(s) == s);
    let rest1 = seq![':'] + seq!['{'] + enc_entries(ps) + seq!['}', '}'];
    assert(s.skip(1) =~= seq!['"'] + (esc(lit_entries()) + seq!['"'] + rest1));
    assert(s.skip(1)[0] == '"');
    assert(skip_ws(s.skip(1)) == s.skip(1));
    assert(s.skip(1).skip(1) =~= esc(lit_entries()) + seq!['"'] + rest1);
    lemma_inv_str(lit_entries(), rest1);
    assert(rest1[0] == ':');
    assert(skip_ws(rest1) == rest1);
    let rest2 = seq!['{'] + enc_entries(ps) + seq!['}', '}'];
    assert(rest1.skip(1) =~= rest2);
    assert(rest2[0] == '{');
    assert(skip_ws(rest2) == rest2);
    let rest3 = enc_entries(ps) + seq!['}', '}'];
    assert(rest2.skip(1) =~= rest3);
    if ps.len() == 0 {
        assert(enc_entries(ps) =~= Seq::<char>::empty());
        assert(rest3 =~= seq!['}', '}']);
        assert(rest3[0] == '}');
        assert(skip_ws(rest3) == rest3);
        assert(rest3.skip(1) =~= seq!['}']);
        assert(skip_ws(seq!['}']) == seq!['}']);
        assert(seq!['}'].skip(1) =~= Seq::<char>::empty());
        assert(skip_ws(Seq::<char>::empty()).len() == 0);
        assert(Seq::<(Seq<char>, EntryModel)>::empty() =~= ps);
    } else {
        lemma_enc_entries_first(ps);
        assert(rest3[0] == '"');
        assert(skip_ws(rest3) == rest3);
        assert(rest3[0] != '}');
        assert(rest3 =~= enc_entries(ps) + seq!['}'] + seq!['}']);
        lemma_inv_entries(ps, seq!['}']);
        assert(skip_ws(seq!['}']) == seq!['}']);
        assert(seq!['}'].skip(1) =~= Seq::<char>::empty());
        assert(skip_ws(Seq::<char>::empty()).len() == 0);
    }
}

// ---------------------------------------------------------------------
// executable decoder
// ---------------------------------------------------------------------

/// Whether `c` is JSON whitespace, computed.
fn is_json_ws_exec(c: char) -> (r: bool)
    ensures
        r == is_json_ws(c),
{
    c == ' ' || c == '\t' || c == '\n' || c == '\r'
}

/// Advances past JSON whitespace from position `i`.
fn skip_ws_exec(s: &str, i: usize) -> (j: usize)
    requires
        i <= s@.len(),
    ensures
        i <= j <= s@.len(),
        s@.skip(j as int) == skip_ws(s@.skip(i as int)),
{
    let n = s.unicode_len();
    let mut j = i;
    while j < n && is_json_ws_exec(s.get_char(j))
        invariant
            i <= j <= n,
            n == s@.len(),
            skip_ws(s@.skip(i as int)) == skip_ws(s@.skip(j as int)),
        decreases n - j,
    {
        proof {
            assert(s@.skip(j as int)[0] == s@[j as int]);
            assert(s@.skip(j as int).drop_first() =~= s@.skip(j + 1));
        }
        j = j + 1;
    }
    proof {
        if j < n {
            assert(s@.skip(j as int)[0] == s@[j as int]);
        } else {
            assert(s@.skip(j as int).len() == 0);
        }
        assert(skip_ws(s@.skip(j as int)) == s@.skip(j as int));
    }
    j
}

/// Whether `c` is a hex digit, computed.
fn is_hex_exec(c: char) -> (r: bool)
    ensures
        r == is_hex(c),
{
    c == '0' || c == '1' || c == '2' || c == '3' || c == '4' || c == '5' || c == '6' || c == '7'
        || c == '8' || c == '9' || c == 'a' || c == 'b' || c == 'c' || c == 'd' || c == 'e' || c
        == 'f' || c == 'A' || c == 'B' || c == 'C' || c == 'D' || c == 'E' || c == 'F'
}

/// The value of a hex digit, computed.
fn hex_val_exec(c: char) -> (r: u32)
    requires
        is_hex(c),
    ensures
        r == hex_val(c),
        r < 16,
{
    if c == '0' {
        0
    } else if c == '1' {
        1
    } else if c == '2' {
        2
    } else if c == '3' {
        3
    } else if c == '4' {
        4
    } else if c == '5' {
        5
    } else if c == '6' {
        6
    } else if c == '7' {
        7
    } else if c == '8' {
        8
    } else if c == '9' {
        9
    } else if c == 'a' || c == 'A' {
        10
    } else if c == 'b' || c == 'B' {
        11
    } else if c == 'c' || c == 'C' {
        12
    } else if c == 'd' || c == 'D' {
        13
    } else if c == 'e' || c == 'E' {
        14
    } else {
        15
    }
}

/// The character a short JSON escape stands for, computed.
fn esc_code_exec(c: char) -> (r: Option<char>)
    ensures
        r == esc_code(c),
{
    if c == '"' {
        Some('"')
    } else if c == '\\' {
        Some('\\')
    } else if c == '/' {
        Some('/')
    } else if c == 'b' {
        Some('\u{8}')
    } else if c == 'f' {
        Some('\u{c}')
    } else if c == 'n' {
        Some('\n')
    } else if c == 'r' {
        Some('\r')
    } else if c == 't' {
        Some('\t')
    } else {
        None
    }
}

/// Relies on `char::from_u32` of std: a scalar value outside the surrogate
/// range converts to the character with exactly that value.
#[verifier::external_body]
fn char_from_u32(v: u32) -> (c: char)
    requires
        v < 0xD800 || (0xE000 <= v && v <= 0x10FFFF),
    ensures
        (c as u32) == v,
{
    char::from_u32(v).unwrap()
}

/// Reads the four hex digits at `i`, which the caller has checked.
fn hex4_exec(s: &str, i: usize) -> (v: u32)
    requires
        i + 4 <= s@.len(),
        is_hex4(s@[i as int], s@[i + 1], s@[i + 2], s@[i + 3]),
    ensures
        v as int == hex4_val(s@[i as int], s@[i + 1], s@[i + 2], s@[i + 3]),
        v < 0x10000,
{
    let n = s.unicode_len();
    let a = hex_val_exec(s.get_char(i));
    let b = hex_val_exec(s.get_char(i + 1));
    let c = hex_val_exec(s.get_char(i + 2));
    let d = hex_val_exec(s.get_char(i + 3));
    4096 * a + 256 * b + 16 * c + d
}

/// Reads a string body from position `i`, mirroring `dec_str_body` on the
/// remaining text.
fn decode_str_body(s: &str, i: usize) -> (r: Option<(String, usize)>)
    requires
        i <= s@.len(),
    ensures
        match r {
            Some((t, j)) => i < j <= s@.len() && dec_str_body(s@.skip(i as int)) == Some(
                (t@, s@.skip(j as int)),
            ),
            None => dec_str_body(s@.skip(i as int)) is None,
        },
    decreases s@.len() - i,
{
    proof {
        reveal(dec_str_body);
    }
    let n = s.unicode_len();
    let ghost ss = s@.skip(i as int);
    if i >= n {
        proof {
            assert(ss.len() == 0);
        }
        return None;
    }
    let c = s.get_char(i);
    proof {
        assert(ss[0] == s@[i as int]);
    }
    if c == '"' {
        let out = String::new();
        proof {
            assert(ss.skip(1) =~= s@.skip(i + 1));
        }
        Some((out, i + 1))
    } else if c == '\\' {
        if i + 1 >= n {
            proof {
                assert(ss.len() == 1);
            }
            return None;
        }
        let c1 = s.get_char(i + 1);
        proof {
            assert(ss.len() >= 2);
            assert(ss[1] == s@[i + 1]);
        }
        match esc_code_exec(c1) {
            Some(decoded) => {
                proof {
                    assert(ss.skip(2) =~= s@.skip(i + 2));
                }
                match decode_str_body(s, i + 2) {
                    Some((t, j)) => {
                        let mut out = String::new();
                        crate::text::push_char(&mut out, decoded);
                        out.append(t.as_str());
                        proof {
                            assert(out@ =~= seq![decoded] + t@);
                        }
                        Some((out, j))
                    },
                    None => None,
                }
            },
            None => {
                let four_hex = n - i > 5 && c1 == 'u' && is_hex_exec(s.get_char(i + 2))
                    && is_hex_exec(s.get_char(i + 3)) && is_hex_exec(s.get_char(i + 4))
                    && is_hex_exec(s.get_char(i + 5));
                proof {
                    if ss.len() >= 6 {
                        assert(ss[2] == s@[i + 2] && ss[3] == s@[i + 3] && ss[4] == s@[i + 4]
                            && ss[5] == s@[i + 5]);
                    }
                }
                if !four_hex {
                    return None;
                }
                let v = hex4_exec(s, i + 2);
                proof {
                    assert(v as int == hex4_val(ss[2], ss[3], ss[4], ss[5]));
                }
                if v < 0xD800 || v > 0xDFFF {
                    let decoded = char_from_u32(v);
                    proof {
                        vstd::utf8::char_u32_cast(decoded, v);
                        assert(decoded == ((hex4_val(ss[2], ss[3], ss[4], ss[5]) as u32)
                            as char));
                        assert(ss.skip(6) =~= s@.skip(i + 6));
                    }
                    match decode_str_body(s, i + 6) {
                        Some((t, j)) => {
                            let mut out = String::new();
                            crate::text::push_char(&mut out, decoded);
                            out.append(t.as_str());
                            proof {
                                assert(out@ =~= seq![decoded] + t@);
                            }
                            Some((out, j))
                        },
                        None => None,
                    }
                } else if v <= 0xDBFF {
                    let pair = n - i > 11 && s.get_char(i + 6) == '\\' && s.get_char(i + 7)
                        == 'u' && is_hex_exec(s.get_char(i + 8)) && is_hex_exec(
                        s.get_char(i + 9),
                    ) && is_hex_exec(s.get_char(i + 10)) && is_hex_exec(s.get_char(i + 11));
                    proof {
                        if ss.len() >= 12 {
                            assert(ss[6] == s@[i + 6] && ss[7] == s@[i + 7] && ss[8] == s@[i
                                + 8] && ss[9] == s@[i + 9] && ss[10] == s@[i + 10] && ss[11]
                                == s@[i + 11]);
                        }
                    }
                    if !pair {
                        return None;
                    }
                    let w = hex4_exec(s, i + 8);
                    proof {
                        assert(w as int == hex4_val(ss[8], ss[9], ss[10], ss[11]));
                    }
                    if 0xDC00 <= w && w <= 0xDFFF {
                        let code = 0x10000 + (v - 0xD800) * 0x400 + (w - 0xDC00);
                        let decoded = char_from_u32(code);
                        proof {
                            vstd::utf8::char_u32_cast(decoded, code);
                            assert(decoded == (((0x10000 + (hex4_val(ss[2], ss[3], ss[4], ss[5])
                                - 0xD800) * 0x400 + (hex4_val(ss[8], ss[9], ss[10], ss[11])
                                - 0xDC00)) as u32) as char));
                            assert(ss.skip(12) =~= s@.skip(i + 12));
                        }
                        match decode_str_body(s, i + 12) {
                            Some((t, j)) => {
                                let mut out = String::new();
                                crate::text::push_char(&mut out, decoded);
                                out.append(t.as_str());
                                proof {
                                    assert(out@ =~= seq![decoded] + t@);
                                }
                                Some((out, j))
                            },
                            None => None,
                        }
                    } else {
                        None
                    }
                } else {
                    None
                }
            },
        }
    } else {
        proof {
            assert(ss.skip(1) =~= s@.skip(i + 1));
        }
        match decode_str_body(s, i + 1) {
            Some((t, j)) => {
                let mut out = String::new();
                crate::text::push_char(&mut out, c);
                out.append(t.as_str());
                proof {
                    assert(out@ =~= seq![ss[0]] + t@);
                }
                Some((out, j))
            },
            None => None,
        }
    }
}

/// Reads the strings of an array from position `i`, mirroring
/// `dec_tokens`.
fn decode_tokens(s: &str, i: usize) -> (r: Option<(Vec<String>, usize)>)
    requires
        i <= s@.len(),
    ensures
        match r {
            Some((ts, j)) => i < j <= s@.len() && dec_tokens(s@.skip(i as int)) == Some(
                (ts.deep_view(), s@.skip(j as int)),
            ),
            None => dec_tokens(s@.skip(i as int)) is None,
        },
    decreases s@.len() - i,
{
    let n = s.unicode_len();
    let ghost ss = s@.skip(i as int);
    if i >= n || s.get_char(i) != '"' {
        proof {
            if ss.len() > 0 {
                assert(ss[0] == s@[i as int]);
            }
        }
        return None;
    }
    proof {
        assert(ss[0] == s@[i as int]);
        assert(ss.skip(1) =~= s@.skip(i + 1));
    }
    match decode_str_body(s, i + 1) {
        None => None,
        Some((t, j0)) => {
            let j = skip_ws_exec(s, j0);
            let ghost rr = s@.skip(j as int);
            if j < n && s.get_char(j) == ',' {
                proof {
                    assert(rr[0] == s@[j as int]);
                    assert(rr.skip(1) =~= s@.skip(j + 1));
                }
                let j1 = skip_ws_exec(s, j + 1);
                match decode_tokens(s, j1) {
                    Some((ts, j2)) => {
                        let ghost tv = t@;
                        let ghost tsdv = ts.deep_view();
                        let mut out: Vec<String> = Vec::new();
                        out.push(t);
                        let mut ts = ts;
                        out.append(&mut ts);
                        proof {
                            assert(out.deep_view() =~= seq![tv] + tsdv);
                        }
                        Some((out, j2))
                    },
                    None => None,
                }
            } else if j < n && s.get_char(j) == ']' {
                proof {
                    assert(rr[0] == s@[j as int]);
                    assert(rr.skip(1) =~= s@.skip(j + 1));
                }
                let ghost tv = t@;
                let mut out: Vec<String> = Vec::new();
                out.push(t);
                proof {
                    assert(out.deep_view() =~= seq![tv]);
                }
                Some((out, j + 1))
            } else {
                proof {
                    if rr.len() > 0 {
                        assert(rr[0] == s@[j as int]);
                    }
                }
                None
            }
        },
    }
}

/// Reads a JSON array of strings from position `i`, mirroring `dec_array`.
fn decode_array(s: &str, i: usize) -> (r: Option<(Vec<String>, usize)>)
    requires
        i <= s@.len(),
    ensures
        match r {
            Some((ts, j)) => i < j <= s@.len() && dec_array(s@.skip(i as int)) == Some(
                (ts.deep_view(), s@.skip(j as int)),
            ),
            None => dec_array(s@.skip(i as int)) is None,
        },
{
    let n = s.unicode_len();
    let ghost ss = s@.skip(i as int);
    if i >= n || s.get_char(i) != '[' {
        proof {
            if ss.len() > 0 {
                assert(ss[0] == s@[i as int]);
            }
        }
        return None;
    }
    proof {
        assert(ss[0] == s@[i as int]);
        assert(ss.skip(1) =~= s@.skip(i + 1));
    }
    let j = skip_ws_exec(s, i + 1);
    let ghost rr = s@.skip(j as int);
    if j < n && s.get_char(j) == ']' {
        proof {
            assert(rr[0] == s@[j as int]);
            assert(rr.skip(1) =~= s@.skip(j + 1));
        }
        let out: Vec<String> = Vec::new();
        proof {
            assert(out.deep_view() =~= Seq::<Seq<char>>::empty());
        }
        Some((out, j + 1))
    } else {
        proof {
            if rr.len() > 0 {
                assert(rr[0] == s@[j as int]);
            }
        }
        decode_tokens(s, j)
    }
}

/// Reads the tag-first tail of an entry object, mirroring
/// `dec_entry_obj_tail_tag_first`.
fn decode_entry_obj_tail_tag_first(s: &str, i: usize) -> (r: Option<(Vec<String>, usize)>)
    requires
        i <= s@.len(),
    ensures
        match r {
            Some((ts, j)) => j <= s@.len() && dec_entry_obj_tail_tag_first(s@.skip(i as int))
                == Some((EntryModel::Raw(ts.deep_view()), s@.skip(j as int))),
            None => dec_entry_obj_tail_tag_first(s@.skip(i as int)) is None,
        },
{
    let n = s.unicode_len();
    let ghost ss = s@.skip(i as int);
    if i >= n || s.get_char(i) != '"' {
        proof {
            if ss.len() > 0 {
                assert(ss[0] == s@[i as int]);
            }
        }
        return None;
    }
    proof {
        assert(ss[0] == s@[i as int]);
        assert(ss.skip(1) =~= s@.skip(i + 1));
    }
    let tag = match decode_str_body(s, i + 1) {
        None => {
            return None;
        },
        Some(p) => p,
    };
    if !crate::text::str_eq(tag.0.as_str(), "Raw") {
        return None;
    }
    let j1 = skip_ws_exec(s, tag.1);
    let ghost r1 = s@.skip(j1 as int);
    if j1 >= n || s.get_char(j1) != ',' {
        proof {
            if r1.len() > 0 {
                assert(r1[0] == s@[j1 as int]);
            }
        }
        return None;
    }
    proof {
        assert(r1[0] == s@[j1 as int]);
        assert(r1.skip(1) =~= s@.skip(j1 + 1));
    }
    let j2 = skip_ws_exec(s, j1 + 1);
    let ghost r2 = s@.skip(j2 as int);
    if j2 >= n || s.get_char(j2) != '"' {
        proof {
            if r2.len() > 0 {
                assert(r2[0] == s@[j2 as int]);
            }
        }
        return None;
    }
    proof {
        assert(r2[0] == s@[j2 as int]);
        assert(r2.skip(1) =~= s@.skip(j2 + 1));
    }
    let name = match decode_str_body(s, j2 + 1) {
        None => {
            return None;
        },
        Some(p) => p,
    };
    if !crate::text::str_eq(name.0.as_str(), "contents") {
        return None;
    }
    let j3 = skip_ws_exec(s, name.1);
    let ghost r4 = s@.skip(j3 as int);
    if j3 >= n || s.get_char(j3) != ':' {
        proof {
            if r4.len() > 0 {
                assert(r4[0] == s@[j3 as int]);
            }
        }
        return None;
    }
    proof {
        assert(r4[0] == s@[j3 as int]);
        assert(r4.skip(1) =~= s@.skip(j3 + 1));
    }
    let j4 = skip_ws_exec(s, j3 + 1);
    let arr = match decode_array(s, j4) {
        None => {
            return None;
        },
        Some(p) => p,
    };
    let j5 = skip_ws_exec(s, arr.1);
    let ghost r6 = s@.skip(j5 as int);
    if j5 >= n || s.get_char(j5) != '}' {
        proof {
            if r6.len() > 0 {
                assert(r6[0] == s@[j5 as int]);
            }
        }
        return None;
    }
    proof {
        assert(r6[0] == s@[j5 as int]);
        assert(r6.skip(1) =~= s@.skip(j5 + 1));
    }
    Some((arr.0, j5 + 1))
}

/// Reads the array-first tail of an entry object, mirroring
/// `dec_entry_obj_tail_contents_first`.
fn decode_entry_obj_tail_contents_first(s: &str, i: usize) -> (r: Option<
    (Vec<String>, usize),
>)
    requires
        i <= s@.len(),
    ensures
        match r {
            Some((ts, j)) => j <= s@.len() && dec_entry_obj_tail_contents_first(
                s@.skip(i as int),
            ) == Some((EntryModel::Raw(ts.deep_view()), s@.skip(j as int))),
            None => dec_entry_obj_tail_contents_first(s@.skip(i as int)) is None,
        },
{
    let n = s.unicode_len();
    let arr = match decode_array(s, i) {
        None => {
            return None;
        },
        Some(p) => p,
    };
    let j1 = skip_ws_exec(s, arr.1);
    let ghost r1 = s@.skip(j1 as int);
    if j1 >= n || s.get_char(j1) != ',' {
        proof {
            if r1.len() > 0 {
                assert(r1[0] == s@[j1 as int]);
            }
        }
        return None;
    }
    proof {
        assert(r1[0] == s@[j1 as int]);
        assert(r1.skip(1) =~= s@.skip(j1 + 1));
    }
    let j2 = skip_ws_exec(s, j1 + 1);
    let ghost r2 = s@.skip(j2 as int);
    if j2 >= n || s.get_char(j2) != '"' {
        proof {
            if r2.len() > 0 {
                assert(r2[0] == s@[j2 as int]);
            }
        }
        return None;
    }
    proof {
        assert(r2[0] == s@[j2 as int]);
        assert(r2.skip(1) =~= s@.skip(j2 + 1));
    }
    let name = match decode_str_body(s, j2 + 1) {
        None => {
            return None;
        },
        Some(p) => p,
    };
    if !crate::text::str_eq(name.0.as_str(), "entry_type") {
        return None;
    }
    let j3 = skip_ws_exec(s, name.1);
    let ghost r4 = s@.skip(j3 as int);
    if j3 >= n || s.get_char(j3) != ':' {
        proof {
            if r4.len() > 0 {
                assert(r4[0] == s@[j3 as int]);
            }
        }
        return None;
    }
    proof {
        assert(r4[0] == s@[j3 as int]);
        assert(r4.skip(1) =~= s@.skip(j3 + 1));
    }
    let j4 = skip_ws_exec(s, j3 + 1);
    let ghost r5 = s@.skip(j4 as int);
    if j4 >= n || s.get_char(j4) != '"' {
        proof {
            if r5.len() > 0 {
                assert(r5[0] == s@[j4 as int]);
            }
        }
        return None;
    }
    proof {
        assert(r5[0] == s@[j4 as int]);
        assert(r5.skip(1) =~= s@.skip(j4 + 1));
    }
    let tag = match decode_str_body(s, j4 + 1) {
        None => {
            return None;
        },
        Some(p) => p,
    };
    if !crate::text::str_eq(tag.0.as_str(), "Raw") {
        return None;
    }
    let j5 = skip_ws_exec(s, tag.1);
    let ghost r7 = s@.skip(j5 as int);
    if j5 >= n || s.get_char(j5) != '}' {
        proof {
            if r7.len() > 0 {
                assert(r7[0] == s@[j5 as int]);
            }
        }
        return None;
    }
    proof {
        assert(r7[0] == s@[j5 as int]);
        assert(r7.skip(1) =~= s@.skip(j5 + 1));
    }
    Some((arr.0, j5 + 1))
}

/// Reads one entry object from position `i`, mirroring `dec_entry_obj`.
#[verifier::rlimit(100)]
fn decode_entry_obj(s: &str, i: usize) -> (r: Option<
    (crate::ssh_command_database::DatabaseEntry, usize),
>)
    requires
        i <= s@.len(),
    ensures
        match r {
            Some((entry, j)) => j <= s@.len() && dec_entry_obj(s@.skip(i as int)) == Some(
                (entry@, s@.skip(j as int)),
            ),
            None => dec_entry_obj(s@.skip(i as int)) is None,
        },
{
    let n = s.unicode_len();
    let ghost ss = s@.skip(i as int);
    if i >= n || s.get_char(i) != '{' {
        proof {
            if ss.len() > 0 {
                assert(ss[0] == s@[i as int]);
            }
        }
        return None;
    }
    proof {
        assert(ss[0] == s@[i as int]);
        assert(ss.skip(1) =~= s@.skip(i + 1));
    }
    let j0 = skip_ws_exec(s, i + 1);
    let ghost r0 = s@.skip(j0 as int);
    if j0 >= n || s.get_char(j0) != '"' {
        proof {
            if r0.len() > 0 {
                assert(r0[0] == s@[j0 as int]);
            }
        }
        return None;
    }
    proof {
        assert(r0[0] == s@[j0 as int]);
        assert(r0.skip(1) =~= s@.skip(j0 + 1));
    }
    let name = match decode_str_body(s, j0 + 1) {
        None => {
            return None;
        },
        Some(p) => p,
    };
    let j1 = skip_ws_exec(s, name.1);
    let ghost r2 = s@.skip(j1 as int);
    if j1 >= n || s.get_char(j1) != ':' {
        proof {
            if r2.len() > 0 {
                assert(r2[0] == s@[j1 as int]);
            }
        }
        return None;
    }
    proof {
        assert(r2[0] == s@[j1 as int]);
        assert(r2.skip(1) =~= s@.skip(j1 + 1));
    }
    let j2 = skip_ws_exec(s, j1 + 1);
    if crate::text::str_eq(name.0.as_str(), "entry_type") {
        match decode_entry_obj_tail_tag_first(s, j2) {
            Some((ts, j3)) => Some(
                (crate::ssh_command_database::DatabaseEntry::Raw { contents: ts }, j3),
            ),
            None => None,
        }
    } else if crate::text::str_eq(name.0.as_str(), "contents") {
        match decode_entry_obj_tail_contents_first(s, j2) {
            Some((ts, j3)) => Some(
                (crate::ssh_command_database::DatabaseEntry::Raw { contents: ts }, j3),
            ),
            None => None,
        }
    } else {
        None
    }
}

/// Reads one store entry from position `i`, mirroring `dec_entry`.
fn decode_entry(s: &str, i: usize) -> (r: Option<
    ((String, crate::ssh_command_database::DatabaseEntry), usize),
>)
    requires
        i <= s@.len(),
    ensures
        match r {
            Some((p, j)) => j <= s@.len() && dec_entry(s@.skip(i as int)) == Some(
                ((p.0@, p.1@), s@.skip(j as int)),
            ),
            None => dec_entry(s@.skip(i as int)) is None,
        },
{
    let n = s.unicode_len();
    let ghost ss = s@.skip(i as int);
    if i >= n || s.get_char(i) != '"' {
        proof {
            if ss.len() > 0 {
                assert(ss[0] == s@[i as int]);
            }
        }
        return None;
    }
    proof {
        assert(ss[0] == s@[i as int]);
        assert(ss.skip(1) =~= s@.skip(i + 1));
    }
    let k = match decode_str_body(s, i + 1) {
        None => {
            return None;
        },
        Some(p) => p,
    };
    let j0 = skip_ws_exec(s, k.1);
    let ghost r = s@.skip(j0 as int);
    if j0 >= n || s.get_char(j0) != ':' {
        proof {
            if r.len() > 0 {
                assert(r[0] == s@[j0 as int]);
            }
        }
        return None;
    }
    proof {
        assert(r[0] == s@[j0 as int]);
        assert(r.skip(1) =~= s@.skip(j0 + 1));
    }
    let j1 = skip_ws_exec(s, j0 + 1);
    match decode_entry_obj(s, j1) {
        Some((entry, j2)) => Some(((k.0, entry), j2)),
        None => None,
    }
}

/// Reads the entries of the store object from position `i`, mirroring
/// `dec_entries`.
fn decode_entries(s: &str, i: usize) -> (r: Option<
    (Vec<(String, crate::ssh_command_database::DatabaseEntry)>, usize),
>)
    requires
        i <= s@.len(),
    ensures
        match r {
            Some((es, j)) => j <= s@.len() && dec_entries(s@.skip(i as int)) == Some(
                (crate::smap::kv_view(es@), s@.skip(j as int)),
            ),
            None => dec_entries(s@.skip(i as int)) is None,
        },
    decreases s@.len() - i,
{
    let n = s.unicode_len();
    let p = match decode_entry(s, i) {
        None => {
            return None;
        },
        Some(p) => p,
    };
    let ghost entry_end = p.1;
    proof {
        lemma_dec_entry_suffix(s@.skip(i as int));
        assert(s@.skip(entry_end as int).len() < s@.skip(i as int).len());
    }
    let j = skip_ws_exec(s, p.1);
    let ghost rr = s@.skip(j as int);
    if j < n && s.get_char(j) == ',' {
        proof {
            assert(rr[0] == s@[j as int]);
            assert(rr.skip(1) =~= s@.skip(j + 1));
        }
        let j1 = skip_ws_exec(s, j + 1);
        match decode_entries(s, j1) {
            Some((es, j2)) => {
                let ghost pk = p.0.0@;
                let ghost pm = p.0.1@;
                let ghost esv = crate::smap::kv_view(es@);
                let mut out: Vec<(String, crate::ssh_command_database::DatabaseEntry)> =
                    Vec::new();
                out.push(p.0);
                let mut es = es;
                out.append(&mut es);
                proof {
                    assert(crate::smap::kv_view(out@) =~= seq![(pk, pm)] + esv);
                }
                Some((out, j2))
            },
            None => None,
        }
    } else if j < n && s.get_char(j) == '}' {
        proof {
            assert(rr[0] == s@[j as int]);
            assert(rr.skip(1) =~= s@.skip(j + 1));
        }
        let ghost pk = p.0.0@;
        let ghost pm = p.0.1@;
        let mut out: Vec<(String, crate::ssh_command_database::DatabaseEntry)> = Vec::new();
        out.push(p.0);
        proof {
            assert(crate::smap::kv_view(out@) =~= seq![(pk, pm)]);
        }
        Some((out, j + 1))
    } else {
        proof {
            if rr.len() > 0 {
                assert(rr[0] == s@[j as int]);
            }
        }
        None
    }
}

/// Reads a whole store document; the entries come back in document order.
#[verifier::rlimit(100)]
pub fn decode_db(s: &str) -> (r: Option<
    Vec<(String, crate::ssh_command_database::DatabaseEntry)>,
>)
    ensures
        match r {
            Some(v) => dec_db(s@) == Some(crate::smap::kv_view(v@)),
            None => dec_db(s@) is None,
        },
{
    let n = s.unicode_len();
    proof {
        assert(s@.skip(0) =~= s@);
    }
    let i0 = skip_ws_exec(s, 0);
    let ghost r0 = s@.skip(i0 as int);
    if i0 >= n || s.get_char(i0) != '{' {
        proof {
            if r0.len() > 0 {
                assert(r0[0] == s@[i0 as int]);
            }
        }
        return None;
    }
    proof {
        assert(r0[0] == s@[i0 as int]);
        assert(r0.skip(1) =~= s@.skip(i0 + 1));
    }
    let i1 = skip_ws_exec(s, i0 + 1);
    let ghost r1 = s@.skip(i1 as int);
    if i1 >= n || s.get_char(i1) != '"' {
        proof {
            if r1.len() > 0 {
                assert(r1[0] == s@[i1 as int]);
            }
        }
        return None;
    }
    proof {
        assert(r1[0] == s@[i1 as int]);
        assert(r1.skip(1) =~= s@.skip(i1 + 1));
    }
    let name = match decode_str_body(s, i1 + 1) {
        None => {
            return None;
        },
        Some(p) => p,
    };
    if !crate::text::str_eq(name.0.as_str(), "entries") {
        return None;
    }
    let i2 = skip_ws_exec(s, name.1);
    let ghost r3 = s@.skip(i2 as int);
    if i2 >= n || s.get_char(i2) != ':' {
        proof {
            if r3.len() > 0 {
                assert(r3[0] == s@[i2 as int]);
            }
        }
        return None;
    }
    proof {
        assert(r3[0] == s@[i2 as int]);
        assert(r3.skip(1) =~= s@.skip(i2 + 1));
    }
    let i3 = skip_ws_exec(s, i2 + 1);
    let ghost r4 = s@.skip(i3 as int);
    if i3 >= n || s.get_char(i3) != '{' {
        proof {
            if r4.len() > 0 {
                assert(r4[0] == s@[i3 as int]);
            }
        }
        return None;
    }
    proof {
        assert(r4[0] == s@[i3 as int]);
        assert(r4.skip(1) =~= s@.skip(i3 + 1));
    }
    let i4 = skip_ws_exec(s, i3 + 1);
    let ghost r5 = s@.skip(i4 as int);
    if i4 < n && s.get_char(i4) == '}' {
        proof {
            assert(r5[0] == s@[i4 as int]);
            assert(r5.skip(1) =~= s@.skip(i4 + 1));
        }
        let i5 = skip_ws_exec(s, i4 + 1);
        let ghost r6 = s@.skip(i5 as int);
        if i5 < n && s.get_char(i5) == '}' {
            proof {
                assert(r6[0] == s@[i5 as int]);
                assert(r6.skip(1) =~= s@.skip(i5 + 1));
            }
            let i6 = skip_ws_exec(s, i5 + 1);
            if i6 == n {
                proof {
                    assert(s@.skip(i6 as int).len() == 0);
                }
                let out: Vec<(String, crate::ssh_command_database::DatabaseEntry)> =
                    Vec::new();
                proof {
                    assert(crate::smap::kv_view(out@) =~= Seq::<
                        (Seq<char>, EntryModel),
                    >::empty());
                }
                Some(out)
            } else {
                proof {
                    assert(s@.skip(i6 as int).len() > 0);
                }
                None
            }
        } else {
            proof {
                if r6.len() > 0 {
                    assert(r6[0] == s@[i5 as int]);
                }
            }
            None
        }
    } else {
        proof {
            if r5.len() > 0 {
                assert(r5[0] == s@[i4 as int]);
            }
        }
        match decode_entries(s, i4) {
            None => None,
            Some((es, j)) => {
                let i5 = skip_ws_exec(s, j);
                let ghost r7 = s@.skip(i5 as int);
                if i5 < n && s.get_char(i5) == '}' {
                    proof {
                        assert(r7[0] == s@[i5 as int]);
                        assert(r7.skip(1) =~= s@.skip(i5 + 1));
                    }
                    let i6 = skip_ws_exec(s, i5 + 1);
                    if i6 == n {
                        proof {
                            assert(s@.skip(i6 as int).len() == 0);
                        }
                        Some(es)
                    } else {
                        proof {
                            assert(s@.skip(i6 as int).len() > 0);
                        }
                        None
                    }
                } else {
                    proof {
                        if r7.len() > 0 {
                            assert(r7[0] == s@[i5 as int]);
                        }
                    }
                    None
                }
            },
        }
    }
}

} // verus!
