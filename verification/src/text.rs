//! Character-sequence groundwork: the lexicographic order that keys the
//! catalog and the store, joining invocation tokens with spaces, and
//! whitespace trimming for configuration lines.

use vstd::prelude::*;

verus! {

/// Lexicographic strict order on character sequences, by Unicode scalar
/// value. This is the order in which catalog and store keys are held.
pub open spec fn lex_lt(a: Seq<char>, b: Seq<char>) -> bool
    decreases a.len(),
{
    if b.len() == 0 {
        false
    } else if a.len() == 0 {
        true
    } else if a[0] == b[0] {
        lex_lt(a.drop_first(), b.drop_first())
    } else {
        (a[0] as u32) < (b[0] as u32)
    }
}

/// Distinct characters have distinct scalar values.
proof fn lemma_char_neq(a: char, b: char)
    requires
        a != b,
    ensures
        (a as u32) != (b as u32),
{
    if (a as u32) == (b as u32) {
        vstd::utf8::char_u32_cast(a, a as u32);
        vstd::utf8::char_u32_cast(b, b as u32);
    }
}

/// No sequence is lexicographically below itself.
pub proof fn lemma_lex_lt_irreflexive(a: Seq<char>)
    ensures
        !lex_lt(a, a),
    decreases a.len(),
{
    if a.len() > 0 {
        lemma_lex_lt_irreflexive(a.drop_first());
    }
}

/// Any two sequences are ordered or equal.
pub proof fn lemma_lex_lt_trichotomy(a: Seq<char>, b: Seq<char>)
    ensures
        lex_lt(a, b) || lex_lt(b, a) || a == b,
    decreases a.len(),
{
    if a.len() == 0 && b.len() == 0 {
        assert(a =~= b);
    } else if a.len() > 0 && b.len() > 0 {
        if a[0] == b[0] {
            lemma_lex_lt_trichotomy(a.drop_first(), b.drop_first());
            if a.drop_first() == b.drop_first() {
                assert(a.drop_first().len() == b.drop_first().len());
                assert(a.len() == b.len());
                assert forall|i: int| 0 <= i < a.len() implies a[i] == b[i] by {
                    if i > 0 {
                        assert(a.drop_first()[i - 1] == b.drop_first()[i - 1]);
                        assert(a[i] == a.drop_first()[i - 1]);
                        assert(b.drop_first()[i - 1] == b[i]);
                    }
                }
                assert(a =~= b);
            }
        } else {
            lemma_char_neq(a[0], b[0]);
        }
    }
}

/// The order is transitive.
pub proof fn lemma_lex_lt_transitive(a: Seq<char>, b: Seq<char>, c: Seq<char>)
    requires
        lex_lt(a, b),
        lex_lt(b, c),
    ensures
        lex_lt(a, c),
    decreases b.len(),
{
    if a.len() > 0 && b.len() > 0 && c.len() > 0 {
        if a[0] == b[0] && b[0] == c[0] {
            lemma_lex_lt_transitive(a.drop_first(), b.drop_first(), c.drop_first());
        } else if a[0] == b[0] {
            lemma_char_neq(b[0], c[0]);
        } else if b[0] == c[0] {
            lemma_char_neq(a[0], b[0]);
        } else {
            lemma_char_neq(a[0], b[0]);
            lemma_char_neq(b[0], c[0]);
        }
    }
}

/// Splitting off an equal first character preserves the order's verdict.
proof fn lemma_lex_lt_skip_one(a: Seq<char>, b: Seq<char>, i: int)
    requires
        0 <= i < a.len(),
        i < b.len(),
        a[i] == b[i],
    ensures
        lex_lt(a.skip(i), b.skip(i)) == lex_lt(a.skip(i + 1), b.skip(i + 1)),
{
    assert(a.skip(i).drop_first() =~= a.skip(i + 1));
    assert(b.skip(i).drop_first() =~= b.skip(i + 1));
    assert(a.skip(i)[0] == a[i]);
    assert(b.skip(i)[0] == b[i]);
}

/// Decides `lex_lt` on two string slices.
pub fn str_lt(a: &str, b: &str) -> (r: bool)
    ensures
        r == lex_lt(a@, b@),
{
    let alen = a.unicode_len();
    let blen = b.unicode_len();
    let mut i: usize = 0;
    proof {
        assert(a@.skip(0) =~= a@);
        assert(b@.skip(0) =~= b@);
    }
    while i < alen && i < blen
        invariant
            0 <= i <= alen,
            i <= blen,
            alen == a@.len(),
            blen == b@.len(),
            lex_lt(a@, b@) == lex_lt(a@.skip(i as int), b@.skip(i as int)),
        decreases alen - i,
    {
        let ca = a.get_char(i);
        let cb = b.get_char(i);
        if ca != cb {
            proof {
                lemma_char_neq(ca, cb);
                assert(a@.skip(i as int)[0] == a@[i as int]);
                assert(b@.skip(i as int)[0] == b@[i as int]);
            }
            return (ca as u32) < (cb as u32);
        }
        proof {
            lemma_lex_lt_skip_one(a@, b@, i as int);
        }
        i = i + 1;
    }
    proof {
        if i >= blen {
            assert(b@.skip(i as int).len() == 0);
        } else {
            assert(a@.skip(i as int).len() == 0);
            assert(b@.skip(i as int).len() > 0);
        }
    }
    alen < blen
}

/// Decides view equality on two string slices.
pub fn str_eq(a: &str, b: &str) -> (r: bool)
    ensures
        r == (a@ == b@),
{
    let alen = a.unicode_len();
    let blen = b.unicode_len();
    if alen != blen {
        return false;
    }
    let mut i: usize = 0;
    while i < alen
        invariant
            0 <= i <= alen,
            alen == a@.len(),
            alen == b@.len(),
            forall|j: int| 0 <= j < i ==> a@[j] == b@[j],
        decreases alen - i,
    {
        let ca = a.get_char(i);
        let cb = b.get_char(i);
        if ca != cb {
            return false;
        }
        i = i + 1;
    }
    proof {
        assert(a@ =~= b@);
    }
    true
}

/// The invocation tokens joined by single spaces: the display key of a raw
/// invocation and the signature under which it is stored.
pub open spec fn join_with_spaces(toks: Seq<Seq<char>>) -> Seq<char>
    decreases toks.len(),
{
    if toks.len() == 0 {
        Seq::empty()
    } else if toks.len() == 1 {
        toks[0]
    } else {
        join_with_spaces(toks.drop_last()) + seq![' '] + toks.last()
    }
}

/// Joins tokens with single spaces.
pub fn join_tokens(toks: &Vec<String>) -> (r: String)
    ensures
        r@ == join_with_spaces(toks.deep_view()),
{
    let mut out = String::new();
    let mut i: usize = 0;
    proof {
        assert(toks.deep_view().subrange(0, 0) =~= Seq::<Seq<char>>::empty());
    }
    while i < toks.len()
        invariant
            0 <= i <= toks.len(),
            toks.deep_view().len() == toks.len(),
            forall|j: int| 0 <= j < toks.len() ==> toks.deep_view()[j] == toks@[j]@,
            out@ == join_with_spaces(toks.deep_view().subrange(0, i as int)),
        decreases toks.len() - i,
    {
        if i > 0 {
            out.append(" ");
        }
        out.append(toks[i].as_str());
        proof {
            let full = toks.deep_view();
            let prev = full.subrange(0, i as int);
            let cur = full.subrange(0, i + 1);
            assert(cur.drop_last() =~= prev);
            assert(cur.last() == full[i as int]);
            if i == 0 {
                assert(cur.len() == 1);
                reveal_strlit(" ");
            } else {
                reveal_strlit(" ");
                assert(out@ == join_with_spaces(prev) + seq![' '] + full[i as int]);
            }
        }
        i = i + 1;
    }
    proof {
        assert(toks.deep_view().subrange(0, toks.len() as int) =~= toks.deep_view());
    }
    out
}

/// The characters that count as blank when a configuration line is
/// trimmed: the Unicode white-space characters.
pub open spec fn is_blank(c: char) -> bool {
    let u = c as u32;
    u == 0x09 || u == 0x0A || u == 0x0B || u == 0x0C || u == 0x0D || u == 0x20 || u == 0x85
        || u == 0xA0 || u == 0x1680 || (0x2000 <= u && u <= 0x200A) || u == 0x2028 || u == 0x2029
        || u == 0x202F || u == 0x205F || u == 0x3000
}

/// `s` with leading blanks removed.
pub open spec fn trim_start_spec(s: Seq<char>) -> Seq<char>
    decreases s.len(),
{
    if s.len() > 0 && is_blank(s[0]) {
        trim_start_spec(s.drop_first())
    } else {
        s
    }
}

/// `s` with trailing blanks removed.
pub open spec fn trim_end_spec(s: Seq<char>) -> Seq<char>
    decreases s.len(),
{
    if s.len() > 0 && is_blank(s.last()) {
        trim_end_spec(s.drop_last())
    } else {
        s
    }
}

/// `s` with leading and trailing blanks removed.
pub open spec fn trim_spec(s: Seq<char>) -> Seq<char> {
    trim_end_spec(trim_start_spec(s))
}

/// Whether `c` is blank, decided in executable code.
fn is_blank_exec(c: char) -> (r: bool)
    ensures
        r == is_blank(c),
{
    let u = c as u32;
    u == 0x09 || u == 0x0A || u == 0x0B || u == 0x0C || u == 0x0D || u == 0x20 || u == 0x85
        || u == 0xA0 || u == 0x1680 || (0x2000 <= u && u <= 0x200A) || u == 0x2028 || u == 0x2029
        || u == 0x202F || u == 0x205F || u == 0x3000
}

/// Trims leading and trailing blanks from a range of a string, returning
/// the trimmed text as an owned string.
pub fn trim_range(s: &str, from: usize, to: usize) -> (r: String)
    requires
        from <= to <= s@.len(),
    ensures
        r@ == trim_spec(s@.subrange(from as int, to as int)),
{
    let mut i = from;
    while i < to && is_blank_exec(s.get_char(i))
        invariant
            from <= i <= to <= s@.len(),
            trim_start_spec(s@.subrange(from as int, to as int)) == trim_start_spec(
                s@.subrange(i as int, to as int),
            ),
        decreases to - i,
    {
        proof {
            assert(s@.subrange(i as int, to as int).drop_first() =~= s@.subrange(
                i + 1,
                to as int,
            ));
            assert(s@.subrange(i as int, to as int)[0] == s@[i as int]);
        }
        i = i + 1;
    }
    proof {
        if i < to {
            assert(s@.subrange(i as int, to as int)[0] == s@[i as int]);
        } else {
            assert(s@.subrange(i as int, to as int).len() == 0);
        }
        assert(trim_start_spec(s@.subrange(i as int, to as int)) == s@.subrange(
            i as int,
            to as int,
        ));
    }
    let mut j = to;
    while j > i && is_blank_exec(s.get_char(j - 1))
        invariant
            from <= i <= j <= to <= s@.len(),
            trim_end_spec(s@.subrange(i as int, to as int)) == trim_end_spec(
                s@.subrange(i as int, j as int),
            ),
        decreases j - i,
    {
        proof {
            assert(s@.subrange(i as int, j as int).drop_last() =~= s@.subrange(
                i as int,
                j - 1,
            ));
            assert(s@.subrange(i as int, j as int).last() == s@[j - 1]);
        }
        j = j - 1;
    }
    proof {
        if j > i {
            assert(s@.subrange(i as int, j as int).last() == s@[j - 1]);
        }
        assert(trim_end_spec(s@.subrange(i as int, j as int)) == s@.subrange(
            i as int,
            j as int,
        ));
    }
    let piece = s.substring_char(i, j);
    String::from_str(piece)
}

/// Relies on `String::push` of std: appends exactly the one character.
#[verifier::external_body]
pub fn push_char(s: &mut String, c: char)
    ensures
        final(s)@ == old(s)@.push(c),
{
    s.push(c)
}

} // verus!
