//! Character and string helpers shared by the pipeline: the word-character
//! class of version tags, ASCII lowercasing, decimal rendering of numbers,
//! lexicographic comparison, and newline/separator joining.

use vstd::prelude::*;
use vstd::string::StrSliceExecFns;

verus! {

/// Whether `c` may stand in a version tag: an ASCII letter, digit or
/// underscore.
pub open spec fn is_word_char(c: char) -> bool {
    ||| '0' <= c && c <= '9'
    ||| 'A' <= c && c <= 'Z'
    ||| 'a' <= c && c <= 'z'
    ||| c == '_'
}

/// `c` with an ASCII upper-case letter mapped to its lower-case form;
/// any other character is unchanged.
pub open spec fn lower_char(c: char) -> char {
    if 'A' <= c && c <= 'Z' {
        ((c as u32 + 32) as u8) as char
    } else {
        c
    }
}

/// Whether `c` may stand in a version tag.
pub fn word_char(c: char) -> (r: bool)
    ensures
        r == is_word_char(c),
{
    ('0' <= c && c <= '9') || ('A' <= c && c <= 'Z') || ('a' <= c && c <= 'z') || c == '_'
}

/// `c` lowered as [`lower_char`] does.
pub fn to_lower(c: char) -> (r: char)
    ensures
        r == lower_char(c),
{
    if 'A' <= c && c <= 'Z' {
        (c as u8 + 32) as char
    } else {
        c
    }
}

/// Relies on `String::push`: appends exactly the one character to the end
/// of the string.
#[verifier::external_body]
pub(crate) fn push_char(s: &mut String, c: char)
    ensures
        final(s)@ == old(s)@.push(c),
{
    s.push(c);
}

/// The decimal digit `d` as a character; meaningful for `0 <= d < 10`.
pub open spec fn digit_char(d: int) -> char
    recommends
        0 <= d < 10,
{
    ((('0' as u32) + d) as u8) as char
}

/// The decimal digits of `n`, most significant first, with no leading
/// zeros (a single `'0'` for zero).
pub open spec fn dec_digits(n: int) -> Seq<char>
    recommends
        n >= 0,
    decreases n,
{
    if n < 10 {
        seq![digit_char(n)]
    } else {
        dec_digits(n / 10).push(digit_char(n % 10))
    }
}

/// Appends the decimal rendering of `n` to `s`.
pub fn push_dec_u32(s: &mut String, n: u32)
    ensures
        final(s)@ == old(s)@ + dec_digits(n as int),
    decreases n,
{
    if n < 10 {
        let d: u8 = n as u8;
        push_char(s, (('0' as u8) + d) as char);
        assert(final(s)@ =~= old(s)@ + dec_digits(n as int));
    } else {
        push_dec_u32(s, n / 10);
        let d: u8 = (n % 10) as u8;
        push_char(s, (('0' as u8) + d) as char);
        assert(final(s)@ =~= old(s)@ + dec_digits(n as int));
    }
}

/// Strict lexicographic order on character sequences, by code point: the
/// order `str` comparison gives (code-point order and byte order agree
/// for UTF-8).
pub open spec fn str_lt(a: Seq<char>, b: Seq<char>) -> bool
    decreases a.len(),
{
    if b.len() == 0 {
        false
    } else if a.len() == 0 {
        true
    } else if a[0] < b[0] {
        true
    } else if b[0] < a[0] {
        false
    } else {
        str_lt(a.skip(1), b.skip(1))
    }
}

/// [`str_lt`] is a strict total order: of `a < b`, `a == b` and `b < a`,
/// exactly one holds.
pub proof fn lemma_str_lt_trichotomy(a: Seq<char>, b: Seq<char>)
    ensures
        str_lt(a, b) || str_lt(b, a) || a == b,
        str_lt(a, b) ==> !str_lt(b, a) && a != b,
    decreases a.len(),
{
    if a.len() != 0 && b.len() != 0 && a[0] == b[0] {
        lemma_str_lt_trichotomy(a.skip(1), b.skip(1));
        if a.skip(1) == b.skip(1) {
            assert forall|i: int| 0 <= i < a.len() implies a[i] == b[i] by {
                if i > 0 {
                    assert(a[i] == a.skip(1)[i - 1]);
                    assert(b[i] == b.skip(1)[i - 1]);
                }
            }
            assert(a =~= b);
        }
    } else if a.len() == 0 && b.len() == 0 {
        assert(a =~= b);
    }
}

/// [`str_lt`] is transitive.
pub proof fn lemma_str_lt_trans(a: Seq<char>, b: Seq<char>, c: Seq<char>)
    requires
        str_lt(a, b),
        str_lt(b, c),
    ensures
        str_lt(a, c),
    decreases a.len(),
{
    if a.len() != 0 && b.len() != 0 && c.len() != 0 && a[0] == b[0] && b[0] == c[0] {
        lemma_str_lt_trans(a.skip(1), b.skip(1), c.skip(1));
    }
}

/// Whether `a` orders strictly before `b` lexicographically.
pub fn str_lt_exec(a: &str, b: &str) -> (r: bool)
    ensures
        r == str_lt(a@, b@),
{
    let alen = a.unicode_len();
    let blen = b.unicode_len();
    let mut i: usize = 0;
    proof {
        assert(a@.skip(0) =~= a@);
        assert(b@.skip(0) =~= b@);
    }
    while i < alen && i < blen
        invariant
            i <= alen,
            i <= blen,
            alen == a@.len(),
            blen == b@.len(),
            str_lt(a@, b@) == str_lt(a@.skip(i as int), b@.skip(i as int)),
        decreases alen - i,
    {
        let ca = a.get_char(i);
        let cb = b.get_char(i);
        if ca < cb {
            return true;
        }
        if cb < ca {
            return false;
        }
        proof {
            assert(a@.skip(i as int).skip(1) =~= a@.skip(i + 1));
            assert(b@.skip(i as int).skip(1) =~= b@.skip(i + 1));
        }
        i = i + 1;
    }
    i == alen && i < blen
}

/// Whether `a` and `b` hold the same characters.
pub fn str_eq_exec(a: &str, b: &str) -> (r: bool)
    ensures
        r == (a@ == b@),
{
    let alen = a.unicode_len();
    let blen = b.unicode_len();
    if alen != blen {
        return false;
    }
    let mut i: usize = 0;
    while i < alen
        invariant
            i <= alen,
            alen == a@.len(),
            alen == b@.len(),
            forall|j: int| 0 <= j < i ==> a@[j] == b@[j],
        decreases alen - i,
    {
        if a.get_char(i) != b.get_char(i) {
            return false;
        }
        i = i + 1;
    }
    proof {
        assert(a@ =~= b@);
    }
    true
}

/// The sequences of `ls` joined with the separator `sep` between
/// neighbours; empty when `ls` is empty.
pub open spec fn join_with(ls: Seq<Seq<char>>, sep: Seq<char>) -> Seq<char>
    decreases ls.len(),
{
    if ls.len() == 0 {
        Seq::empty()
    } else if ls.len() == 1 {
        ls[0]
    } else {
        ls[0] + sep + join_with(ls.skip(1), sep)
    }
}

/// Joining after appending one more sequence appends a separator and that
/// sequence to the join, once the list is non-empty.
pub proof fn lemma_join_push(ls: Seq<Seq<char>>, sep: Seq<char>, x: Seq<char>)
    requires
        ls.len() >= 1,
    ensures
        join_with(ls.push(x), sep) == join_with(ls, sep) + sep + x,
    decreases ls.len(),
{
    if ls.len() == 1 {
        assert(ls.push(x).skip(1) =~= seq![x]);
        assert(join_with(seq![x], sep) == x);
        assert(ls.push(x)[0] == ls[0]);
        assert(join_with(ls.push(x), sep) == ls[0] + sep + x);
        assert(join_with(ls, sep) == ls[0]);
    } else {
        lemma_join_push(ls.skip(1), sep, x);
        assert(ls.push(x).skip(1) =~= ls.skip(1).push(x));
        assert(ls.push(x)[0] == ls[0]);
        assert(join_with(ls.push(x), sep) == ls[0] + sep + (join_with(ls.skip(1), sep) + sep + x));
        assert(join_with(ls, sep) + sep + x == (ls[0] + sep + join_with(ls.skip(1), sep)) + sep
            + x);
        assert(ls[0] + sep + (join_with(ls.skip(1), sep) + sep + x) =~= (ls[0] + sep + join_with(
            ls.skip(1),
            sep,
        )) + sep + x);
    }
}

} // verus!
