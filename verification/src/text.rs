//! Characters, lines and lexicographic order.
//!
//! The whole pipeline works on a file as a sequence of characters and, above
//! that, as a sequence of lines. Splitting honours both `\n` and `\r\n` line
//! endings (a final line ending is optional), and joining puts a single `\n`
//! between lines, which is exactly how the rebuilt file is laid out.

use vstd::prelude::*;
use vstd::string::StrSliceExecFns;

verus! {

/// Whether `c` has the Unicode `White_Space` property; the meaning is fixed
/// by `char::is_whitespace` below and never unfolded here.
pub uninterp spec fn is_space_char(c: char) -> bool;

/// Relies on `char::is_whitespace` of std: whether a character has the
/// Unicode `White_Space` property, a fixed function of the character alone.
pub assume_specification[ char::is_whitespace ](c: char) -> (r: bool)
    ensures
        r == is_space_char(c),
;

/// Relies on `String::push` of std: appends exactly the given character.
#[verifier::external_body]
pub fn push_char(s: &mut String, c: char)
    ensures
        final(s)@ == old(s)@.push(c),
{
    s.push(c);
}

/// A line is blank when every character on it is whitespace; the empty line
/// is blank.
pub open spec fn is_blank_line(line: Seq<char>) -> bool {
    forall|i: int| 0 <= i < line.len() ==> is_space_char(#[trigger] line[i])
}

pub fn line_is_blank(line: &Vec<char>) -> (r: bool)
    ensures
        r == is_blank_line(line@),
{
    let mut i: usize = 0;
    while i < line.len()
        invariant
            0 <= i <= line@.len(),
            forall|k: int| 0 <= k < i ==> is_space_char(#[trigger] line@[k]),
        decreases line@.len() - i,
    {
        if !line[i].is_whitespace() {
            return false;
        }
        i += 1;
    }
    true
}

/// The characters of a string slice, in order.
pub fn chars_of(s: &str) -> (r: Vec<char>)
    ensures
        r@ == s@,
{
    let n = s.unicode_len();
    let mut r: Vec<char> = Vec::new();
    let mut i: usize = 0;
    while i < n
        invariant
            n == s@.len(),
            0 <= i <= n,
            r@ == s@.subrange(0, i as int),
        decreases n - i,
    {
        r.push(s.get_char(i));
        i += 1;
        proof {
            assert(r@ =~= s@.subrange(0, i as int));
        }
    }
    proof {
        assert(r@ =~= s@);
    }
    r
}

/// The characters, collected back into an owned string.
pub fn chars_to_string(v: &Vec<char>) -> (r: String)
    ensures
        r@ == v@,
{
    let mut r = String::new();
    let mut i: usize = 0;
    while i < v.len()
        invariant
            0 <= i <= v@.len(),
            r@ == v@.subrange(0, i as int),
        decreases v@.len() - i,
    {
        push_char(&mut r, v[i]);
        i += 1;
        proof {
            assert(r@ =~= v@.subrange(0, i as int));
        }
    }
    proof {
        assert(r@ =~= v@);
    }
    r
}

/// A fresh copy of a character vector.
pub fn clone_chars(v: &Vec<char>) -> (r: Vec<char>)
    ensures
        r@ == v@,
{
    let mut r: Vec<char> = Vec::new();
    let mut i: usize = 0;
    while i < v.len()
        invariant
            0 <= i <= v@.len(),
            r@ == v@.subrange(0, i as int),
        decreases v@.len() - i,
    {
        r.push(v[i]);
        i += 1;
        proof {
            assert(r@ =~= v@.subrange(0, i as int));
        }
    }
    proof {
        assert(r@ =~= v@);
    }
    r
}

/// Index of the first `\n` in `s`, or `s.len()` when there is none.
pub open spec fn first_newline(s: Seq<char>) -> int
    decreases s.len(),
{
    if s.len() == 0 {
        0
    } else if s[0] == '\n' {
        0
    } else {
        1 + first_newline(s.drop_first())
    }
}

pub proof fn lemma_first_newline_bounds(s: Seq<char>)
    ensures
        0 <= first_newline(s) <= s.len(),
        forall|k: int| 0 <= k < first_newline(s) ==> s[k] != '\n',
        first_newline(s) < s.len() ==> s[first_newline(s)] == '\n',
    decreases s.len(),
{
    if s.len() != 0 && s[0] != '\n' {
        lemma_first_newline_bounds(s.drop_first());
        assert forall|k: int| 0 <= k < first_newline(s) implies s[k] != '\n' by {
            if k > 0 {
                assert(s.drop_first()[k - 1] != '\n');
            }
        }
    }
}

/// `first_newline` is determined by any witness position.
pub proof fn lemma_first_newline_is(s: Seq<char>, k: int)
    requires
        0 <= k <= s.len(),
        forall|m: int| 0 <= m < k ==> s[m] != '\n',
        k == s.len() || s[k] == '\n',
    ensures
        first_newline(s) == k,
    decreases s.len(),
{
    if s.len() != 0 && s[0] != '\n' {
        lemma_first_newline_is(s.drop_first(), k - 1);
    }
}

/// Strips one trailing carriage return, as part of a `\r\n` line ending.
pub open spec fn strip_cr(l: Seq<char>) -> Seq<char> {
    if l.len() > 0 && l.last() == '\r' {
        l.drop_last()
    } else {
        l
    }
}

/// The lines of `s`: split at `\n`, a `\r` immediately before a `\n` is
/// dropped, and a final line ending produces no extra empty line.
pub open spec fn split_lines_spec(s: Seq<char>) -> Seq<Seq<char>>
    decreases s.len(),
    via split_lines_spec_dec
{
    if s.len() == 0 {
        seq![]
    } else {
        let i = first_newline(s);
        if i == s.len() {
            seq![s]
        } else {
            seq![strip_cr(s.take(i))] + split_lines_spec(s.skip(i + 1))
        }
    }
}

#[via_fn]
proof fn split_lines_spec_dec(s: Seq<char>) {
    lemma_first_newline_bounds(s);
}

/// Lines joined by a single `\n`; no trailing `\n` is added.
pub open spec fn join_lines_spec(ls: Seq<Seq<char>>) -> Seq<char>
    decreases ls.len(),
{
    if ls.len() == 0 {
        seq![]
    } else if ls.len() == 1 {
        ls[0]
    } else {
        join_lines_spec(ls.drop_last()) + seq!['\n'] + ls.last()
    }
}

/// A vector of character vectors, viewed as a sequence of character
/// sequences.
pub open spec fn seqs_view(v: Vec<Vec<char>>) -> Seq<Seq<char>> {
    Seq::new(v@.len() as nat, |i: int| v@[i]@)
}

/// The characters of `v` from `a` (inclusive) to `b` (exclusive).
pub fn sub_chars(v: &Vec<char>, a: usize, b: usize) -> (r: Vec<char>)
    requires
        a <= b <= v@.len(),
    ensures
        r@ == v@.subrange(a as int, b as int),
{
    let mut r: Vec<char> = Vec::new();
    let mut i: usize = a;
    while i < b
        invariant
            a <= i <= b <= v@.len(),
            r@ == v@.subrange(a as int, i as int),
        decreases b - i,
    {
        r.push(v[i]);
        i += 1;
        proof {
            assert(r@ =~= v@.subrange(a as int, i as int));
        }
    }
    r
}

pub fn split_lines(chars: &Vec<char>) -> (r: Vec<Vec<char>>)
    ensures
        seqs_view(r) == split_lines_spec(chars@),
{
    let n = chars.len();
    let mut r: Vec<Vec<char>> = Vec::new();
    let mut i: usize = 0;
    proof {
        assert(chars@.skip(0) =~= chars@);
        assert(seqs_view(r) + split_lines_spec(chars@) =~= split_lines_spec(chars@));
    }
    while i < n
        invariant
            0 <= i <= n == chars@.len(),
            split_lines_spec(chars@) == seqs_view(r) + split_lines_spec(chars@.skip(i as int)),
        decreases n - i,
    {
        let ghost prev = seqs_view(r);
        let ghost t = chars@.skip(i as int);
        let mut j: usize = i;
        while j < n && chars[j] != '\n'
            invariant
                i <= j <= n == chars@.len(),
                forall|k: int| i <= k < j ==> chars@[k] != '\n',
            decreases n - j,
        {
            j += 1;
        }
        proof {
            assert(t.len() == n - i);
            assert forall|m: int| 0 <= m < j - i implies t[m] != '\n' by {
                assert(t[m] == chars@[i + m]);
            }
            if j < n {
                assert(t[j - i] == chars@[j as int]);
            }
            lemma_first_newline_is(t, j - i);
        }
        if j == n {
            let line = sub_chars(chars, i, n);
            proof {
                assert(line@ =~= t);
                assert(split_lines_spec(t) =~= seq![t]);
            }
            r.push(line);
            i = n;
            proof {
                assert(chars@.skip(n as int) =~= Seq::<char>::empty());
                assert(seqs_view(r) =~= prev.push(t));
                assert(seqs_view(r) + split_lines_spec(chars@.skip(i as int)) =~= prev + seq![t]);
                assert(prev + seq![t] =~= prev + split_lines_spec(t));
            }
        } else {
            let end: usize = if j > i && chars[j - 1] == '\r' {
                j - 1
            } else {
                j
            };
            let line = sub_chars(chars, i, end);
            proof {
                assert(t.take(j - i) =~= chars@.subrange(i as int, j as int));
                if j > i && chars@[j - 1] == '\r' {
                    assert(t.take(j - i).last() == '\r');
                    assert(t.take(j - i).drop_last() =~= chars@.subrange(i as int, end as int));
                    assert(strip_cr(t.take(j - i)) == chars@.subrange(i as int, end as int));
                } else {
                    if t.take(j - i).len() > 0 {
                        assert(t.take(j - i).last() == chars@[j - 1]);
                    }
                    assert(strip_cr(t.take(j - i)) == chars@.subrange(i as int, end as int));
                }
                assert(line@ == strip_cr(t.take(j - i)));
            }
            r.push(line);
            proof {
                assert(t.skip(j - i + 1) =~= chars@.skip(j + 1));
                assert(split_lines_spec(t) == seq![line@] + split_lines_spec(chars@.skip(j + 1)));
                assert(seqs_view(r) =~= prev.push(line@));
            }
            i = j + 1;
            proof {
                assert(seqs_view(r) + split_lines_spec(chars@.skip(i as int)) =~= prev + (seq![
                    line@,
                ] + split_lines_spec(chars@.skip(i as int))));
            }
        }
    }
    proof {
        assert(chars@.skip(i as int) =~= Seq::<char>::empty());
        assert(seqs_view(r) + split_lines_spec(chars@.skip(i as int)) =~= seqs_view(r));
    }
    r
}

pub fn join_lines(lines: &Vec<Vec<char>>) -> (r: Vec<char>)
    ensures
        r@ == join_lines_spec(seqs_view(*lines)),
{
    let mut r: Vec<char> = Vec::new();
    let mut i: usize = 0;
    proof {
        assert(seqs_view(*lines).take(0) =~= Seq::<Seq<char>>::empty());
    }
    while i < lines.len()
        invariant
            0 <= i <= lines@.len(),
            seqs_view(*lines).len() == lines@.len(),
            r@ == join_lines_spec(seqs_view(*lines).take(i as int)),
        decreases lines@.len() - i,
    {
        let ghost before = r@;
        if i > 0 {
            r.push('\n');
        }
        let line = &lines[i];
        let mut k: usize = 0;
        let ghost mid = r@;
        while k < line.len()
            invariant
                0 <= k <= line@.len(),
                r@ == mid + line@.subrange(0, k as int),
            decreases line@.len() - k,
        {
            r.push(line[k]);
            k += 1;
            proof {
                assert(r@ =~= mid + line@.subrange(0, k as int));
            }
        }
        proof {
            assert(line@.subrange(0, line@.len() as int) =~= line@);
            assert(seqs_view(*lines)[i as int] == line@);
            let tk1 = seqs_view(*lines).take(i + 1);
            if i == 0 {
                assert(tk1.len() == 1);
                assert(join_lines_spec(tk1) == tk1[0]);
                assert(r@ =~= tk1[0]);
            } else {
                assert(tk1.drop_last() =~= seqs_view(*lines).take(i as int));
                assert(join_lines_spec(tk1) == join_lines_spec(tk1.drop_last()) + seq!['\n']
                    + tk1.last());
                assert(r@ =~= before + seq!['\n'] + line@);
            }
        }
        i += 1;
    }
    proof {
        assert(seqs_view(*lines).take(i as int) =~= seqs_view(*lines));
    }
    r
}

/// Strict lexicographic order on character sequences, by scalar value; this
/// is the order in which date keys compare.
pub open spec fn lex_lt(a: Seq<char>, b: Seq<char>) -> bool
    decreases a.len(),
{
    if b.len() == 0 {
        false
    } else if a.len() == 0 {
        true
    } else if (a[0] as u32) < (b[0] as u32) {
        true
    } else if (a[0] as u32) > (b[0] as u32) {
        false
    } else {
        lex_lt(a.drop_first(), b.drop_first())
    }
}

pub fn date_lt(a: &Vec<char>, b: &Vec<char>) -> (r: bool)
    ensures
        r == lex_lt(a@, b@),
{
    let mut i: usize = 0;
    proof {
        assert(a@.skip(0) =~= a@);
        assert(b@.skip(0) =~= b@);
    }
    while i < a.len() && i < b.len()
        invariant
            0 <= i <= a@.len(),
            0 <= i <= b@.len(),
            lex_lt(a@, b@) == lex_lt(a@.skip(i as int), b@.skip(i as int)),
        decreases a@.len() - i,
    {
        let ca = a[i] as u32;
        let cb = b[i] as u32;
        proof {
            assert(a@.skip(i as int)[0] == a@[i as int]);
            assert(b@.skip(i as int)[0] == b@[i as int]);
            assert(a@.skip(i as int).drop_first() =~= a@.skip(i as int + 1));
            assert(b@.skip(i as int).drop_first() =~= b@.skip(i as int + 1));
        }
        if ca < cb {
            return true;
        }
        if ca > cb {
            return false;
        }
        i += 1;
    }
    proof {
        assert(a@.skip(i as int).len() == a@.len() - i);
        assert(b@.skip(i as int).len() == b@.len() - i);
    }
    i == a.len() && i < b.len()
}

pub proof fn lemma_lex_lt_asymmetric(a: Seq<char>, b: Seq<char>)
    ensures
        !(lex_lt(a, b) && lex_lt(b, a)),
    decreases a.len(),
{
    if a.len() > 0 && b.len() > 0 && (a[0] as u32) == (b[0] as u32) {
        lemma_lex_lt_asymmetric(a.drop_first(), b.drop_first());
    }
}

pub proof fn lemma_lex_lt_total(a: Seq<char>, b: Seq<char>)
    ensures
        lex_lt(a, b) || lex_lt(b, a) || a == b,
    decreases a.len(),
{
    if a.len() > 0 && b.len() > 0 && (a[0] as u32) == (b[0] as u32) {
        lemma_lex_lt_total(a.drop_first(), b.drop_first());
        if !lex_lt(a, b) && !lex_lt(b, a) {
            assert(a.drop_first() == b.drop_first());
            vstd::utf8::char_u32_cast(a[0], a[0] as u32);
            vstd::utf8::char_u32_cast(b[0], b[0] as u32);
            assert(a[0] == b[0]);
            assert(a =~= b) by {
                assert forall|i: int| 0 <= i < a.len() implies a[i] == b[i] by {
                    if i > 0 {
                        assert(a.drop_first()[i - 1] == b.drop_first()[i - 1]);
                    }
                }
            }
        }
    } else if a.len() == 0 && b.len() == 0 {
        assert(a =~= b);
    }
}

pub proof fn lemma_lex_lt_transitive(a: Seq<char>, b: Seq<char>, c: Seq<char>)
    requires
        lex_lt(a, b),
        lex_lt(b, c),
    ensures
        lex_lt(a, c),
    decreases a.len(),
{
    if a.len() > 0 && b.len() > 0 && c.len() > 0 && (a[0] as u32) == (b[0] as u32) && (b[0] as u32)
        == (c[0] as u32) {
        lemma_lex_lt_transitive(a.drop_first(), b.drop_first(), c.drop_first());
    }
}

} // verus!
