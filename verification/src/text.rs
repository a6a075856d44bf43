//! Character-sequence utilities shared by the scanner and the history
//! renderer: splitting text into lines, joining lines, reversing, and
//! moving between `String` and `Vec<char>`.

use vstd::prelude::*;
use vstd::string::StrSliceExecFns;

verus! {

/// Index of the first occurrence of `c` in `s`, or `s.len()` if there is
/// none.
pub open spec fn first_occ(s: Seq<char>, c: char) -> nat
    decreases s.len(),
{
    if s.len() == 0 {
        0
    } else if s[0] == c {
        0
    } else {
        1 + first_occ(s.drop_first(), c)
    }
}

pub proof fn lemma_first_occ(s: Seq<char>, c: char)
    ensures
        first_occ(s, c) <= s.len(),
        forall|i: int| 0 <= i < first_occ(s, c) ==> s[i] != c,
        first_occ(s, c) < s.len() ==> s[first_occ(s, c) as int] == c,
    decreases s.len(),
{
    if s.len() > 0 && s[0] != c {
        lemma_first_occ(s.drop_first(), c);
        assert forall|i: int| 0 <= i < first_occ(s, c) implies s[i] != c by {
            if i > 0 {
                assert(s.drop_first()[i - 1] != c);
            }
        }
    }
}

/// Finds the first occurrence of `c` in `v`, as `first_occ` describes.
pub fn find_char(v: &Vec<char>, c: char) -> (r: usize)
    ensures
        r == first_occ(v@, c),
{
    let mut i: usize = 0;
    proof {
        assert(v@.subrange(0, v@.len() as int) =~= v@);
    }
    while i < v.len()
        invariant
            i <= v@.len(),
            first_occ(v@, c) == i + first_occ(v@.subrange(i as int, v@.len() as int), c),
            forall|j: int| 0 <= j < i ==> v@[j] != c,
        decreases v@.len() - i,
    {
        let ghost rest = v@.subrange(i as int, v@.len() as int);
        if v[i] == c {
            proof {
                assert(rest[0] == c);
            }
            return i;
        }
        proof {
            assert(rest[0] != c);
            assert(rest.drop_first() =~= v@.subrange(i + 1, v@.len() as int));
        }
        i = i + 1;
    }
    proof {
        assert(v@.subrange(i as int, v@.len() as int).len() == 0);
    }
    i
}

/// Index of the first newline in `s`, or `s.len()` if there is none.
pub open spec fn first_nl(s: Seq<char>) -> nat {
    first_occ(s, '\n')
}

pub proof fn lemma_first_nl(s: Seq<char>)
    ensures
        first_nl(s) <= s.len(),
        forall|i: int| 0 <= i < first_nl(s) ==> s[i] != '\n',
        first_nl(s) < s.len() ==> s[first_nl(s) as int] == '\n',
{
    lemma_first_occ(s, '\n');
}

/// The lines of a text, split on `'\n'`; a trailing newline does not
/// produce a final empty line, matching how the log files are read back.
pub open spec fn lines_of(s: Seq<char>) -> Seq<Seq<char>>
    decreases s.len(),
{
    if s.len() == 0 {
        Seq::empty()
    } else {
        let i = first_nl(s);
        if i >= s.len() {
            seq![s]
        } else {
            seq![s.subrange(0, i as int)] + lines_of(s.subrange(i as int + 1, s.len() as int))
        }
    }
}

/// A sequence of characters with no newline in it.
pub open spec fn nl_free(s: Seq<char>) -> bool {
    forall|i: int| 0 <= i < s.len() ==> s[i] != '\n'
}

/// Where the first occurrence of `c` falls in a concatenation whose first
/// part does not contain `c`.
pub proof fn lemma_first_occ_prefix(p: Seq<char>, t: Seq<char>, c: char)
    requires
        forall|i: int| 0 <= i < p.len() ==> p[i] != c,
        t.len() > 0,
        t[0] == c,
    ensures
        first_occ(p + t, c) == p.len(),
    decreases p.len(),
{
    if p.len() == 0 {
        assert(p + t =~= t);
    } else {
        assert((p + t)[0] == p[0]);
        assert((p + t).drop_first() =~= p.drop_first() + t);
        lemma_first_occ_prefix(p.drop_first(), t, c);
    }
}

/// Splitting off one complete, newline-terminated line.
pub proof fn lemma_lines_unfold(line: Seq<char>, rest: Seq<char>)
    requires
        nl_free(line),
    ensures
        lines_of(line + seq!['\n'] + rest) == seq![line] + lines_of(rest),
{
    let s = line + seq!['\n'] + rest;
    assert(s =~= line + (seq!['\n'] + rest));
    lemma_first_occ_prefix(line, seq!['\n'] + rest, '\n');
    assert(first_nl(s) == line.len());
    assert(s.subrange(0, line.len() as int) =~= line);
    assert(s.subrange(line.len() as int + 1, s.len() as int) =~= rest);
    assert(lines_of(s) == seq![line] + lines_of(rest));
}

/// A text without newlines is a single line (or no line at all, if empty).
pub proof fn lemma_lines_nl_free(s: Seq<char>)
    requires
        nl_free(s),
    ensures
        lines_of(s) == if s.len() == 0 { Seq::<Seq<char>>::empty() } else { seq![s] },
{
    lemma_first_nl(s);
}

/// Lines joined with a single `'\n'` between them (no trailing newline).
pub open spec fn join_nl(ls: Seq<Seq<char>>) -> Seq<char>
    decreases ls.len(),
{
    if ls.len() == 0 {
        Seq::empty()
    } else if ls.len() == 1 {
        ls[0]
    } else {
        ls[0] + seq!['\n'] + join_nl(ls.drop_first())
    }
}

/// The characters of a string, in order.
pub fn string_to_chars(s: &str) -> (v: Vec<char>)
    ensures
        v@ == s@,
{
    let n: usize = s.unicode_len();
    let mut v: Vec<char> = Vec::new();
    let mut i: usize = 0;
    while i < n
        invariant
            n == s@.len(),
            i <= n,
            v@ == s@.subrange(0, i as int),
        decreases n - i,
    {
        let c = s.get_char(i);
        v.push(c);
        assert(v@ =~= s@.subrange(0, i + 1));
        i = i + 1;
    }
    assert(v@ =~= s@);
    v
}

/// Relies on `String::push`: appends the given character to the end of
/// the string.
#[verifier::external_body]
fn push_char(s: &mut String, c: char)
    ensures
        final(s)@ == old(s)@ + seq![c],
{
    s.push(c);
}

/// A string holding exactly the given characters, in order.
pub fn chars_to_string(v: &Vec<char>) -> (s: String)
    ensures
        s@ == v@,
{
    let mut s = String::new();
    let mut i: usize = 0;
    while i < v.len()
        invariant
            i <= v@.len(),
            s@ == v@.subrange(0, i as int),
        decreases v@.len() - i,
    {
        push_char(&mut s, v[i]);
        assert(s@ =~= v@.subrange(0, i + 1));
        i = i + 1;
    }
    assert(s@ =~= v@);
    s
}

/// The elements of `v`, in reverse order.
pub fn reversed<T>(v: Vec<T>) -> (r: Vec<T>)
    ensures
        r@ == v@.reverse(),
{
    let ghost v0 = v@;
    let mut v = v;
    let mut r: Vec<T> = Vec::new();
    while v.len() > 0
        invariant
            v@.len() <= v0.len(),
            forall|j: int| 0 <= j < v@.len() ==> v@[j] == v0[j],
            r@.len() == v0.len() - v@.len(),
            forall|j: int| 0 <= j < r@.len() ==> r@[j] == v0[v0.len() - 1 - j],
        decreases v@.len(),
    {
        let x = v.pop().unwrap();
        r.push(x);
    }
    assert(r@ =~= v0.reverse());
    r
}

/// Splits `s` into its lines, as `lines_of` describes.
pub fn split_lines(s: &Vec<char>) -> (r: Vec<Vec<char>>)
    ensures
        r.deep_view() == lines_of(s@),
{
    let mut out: Vec<Vec<char>> = Vec::new();
    let mut cur: Vec<char> = Vec::new();
    let mut i: usize = 0;
    proof {
        assert(out.deep_view() =~= Seq::<Seq<char>>::empty());
        assert(cur@ + s@.subrange(0, s@.len() as int) =~= s@);
        assert(Seq::<Seq<char>>::empty() + lines_of(s@) =~= lines_of(s@));
    }
    while i < s.len()
        invariant
            i <= s@.len(),
            nl_free(cur@),
            out.deep_view() + lines_of(cur@ + s@.subrange(i as int, s@.len() as int)) == lines_of(
                s@,
            ),
        decreases s@.len() - i,
    {
        let ghost rest0 = s@.subrange(i as int, s@.len() as int);
        let ghost rest1 = s@.subrange(i + 1, s@.len() as int);
        let ghost cur0 = cur@;
        let ghost out0 = out.deep_view();
        let c = s[i];
        if c == '\n' {
            proof {
                assert(rest0[0] == '\n');
                assert(cur0 + rest0 =~= cur0 + seq!['\n'] + rest1);
                lemma_lines_unfold(cur0, rest1);
                assert((out0 + (seq![cur0] + lines_of(rest1))) =~= (out0 + seq![cur0]) + lines_of(
                    rest1,
                ));
            }
            out.push(cur);
            cur = Vec::new();
            proof {
                assert(out.deep_view() =~~= out0 + seq![cur0]);
                assert(cur@ + rest1 =~= rest1);
            }
        } else {
            cur.push(c);
            proof {
                assert(cur@ =~= cur0.push(c));
                assert(cur@ + rest1 =~= cur0 + rest0);
            }
        }
        i = i + 1;
    }
    proof {
        assert(cur@ + s@.subrange(i as int, s@.len() as int) =~= cur@);
        lemma_lines_nl_free(cur@);
    }
    if cur.len() > 0 {
        let ghost out0 = out.deep_view();
        let ghost cur0 = cur@;
        out.push(cur);
        proof {
            assert(out.deep_view() =~~= out0 + seq![cur0]);
        }
    } else {
        proof {
            assert(out.deep_view() + Seq::<Seq<char>>::empty() =~= out.deep_view());
        }
    }
    out
}

/// Appending one more line to a joined text.
pub proof fn lemma_join_push(p: Seq<Seq<char>>, x: Seq<char>)
    ensures
        join_nl(p.push(x)) == if p.len() == 0 {
            x
        } else {
            join_nl(p) + seq!['\n'] + x
        },
    decreases p.len(),
{
    let q = p.push(x);
    if p.len() == 0 {
        assert(q.len() == 1);
        assert(join_nl(q) == q[0]);
    } else if p.len() == 1 {
        assert(q.len() == 2);
        assert(q.drop_first() =~= seq![x]);
        assert(join_nl(q) == q[0] + seq!['\n'] + join_nl(q.drop_first()));
        assert(join_nl(p) == p[0]);
    } else {
        assert(q.drop_first() =~= p.drop_first().push(x));
        lemma_join_push(p.drop_first(), x);
        assert(join_nl(q) == q[0] + seq!['\n'] + (join_nl(p.drop_first()) + seq!['\n'] + x));
        assert(q[0] + seq!['\n'] + (join_nl(p.drop_first()) + seq!['\n'] + x) =~= (p[0] + seq!['\n']
            + join_nl(p.drop_first())) + seq!['\n'] + x);
    }
}

/// Joins lines with `'\n'`, as `join_nl` describes.
pub fn join_lines(ls: &Vec<Vec<char>>) -> (r: Vec<char>)
    ensures
        r@ == join_nl(ls.deep_view()),
{
    let ghost dv = ls.deep_view();
    let mut r: Vec<char> = Vec::new();
    let mut i: usize = 0;
    while i < ls.len()
        invariant
            dv == ls.deep_view(),
            i <= dv.len(),
            r@ == join_nl(dv.subrange(0, i as int)),
        decreases dv.len() - i,
    {
        let ghost pre = dv.subrange(0, i as int);
        if i > 0 {
            r.push('\n');
        }
        let line = &ls[i];
        proof {
            assert(dv[i as int] =~= line@);
        }
        let mut j: usize = 0;
        let ghost base = r@;
        while j < line.len()
            invariant
                j <= line@.len(),
                line@ == ls@[i as int]@,
                i < ls@.len(),
                dv == ls.deep_view(),
                r@ == base + line@.subrange(0, j as int),
            decreases line@.len() - j,
        {
            r.push(line[j]);
            assert(r@ =~= base + line@.subrange(0, j + 1));
            j = j + 1;
        }
        proof {
            assert(dv[i as int] == line@);
            assert(r@ =~= base + dv[i as int]);
            lemma_join_push(pre, dv[i as int]);
            assert(pre.push(dv[i as int]) =~= dv.subrange(0, i + 1));
            if i == 0 {
                assert(base =~= Seq::<char>::empty());
                assert(r@ =~= dv[0]);
            }
        }
        i = i + 1;
    }
    proof {
        assert(dv.subrange(0, dv.len() as int) =~= dv);
    }
    r
}

} // verus!
