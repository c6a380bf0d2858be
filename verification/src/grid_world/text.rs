//! Text helpers for the layout format: splitting into lines, trimming
//! whitespace and building strings, each stated over sequences of chars.

use vstd::prelude::*;

verus! {

/// The Unicode `White_Space` property, which `str::trim` strips.
pub open spec fn is_ws(c: char) -> bool {
    let u = c as u32;
    (0x09 <= u <= 0x0D) || u == 0x20 || u == 0x85 || u == 0xA0 || u == 0x1680 || (0x2000 <= u
        <= 0x200A) || u == 0x2028 || u == 0x2029 || u == 0x202F || u == 0x205F || u == 0x3000
}

pub fn is_whitespace(c: char) -> (b: bool)
    ensures
        b == is_ws(c),
{
    let u = c as u32;
    (0x09 <= u && u <= 0x0D) || u == 0x20 || u == 0x85 || u == 0xA0 || u == 0x1680 || (0x2000 <= u
        && u <= 0x200A) || u == 0x2028 || u == 0x2029 || u == 0x202F || u == 0x205F || u == 0x3000
}

/// Number of leading whitespace chars.
pub open spec fn lead_ws(s: Seq<char>) -> nat
    decreases s.len(),
{
    if s.len() == 0 {
        0
    } else if is_ws(s[0]) {
        1 + lead_ws(s.drop_first())
    } else {
        0
    }
}

/// Number of trailing whitespace chars.
pub open spec fn trail_ws(s: Seq<char>) -> nat
    decreases s.len(),
{
    if s.len() == 0 {
        0
    } else if is_ws(s.last()) {
        1 + trail_ws(s.drop_last())
    } else {
        0
    }
}

/// `s` with leading and trailing whitespace removed, as `str::trim` does.
pub open spec fn trim(s: Seq<char>) -> Seq<char> {
    let t = s.skip(lead_ws(s) as int);
    t.take(t.len() - trail_ws(t))
}

proof fn lemma_lead_ws_bound(s: Seq<char>)
    ensures
        lead_ws(s) <= s.len(),
    decreases s.len(),
{
    if s.len() > 0 && is_ws(s[0]) {
        lemma_lead_ws_bound(s.drop_first());
    }
}

proof fn lemma_trail_ws_bound(s: Seq<char>)
    ensures
        trail_ws(s) <= s.len(),
    decreases s.len(),
{
    if s.len() > 0 && is_ws(s.last()) {
        lemma_trail_ws_bound(s.drop_last());
    }
}

/// Position of the first line feed in `s`, or its length when there is none.
pub open spec fn line_end(s: Seq<char>) -> nat
    decreases s.len(),
{
    if s.len() == 0 {
        0
    } else if s[0] == '\n' {
        0
    } else {
        1 + line_end(s.drop_first())
    }
}

/// A line without its terminating carriage return, if it had one before the line feed.
pub open spec fn strip_cr(l: Seq<char>) -> Seq<char> {
    if l.len() > 0 && l.last() == '\r' {
        l.drop_last()
    } else {
        l
    }
}

/// The lines of `s` as `str::lines` yields them: split at `\n` or `\r\n`,
/// terminators dropped, and the final line ending optional.
pub open spec fn spec_lines(s: Seq<char>) -> Seq<Seq<char>>
    decreases s.len(),
{
    if s.len() == 0 {
        seq![]
    } else {
        let k = line_end(s);
        if k >= s.len() {
            seq![s]
        } else {
            seq![strip_cr(s.take(k as int))] + spec_lines(s.skip(k + 1 as int))
        }
    }
}

pub open spec fn has_no_newline(s: Seq<char>) -> bool {
    forall|i: int| 0 <= i < s.len() ==> s[i] != '\n'
}

proof fn lemma_line_end_bound(s: Seq<char>)
    ensures
        line_end(s) <= s.len(),
        line_end(s) < s.len() ==> s[line_end(s) as int] == '\n',
    decreases s.len(),
{
    if s.len() > 0 && s[0] != '\n' {
        lemma_line_end_bound(s.drop_first());
    }
}

proof fn lemma_line_end_concat(a: Seq<char>, b: Seq<char>)
    requires
        has_no_newline(a),
    ensures
        line_end(a + b) == a.len() + line_end(b),
    decreases a.len(),
{
    if a.len() > 0 {
        assert((a + b).drop_first() =~= a.drop_first() + b);
        assert(a[0] == (a + b)[0]);
        lemma_line_end_concat(a.drop_first(), b);
    } else {
        assert(a + b =~= b);
    }
}

pub(crate) proof fn lemma_lines_no_newline(a: Seq<char>)
    requires
        has_no_newline(a),
        a.len() > 0,
    ensures
        spec_lines(a) == seq![a],
{
    lemma_line_end_concat(a, seq![]);
    assert(a + Seq::<char>::empty() =~= a);
}

pub(crate) proof fn lemma_lines_at_newline(a: Seq<char>, rest: Seq<char>)
    requires
        has_no_newline(a),
        rest.len() > 0,
        rest[0] == '\n',
    ensures
        spec_lines(a + rest) == seq![strip_cr(a)] + spec_lines(rest.drop_first()),
{
    lemma_line_end_concat(a, rest);
    let s = a + rest;
    assert(line_end(rest) == 0);
    assert(s.take(a.len() as int) =~= a);
    assert(s.skip(a.len() + 1 as int) =~= rest.drop_first());
}

/// No row holds a line feed.
pub open spec fn rows_without_newline(g: Seq<Seq<char>>) -> bool {
    forall|r: int| 0 <= r < g.len() ==> has_no_newline(#[trigger] g[r])
}

proof fn lemma_line_end_clean(s: Seq<char>)
    ensures
        forall|i: int| 0 <= i < line_end(s) ==> s[i] != '\n',
    decreases s.len(),
{
    if s.len() > 0 && s[0] != '\n' {
        lemma_line_end_clean(s.drop_first());
        lemma_line_end_bound(s.drop_first());
        assert forall|i: int| 0 <= i < line_end(s) implies s[i] != '\n' by {
            if i > 0 {
                assert(s[i] == s.drop_first()[i - 1]);
            }
        }
    }
}

/// The lines `str::lines` yields hold no line feed.
pub proof fn lemma_lines_have_no_newline(s: Seq<char>)
    ensures
        rows_without_newline(spec_lines(s)),
    decreases s.len(),
{
    if s.len() > 0 {
        let k = line_end(s);
        lemma_line_end_bound(s);
        lemma_line_end_clean(s);
        if k < s.len() {
            lemma_lines_have_no_newline(s.skip(k + 1 as int));
            let head = strip_cr(s.take(k as int));
            assert(has_no_newline(head));
            let rest = spec_lines(s.skip(k + 1 as int));
            assert forall|r: int| 0 <= r < spec_lines(s).len() implies has_no_newline(#[trigger] spec_lines(s)[r]) by {
                if r > 0 {
                    assert(spec_lines(s)[r] == rest[r - 1]);
                }
            }
        }
    }
}

/// The chars of a string slice.
pub fn str_chars(s: &str) -> (v: Vec<char>)
    ensures
        v@ == s@,
{
    let mut v: Vec<char> = Vec::new();
    for c in it: s.chars()
        invariant
            it.seq() == s@,
            v@ == s@.take(it.index()),
    {
        v.push(c);
        assert(s@.take(it.index() + 1) =~= v@);
    }
    assert(s@.take(s@.len() as int) =~= s@);
    v
}

/// Splits text into lines as `str::lines` does.
pub fn split_lines(s: &Vec<char>) -> (lines: Vec<Vec<char>>)
    ensures
        lines@.len() == spec_lines(s@).len(),
        forall|i: int| 0 <= i < lines@.len() ==> #[trigger] lines@[i]@ == spec_lines(s@)[i],
{
    let mut lines: Vec<Vec<char>> = Vec::new();
    let mut cur: Vec<char> = Vec::new();
    let ghost mut done: Seq<Seq<char>> = seq![];
    let mut i: usize = 0;
    assert(cur@ + s@.skip(0) =~= s@);
    assert(done + spec_lines(s@) =~= spec_lines(s@));
    while i < s.len()
        invariant
            i <= s.len(),
            has_no_newline(cur@),
            lines@.len() == done.len(),
            forall|j: int| 0 <= j < done.len() ==> #[trigger] lines@[j]@ == done[j],
            done + spec_lines(cur@ + s@.skip(i as int)) == spec_lines(s@),
        decreases s.len() - i,
    {
        let c = s[i];
        if c == '\n' {
            let ghost rest = s@.skip(i as int);
            proof {
                lemma_lines_at_newline(cur@, rest);
                assert(rest.drop_first() =~= s@.skip(i + 1));
            }
            let mut line = cur;
            if line.len() > 0 && line[line.len() - 1] == '\r' {
                line.pop();
            }
            assert(line@ == strip_cr(cur@));
            proof {
                assert(done + spec_lines(cur@ + rest) =~= (done + seq![line@]) + spec_lines(s@.skip(i + 1)));
                done = done + seq![line@];
            }
            lines.push(line);
            cur = Vec::new();
            assert(cur@ + s@.skip(i + 1) =~= s@.skip(i + 1));
        } else {
            let ghost old_cur = cur@;
            cur.push(c);
            assert(old_cur + s@.skip(i as int) =~= cur@ + s@.skip(i + 1));
        }
        i = i + 1;
    }
    assert(cur@ + s@.skip(i as int) =~= cur@);
    if cur.len() > 0 {
        proof {
            lemma_lines_no_newline(cur@);
            done = done + seq![cur@];
        }
        lines.push(cur);
    } else {
        assert(spec_lines(cur@) =~= Seq::<Seq<char>>::empty());
        assert(done + seq![] =~= done);
    }
    assert(done =~= spec_lines(s@));
    lines
}

/// The chars of a line with leading and trailing whitespace removed.
pub fn trim_chars(s: &Vec<char>) -> (t: Vec<char>)
    ensures
        t@ == trim(s@),
{
    let n = s.len();
    let mut a: usize = 0;
    assert(s@.skip(0) =~= s@);
    while a < n && is_whitespace(s[a])
        invariant
            a <= n,
            n == s@.len(),
            lead_ws(s@) == a + lead_ws(s@.skip(a as int)),
        decreases n - a,
    {
        assert(s@.skip(a as int).drop_first() =~= s@.skip(a + 1));
        a = a + 1;
    }
    proof {
        if a < n {
            assert(s@.skip(a as int)[0] == s@[a as int]);
        }
    }
    assert(lead_ws(s@) == a);
    let ghost t0 = s@.skip(a as int);
    let mut b: usize = n;
    assert(t0.take(n - a) =~= t0);
    while b > a && is_whitespace(s[b - 1])
        invariant
            a <= b <= n,
            n == s@.len(),
            t0 == s@.skip(a as int),
            trail_ws(t0) == (n - b) + trail_ws(t0.take(b - a)),
        decreases b - a,
    {
        assert(t0.take(b - a).drop_last() =~= t0.take(b - 1 - a));
        b = b - 1;
    }
    proof {
        if b > a {
            assert(t0.take(b - a).last() == s@[b - 1]);
        }
        assert(t0.take(b - a).len() == 0 ==> trail_ws(t0.take(b - a)) == 0);
    }
    assert(trail_ws(t0) == n - b);
    let mut t: Vec<char> = Vec::new();
    let mut k: usize = a;
    while k < b
        invariant
            a <= k <= b <= n,
            n == s@.len(),
            t@ == s@.subrange(a as int, k as int),
        decreases b - k,
    {
        t.push(s[k]);
        assert(s@.subrange(a as int, k + 1) =~= s@.subrange(a as int, k as int).push(s@[k as int]));
        k = k + 1;
    }
    assert(trim(s@) =~= s@.subrange(a as int, b as int));
    t
}

/// `String::push`, which std documents as appending the given char to the
/// end of the string: the string afterwards is the old one with `c` at the
/// end.
#[verifier::external_body]
pub(crate) fn push_char(s: &mut String, c: char)
    ensures
        final(s)@ == old(s)@.push(c),
{
    s.push(c);
}

/// A string made of the given chars.
pub fn string_of(v: &Vec<char>) -> (s: String)
    ensures
        s@ == v@,
{
    let mut s = String::new();
    let mut i: usize = 0;
    while i < v.len()
        invariant
            i <= v.len(),
            s@ == v@.take(i as int),
        decreases v.len() - i,
    {
        push_char(&mut s, v[i]);
        assert(v@.take(i + 1) =~= v@.take(i as int).push(v@[i as int]));
        i = i + 1;
    }
    assert(v@.take(i as int) =~= v@);
    s
}

} // verus!
