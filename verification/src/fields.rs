//! Cutting a line of text into fields at a separator, and trimming blanks
//! from both ends of a field.

use vstd::prelude::*;
use crate::text::{first_of, lemma_first_of_is};

verus! {

/// The pieces of `s` between occurrences of `sep`. There is always at
/// least one piece; two separators in a row have an empty piece between
/// them.
pub open spec fn split_on(s: Seq<char>, sep: char) -> Seq<Seq<char>>
    decreases s.len(),
{
    let k = first_of(s, sep);
    if k >= s.len() {
        seq![s]
    } else {
        seq![s.subrange(0, k as int)] + split_on(s.subrange(k as int + 1, s.len() as int), sep)
    }
}

/// Blank, tab, line feed or carriage return.
pub open spec fn is_blank(c: char) -> bool {
    c == ' ' || c == '\t' || c == '\n' || c == '\r'
}

/// `s` without the blanks at its start.
pub open spec fn trim_start(s: Seq<char>) -> Seq<char>
    decreases s.len(),
{
    if s.len() > 0 && is_blank(s[0]) {
        trim_start(s.drop_first())
    } else {
        s
    }
}

/// `s` without the blanks at its end.
pub open spec fn trim_end(s: Seq<char>) -> Seq<char>
    decreases s.len(),
{
    if s.len() > 0 && is_blank(s.last()) {
        trim_end(s.drop_last())
    } else {
        s
    }
}

/// `s` without the blanks at its start and at its end.
pub open spec fn trimmed(s: Seq<char>) -> Seq<char> {
    trim_end(trim_start(s))
}

/// The views of a sequence of character vectors, element by element.
pub open spec fn pieces(v: Seq<Vec<char>>) -> Seq<Seq<char>> {
    v.map_values(|p: Vec<char>| p@)
}

fn blank(c: char) -> (b: bool)
    ensures
        b == is_blank(c),
{
    c == ' ' || c == '\t' || c == '\n' || c == '\r'
}

fn copy_range(cs: &Vec<char>, from: usize, to: usize) -> (out: Vec<char>)
    requires
        from <= to <= cs.len(),
    ensures
        out@ == cs@.subrange(from as int, to as int),
{
    let mut out: Vec<char> = Vec::new();
    let mut i: usize = from;
    while i < to
        invariant
            from <= i <= to <= cs.len(),
            out@ == cs@.subrange(from as int, i as int),
        decreases to - i,
    {
        out.push(cs[i]);
        i += 1;
    }
    out
}

/// Cuts `cs` at every occurrence of `sep`.
pub fn split_chars(cs: &Vec<char>, sep: char) -> (parts: Vec<Vec<char>>)
    ensures
        pieces(parts@) == split_on(cs@, sep),
        parts.len() >= 1,
{
    let n = cs.len();
    let mut parts: Vec<Vec<char>> = Vec::new();
    let mut start: usize = 0;
    let mut done = false;
    assert(cs@.subrange(0, n as int) == cs@);
    assert(pieces(parts@) =~= Seq::<Seq<char>>::empty());
    while !done
        invariant
            n == cs.len(),
            start <= n,
            !done ==> split_on(cs@, sep) == pieces(parts@) + split_on(
                cs@.subrange(start as int, n as int),
                sep,
            ),
            done ==> split_on(cs@, sep) == pieces(parts@) && parts.len() >= 1,
        decreases n - start + (if done { 0int } else { 1int }),
    {
        let ghost rest = cs@.subrange(start as int, n as int);
        let ghost before = pieces(parts@);
        let mut end: usize = start;
        while end < n && cs[end] != sep
            invariant
                n == cs.len(),
                start <= end <= n,
                forall|j: int| start <= j < end ==> cs[j] != sep,
            decreases n - end,
        {
            end += 1;
        }
        proof {
            assert forall|j: int| 0 <= j < end - start implies rest[j] != sep by {
                assert(rest[j] == cs[start + j]);
            }
            lemma_first_of_is(rest, sep, end - start);
        }
        let part = copy_range(cs, start, end);
        parts.push(part);
        if end == n {
            proof {
                assert(split_on(rest, sep) == seq![rest]);
                assert(pieces(parts@) =~= before.push(rest));
            }
            done = true;
        } else {
            proof {
                assert(rest.subrange(0, end - start) == cs@.subrange(start as int, end as int));
                assert(rest.subrange(end - start + 1, rest.len() as int) == cs@.subrange(
                    end + 1,
                    n as int,
                ));
                assert(pieces(parts@) =~= before.push(rest.subrange(0, end - start)));
            }
            start = end + 1;
        }
    }
    parts
}

/// `cs` without the blanks at its start and at its end.
pub fn trim_chars(cs: &Vec<char>) -> (out: Vec<char>)
    ensures
        out@ == trimmed(cs@),
{
    let n = cs.len();
    let mut lo: usize = 0;
    assert(cs@.subrange(0, n as int) == cs@);
    while lo < n && blank(cs[lo])
        invariant
            n == cs.len(),
            lo <= n,
            trim_start(cs@) == trim_start(cs@.subrange(lo as int, n as int)),
        decreases n - lo,
    {
        proof {
            let rest = cs@.subrange(lo as int, n as int);
            assert(rest[0] == cs[lo as int]);
            assert(rest.drop_first() == cs@.subrange(lo + 1, n as int));
        }
        lo += 1;
    }
    let ghost body = cs@.subrange(lo as int, n as int);
    proof {
        if lo < n {
            assert(body[0] == cs[lo as int]);
        }
        assert(trim_start(cs@) == body);
        assert(body.subrange(0, body.len() as int) == body);
    }
    let mut hi: usize = n;
    while hi > lo && blank(cs[hi - 1])
        invariant
            n == cs.len(),
            lo <= hi <= n,
            body == cs@.subrange(lo as int, n as int),
            trim_end(body) == trim_end(body.subrange(0, hi - lo)),
        decreases hi,
    {
        proof {
            let head = body.subrange(0, hi - lo);
            assert(head.last() == cs[hi - 1]);
            assert(head.drop_last() == body.subrange(0, hi - lo - 1));
        }
        hi -= 1;
    }
    proof {
        let head = body.subrange(0, hi - lo);
        if hi > lo {
            assert(head.last() == cs[hi - 1]);
        }
        assert(trim_end(head) == head);
        assert(head == cs@.subrange(lo as int, hi as int));
    }
    copy_range(cs, lo, hi)
}

} // verus!
