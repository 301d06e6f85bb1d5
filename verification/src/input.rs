//! From lines of input to passwords: white space around a line is dropped,
//! and a line with nothing else is no password.

use crate::text::{texts, to_chars, to_text};
use vstd::prelude::*;

verus! {

/// Whether `c` is white space, as `char::is_whitespace` tells it.
pub uninterp spec fn is_whitespace(c: char) -> bool;

/// `char::is_whitespace`: whether the character has the Unicode property
/// White_Space. The answer depends on the character alone.
#[verifier::external_body]
fn whitespace(c: char) -> (yes: bool)
    ensures
        yes == is_whitespace(c),
{
    c.is_whitespace()
}

/// `s` without the white space it starts with.
pub open spec fn trim_start(s: Seq<char>) -> Seq<char>
    decreases s.len(),
{
    if s.len() > 0 && is_whitespace(s[0]) {
        trim_start(s.skip(1))
    } else {
        s
    }
}

/// `s` without the white space it ends with.
pub open spec fn trim_end(s: Seq<char>) -> Seq<char>
    decreases s.len(),
{
    if s.len() > 0 && is_whitespace(s.last()) {
        trim_end(s.drop_last())
    } else {
        s
    }
}

/// `s` without the white space around it.
pub open spec fn trimmed(s: Seq<char>) -> Seq<char> {
    trim_end(trim_start(s))
}

/// The passwords that lines give: each line trimmed, in order, lines of
/// white space alone left out.
pub open spec fn passwords_of(lines: Seq<Seq<char>>) -> Seq<Seq<char>>
    decreases lines.len(),
{
    if lines.len() == 0 {
        Seq::empty()
    } else if trimmed(lines.last()).len() == 0 {
        passwords_of(lines.drop_last())
    } else {
        passwords_of(lines.drop_last()).push(trimmed(lines.last()))
    }
}

/// `line` without the white space around it.
pub fn trim_line(line: &Vec<char>) -> (out: Vec<char>)
    ensures
        out@ == trimmed(line@),
{
    let ghost s = line@;
    let mut from: usize = 0;
    assert(s.skip(0) =~= s);
    while from < line.len() && whitespace(line[from])
        invariant
            from <= line.len(),
            s == line@,
            trim_start(s) == trim_start(s.skip(from as int)),
        decreases line.len() - from,
    {
        assert(s.skip(from as int).skip(1) =~= s.skip(from + 1));
        from += 1;
    }
    let ghost rest = s.skip(from as int);
    assert(trim_start(s) == rest);
    let mut to: usize = line.len();
    assert(s.subrange(from as int, to as int) =~= rest);
    while to > from && whitespace(line[to - 1])
        invariant
            from <= to <= line.len(),
            s == line@,
            trim_end(rest) == trim_end(s.subrange(from as int, to as int)),
        decreases to,
    {
        assert(s.subrange(from as int, to as int).drop_last() =~= s.subrange(
            from as int,
            to - 1,
        ));
        to -= 1;
    }
    assert(trim_end(rest) == s.subrange(from as int, to as int));
    let mut out: Vec<char> = Vec::new();
    let mut i: usize = from;
    while i < to
        invariant
            from <= i <= to <= line.len(),
            s == line@,
            out@ == s.subrange(from as int, i as int),
        decreases to - i,
    {
        out.push(line[i]);
        i += 1;
        assert(out@ =~= s.subrange(from as int, i as int));
    }
    out
}

/// The passwords among `lines`: each line trimmed, in order, lines of white
/// space alone left out.
pub fn passwords_from_lines(lines: &Vec<String>) -> (out: Vec<String>)
    ensures
        texts(out@) == passwords_of(texts(lines@)),
{
    let mut out: Vec<String> = Vec::new();
    let ghost all = texts(lines@);
    let mut i: usize = 0;
    assert(all.take(0) =~= Seq::empty());
    assert(texts(out@) =~= Seq::empty());
    while i < lines.len()
        invariant
            i <= lines.len(),
            all == texts(lines@),
            texts(out@) == passwords_of(all.take(i as int)),
        decreases lines.len() - i,
    {
        let ghost before = texts(out@);
        let kept = trim_line(&to_chars(lines[i].as_str()));
        proof {
            assert(all.take(i + 1).drop_last() =~= all.take(i as int));
            assert(all.take(i + 1).last() == all[i as int]);
        }
        if kept.len() > 0 {
            out.push(to_text(&kept));
            assert(texts(out@) =~= before.push(kept@));
        }
        i += 1;
    }
    assert(all.take(i as int) =~= all);
    out
}

} // verus!
