//! Character-level text rules: conversions, line splitting, occurrence
//! counting and replacement, and the binary sniff.

use vstd::prelude::*;
use vstd::std_specs::iter::IteratorSpec;

use crate::error::AgentGearError;

verus! {

/// The characters of `s`, in order.
pub fn chars_of(s: &str) -> (r: Vec<char>)
    ensures
        r@ == s@,
{
    broadcast use vstd::string::group_string_axioms;

    let mut out: Vec<char> = Vec::new();
    for c in it: s.chars()
        invariant
            out@ == it.seq().take(it.index() as int),
    {
        out.push(c);
    }
    assert(out@ =~= s@);
    out
}

/// Relies on std's `FromIterator<&char>` for `String`: the string of exactly these characters.
#[verifier::external_body]
pub(crate) fn string_of(cs: &[char]) -> (r: String)
    ensures
        r@ == cs@,
{
    String::from_iter(cs.iter())
}

/// The string of the characters `cs[from..to]`.
pub(crate) fn string_of_range(cs: &Vec<char>, from: usize, to: usize) -> (r: String)
    requires
        from <= to <= cs@.len(),
    ensures
        r@ == cs@.subrange(from as int, to as int),
{
    string_of(&cs.as_slice()[from..to])
}

/// The line with a carriage return that ended it removed.
pub open spec fn without_cr(l: Seq<char>) -> Seq<char> {
    if l.len() > 0 && l.last() == '\r' {
        l.drop_last()
    } else {
        l
    }
}

/// The pieces of `s` between line feeds: one more than there are line feeds.
pub open spec fn pieces(s: Seq<char>) -> Seq<Seq<char>>
    decreases s.len(),
{
    if s.len() == 0 {
        seq![Seq::<char>::empty()]
    } else if s.last() == '\n' {
        pieces(s.drop_last()).push(Seq::<char>::empty())
    } else {
        let p = pieces(s.drop_last());
        p.update(p.len() - 1, p.last().push(s.last()))
    }
}

/// The lines of `s`: the pieces that a line feed ends, each without a carriage
/// return before that line feed, followed by the final piece if it is not empty.
pub open spec fn lines_of(s: Seq<char>) -> Seq<Seq<char>> {
    let p = pieces(s);
    let ended = p.drop_last().map_values(|l: Seq<char>| without_cr(l));
    if p.last().len() == 0 {
        ended
    } else {
        ended.push(p.last())
    }
}

/// The views of a sequence of strings.
pub open spec fn views(v: Seq<String>) -> Seq<Seq<char>> {
    v.map_values(|x: String| x@)
}

proof fn lemma_pieces_nonempty(s: Seq<char>)
    ensures
        pieces(s).len() >= 1,
    decreases s.len(),
{
    if s.len() > 0 {
        lemma_pieces_nonempty(s.drop_last());
    }
}

/// The lines of `text`, without their line endings.
pub fn split_lines(text: &str) -> (r: Vec<String>)
    ensures
        views(r@) == lines_of(text@),
{
    let cs = chars_of(text);
    let mut out: Vec<String> = Vec::new();
    let mut start: usize = 0;
    let mut i: usize = 0;
    proof {
        assert(cs@.subrange(0, 0) =~= Seq::<char>::empty());
    }
    while i < cs.len()
        invariant
            start <= i <= cs@.len(),
            pieces(cs@.subrange(0, i as int)).len() >= 1,
            views(out@) == pieces(cs@.subrange(0, i as int)).drop_last().map_values(
                |l: Seq<char>| without_cr(l),
            ),
            pieces(cs@.subrange(0, i as int)).last() == cs@.subrange(start as int, i as int),
        decreases cs@.len() - i,
    {
        let ghost pre = cs@.subrange(0, i as int);
        let ghost post = cs@.subrange(0, i + 1);
        proof {
            assert(post.drop_last() =~= pre);
            assert(post.last() == cs@[i as int]);
            lemma_pieces_nonempty(pre);
        }
        if cs[i] == '\n' {
            let end = if i > start && cs[i - 1] == '\r' {
                i - 1
            } else {
                i
            };
            let line = string_of_range(&cs, start, end);
            proof {
                let last = cs@.subrange(start as int, i as int);
                assert(pieces(post) == pieces(pre).push(Seq::<char>::empty()));
                assert(line@ == without_cr(last)) by {
                    if i > start && cs@[i - 1] == '\r' {
                        assert(cs@.subrange(start as int, i - 1) =~= last.drop_last());
                    }
                }
                assert(pieces(post).drop_last() =~= pieces(pre));
                assert(pieces(pre) =~= pieces(pre).drop_last().push(last));
            }
            let ghost before = out@;
            out.push(line);
            start = i + 1;
            proof {
                assert(views(out@) =~= views(before).push(line@));
                assert(pieces(post).drop_last().map_values(|l: Seq<char>| without_cr(l))
                    =~= pieces(pre).drop_last().map_values(|l: Seq<char>| without_cr(l)).push(
                    without_cr(pieces(pre).last()),
                ));
                assert(views(out@) =~= pieces(post).drop_last().map_values(
                    |l: Seq<char>| without_cr(l),
                ));
                assert(cs@.subrange(start as int, i + 1) =~= Seq::<char>::empty());
            }
        } else {
            proof {
                let p = pieces(pre);
                assert(pieces(post) == p.update(p.len() - 1, p.last().push(cs@[i as int])));
                assert(pieces(post).drop_last() =~= p.drop_last());
                assert(cs@.subrange(start as int, i + 1) =~= p.last().push(cs@[i as int]));
            }
        }
        i += 1;
    }
    proof {
        assert(cs@.subrange(0, cs@.len() as int) =~= text@);
    }
    if start < cs.len() {
        let last = string_of_range(&cs, start, cs.len());
        out.push(last);
        proof {
            assert(views(out@) =~= lines_of(text@));
        }
    } else {
        proof {
            assert(views(out@) =~= lines_of(text@));
        }
    }
    out
}

/// The number of leftmost non-overlapping occurrences of `p` in `s`; an empty
/// `p` occurs at each of the `s.len() + 1` boundaries between characters.
pub open spec fn occurrences(s: Seq<char>, p: Seq<char>) -> nat
    decreases s.len(),
{
    if p.len() == 0 {
        s.len() + 1
    } else if s.len() < p.len() {
        0
    } else if s.take(p.len() as int) == p {
        1 + occurrences(s.skip(p.len() as int), p)
    } else {
        occurrences(s.skip(1), p)
    }
}

/// `r` put before each character of `s` and after the last one.
pub open spec fn interleaved(s: Seq<char>, r: Seq<char>) -> Seq<char> {
    r + interleaved_tail(s, r)
}

/// Each character of `s` followed by `r`.
pub open spec fn interleaved_tail(s: Seq<char>, r: Seq<char>) -> Seq<char>
    decreases s.len(),
{
    if s.len() == 0 {
        Seq::<char>::empty()
    } else {
        seq![s[0]] + r + interleaved_tail(s.skip(1), r)
    }
}

/// `s` with every leftmost non-overlapping occurrence of `p` replaced by `r`;
/// an empty `p` puts `r` at every boundary between characters.
pub open spec fn replaced(s: Seq<char>, p: Seq<char>, r: Seq<char>) -> Seq<char>
    decreases s.len(),
{
    if p.len() == 0 {
        interleaved(s, r)
    } else if s.len() < p.len() {
        s
    } else if s.take(p.len() as int) == p {
        r + replaced(s.skip(p.len() as int), p, r)
    } else {
        seq![s[0]] + replaced(s.skip(1), p, r)
    }
}

/// Whether `p` occurs in `cs` at position `i`.
fn occurs_at(cs: &Vec<char>, p: &Vec<char>, i: usize) -> (r: bool)
    requires
        i <= cs@.len(),
    ensures
        r == (i + p@.len() <= cs@.len() && cs@.subrange(i as int, i + p@.len()) == p@),
{
    if p.len() > cs.len() - i {
        return false;
    }
    let n = cs.len();
    let mut j: usize = 0;
    while j < p.len()
        invariant
            n == cs@.len(),
            i + p@.len() <= cs@.len(),
            j <= p@.len(),
            forall|k: int| 0 <= k < j ==> cs@[i + k] == p@[k],
        decreases p@.len() - j,
    {
        if cs[i + j] != p[j] {
            proof {
                assert(cs@.subrange(i as int, i + p@.len())[j as int] != p@[j as int]);
            }
            return false;
        }
        j += 1;
    }
    proof {
        assert(cs@.subrange(i as int, i + p@.len()) =~= p@);
    }
    true
}

/// `n`, or `usize::MAX` where `n` is larger.
pub open spec fn saturated(n: nat) -> usize {
    if n <= usize::MAX {
        n as usize
    } else {
        usize::MAX
    }
}

/// The number of occurrences of `pattern` in `text`, counted as `str::matches`
/// does (saturating at `usize::MAX`).
pub fn count_occurrences(text: &str, pattern: &str) -> (r: usize)
    ensures
        r == saturated(occurrences(text@, pattern@)),
{
    let cs = chars_of(text);
    let p = chars_of(pattern);
    if p.len() == 0 {
        return if cs.len() < usize::MAX {
            cs.len() + 1
        } else {
            usize::MAX
        };
    }
    let mut i: usize = 0;
    let mut n: usize = 0;
    proof {
        assert(cs@.skip(0) =~= cs@);
    }
    while i < cs.len()
        invariant
            p@.len() > 0,
            i <= cs@.len(),
            n <= i,
            occurrences(text@, pattern@) == n + occurrences(cs@.skip(i as int), p@),
        decreases cs@.len() - i,
    {
        let ghost rest = cs@.skip(i as int);
        if occurs_at(&cs, &p, i) {
            proof {
                assert(rest.take(p@.len() as int) =~= cs@.subrange(i as int, i + p@.len()));
                assert(rest.skip(p@.len() as int) =~= cs@.skip(i + p@.len()));
            }
            n += 1;
            i += p.len();
        } else {
            proof {
                if rest.len() >= p@.len() {
                    assert(rest.take(p@.len() as int) =~= cs@.subrange(i as int, i + p@.len()));
                } else {
                    assert(occurrences(rest, p@) == 0);
                }
                assert(rest.skip(1) =~= cs@.skip(i + 1));
            }
            if p.len() > cs.len() - i {
                proof {
                    assert(occurrences(rest, p@) == 0);
                    assert(cs@.skip(i as int).len() < p@.len());
                }
                return n;
            }
            i += 1;
        }
    }
    proof {
        assert(occurrences(cs@.skip(i as int), p@) == 0);
    }
    n
}

/// `text` with every occurrence of `pattern` replaced by `with`, as `str::replace` does.
pub fn replace_all(text: &str, pattern: &str, with: &str) -> (r: String)
    ensures
        r@ == replaced(text@, pattern@, with@),
{
    let cs = chars_of(text);
    let p = chars_of(pattern);
    let w = chars_of(with);
    let mut out: Vec<char> = Vec::new();
    let mut i: usize = 0;
    if p.len() == 0 {
        out.extend_from_slice(w.as_slice());
        proof {
            assert(cs@.skip(0) =~= cs@);
        }
        while i < cs.len()
            invariant
                i <= cs@.len(),
                p@.len() == 0,
                replaced(text@, pattern@, with@) == out@ + interleaved_tail(
                    cs@.skip(i as int),
                    w@,
                ),
            decreases cs@.len() - i,
        {
            let ghost rest = cs@.skip(i as int);
            let ghost before = out@;
            proof {
                assert(rest.skip(1) =~= cs@.skip(i + 1));
                assert(rest[0] == cs@[i as int]);
            }
            out.push(cs[i]);
            out.extend_from_slice(w.as_slice());
            proof {
                assert(interleaved_tail(rest, w@) == seq![rest[0]] + w@ + interleaved_tail(
                    rest.skip(1),
                    w@,
                ));
                assert(before + interleaved_tail(rest, w@) =~= out@ + interleaved_tail(
                    cs@.skip(i + 1),
                    w@,
                ));
            }
            i += 1;
        }
        proof {
            assert(interleaved_tail(cs@.skip(i as int), w@) =~= Seq::<char>::empty());
            assert(out@ =~= replaced(text@, pattern@, with@));
        }
        return string_of(out.as_slice());
    }
    proof {
        assert(cs@.skip(0) =~= cs@);
    }
    while i < cs.len()
        invariant
            p@.len() > 0,
            i <= cs@.len(),
            replaced(text@, pattern@, with@) == out@ + replaced(cs@.skip(i as int), p@, w@),
        decreases cs@.len() - i,
    {
        let ghost rest = cs@.skip(i as int);
        let ghost before = out@;
        if occurs_at(&cs, &p, i) {
            proof {
                assert(rest.take(p@.len() as int) =~= cs@.subrange(i as int, i + p@.len()));
                assert(rest.skip(p@.len() as int) =~= cs@.skip(i + p@.len()));
            }
            out.extend_from_slice(w.as_slice());
            i += p.len();
            proof {
                assert(before + (w@ + replaced(cs@.skip(i as int), p@, w@)) =~= out@ + replaced(
                    cs@.skip(i as int),
                    p@,
                    w@,
                ));
            }
        } else {
            if p.len() > cs.len() - i {
                proof {
                    assert(replaced(rest, p@, w@) == rest);
                }
                let mut k = i;
                while k < cs.len()
                    invariant
                        i <= k <= cs@.len(),
                        out@ == before + cs@.subrange(i as int, k as int),
                    decreases cs@.len() - k,
                {
                    out.push(cs[k]);
                    proof {
                        assert(out@ =~= before + cs@.subrange(i as int, k + 1));
                    }
                    k += 1;
                }
                proof {
                    assert(cs@.subrange(i as int, cs@.len() as int) =~= rest);
                }
                return string_of(out.as_slice());
            }
            proof {
                assert(rest.take(p@.len() as int) =~= cs@.subrange(i as int, i + p@.len()));
                assert(rest.skip(1) =~= cs@.skip(i + 1));
                assert(rest[0] == cs@[i as int]);
            }
            out.push(cs[i]);
            i += 1;
            proof {
                assert(before + (seq![rest[0]] + replaced(cs@.skip(i as int), p@, w@))
                    =~= out@ + replaced(cs@.skip(i as int), p@, w@));
            }
        }
    }
    proof {
        assert(cs@.skip(i as int) =~= Seq::<char>::empty());
        assert(replaced(cs@.skip(i as int), p@, w@) == cs@.skip(i as int));
        assert(out@ =~= replaced(text@, pattern@, with@));
    }
    string_of(out.as_slice())
}

/// What an edit by replacement does to `content`: with `strict`, the text to
/// replace must occur exactly once; without it, every occurrence is replaced,
/// and nothing changes where there is none.
pub fn plan_edit(content: &str, old_text: &str, new_text: &str, strict: bool) -> (r: Result<
    Option<String>,
    AgentGearError,
>)
    ensures
        ({
            let n = occurrences(content@, old_text@);
            match r {
                Ok(Some(t)) => n > 0 && (!strict || n == 1) && t@ == replaced(
                    content@,
                    old_text@,
                    new_text@,
                ),
                Ok(None) => n == 0 && !strict,
                Err(AgentGearError::TextNotFound) => n == 0 && strict,
                Err(AgentGearError::TextNotUnique(k)) => strict && n > 1 && k == saturated(n),
                Err(_) => false,
            }
        }),
{
    let count = count_occurrences(content, old_text);
    if count == 0 {
        if strict {
            return Err(AgentGearError::TextNotFound);
        }
        return Ok(None);
    }
    if count > 1 && strict {
        return Err(AgentGearError::TextNotUnique(count));
    }
    Ok(Some(replace_all(content, old_text, new_text)))
}

/// How many leading bytes the binary sniff looks at.
pub const SNIFF_LEN: usize = 512;

/// Some byte among the first `SNIFF_LEN` is zero.
pub open spec fn binary_head(b: Seq<u8>) -> bool {
    exists|i: int| 0 <= i < b.len() && i < SNIFF_LEN && b[i] == 0
}

/// Whether content that starts with `head` looks binary: a zero byte among
/// its first `SNIFF_LEN` bytes.
pub fn looks_binary(head: &[u8]) -> (r: bool)
    ensures
        r == binary_head(head@),
{
    let mut i: usize = 0;
    while i < head.len() && i < SNIFF_LEN
        invariant
            i <= head@.len(),
            i <= SNIFF_LEN,
            forall|k: int| 0 <= k < i ==> head@[k] != 0,
        decreases head@.len() - i,
    {
        if head[i] == 0 {
            return true;
        }
        i += 1;
    }
    false
}

/// The part of `s` that skipping `start` items and then taking at most
/// `count` of them (all of them for `None`) leaves.
pub open spec fn window_of<A>(s: Seq<A>, start: int, count: Option<usize>) -> Seq<A> {
    let rest = if start <= s.len() {
        s.skip(start)
    } else {
        Seq::<A>::empty()
    };
    match count {
        Some(c) => if c < rest.len() {
            rest.take(c as int)
        } else {
            rest
        },
        None => rest,
    }
}

/// The lines `start`, `start + 1`, ... of `lines`, at most `count` of them.
pub fn line_window(lines: &Vec<String>, start: usize, count: Option<usize>) -> (r: Vec<String>)
    ensures
        r@ == window_of(lines@, start as int, count),
{
    let mut out: Vec<String> = Vec::new();
    if start >= lines.len() {
        proof {
            assert(window_of(lines@, start as int, count) =~= Seq::<String>::empty());
        }
        return out;
    }
    let n = lines.len();
    let avail = n - start;
    let take = match count {
        Some(c) => if c < avail {
            c
        } else {
            avail
        },
        None => avail,
    };
    let mut k: usize = 0;
    while k < take
        invariant
            take <= avail,
            start < lines@.len(),
            n == lines@.len(),
            avail == lines@.len() - start,
            k <= take,
            out@ == lines@.subrange(start as int, start + k),
        decreases take - k,
    {
        out.push(lines[start + k].clone());
        proof {
            assert(out@ =~= lines@.subrange(start as int, start + k + 1));
        }
        k += 1;
    }
    proof {
        assert(out@ =~= window_of(lines@, start as int, count));
    }
    out
}

/// The lines of `text` from line `start` on (counting from zero), at most
/// `count` of them, without their line endings.
pub fn lines_in(text: &str, start: usize, count: Option<usize>) -> (r: Vec<String>)
    ensures
        views(r@) == window_of(lines_of(text@), start as int, count),
{
    let all = split_lines(text);
    let r = line_window(&all, start, count);
    proof {
        assert(views(r@) =~= window_of(views(all@), start as int, count));
    }
    r
}

/// The lines that were read, in order, leaving out those that could not be.
pub open spec fn readable(s: Seq<Option<String>>) -> Seq<String>
    decreases s.len(),
{
    if s.len() == 0 {
        Seq::<String>::empty()
    } else {
        let before = readable(s.drop_last());
        match s.last() {
            Some(l) => before.push(l),
            None => before,
        }
    }
}

/// Of lines read one by one, where `None` marks a line that could not be
/// read: skip the first `start` lines, readable or not, then keep the
/// readable ones, at most `count` of them.
pub fn readable_line_window(lines: &Vec<Option<String>>, start: usize, count: Option<usize>) -> (r:
    Vec<String>)
    ensures
        r@ == window_of(readable(window_of(lines@, start as int, None)), 0, count),
{
    let mut kept: Vec<String> = Vec::new();
    let n = lines.len();
    let from = if start < n {
        start
    } else {
        n
    };
    let mut j: usize = from;
    proof {
        assert(lines@.subrange(from as int, from as int) =~= Seq::<Option<String>>::empty());
    }
    while j < n
        invariant
            n == lines@.len(),
            from <= j <= n,
            kept@ == readable(lines@.subrange(from as int, j as int)),
        decreases n - j,
    {
        proof {
            assert(lines@.subrange(from as int, j + 1).drop_last() =~= lines@.subrange(
                from as int,
                j as int,
            ));
        }
        match &lines[j] {
            Some(l) => {
                kept.push(l.clone());
            },
            None => {},
        }
        j += 1;
    }
    proof {
        assert(window_of(lines@, start as int, None) =~= lines@.subrange(from as int, n as int));
    }
    let r = line_window(&kept, 0, count);
    r
}

} // verus!
