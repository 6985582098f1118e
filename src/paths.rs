//! Paths as text: the part below a root, the parent directory, and joining
//! a path onto a root. Separators are `/`.

use vstd::prelude::*;

use crate::text::{chars_of, string_of};

verus! {

/// `p` with the leading `root` and the separator after it taken off; `p`
/// itself where `root` is empty or is not a leading run of whole components.
pub open spec fn relative_to(root: Seq<char>, p: Seq<char>) -> Seq<char> {
    if 0 < root.len() <= p.len() && p.take(root.len() as int) == root {
        if p.len() == root.len() {
            Seq::<char>::empty()
        } else if root.last() == '/' {
            p.skip(root.len() as int)
        } else if p[root.len() as int] == '/' {
            p.skip(root.len() as int + 1)
        } else {
            p
        }
    } else {
        p
    }
}

/// `p` starts with a separator.
pub open spec fn is_absolute(p: Seq<char>) -> bool {
    p.len() > 0 && p[0] == '/'
}

/// `p` put below `root`, with one separator between them.
pub open spec fn joined(root: Seq<char>, p: Seq<char>) -> Seq<char> {
    if root.len() == 0 {
        p
    } else if root.last() == '/' {
        root + p
    } else {
        root + seq!['/'] + p
    }
}

/// `p` as given where it is absolute, else `p` put below `root`.
pub open spec fn resolved(root: Seq<char>, p: Seq<char>) -> Seq<char> {
    if is_absolute(p) {
        p
    } else {
        joined(root, p)
    }
}

/// The position of the last separator in `p`, or -1 where there is none.
pub open spec fn last_separator(p: Seq<char>) -> int {
    if exists|i: int| 0 <= i < p.len() && p[i] == '/' {
        choose|i: int|
            0 <= i < p.len() && p[i] == '/' && forall|j: int| i < j < p.len() ==> p[j] != '/'
    } else {
        -1
    }
}

/// The directory that holds `p`, for a path without a trailing separator:
/// none for the empty path and for `/`.
pub open spec fn parent_of(p: Seq<char>) -> Option<Seq<char>> {
    let i = last_separator(p);
    if p.len() == 0 || p == seq!['/'] {
        None
    } else if i < 0 {
        Some(Seq::<char>::empty())
    } else if i == 0 {
        Some(seq!['/'])
    } else {
        Some(p.take(i))
    }
}

/// `path` relative to `root`, the way the index reports paths.
pub fn relative_path(root: &str, path: &str) -> (r: String)
    ensures
        r@ == relative_to(root@, path@),
{
    let rc = chars_of(root);
    let pc = chars_of(path);
    let n = rc.len();
    if n == 0 || n > pc.len() {
        return string_of(pc.as_slice());
    }
    let mut i: usize = 0;
    while i < n
        invariant
            0 < n == rc@.len() <= pc@.len(),
            rc@ == root@,
            pc@ == path@,
            i <= n,
            forall|k: int| 0 <= k < i ==> pc@[k] == rc@[k],
        decreases n - i,
    {
        if pc[i] != rc[i] {
            proof {
                assert(pc@.take(n as int)[i as int] != rc@[i as int]);
                assert(pc@.take(n as int) != rc@);
            }
            return string_of(pc.as_slice());
        }
        i += 1;
    }
    proof {
        assert(pc@.take(n as int) =~= rc@);
    }
    if pc.len() == n {
        return string_of(&pc.as_slice()[n..n]);
    }
    if rc[n - 1] == '/' {
        proof {
            assert(pc@.subrange(n as int, pc@.len() as int) =~= pc@.skip(n as int));
        }
        return string_of(&pc.as_slice()[n..pc.len()]);
    }
    if pc[n] == '/' {
        proof {
            assert(pc@.subrange(n + 1, pc@.len() as int) =~= pc@.skip(n + 1));
        }
        return string_of(&pc.as_slice()[n + 1..pc.len()]);
    }
    string_of(pc.as_slice())
}

/// `path` as given where it is absolute, else `path` put below `root`.
pub fn resolve_path(root: &str, path: &str) -> (r: String)
    ensures
        r@ == resolved(root@, path@),
{
    let rc = chars_of(root);
    let pc = chars_of(path);
    if pc.len() > 0 && pc[0] == '/' {
        return string_of(pc.as_slice());
    }
    if rc.len() == 0 {
        return string_of(pc.as_slice());
    }
    let mut out = rc.clone();
    if rc[rc.len() - 1] != '/' {
        out.push('/');
    }
    let mut i: usize = 0;
    let ghost head = out@;
    while i < pc.len()
        invariant
            i <= pc@.len(),
            pc@ == path@,
            out@ == head + pc@.take(i as int),
        decreases pc@.len() - i,
    {
        out.push(pc[i]);
        proof {
            assert(out@ =~= head + pc@.take(i + 1));
        }
        i += 1;
    }
    proof {
        assert(pc@.take(pc@.len() as int) =~= pc@);
        assert(out@ =~= resolved(root@, path@));
    }
    string_of(out.as_slice())
}

/// The directory that holds `path`, for a path without a trailing separator.
pub fn parent_path(path: &str) -> (r: Option<String>)
    ensures
        match r {
            Some(d) => parent_of(path@) == Some(d@),
            None => parent_of(path@) is None,
        },
{
    let pc = chars_of(path);
    let n = pc.len();
    if n == 0 || (n == 1 && pc[0] == '/') {
        proof {
            if n == 1 {
                assert(pc@ =~= seq!['/']);
            }
        }
        return None;
    }
    proof {
        if pc@ == seq!['/'] {
            assert(pc@.len() == 1);
        }
    }
    let mut i: usize = n;
    while i > 0
        invariant
            i <= n == pc@.len(),
            pc@ == path@,
            n > 1 || pc@[0] != '/',
            forall|j: int| i <= j < n ==> pc@[j] != '/',
        decreases i,
    {
        if pc[i - 1] == '/' {
            let k = i - 1;
            proof {
                assert(exists|x: int| 0 <= x < pc@.len() && pc@[x] == '/') by {
                    assert(pc@[k as int] == '/');
                }
                assert(0 <= k < pc@.len() && pc@[k as int] == '/' && forall|j: int|
                    k < j < pc@.len() ==> pc@[j] != '/');
                let c = last_separator(pc@);
                assert(0 <= c < pc@.len() && pc@[c] == '/' && forall|j: int|
                    c < j < pc@.len() ==> pc@[j] != '/');
                assert(c == k) by {
                    if c < k {
                        assert(pc@[k as int] != '/');
                    } else if c > k {
                        assert(pc@[c] != '/');
                    }
                }
            }
            if k == 0 {
                proof {
                    assert(pc@.subrange(0, 1) =~= seq!['/']);
                }
                return Some(string_of(&pc.as_slice()[0..1]));
            }
            proof {
                assert(pc@.subrange(0, k as int) =~= pc@.take(k as int));
            }
            return Some(string_of(&pc.as_slice()[0..k]));
        }
        i -= 1;
    }
    proof {
        assert(!exists|x: int| 0 <= x < pc@.len() && pc@[x] == '/');
    }
    Some(string_of(&pc.as_slice()[0..0]))
}

} // verus!
