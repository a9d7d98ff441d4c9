//! Which request paths name an embedded asset file rather than an app
//! route.
use vstd::prelude::*;

verus! {

/// The final `/`-separated segment of a path.
pub open spec fn last_segment(path: Seq<char>) -> Seq<char> {
    if exists|i: int| 0 <= i < path.len() && path[i] == '/' {
        let i = choose|i: int|
            0 <= i < path.len() && path[i] == '/' && forall|j: int| i < j < path.len() ==> path[j] != '/';
        path.subrange(i + 1, path.len() as int)
    } else {
        path
    }
}

/// Only the last path segment can carry an extension: a dot in a directory
/// name (`v1.2/settings`) does not turn a route into a missing file.
pub fn has_extension(path: &str) -> (r: bool)
    ensures
        r == last_segment(path@).contains('.'),
{
    let chars = crate::text::chars_of(path);
    let n = chars.len();
    let mut i: usize = n;
    let mut dot = false;
    while i > 0 && chars[i - 1] != '/'
        invariant
            chars@ == path@,
            n == chars@.len(),
            i <= n,
            forall|j: int| i <= j < n ==> chars@[j] != '/',
            dot == exists|j: int| i <= j < n && chars@[j] == '.',
        decreases i,
    {
        if chars[i - 1] == '.' {
            dot = true;
        }
        i = i - 1;
    }
    proof {
        let seg = path@.subrange(i as int, n as int);
        if i > 0 {
            assert(path@[i - 1] == '/');
            let c = choose|x: int|
                0 <= x < path@.len() && path@[x] == '/' && forall|j: int|
                    x < j < path@.len() ==> path@[j] != '/';
            assert(0 <= i - 1 < path@.len() && path@[i - 1] == '/' && forall|j: int|
                i - 1 < j < path@.len() ==> path@[j] != '/');
            if c < i - 1 {
                assert(path@[i - 1] != '/');
            } else if c > i - 1 {
                assert(path@[c] != '/');
            }
            assert(last_segment(path@) == seg);
        } else {
            assert(!exists|x: int| 0 <= x < path@.len() && path@[x] == '/');
            assert(seg =~= path@);
        }
        if dot {
            let j = choose|j: int| i <= j < n && chars@[j] == '.';
            assert(seg[j - i] == '.');
        }
        if seg.contains('.') {
            let k = choose|k: int| 0 <= k < seg.len() && seg[k] == '.';
            assert(chars@[i + k] == '.');
        }
    }
    dot
}

} // verus!
