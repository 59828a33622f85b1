//! Requested paths, held below a root directory.

use crate::text;
use crate::text::{find_from, same_text};
use vstd::prelude::*;

verus! {

/// Whether the part of `s` at `i` is `..`.
pub open spec fn climbs_at(s: Seq<char>, i: int) -> bool {
    &&& 0 <= i
    &&& i + 2 <= s.len()
    &&& s[i] == '.'
    &&& s[i + 1] == '.'
    &&& i == 0 || s[i - 1] == '/'
    &&& i + 2 == s.len() || s[i + 2] == '/'
}

/// Whether a part of `s` is `..`.
pub open spec fn climbs(s: Seq<char>) -> bool {
    exists|i: int| climbs_at(s, i)
}

/// The path of `part` in the directory `base`.
pub open spec fn joined(base: Seq<char>, part: Seq<char>) -> Seq<char> {
    if base.len() == 0 || base.last() == '/' {
        base + part
    } else {
        base + seq!['/'] + part
    }
}

/// The path below `base` that `s` names. Empty parts and `.` add nothing.
pub open spec fn below(base: Seq<char>, s: Seq<char>) -> Seq<char>
    decreases s.len(),
    via below_decreases
{
    let k = text::first_of(s, '/');
    let part = s.take(k as int);
    let next = if part.len() == 0 || part == seq!['.'] {
        base
    } else {
        joined(base, part)
    };
    if k == s.len() {
        next
    } else {
        below(next, s.skip(k as int + 1))
    }
}

#[via_fn]
proof fn below_decreases(base: Seq<char>, s: Seq<char>) {
    text::lemma_first_of(s, '/');
}

/// The path below `root` that a request names: none where the request is
/// absolute or climbs.
pub open spec fn sanitized(root: Seq<char>, requested: Seq<char>) -> Option<Seq<char>> {
    if requested.len() > 0 && requested[0] == '/' || climbs(requested) {
        None
    } else {
        Some(below(root, requested))
    }
}

/// Appends a part to a path.
pub(crate) fn join(base: &str, part: &str) -> (r: String)
    ensures
        r@ == joined(base@, part@),
{
    let len: usize = base.unicode_len();
    let mut s = base.to_owned();
    if len > 0 && base.get_char(len - 1) != '/' {
        proof {
            reveal_strlit("/");
            assert("/"@ =~= seq!['/']);
        }
        s.append("/");
    }
    s.append(part);
    s
}

/// The path below `root` that a request names, if it stays below.
pub fn sanitize_tftp_path(root: &str, requested: &str) -> (r: Option<String>)
    ensures
        match r {
            Some(path) => sanitized(root@, requested@) == Some(path@),
            None => sanitized(root@, requested@) is None,
        },
{
    let len: usize = requested.unicode_len();
    if len > 0 && requested.get_char(0) == '/' {
        return None;
    }
    let ghost s = requested@;
    let mut path = root.to_owned();
    let mut start: usize = 0;
    assert(s.skip(0) =~= s);
    loop
        invariant
            start <= len == s.len(),
            s == requested@,
            s.len() > 0 ==> s[0] != '/',
            start == 0 || s[start - 1] == '/',
            forall|i: int| 0 <= i < start ==> !climbs_at(s, i),
            below(root@, s) == below(path@, s.skip(start as int)),
        decreases len - start,
    {
        let ghost tail = s.skip(start as int);
        let end: usize = find_from(requested, '/', start);
        proof {
            text::lemma_first_of(tail, '/');
            assert(tail.take(end - start) =~= s.subrange(start as int, end as int));
            assert forall|i: int| start <= i < end implies s[i] != '/' by {
                assert(tail[i - start] == s[i]);
            }
            if end < len {
                assert(tail[end - start] == s[end as int]);
            }
        }
        let part = requested.substring_char(start, end);
        proof {
            reveal_strlit("..");
            reveal_strlit(".");
            assert("."@ =~= seq!['.']);
        }
        if same_text(part, "..") {
            proof {
                assert(part@[0] == '.' && part@[1] == '.');
                assert(climbs_at(s, start as int));
            }
            return None;
        }
        proof {
            assert forall|i: int| 0 <= i <= end && i < s.len() + 1 implies !climbs_at(s, i) by {
                if climbs_at(s, i) && i >= start {
                    if i > start {
                        assert(s[i - 1] != '/');
                    }
                    assert(i == start);
                    if i + 2 < s.len() {
                        assert(s[i + 2] == '/');
                    }
                    assert(end == i + 2);
                    assert(part@ =~= ".."@);
                }
            }
        }
        if !part.is_empty() && !same_text(part, ".") {
            path = join(path.as_str(), part);
        }
        if end == len {
            return Some(path);
        }
        assert(tail.skip(end - start + 1) =~= s.skip(end + 1));
        start = end + 1;
    }
}

/// Whether a path continues `root` by parts none of which is `..`.
pub open spec fn stays_below(root: Seq<char>, path: Seq<char>) -> bool {
    &&& root.len() <= path.len()
    &&& path.take(root.len() as int) == root
    &&& !climbs(path.skip(root.len() as int))
}

proof fn lemma_joined_stays(root: Seq<char>, base: Seq<char>, part: Seq<char>)
    requires
        stays_below(root, base),
        part.len() > 0,
        forall|i: int| 0 <= i < part.len() ==> part[i] != '/',
        !(part.len() == 2 && part[0] == '.' && part[1] == '.'),
    ensures
        stays_below(root, joined(base, part)),
{
    let n = root.len() as int;
    let old_rest = base.skip(n);
    let path = joined(base, part);
    let rest = path.skip(n);
    assert(path.take(n) =~= base.take(n));
    let at = path.len() - part.len() - n;
    assert forall|i: int| !climbs_at(rest, i) by {
        if climbs_at(rest, i) {
            if i + 2 <= old_rest.len() {
                assert(rest[i] == old_rest[i] && rest[i + 1] == old_rest[i + 1]);
                if i > 0 {
                    assert(rest[i - 1] == old_rest[i - 1]);
                }
                if i + 2 < old_rest.len() {
                    assert(rest[i + 2] == old_rest[i + 2]);
                    assert(climbs_at(old_rest, i));
                } else {
                    assert(climbs_at(old_rest, i));
                }
            } else if i >= at {
                assert(rest[i] == part[i - at]);
                assert(rest[i + 1] == part[i + 1 - at]);
                if i > at {
                    assert(rest[i - 1] == part[i - 1 - at]);
                }
                if i + 2 < rest.len() {
                    assert(rest[i + 2] == part[i + 2 - at]);
                }
            } else {
                assert(i + 1 >= old_rest.len());
                if i + 1 >= at {
                    assert(rest[at] == part[0]);
                    if i < old_rest.len() {
                        assert(rest[i] == old_rest[i]);
                        assert(base.last() == rest[i]);
                    } else {
                        assert(rest[i] == '/');
                    }
                } else {
                    assert(rest[i + 1] == '/');
                }
            }
        }
    }
}

proof fn lemma_below_stays(root: Seq<char>, base: Seq<char>, s: Seq<char>)
    requires
        stays_below(root, base),
        !climbs(s),
    ensures
        stays_below(root, below(base, s)),
    decreases s.len(),
{
    let k = text::first_of(s, '/');
    text::lemma_first_of(s, '/');
    let part = s.take(k as int);
    let next = if part.len() == 0 || part == seq!['.'] {
        base
    } else {
        joined(base, part)
    };
    if !(part.len() == 0 || part == seq!['.']) {
        if part.len() == 2 && part[0] == '.' && part[1] == '.' {
            assert(climbs_at(s, 0));
        }
        lemma_joined_stays(root, base, part);
    }
    if k < s.len() {
        let rest = s.skip(k as int + 1);
        assert forall|i: int| !climbs_at(rest, i) by {
            if climbs_at(rest, i) {
                let j = i + k + 1;
                assert(s[j] == rest[i] && s[j + 1] == rest[i + 1]);
                if i > 0 {
                    assert(s[j - 1] == rest[i - 1]);
                }
                if i + 2 < rest.len() {
                    assert(s[j + 2] == rest[i + 2]);
                }
                assert(climbs_at(s, j));
            }
        }
        lemma_below_stays(root, next, rest);
    }
}

/// Whatever is requested, a path that is given out starts with the root and
/// has no part `..` behind it.
pub proof fn sanitized_stays_below_root(root: Seq<char>, requested: Seq<char>)
    ensures
        sanitized(root, requested) matches Some(path) ==> stays_below(root, path),
{
    if sanitized(root, requested) is Some {
        assert(root.take(root.len() as int) =~= root);
        let rest = root.skip(root.len() as int);
        assert(rest.len() == 0);
        lemma_below_stays(root, root, requested);
    }
}

/// A request is taken part by part: what stands behind a slash is looked for
/// below what stands in front of it. A part that is empty or `.` adds nothing.
pub proof fn parts_are_taken_in_turn(base: Seq<char>, a: Seq<char>, b: Seq<char>)
    ensures
        below(base, a + seq!['/'] + b) == below(below(base, a), b),
        below(base, seq![]) == base,
        below(base, seq!['.']) == base,
    decreases a.len(),
{
    let s = a + seq!['/'] + b;
    let k = text::first_of(a, '/');
    text::lemma_first_of(a, '/');
    assert forall|i: int| 0 <= i < k implies s[i] != '/' by {
        assert(s[i] == a[i]);
    }
    assert(s[k as int] == '/') by {
        if k < a.len() {
            assert(s[k as int] == a[k as int]);
        }
    }
    text::lemma_first_is(s, '/', k);
    assert(s.take(k as int) =~= a.take(k as int));
    let part = a.take(k as int);
    let next = if part.len() == 0 || part == seq!['.'] {
        base
    } else {
        joined(base, part)
    };
    if k < a.len() {
        let rest = a.skip(k as int + 1);
        assert(s.skip(k as int + 1) =~= rest + seq!['/'] + b);
        parts_are_taken_in_turn(next, rest, b);
    } else {
        assert(s.skip(k as int + 1) =~= b);
    }
    text::lemma_first_is(seq!['.'], '/', 1);
    assert(seq!['.'].take(1) =~= seq!['.']);
    text::lemma_first_is(seq![], '/', 0);
}

/// A name without a slash, other than `.` and `..`, is looked for right below
/// the root: behind a slash, which the root may end with already.
pub proof fn names_are_below_root(root: Seq<char>, name: Seq<char>)
    requires
        name.len() > 0,
        name != seq!['.'],
        name != seq!['.', '.'],
        forall|i: int| 0 <= i < name.len() ==> name[i] != '/',
    ensures
        sanitized(root, name) == Some(
            if root.len() == 0 || root.last() == '/' {
                root + name
            } else {
                root + seq!['/'] + name
            },
        ),
{
    text::lemma_first_is(name, '/', name.len());
    assert(name.take(name.len() as int) =~= name);
    assert forall|i: int| !climbs_at(name, i) by {
        if climbs_at(name, i) {
            if i > 0 {
                assert(name[i - 1] != '/');
            }
            if 2 < name.len() {
                assert(name[2] != '/');
            }
            assert(name =~= seq!['.', '.']);
        }
    }
}

/// A request that is absolute is refused, and so is one with a part `..`,
/// wherever that stands. No other is.
pub proof fn climbing_is_refused(root: Seq<char>, a: Seq<char>, b: Seq<char>, s: Seq<char>)
    ensures
        sanitized(root, seq!['/'] + b) is None,
        sanitized(root, seq!['.', '.']) is None,
        sanitized(root, seq!['.', '.', '/'] + b) is None,
        sanitized(root, a + seq!['/', '.', '.']) is None,
        sanitized(root, a + seq!['/', '.', '.', '/'] + b) is None,
        sanitized(root, s) is None ==> (s.len() > 0 && s[0] == '/') || exists|i: int|
            0 <= i && i + 2 <= s.len() && #[trigger] s[i] == '.' && s[i + 1] == '.' && (i == 0
                || s[i - 1] == '/') && (i + 2 == s.len() || s[i + 2] == '/'),
{
    assert(climbs_at(seq!['.', '.'], 0));
    assert(climbs_at(seq!['.', '.', '/'] + b, 0));
    let x = a + seq!['/', '.', '.'];
    let n = a.len() as int;
    assert(x[n] == '/' && x[n + 1] == '.' && x[n + 2] == '.');
    assert(climbs_at(x, n + 1));
    let y = a + seq!['/', '.', '.', '/'] + b;
    assert(y[n] == '/' && y[n + 1] == '.' && y[n + 2] == '.' && y[n + 3] == '/');
    assert(climbs_at(y, n + 1));
    if sanitized(root, s) is None && !(s.len() > 0 && s[0] == '/') {
        let i = choose|i: int| climbs_at(s, i);
        assert(s[i] == '.');
    }
}

/// Between a path and what is joined to it stands one slash: that of the path,
/// if it ends with one, and else another. Nothing is put in front where the path
/// is empty.
pub proof fn joined_by_one_slash(base: Seq<char>, part: Seq<char>)
    ensures
        joined(seq![], part) == part,
        joined(base.push('/'), part) == base + seq!['/'] + part,
        base.len() > 0 && base.last() != '/' ==> joined(base, part) == base + seq!['/'] + part,
{
    assert(joined(seq![], part) =~= part);
    assert(base.push('/') =~= base + seq!['/']);
}

} // verus!
