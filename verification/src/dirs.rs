//! Directories and the files in them, as bytes: which directories are tried for the remote
//! shell's socket, in which order, and what is made of the first that can be written to.
use vstd::prelude::*;
use vstd::string::*;
use vstd::utf8::*;

use crate::text::{
    decimal, decode, join, law_decimal_distinct, law_text_read_back, push_decimal, utf8_text,
};

verus! {

/// The place of the first slash, or the end.
pub open spec fn slash(path: Seq<u8>) -> nat
    decreases path.len(),
{
    if path.len() == 0 || path.first() == 47 {
        0
    } else {
        1 + slash(path.drop_first())
    }
}

/// The directory itself, as a name.
pub open spec fn is_dot(name: Seq<u8>) -> bool {
    name.len() == 1 && name[0] == 46
}

/// The names between the slashes of `path`, without those that are empty or a dot.
pub open spec fn names(path: Seq<u8>) -> Seq<Seq<u8>>
    decreases path.len(),
{
    let end = slash(path) as int;
    let name = path.take(end);
    let rest = if end < path.len() {
        names(path.skip(end + 1))
    } else {
        Seq::empty()
    };
    if name.len() == 0 || is_dot(name) {
        rest
    } else {
        seq![name] + rest
    }
}

/// What tells one path from another: whether it starts at the root, whether it starts with a
/// dot, and its names.
pub struct PathKey {
    pub rooted: bool,
    pub dotted: bool,
    pub names: Seq<Seq<u8>>,
}

/// What tells `path` from other paths. Slashes that follow each other count as one, and neither
/// slashes at the end nor dots after the start count.
#[verifier::opaque]
pub open spec fn path_key(path: Seq<u8>) -> PathKey {
    PathKey {
        rooted: path.len() > 0 && path[0] == 47,
        dotted: is_dot(path.take(slash(path) as int)),
        names: names(path),
    }
}

/// Two ways to write one path.
pub open spec fn same_path(a: Seq<u8>, b: Seq<u8>) -> bool {
    path_key(a) == path_key(b)
}

proof fn lemma_slash(path: Seq<u8>)
    ensures
        slash(path) <= path.len(),
        forall|i: int| 0 <= i < slash(path) ==> path[i] != 47,
        slash(path) < path.len() ==> path[slash(path) as int] == 47,
    decreases path.len(),
{
    if path.len() > 0 && path.first() != 47 {
        lemma_slash(path.drop_first());
        assert forall|i: int| 0 <= i < slash(path) implies path[i] != 47 by {
            if i > 0 {
                assert(path[i] == path.drop_first()[i - 1]);
            }
        }
    }
}

/// The first slash is where no slash goes before.
proof fn lemma_slash_at(path: Seq<u8>, k: int)
    requires
        0 <= k <= path.len(),
        forall|i: int| 0 <= i < k ==> path[i] != 47,
        k < path.len() ==> path[k] == 47,
    ensures
        slash(path) == k,
{
    lemma_slash(path);
    let s = slash(path) as int;
    if s < k {
        assert(path[s] != 47);
    } else if k < s {
        assert(path[k] != 47);
    }
}

/// The bytes of `path` between two positions.
fn part(path: &Vec<u8>, from: usize, to: usize) -> (r: Vec<u8>)
    requires
        from <= to <= path@.len(),
    ensures
        r@ == path@.subrange(from as int, to as int),
{
    let mut r: Vec<u8> = Vec::new();
    let mut i: usize = from;
    while i < to
        invariant
            from <= i <= to <= path@.len(),
            r@ == path@.subrange(from as int, i as int),
        decreases to - i,
    {
        r.push(path[i]);
        i = i + 1;
        assert(r@ =~= path@.subrange(from as int, i as int));
    }
    r
}

/// The names of a path, as vectors.
pub open spec fn name_list(list: Seq<Vec<u8>>) -> Seq<Seq<u8>> {
    list.map_values(|n: Vec<u8>| n@)
}

/// Lists of paths are taken path by path.
pub proof fn law_paths_as_they_are(list: Seq<Vec<u8>>, i: int)
    ensures
        name_list(list).len() == list.len(),
        0 <= i < list.len() ==> name_list(list)[i] == list[i]@,
{
}

/// The place of the first slash from `from` on, or the end.
fn find_slash(path: &Vec<u8>, from: usize) -> (end: usize)
    requires
        from <= path@.len(),
    ensures
        from <= end <= path@.len(),
        end - from == slash(path@.skip(from as int)),
{
    let mut i: usize = from;
    while i < path.len() && path[i] != 47
        invariant
            from <= i <= path@.len(),
            forall|j: int| from <= j < i ==> path@[j] != 47,
        decreases path@.len() - i,
    {
        i = i + 1;
    }
    proof {
        let rest = path@.skip(from as int);
        assert forall|j: int| 0 <= j < i - from implies rest[j] != 47 by {
            assert(rest[j] == path@[from + j]);
        }
        lemma_slash_at(rest, i - from);
    }
    i
}

/// The names between the slashes of `path`, without those that are empty or a dot.
fn split_names(path: &Vec<u8>) -> (list: Vec<Vec<u8>>)
    ensures
        name_list(list@) == names(path@),
{
    let mut list: Vec<Vec<u8>> = Vec::new();
    let mut from: usize = 0;
    assert(path@.skip(0) == path@);
    assert(name_list(list@) + names(path@) =~= names(path@));
    loop
        invariant_except_break
            from <= path@.len(),
            name_list(list@) + names(path@.skip(from as int)) == names(path@),
        ensures
            name_list(list@) == names(path@),
        decreases path@.len() - from,
    {
        let end: usize = find_slash(path, from);
        let ghost rest = path@.skip(from as int);
        let ghost before = name_list(list@);
        let ghost after = if end < path@.len() {
            names(path@.skip(end + 1))
        } else {
            Seq::empty()
        };
        proof {
            assert(rest.take(end - from) =~= path@.subrange(from as int, end as int));
            if end < path@.len() {
                assert(rest.skip(end - from + 1) =~= path@.skip(end + 1));
            }
        }
        if end > from && !(end - from == 1 && path[from] == 46) {
            let name = part(path, from, end);
            list.push(name);
            assert(name_list(list@) =~= before.push(name@));
            assert(names(rest) == seq![name@] + after);
            assert(before + (seq![name@] + after) =~= before.push(name@) + after);
        } else {
            assert(names(rest) == after);
        }
        assert(name_list(list@) + after == names(path@));
        if end == path.len() {
            assert(name_list(list@) + after =~= name_list(list@));
            break;
        }
        from = end + 1;
    }
    list
}

/// Whether two lists of names are the same.
fn same_names(a: &Vec<Vec<u8>>, b: &Vec<Vec<u8>>) -> (r: bool)
    ensures
        r == (name_list(a@) == name_list(b@)),
{
    assert(name_list(a@).len() == a@.len());
    assert(name_list(b@).len() == b@.len());
    if a.len() != b.len() {
        return false;
    }
    let mut i: usize = 0;
    while i < a.len()
        invariant
            i <= a@.len() == b@.len(),
            forall|j: int| 0 <= j < i ==> (#[trigger] a@[j])@ == b@[j]@,
        decreases a@.len() - i,
    {
        if !crate::command::same_bytes(a[i].as_slice(), b[i].as_slice()) {
            assert(name_list(a@)[i as int] != name_list(b@)[i as int]);
            return false;
        }
        i = i + 1;
    }
    assert(name_list(a@) =~= name_list(b@));
    true
}

/// Whether a path starts with a dot.
fn starts_with_dot(path: &Vec<u8>) -> (r: bool)
    ensures
        r == is_dot(path@.take(slash(path@) as int)),
{
    assert(path@.skip(0) == path@);
    let end: usize = find_slash(path, 0);
    end == 1 && path[0] == 46
}

/// Whether `a` and `b` are two ways to write one path.
pub fn equal_paths(a: &Vec<u8>, b: &Vec<u8>) -> (r: bool)
    ensures
        r == same_path(a@, b@),
{
    let a_rooted = a.len() > 0 && a[0] == 47;
    let b_rooted = b.len() > 0 && b[0] == 47;
    let a_dotted = starts_with_dot(a);
    let b_dotted = starts_with_dot(b);
    proof {
        reveal(path_key);
    }
    let a_names = split_names(a);
    let b_names = split_names(b);
    a_rooted == b_rooted && a_dotted == b_dotted && same_names(&a_names, &b_names)
}

/// The path ends in a name, or is no more than a root, a dot or nothing.
pub open spec fn is_tight(path: Seq<u8>) -> bool {
    path.len() <= 1 || (path.last() != 47 && !(path.last() == 46 && path[path.len() - 2] == 47))
}

/// What tells the parent of `path` from other paths: it has the names of `path` but the last.
pub open spec fn parent_key(path: Seq<u8>) -> PathKey {
    let key = path_key(path);
    if key.names.len() > 0 {
        PathKey { names: key.names.drop_last(), ..key }
    } else {
        PathKey { dotted: false, ..key }
    }
}

/// `dir` is the parent of `path`: what stands before its last name, without slashes and dots
/// at the end.
pub open spec fn is_parent(dir: Seq<u8>, path: Seq<u8>) -> bool {
    &&& dir.is_prefix_of(path)
    &&& is_tight(dir)
    &&& path_key(dir) == parent_key(path)
}

/// A path has a parent unless it is a root or nothing.
pub open spec fn has_parent(path: Seq<u8>) -> bool {
    path_key(path).names.len() > 0 || path_key(path).dotted
}

/// The names on both sides of a slash.
proof fn lemma_names_split(path: Seq<u8>, m: int)
    requires
        0 <= m < path.len(),
        path[m] == 47,
    ensures
        names(path) == names(path.take(m)) + names(path.skip(m + 1)),
    decreases path.len(),
{
    lemma_slash(path);
    let end = slash(path) as int;
    let left = path.take(m);
    assert(end <= m);
    lemma_slash_at(left, end);
    assert(left.take(end) =~= path.take(end));
    if end < m {
        let rest = path.skip(end + 1);
        let k = m - end - 1;
        lemma_names_split(rest, k);
        assert(rest.take(k) =~= left.skip(end + 1));
        assert(rest.skip(k + 1) =~= path.skip(m + 1));
        assert(names(path) =~= names(left) + names(path.skip(m + 1)));
    } else {
        assert(names(path) =~= names(left) + names(path.skip(m + 1)));
    }
}

/// The names of a single part of a path.
proof fn lemma_names_one(part: Seq<u8>)
    requires
        forall|i: int| 0 <= i < part.len() ==> part[i] != 47,
    ensures
        names(part) == if part.len() == 0 || is_dot(part) {
            Seq::<Seq<u8>>::empty()
        } else {
            seq![part]
        },
{
    lemma_slash_at(part, part.len() as int);
    assert(part.take(part.len() as int) == part);
    assert(names(part) =~= if part.len() == 0 || is_dot(part) {
        Seq::<Seq<u8>>::empty()
    } else {
        seq![part]
    });
}

/// How many bytes of a path stand before its names: a root or a dot.
spec fn lead(path: Seq<u8>) -> int {
    if path.len() > 0 && (path[0] == 47 || is_dot(path.take(slash(path) as int))) {
        1
    } else {
        0
    }
}

/// A place at which a path can be cut: the end of one of its parts, or of what goes before.
spec fn is_cut(path: Seq<u8>, e: int) -> bool {
    &&& lead(path) <= e <= path.len()
    &&& is_tight(path.take(e))
    &&& e == lead(path) || e == path.len() || path[e] == 47
}

/// A path that is cut starts as the whole.
proof fn lemma_cut_key(path: Seq<u8>, e: int)
    requires
        is_cut(path, e),
    ensures
        path_key(path.take(e)) == (PathKey { names: names(path.take(e)), ..path_key(path) }),
{
    reveal(path_key);
    let dir = path.take(e);
    lemma_slash(path);
    lemma_slash(dir);
    let a = slash(path) as int;
    let b = slash(dir) as int;
    if is_dot(path.take(a)) {
        assert(path.take(a)[0] == path[0]);
        assert(dir[0] == 46);
        lemma_slash_at(dir, 1);
        assert(dir.take(1)[0] == dir[0]);
    } else if is_dot(dir.take(b)) {
        assert(dir.take(b)[0] == path[0]);
        lemma_slash_at(path, 1);
        assert(path.take(1)[0] == path[0]);
    }
}

/// The names of a path up to the end of one of its parts, and from the start of that part on.
proof fn lemma_names_part(path: Seq<u8>, from: int, end: int)
    requires
        0 <= from <= end <= path.len(),
        from > 0 ==> path[from - 1] == 47,
        end - from == slash(path.skip(from)),
    ensures
        end < path.len() ==> path[end] == 47,
        forall|i: int| from <= i < end ==> path[i] != 47,
        names(path.take(end)) == if from > 0 {
            names(path.take(from - 1)) + names(path.subrange(from, end))
        } else {
            names(path.subrange(from, end))
        },
        names(path.skip(from)) == names(path.subrange(from, end)) + if end < path.len() {
            names(path.skip(end + 1))
        } else {
            Seq::<Seq<u8>>::empty()
        },
        names(path.subrange(from, end)) == if end == from || is_dot(path.subrange(from, end)) {
            Seq::<Seq<u8>>::empty()
        } else {
            seq![path.subrange(from, end)]
        },
{
    let rest = path.skip(from);
    let upto = path.take(end);
    let piece = path.subrange(from, end);
    lemma_slash(rest);
    assert(rest.take(end - from) =~= piece);
    if end < path.len() {
        assert(path[end] == rest[end - from]);
        assert(rest.skip(end - from + 1) =~= path.skip(end + 1));
    }
    assert forall|i: int| from <= i < end implies path[i] != 47 by {
        assert(path[i] == rest[i - from]);
    }
    lemma_names_one(piece);
    if from > 0 {
        lemma_names_split(upto, from - 1);
        assert(upto.take(from - 1) =~= path.take(from - 1));
        assert(upto.skip(from) =~= piece);
    } else {
        assert(upto =~= piece);
    }
    let after = if end < path.len() {
        names(path.skip(end + 1))
    } else {
        Seq::empty()
    };
    assert(names(rest) =~= names(piece) + after);
}

/// A path can be cut at the end of a name.
proof fn lemma_cut_at_name(path: Seq<u8>, from: int, end: int)
    requires
        0 <= from < end <= path.len(),
        end < path.len() ==> path[end] == 47,
        forall|i: int| from <= i < end ==> path[i] != 47,
        !is_dot(path.subrange(from, end)),
    ensures
        is_cut(path, end),
{
    let upto = path.take(end);
    assert(upto.last() == path[end - 1]);
    if upto.len() > 1 && upto.last() == 46 && upto[end - 2] == 47 {
        assert(path.subrange(from, end)[0] == path[from]);
    }
}

/// The directory that the file at `path` stands in, if the path has one.
pub fn parent_dir(path: &Vec<u8>) -> (r: Option<Vec<u8>>)
    ensures
        match r {
            Some(dir) => has_parent(path@) && is_parent(dir@, path@),
            None => !has_parent(path@),
        },
{
    let dotted = starts_with_dot(path);
    let start: usize = if path.len() > 0 && (path[0] == 47 || dotted) {
        1
    } else {
        0
    };
    let ghost mut seen: Seq<Seq<u8>> = Seq::empty();
    let mut before: usize = start;
    let mut last: usize = start;
    let mut found: bool = false;
    let mut from: usize = 0;
    proof {
        lemma_slash(path@);
        assert(path@.skip(0) == path@);
        assert(seen + names(path@) =~= names(path@));
        let lead = path@.take(start as int);
        if start == 1 {
            if dotted {
                assert(path@.take(slash(path@) as int)[0] == path@[0]);
                lemma_names_one(lead);
            } else {
                lemma_names_split(lead, 0);
                lemma_names_one(lead.take(0));
                lemma_names_one(lead.skip(1));
            }
        } else {
            lemma_names_one(lead);
        }
        assert(names(lead) =~= seen);
    }
    loop
        invariant_except_break
            from <= path@.len(),
            start == lead(path@),
            dotted == is_dot(path@.take(slash(path@) as int)),
            seen + names(path@.skip(from as int)) == names(path@),
            from == 0 ==> seen.len() == 0,
            from > 0 ==> path@[from - 1] == 47 && names(path@.take(from - 1)) == seen,
            found == (seen.len() > 0),
            is_cut(path@, last as int),
            names(path@.take(last as int)) == seen,
            is_cut(path@, before as int),
            found ==> names(path@.take(before as int)) == seen.drop_last(),
        ensures
            seen == names(path@),
            found == (seen.len() > 0),
            is_cut(path@, before as int),
            found ==> names(path@.take(before as int)) == seen.drop_last(),
        decreases path@.len() - from,
    {
        let end: usize = find_slash(path, from);
        let ghost piece = path@.subrange(from as int, end as int);
        let ghost after = if end < path@.len() {
            names(path@.skip(end + 1))
        } else {
            Seq::empty()
        };
        proof {
            lemma_names_part(path@, from as int, end as int);
            assert(names(path@.take(end as int)) =~= seen + names(piece));
            assert(seen + (names(piece) + after) =~= seen + names(piece) + after);
        }
        if end > from && !(end - from == 1 && path[from] == 46) {
            proof {
                lemma_cut_at_name(path@, from as int, end as int);
                assert(seen + names(piece) =~= seen.push(piece));
                assert(seen.push(piece).drop_last() =~= seen);
                seen = seen.push(piece);
            }
            before = last;
            last = end;
            found = true;
        } else {
            assert(end > from ==> piece[0] == path@[from as int]);
            assert(seen + names(piece) =~= seen);
        }
        assert(seen + after == names(path@));
        if end == path.len() {
            assert(seen + after =~= seen);
            break;
        }
        from = end + 1;
    }
    proof {
        assert(path_key(path@).names == names(path@) && path_key(path@).dotted == dotted) by {
            reveal(path_key);
        }
        lemma_cut_key(path@, before as int);
    }
    if found {
        let dir = part(path, 0, before);
        assert(dir@ =~= path@.take(before as int));
        assert(dir@.is_prefix_of(path@));
        Some(dir)
    } else if dotted {
        let dir: Vec<u8> = Vec::new();
        assert(path_key(dir@) == parent_key(path@)) by {
            reveal(path_key);
            lemma_names_one(dir@);
            assert(path@.take(slash(path@) as int)[0] == path@[0]);
        }
        assert(dir@.is_prefix_of(path@));
        Some(dir)
    } else {
        None
    }
}

/// A path has no fewer names than what it starts with.
proof fn lemma_names_grow(path: Seq<u8>, k: int)
    requires
        0 <= k <= path.len(),
    ensures
        names(path.take(k)).len() <= names(path).len(),
    decreases path.len(),
{
    lemma_slash(path);
    let end = slash(path) as int;
    let front = path.take(k);
    if k <= end {
        lemma_names_one(front);
        if front.len() > 0 && !is_dot(front) {
            assert(path.take(end)[0] == front[0]);
            assert(!is_dot(path.take(end)));
        }
    } else {
        lemma_slash_at(front, end);
        assert(front.take(end) =~= path.take(end));
        lemma_names_grow(path.skip(end + 1), k - end - 1);
        assert(path.skip(end + 1).take(k - end - 1) =~= front.skip(end + 1));
    }
}

/// The place of the last slash, or one before the start.
spec fn last_slash(path: Seq<u8>) -> int
    decreases path.len(),
{
    if path.len() == 0 || path.last() == 47 {
        path.len() - 1
    } else {
        last_slash(path.drop_last())
    }
}

proof fn lemma_last_slash(path: Seq<u8>)
    ensures
        -1 <= last_slash(path) < path.len(),
        last_slash(path) >= 0 ==> path[last_slash(path)] == 47,
        forall|i: int| last_slash(path) < i < path.len() ==> path[i] != 47,
    decreases path.len(),
{
    if path.len() > 0 && path.last() != 47 {
        let front = path.drop_last();
        lemma_last_slash(front);
        assert forall|i: int| last_slash(path) < i < path.len() implies path[i] != 47 by {
            if i < front.len() {
                assert(path[i] == front[i]);
            }
        }
    }
}

/// A tight path has another key than what it starts with.
proof fn lemma_tight_key(path: Seq<u8>, k: int)
    requires
        is_tight(path),
        0 <= k < path.len(),
    ensures
        path_key(path.take(k)) != path_key(path),
{
    reveal(path_key);
    lemma_last_slash(path);
    let s = last_slash(path);
    let piece = path.skip(s + 1);
    let front = path.take(k);
    if piece.len() == 0 {
        assert(path.len() == 1);
    } else if is_dot(piece) {
        assert(path.last() == piece[0]);
        if s >= 0 {
            assert(path[path.len() - 2] == 47);
        }
        assert(path.len() == 1);
        lemma_slash_at(path, 1);
        assert(path.take(1) =~= path);
        assert(piece =~= path);
        lemma_slash_at(front, 0);
    } else {
        lemma_names_one(piece);
        if s < 0 {
            assert(piece =~= path);
            lemma_names_one(front);
            if names(front) == names(path) {
                assert(names(front)[0].len() == k);
                assert(names(path)[0].len() == path.len());
            }
        } else {
            lemma_names_split(path, s);
            if k <= s {
                lemma_names_grow(path.take(s), k);
                assert(path.take(s).take(k) =~= front);
            } else {
                lemma_names_split(front, s);
                assert(front.take(s) =~= path.take(s));
                let cut = front.skip(s + 1);
                lemma_names_one(cut);
                if names(front) == names(path) {
                    assert(names(front).len() == names(path.take(s)).len() + names(cut).len());
                    assert(names(front).last() == cut);
                    assert(names(path).last() == piece);
                }
            }
        }
    }
}

/// A path has one parent at most, to the byte.
pub proof fn law_one_parent(path: Seq<u8>, a: Seq<u8>, b: Seq<u8>)
    requires
        is_parent(a, path),
        is_parent(b, path),
    ensures
        a == b,
{
    if a.len() < b.len() {
        lemma_tight_key(b, a.len() as int);
        assert(b.take(a.len() as int) =~= a);
    } else if b.len() < a.len() {
        lemma_tight_key(a, b.len() as int);
        assert(a.take(b.len() as int) =~= b);
    } else {
        assert(a =~= b);
    }
}

/// The names of a path are those before a slash of it, then those after it.
pub proof fn law_names_around_a_slash(before: Seq<u8>, after: Seq<u8>)
    ensures
        names(before + seq![47u8] + after) == names(before) + names(after),
{
    let path = before + seq![47u8] + after;
    let m = before.len() as int;
    lemma_names_split(path, m);
    assert(path.take(m) =~= before);
    assert(path.skip(m + 1) =~= after);
}

/// What holds no slash is a name by itself, unless it is empty or a dot.
pub proof fn law_name_by_itself(name: Seq<u8>)
    requires
        forall|i: int| 0 <= i < name.len() ==> #[trigger] name[i] != 47,
    ensures
        name.len() == 0 || name == seq![46u8] ==> names(name).len() == 0,
        name.len() > 0 && name != seq![46u8] ==> names(name) == seq![name],
{
    lemma_names_one(name);
    if is_dot(name) {
        assert(name =~= seq![46u8]);
    }
}

/// Two paths are the same exactly if both or neither start at the root, both or neither start with
/// a dot, and their names are the same, to the last.
pub proof fn law_same_paths(a: Seq<u8>, b: Seq<u8>)
    ensures
        same_path(a, b) <==> {
            &&& (a.len() > 0 && a[0] == 47) == (b.len() > 0 && b[0] == 47)
            &&& (a.len() > 0 && a[0] == 46 && (a.len() == 1 || a[1] == 47)) == (b.len() > 0 && b[0]
                == 46 && (b.len() == 1 || b[1] == 47))
            &&& names(a) == names(b)
        },
{
    reveal(path_key);
    lemma_dotted(a);
    lemma_dotted(b);
}

proof fn lemma_dotted(path: Seq<u8>)
    ensures
        is_dot(path.take(slash(path) as int)) <==> path.len() > 0 && path[0] == 46 && (path.len()
            == 1 || path[1] == 47),
{
    lemma_slash(path);
    let lead = path.take(slash(path) as int);
    if path.len() > 0 && path[0] == 46 && (path.len() == 1 || path[1] == 47) {
        lemma_slash_at(path, 1);
    }
    if is_dot(lead) {
        assert(lead[0] == path[0]);
    }
}

/// The directory of a file is what stands before its name: before the last slash, at the root, or
/// nothing. A root and an empty path stand in no directory.
pub proof fn law_parent_of_a_file(dir: Seq<u8>, name: Seq<u8>)
    requires
        dir.len() > 0,
        dir.last() != 47,
        dir.len() > 1 ==> !(dir.last() == 46 && dir[dir.len() - 2] == 47),
        name.len() > 0,
        name != seq![46u8],
        forall|i: int| 0 <= i < name.len() ==> #[trigger] name[i] != 47,
    ensures
        is_parent(dir, dir + seq![47u8] + name) && has_parent(dir + seq![47u8] + name),
        is_parent(seq![47u8], seq![47u8] + name) && has_parent(seq![47u8] + name),
        is_parent(Seq::empty(), name) && has_parent(name),
        !has_parent(seq![47u8]),
        !has_parent(Seq::empty()),
{
    reveal(path_key);
    let empty = Seq::<u8>::empty();
    let root = seq![47u8];
    law_name_by_itself(name);
    law_name_by_itself(empty);
    // in a directory
    let path = dir + root + name;
    law_names_around_a_slash(dir, name);
    assert(names(path).drop_last() =~= names(dir));
    lemma_dotted(path);
    lemma_dotted(dir);
    assert(path[0] == dir[0]);
    if dir.len() == 1 {
        assert(path[1] == 47);
    } else {
        assert(path[1] == dir[1]);
    }
    assert(dir.is_prefix_of(path));
    // at the root
    let top = root + name;
    law_names_around_a_slash(empty, name);
    law_names_around_a_slash(empty, empty);
    assert(empty + root + name =~= top);
    assert(empty + root + empty =~= root);
    assert(names(top).drop_last() =~= names(root));
    lemma_dotted(top);
    lemma_dotted(root);
    assert(root.is_prefix_of(top));
    // by itself
    assert(names(name).drop_last() =~= names(empty));
    lemma_dotted(name);
    lemma_dotted(empty);
    if name[0] == 46 {
        if name.len() == 1 {
            assert(name =~= seq![46u8]);
        }
    }
    assert(empty.is_prefix_of(name));
}

/// Slashes and dots after the last name of a path do not change its parent.
pub proof fn law_parent_ignores_the_end(dir: Seq<u8>, path: Seq<u8>)
    requires
        names(path).len() > 0,
        is_parent(dir, path),
    ensures
        is_parent(dir, path.push(47)),
        is_parent(dir, path.push(47).push(46)),
{
    reveal(path_key);
    let empty = Seq::<u8>::empty();
    let dot = seq![46u8];
    let one = path.push(47);
    let two = path.push(47).push(46);
    if path.len() == 0 {
        lemma_names_one(path);
    }
    lemma_names_one(empty);
    lemma_names_one(dot);
    law_names_around_a_slash(path, empty);
    law_names_around_a_slash(path, dot);
    assert(path + seq![47u8] + empty =~= one);
    assert(path + seq![47u8] + dot =~= two);
    assert(names(one) =~= names(path));
    assert(names(two) =~= names(path));
    lemma_dotted(path);
    lemma_dotted(one);
    lemma_dotted(two);
    if path.len() == 1 && path[0] == 46 {
        assert(path =~= dot);
    }
    assert(dir =~= path.subrange(0, dir.len() as int));
    assert(dir =~= one.subrange(0, dir.len() as int));
    assert(dir =~= two.subrange(0, dir.len() as int));
}

/// A path, if there is one.
pub open spec fn maybe(path: Option<Vec<u8>>) -> Seq<Seq<u8>> {
    match path {
        Some(p) => seq![p@],
        None => Seq::empty(),
    }
}

/// The paths that there are.
pub open spec fn present(paths: Seq<Option<Vec<u8>>>) -> Seq<Seq<u8>>
    decreases paths.len(),
{
    if paths.len() == 0 {
        Seq::empty()
    } else {
        present(paths.drop_last()) + maybe(paths.last())
    }
}

/// The directory of last resort.
pub open spec fn last_resort() -> Seq<u8> {
    seq![47u8, 116u8, 109u8, 112u8]
}

/// Some path of `list` is `path`, however it is written.
pub open spec fn listed(list: Seq<Seq<u8>>, path: Seq<u8>) -> bool {
    exists|i: int| 0 <= i < list.len() && same_path(#[trigger] list[i], path)
}

/// `list` without the paths that stand before in it already.
pub open spec fn unique(list: Seq<Seq<u8>>) -> Seq<Seq<u8>>
    decreases list.len(),
{
    if list.len() == 0 {
        Seq::empty()
    } else {
        let front = unique(list.drop_last());
        if listed(front, list.last()) {
            front
        } else {
            front.push(list.last())
        }
    }
}

/// All directories to try, in order: that of the program, the current one, those that the
/// environment names, and the last resort.
pub open spec fn all_candidates(
    exe_dir: Option<Vec<u8>>,
    cwd: Option<Vec<u8>>,
    named: Seq<Option<Vec<u8>>>,
) -> Seq<Seq<u8>> {
    maybe(exe_dir) + maybe(cwd) + present(named) + seq![last_resort()]
}

/// The variables that name a directory to try, in order.
pub open spec fn temp_dir_names() -> Seq<Seq<char>> {
    seq!["TMPDIR"@, "TEMP"@, "TMP"@, "XDG_RUNTIME_DIR"@]
}

/// The variables that name a directory to try, in order.
pub fn temp_dir_vars() -> (v: Vec<&'static str>)
    ensures
        v@.map_values(|s: &'static str| s@) == temp_dir_names(),
{
    let mut v: Vec<&'static str> = Vec::new();
    v.push("TMPDIR");
    v.push("TEMP");
    v.push("TMP");
    v.push("XDG_RUNTIME_DIR");
    assert(v@.map_values(|s: &'static str| s@) =~= temp_dir_names());
    v
}

/// Appends `path` to `list`, unless it stands there already.
fn push_unique(list: &mut Vec<Vec<u8>>, path: Vec<u8>, Ghost(all): Ghost<Seq<Seq<u8>>>)
    requires
        name_list(old(list)@) == unique(all),
    ensures
        name_list(final(list)@) == unique(all.push(path@)),
{
    let ghost before = list@;
    assert(all.push(path@).drop_last() == all);
    let mut i: usize = 0;
    while i < list.len()
        invariant
            i <= list@.len(),
            list@ == before,
            name_list(before) == unique(all),
            all.push(path@).drop_last() == all,
            forall|j: int| 0 <= j < i ==> !same_path(#[trigger] name_list(before)[j], path@),
        decreases list@.len() - i,
    {
        assert(name_list(before)[i as int] == list@[i as int]@);
        if equal_paths(&list[i], &path) {
            assert(listed(unique(all), path@));
            return ;
        }
        i = i + 1;
    }
    list.push(path);
    assert(name_list(list@) =~= name_list(before).push(path@));
}

/// The directories to try for the socket, none twice. `named` holds what the variables of
/// [`temp_dir_vars`] name, in their order.
#[verifier::spinoff_prover]
pub fn temp_dir_candidates(
    exe_dir: Option<Vec<u8>>,
    cwd: Option<Vec<u8>>,
    named: Vec<Option<Vec<u8>>>,
) -> (r: Vec<Vec<u8>>)
    ensures
        name_list(r@) == unique(all_candidates(exe_dir, cwd, named@)),
        exe_dir matches Some(d) ==> r@.len() > 0 && r@[0]@ == d@,
        exe_dir is None ==> (cwd matches Some(d) ==> r@.len() > 0 && r@[0]@ == d@),
        exe_dir matches Some(e) ==> (cwd matches Some(d) ==> (same_path(e@, d@) || (r@.len() > 1
            && r@[1]@ == d@))),
        forall|k: int|
            0 <= k < named@.len() ==> (#[trigger] named@[k] matches Some(d) ==> exists|i: int|
                0 <= i < r@.len() && same_path((#[trigger] r@[i])@, d@)),
        exists|i: int|
            0 <= i < r@.len() && same_path(
                (#[trigger] r@[i])@,
                seq![47u8, 116u8, 109u8, 112u8],
            ),
{
    let mut list: Vec<Vec<u8>> = Vec::new();
    let ghost mut all: Seq<Seq<u8>> = Seq::empty();
    assert(name_list(list@) =~= unique(all));
    let ghost first = maybe(exe_dir);
    if let Some(p) = exe_dir {
        push_unique(&mut list, p, Ghost(all));
        proof {
            all = all.push(p@);
        }
    }
    assert(all =~= first);
    let ghost second = maybe(cwd);
    if let Some(p) = cwd {
        push_unique(&mut list, p, Ghost(all));
        proof {
            all = all.push(p@);
        }
    }
    assert(all =~= first + second);
    let ghost given = named@;
    let mut rest = named;
    let mut i: usize = 0;
    assert(given.take(0) == Seq::<Option<Vec<u8>>>::empty());
    assert(all =~= first + second + present(given.take(0)));
    while i < rest.len()
        invariant
            i <= rest@.len() == given.len(),
            forall|j: int| i <= j < given.len() ==> rest@[j] == given[j],
            all == first + second + present(given.take(i as int)),
            name_list(list@) == unique(all),
        decreases rest@.len() - i,
    {
        let mut path: Option<Vec<u8>> = None;
        std::mem::swap(&mut path, &mut rest[i]);
        assert(path == given[i as int]);
        assert(given.take(i + 1).drop_last() == given.take(i as int));
        if let Some(p) = path {
            push_unique(&mut list, p, Ghost(all));
            proof {
                all = all.push(p@);
            }
        }
        assert(all =~= first + second + present(given.take(i + 1)));
        i = i + 1;
    }
    assert(given.take(given.len() as int) == given);
    let ghost tmp_bytes = seq![47u8, 116u8, 109u8, 112u8];
    let tmp: Vec<u8> = vec![47u8, 116u8, 109u8, 112u8];
    assert(tmp@ =~= last_resort());
    push_unique(&mut list, tmp, Ghost(all));
    assert(all.push(last_resort()) =~= first + second + present(given) + seq![last_resort()]);
    proof {
        let tried = unique(all_candidates(exe_dir, cwd, given));
        assert(name_list(list@) == tried);
        law_every_directory_is_tried(exe_dir, cwd, given, 0);
        assert forall|i: int| 0 <= i < list@.len() implies (#[trigger] list@[i])@ == tried[i] by {
            assert(name_list(list@)[i] == list@[i]@);
        }
        assert(tried.len() == list@.len());
        let t = choose|i: int| 0 <= i < tried.len() && same_path(#[trigger] tried[i], tmp_bytes);
        assert(same_path(list@[t]@, tmp_bytes));
        assert forall|k: int| 0 <= k < given.len() && #[trigger] given[k] is Some implies exists|i: int|
            0 <= i < list@.len() && same_path((#[trigger] list@[i])@, given[k]->0@) by {
            law_every_directory_is_tried(exe_dir, cwd, given, k);
            let i = choose|i: int|
                0 <= i < tried.len() && same_path(#[trigger] tried[i], given[k]->0@);
            assert(same_path(list@[i]@, given[k]->0@));
        }
    }
    list
}

proof fn lemma_unique(list: Seq<Seq<u8>>)
    ensures
        forall|i: int, j: int|
            0 <= i < j < unique(list).len() ==> !same_path(
                #[trigger] unique(list)[i],
                #[trigger] unique(list)[j],
            ),
        forall|i: int| 0 <= i < list.len() ==> listed(unique(list), #[trigger] list[i]),
        forall|i: int| 0 <= i < unique(list).len() ==> list.contains(#[trigger] unique(list)[i]),
    decreases list.len(),
{
    if list.len() > 0 {
        let front = list.drop_last();
        let before = unique(front);
        let now = unique(list);
        lemma_unique(front);
        assert forall|i: int| 0 <= i < list.len() implies listed(now, #[trigger] list[i]) by {
            if i < front.len() {
                assert(list[i] == front[i]);
                let k = choose|k: int| 0 <= k < before.len() && same_path(#[trigger] before[k], front[i]);
                assert(now[k] == before[k]);
            } else if listed(before, list.last()) {
                let k = choose|k: int|
                    0 <= k < before.len() && same_path(#[trigger] before[k], list.last());
                assert(now[k] == before[k]);
            } else {
                assert(now[now.len() - 1] == list.last());
            }
        }
        assert forall|i: int| 0 <= i < now.len() implies list.contains(#[trigger] now[i]) by {
            if i < before.len() {
                assert(front.contains(before[i]));
                let k = choose|k: int| 0 <= k < front.len() && front[k] == before[i];
                assert(list[k] == now[i]);
            } else {
                assert(list[list.len() - 1] == now[i]);
            }
        }
    }
}

/// No directory is tried twice, each that there is gets tried, and no other.
pub proof fn law_candidates_tried_once(
    exe_dir: Option<Vec<u8>>,
    cwd: Option<Vec<u8>>,
    named: Seq<Option<Vec<u8>>>,
)
    ensures
        ({
            let all = all_candidates(exe_dir, cwd, named);
            let tried = unique(all);
            &&& forall|i: int, j: int|
                0 <= i < j < tried.len() ==> !same_path(#[trigger] tried[i], #[trigger] tried[j])
            &&& forall|i: int| 0 <= i < all.len() ==> listed(tried, #[trigger] all[i])
            &&& forall|i: int| 0 <= i < tried.len() ==> all.contains(#[trigger] tried[i])
        }),
{
    lemma_unique(all_candidates(exe_dir, cwd, named));
}

/// Each path of a list is tried, after none but paths that come before it in the list.
proof fn lemma_tried_in_turn(list: Seq<Seq<u8>>, p: int) -> (i: int)
    requires
        0 <= p < list.len(),
    ensures
        0 <= i < unique(list).len(),
        same_path(unique(list)[i], list[p]),
        forall|j: int| 0 <= j < i ==> list.take(p).contains(#[trigger] unique(list)[j]),
        !listed(unique(list.take(p)), list[p]) ==> i == unique(list.take(p)).len()
            && unique(list)[i] == list[p],
{
    let front = list.take(p);
    let before = unique(front);
    let with = list.take(p + 1);
    assert(with.drop_last() =~= front);
    assert(with.last() == list[p]);
    lemma_unique(front);
    law_candidates_keep_their_order(list, p);
    law_candidates_keep_their_order(list, p + 1);
    let all = unique(list);
    assert forall|j: int| 0 <= j < before.len() implies front.contains(#[trigger] all[j]) by {
        assert(all[j] == before[j]);
    }
    if listed(before, list[p]) {
        let i = choose|i: int| 0 <= i < before.len() && same_path(#[trigger] before[i], list[p]);
        assert(all[i] == before[i]);
        i
    } else {
        let i = before.len() as int;
        assert(unique(with) == before.push(list[p]));
        assert(all[i] == unique(with)[i]);
        i
    }
}

#[verifier::spinoff_prover]
proof fn lemma_present(named: Seq<Option<Vec<u8>>>, k: int)
    requires
        0 <= k <= named.len(),
    ensures
        present(named.take(k)).is_prefix_of(present(named)),
        k < named.len() ==> (named[k] matches Some(d) ==> present(named.take(k)).len() < present(
            named,
        ).len() && present(named)[present(named.take(k)).len() as int] == d@),
        forall|x: Seq<u8>| #[trigger]
            present(named.take(k)).contains(x) ==> exists|m: int|
                0 <= m < k && (#[trigger] named[m] matches Some(d) && d@ == x),
    decreases named.len(),
{
    if named.len() == 0 {
        assert(named.take(k) =~= named);
    } else {
        let front = named.drop_last();
        let last = maybe(named.last());
        if k == named.len() {
            assert(named.take(k) =~= named);
            lemma_present(front, front.len() as int);
            assert(front.take(front.len() as int) =~= front);
            assert forall|x: Seq<u8>| #[trigger] present(named.take(k)).contains(x) implies exists|
                m: int,
            | 0 <= m < k && (#[trigger] named[m] matches Some(d) && d@ == x) by {
                if present(front).contains(x) {
                    let m = choose|m: int|
                        0 <= m < front.len() && (#[trigger] front[m] matches Some(d) && d@ == x);
                    assert(named[m] == front[m]);
                } else {
                    let i = choose|i: int| 0 <= i < present(named).len() && present(named)[i] == x;
                    if i < present(front).len() {
                        assert(present(front)[i] == x);
                    }
                    assert(named[named.len() - 1] is Some);
                }
            }
        } else {
            lemma_present(front, k);
            assert(front.take(k) =~= named.take(k));
            let short = present(named.take(k));
            assert(present(named) == present(front) + last);
            assert(short.is_prefix_of(present(named))) by {
                assert(short =~= present(front).subrange(0, short.len() as int));
                assert(short =~= present(named).subrange(0, short.len() as int));
            }
            if k == front.len() {
                assert(front.take(k) =~= front);
            } else {
                assert(front[k] == named[k]);
            }
            assert forall|x: Seq<u8>| #[trigger] short.contains(x) implies exists|m: int|
                0 <= m < k && (#[trigger] named[m] matches Some(d) && d@ == x) by {
                let m = choose|m: int|
                    0 <= m < k && (#[trigger] front[m] matches Some(d) && d@ == x);
                assert(named[m] == front[m]);
            }
        }
    }
}

/// `dir` is the program's directory, the current one, or one of the first `k` that are named.
pub open spec fn given_before(
    exe_dir: Option<Vec<u8>>,
    cwd: Option<Vec<u8>>,
    named: Seq<Option<Vec<u8>>>,
    k: int,
    dir: Seq<u8>,
) -> bool {
    ||| (exe_dir matches Some(e) && e@ == dir)
    ||| (cwd matches Some(c) && c@ == dir)
    ||| exists|m: int| 0 <= m < k && (#[trigger] named[m] matches Some(n) && n@ == dir)
}

/// Every directory is tried that there is: that of the program first, the current one after none
/// but that, each one that the environment names after none but those two and the ones named
/// before it, and the directory for temporary files whatever else there is.
#[verifier::spinoff_prover]
pub proof fn law_every_directory_is_tried(
    exe_dir: Option<Vec<u8>>,
    cwd: Option<Vec<u8>>,
    named: Seq<Option<Vec<u8>>>,
    k: int,
)
    ensures
        ({
            let tried = unique(all_candidates(exe_dir, cwd, named));
            &&& exe_dir matches Some(d) ==> tried.len() > 0 && tried[0] == d@
            &&& exe_dir is None ==> (cwd matches Some(d) ==> tried.len() > 0 && tried[0] == d@)
            &&& exe_dir matches Some(e) ==> (cwd matches Some(d) ==> (same_path(e@, d@) || (
            tried.len() > 1 && tried[1] == d@)))
            &&& 0 <= k < named.len() ==> (named[k] matches Some(d) ==> exists|i: int|
                {
                    &&& 0 <= i < tried.len()
                    &&& same_path(#[trigger] tried[i], d@)
                    &&& forall|j: int|
                        0 <= j < i ==> given_before(exe_dir, cwd, named, k, #[trigger] tried[j])
                })
            &&& exists|i: int|
                0 <= i < tried.len() && same_path(
                    #[trigger] tried[i],
                    seq![47u8, 116u8, 109u8, 112u8],
                )
        }),
{
    let all = all_candidates(exe_dir, cwd, named);
    let tried = unique(all);
    let exe = maybe(exe_dir);
    let own = exe + maybe(cwd);
    let nothing = Seq::<Seq<u8>>::empty();
    assert(unique(nothing) == nothing);
    assert(all.take(0) =~= nothing);
    if exe_dir is Some {
        assert(all[0] == exe_dir->0@);
        let i = lemma_tried_in_turn(all, 0);
        assert(!listed(nothing, all[0]));
        if cwd is Some {
            assert(all[1] == cwd->0@);
            let one = all.take(1);
            assert(one.drop_last() =~= nothing);
            assert(unique(one) =~= seq![all[0]]);
            let i = lemma_tried_in_turn(all, 1);
            if listed(unique(one), all[1]) {
                assert(same_path(all[0], all[1]));
            }
        }
    } else if cwd is Some {
        assert(all[0] == cwd->0@);
        let i = lemma_tried_in_turn(all, 0);
        assert(!listed(nothing, all[0]));
    }
    if 0 <= k < named.len() && named[k] is Some {
        lemma_present(named, k);
        let some = present(named.take(k));
        let p = own.len() + some.len() as int;
        assert(present(named).subrange(0, some.len() as int) =~= some);
        assert(all[p] == named[k]->0@);
        assert(all.take(p) =~= own + some);
        let i = lemma_tried_in_turn(all, p);
        assert forall|j: int| 0 <= j < i implies given_before(
            exe_dir,
            cwd,
            named,
            k,
            #[trigger] tried[j],
        ) by {
            let x = tried[j];
            assert(all.take(p).contains(x));
            let q = choose|q: int| 0 <= q < (own + some).len() && (own + some)[q] == x;
            if q >= own.len() {
                assert(some[q - own.len()] == x);
                assert(some.contains(x));
            }
        }
        assert(same_path(tried[i], named[k]->0@));
    }
    let last = all.len() - 1;
    assert(all[last] =~= seq![47u8, 116u8, 109u8, 112u8]);
    let i = lemma_tried_in_turn(all, last);
    assert(same_path(tried[i], seq![47u8, 116u8, 109u8, 112u8]));
}

/// Nothing is tried but the directories that are given and the one for temporary files.
pub proof fn law_no_other_directory_is_tried(
    exe_dir: Option<Vec<u8>>,
    cwd: Option<Vec<u8>>,
    named: Seq<Option<Vec<u8>>>,
    i: int,
)
    requires
        0 <= i < unique(all_candidates(exe_dir, cwd, named)).len(),
    ensures
        ({
            let dir = unique(all_candidates(exe_dir, cwd, named))[i];
            ||| exe_dir matches Some(e) && e@ == dir
            ||| cwd matches Some(c) && c@ == dir
            ||| exists|m: int|
                0 <= m < named.len() && (#[trigger] named[m] matches Some(n) && n@ == dir)
            ||| dir == seq![47u8, 116u8, 109u8, 112u8]
        }),
{
    let all = all_candidates(exe_dir, cwd, named);
    let dir = unique(all)[i];
    lemma_unique(all);
    lemma_present(named, named.len() as int);
    assert(named.take(named.len() as int) =~= named);
    assert(all.contains(dir));
    let q = choose|q: int| 0 <= q < all.len() && all[q] == dir;
    let own = maybe(exe_dir) + maybe(cwd);
    if own.len() <= q < own.len() + present(named).len() {
        assert(present(named)[q - own.len()] == dir);
        assert(present(named).contains(dir));
    }
}

/// The last resort is always tried, whatever else is known.
pub proof fn law_last_resort_tried(
    exe_dir: Option<Vec<u8>>,
    cwd: Option<Vec<u8>>,
    named: Seq<Option<Vec<u8>>>,
)
    ensures
        listed(unique(all_candidates(exe_dir, cwd, named)), last_resort()),
{
    let all = all_candidates(exe_dir, cwd, named);
    lemma_unique(all);
    assert(all[all.len() - 1] == last_resort());
}

/// Further candidates change nothing of what is tried before them.
pub proof fn law_candidates_keep_their_order(list: Seq<Seq<u8>>, k: int)
    requires
        0 <= k <= list.len(),
    ensures
        unique(list.take(k)).is_prefix_of(unique(list)),
    decreases list.len() - k,
{
    if k == list.len() {
        assert(list.take(k) == list);
    } else {
        law_candidates_keep_their_order(list, k + 1);
        assert(list.take(k + 1).drop_last() == list.take(k));
        let shorter = unique(list.take(k));
        let longer = unique(list.take(k + 1));
        assert(shorter.is_prefix_of(longer));
        assert(shorter =~= longer.subrange(0, shorter.len() as int));
        assert(shorter =~= unique(list).subrange(0, shorter.len() as int));
    }
}

/// Why there is no directory for the socket.
#[derive(Clone, Copy, Debug, PartialEq, Eq, Structural)]
pub enum TempDirError {
    /// None can be written to.
    NoneWritable,
    /// The first that can be written to has a name that is not text.
    NotText,
}

impl TempDirError {
    /// What is told of the failure.
    pub open spec fn text(self) -> Seq<char> {
        match self {
            TempDirError::NoneWritable => "could not find writable temp dir for rpty"@,
            TempDirError::NotText => "failed to convert temp dir to str"@,
        }
    }

    /// What is told of the failure.
    pub fn message(self) -> (s: &'static str)
        ensures
            s@ == self.text(),
    {
        match self {
            TempDirError::NoneWritable => "could not find writable temp dir for rpty",
            TempDirError::NotText => "failed to convert temp dir to str",
        }
    }
}

/// A search under way for a directory that can be written to.
pub struct TempDirSearch {
    dirs: Vec<Vec<u8>>,
    at: usize,
}

/// What a search holds: the directories that are left to try.
impl View for TempDirSearch {
    type V = Seq<Seq<u8>>;

    closed spec fn view(&self) -> Seq<Seq<u8>> {
        name_list(self.dirs@).skip(self.at as int)
    }
}

/// What a search comes to.
pub enum SearchStep {
    /// A directory.
    Found(String),
    /// A failure.
    Failed(TempDirError),
    /// The next directory is to be tried.
    Next,
}

/// What a search says as text.
pub enum SearchResult {
    Found(Seq<char>),
    Failed(TempDirError),
    Next,
}

impl SearchStep {
    /// What a step says as text.
    pub open spec fn result(self) -> SearchResult {
        match self {
            SearchStep::Found(s) => SearchResult::Found(s@),
            SearchStep::Failed(e) => SearchResult::Failed(e),
            SearchStep::Next => SearchResult::Next,
        }
    }
}

/// What the attempt to write to `dir` leads to.
pub open spec fn tried(dir: Seq<u8>, writable: bool) -> SearchResult {
    if writable {
        match utf8_text(dir) {
            Some(text) => SearchResult::Found(text),
            None => SearchResult::Failed(TempDirError::NotText),
        }
    } else {
        SearchResult::Next
    }
}

impl TempDirSearch {
    /// The place of the search is within its list.
    pub closed spec fn wf(&self) -> bool {
        self.at <= self.dirs@.len()
    }

    /// A search among `dirs`, from the first.
    pub fn new(dirs: Vec<Vec<u8>>) -> (r: Self)
        ensures
            r.wf(),
            r@ == name_list(dirs@),
    {
        let r = TempDirSearch { dirs, at: 0 };
        assert(name_list(dirs@).skip(0) =~= name_list(dirs@));
        r
    }

    /// The directory to try next, or the failure that there is none.
    pub fn candidate(&self) -> (r: Result<&Vec<u8>, TempDirError>)
        requires
            self.wf(),
        ensures
            match r {
                Ok(dir) => self@.len() > 0 && dir@ == self@.first(),
                Err(e) => self@.len() == 0 && e is NoneWritable,
            },
    {
        if self.at < self.dirs.len() {
            Ok(&self.dirs[self.at])
        } else {
            Err(TempDirError::NoneWritable)
        }
    }

    /// Takes whether the directory to try could be written to.
    pub fn probed(&mut self, writable: bool) -> (r: SearchStep)
        requires
            old(self).wf(),
            old(self)@.len() > 0,
        ensures
            final(self).wf(),
            final(self)@ == old(self)@.drop_first(),
            r.result() == tried(old(self)@.first(), writable),
            !writable ==> r is Next,
            writable ==> match utf8_text(old(self)@.first()) {
                Some(text) => r matches SearchStep::Found(dir) && dir@ == text,
                None => r matches SearchStep::Failed(e) && e is NotText,
            },
    {
        let ghost before = name_list(self.dirs@);
        let at: usize = self.at;
        let size: usize = self.dirs.len();
        assert(at < size);
        self.at = at + 1;
        assert(before.skip(at as int).drop_first() =~= before.skip(at + 1));
        if !writable {
            return SearchStep::Next;
        }
        let dir = part(&self.dirs[at], 0, self.dirs[at].len());
        assert(dir@ =~= before[at as int]);
        match decode(dir) {
            Some(s) => SearchStep::Found(s),
            None => SearchStep::Failed(TempDirError::NotText),
        }
    }
}

/// What a whole search comes to, where `writable` says of each directory whether it can be
/// written to.
pub open spec fn searched(dirs: Seq<Seq<u8>>, writable: spec_fn(Seq<u8>) -> bool) -> SearchResult
    decreases dirs.len(),
{
    if dirs.len() == 0 {
        SearchResult::Failed(TempDirError::NoneWritable)
    } else {
        match tried(dirs.first(), writable(dirs.first())) {
            SearchResult::Next => searched(dirs.drop_first(), writable),
            other => other,
        }
    }
}

/// A search settles on the first directory that can be written to, and fails where there is
/// none or where that one's name is not text.
pub proof fn law_first_writable_dir_wins(dirs: Seq<Seq<u8>>, writable: spec_fn(Seq<u8>) -> bool, k: int)
    requires
        0 <= k <= dirs.len(),
        forall|i: int| 0 <= i < k ==> !writable(#[trigger] dirs[i]),
    ensures
        k < dirs.len() && writable(dirs[k]) ==> searched(dirs, writable) == tried(dirs[k], true),
        k == dirs.len() ==> searched(dirs, writable) == SearchResult::Failed(
            TempDirError::NoneWritable,
        ),
    decreases k,
{
    if k > 0 {
        let rest = dirs.drop_first();
        assert(!writable(dirs[0]));
        assert forall|i: int| 0 <= i < k - 1 implies !writable(#[trigger] rest[i]) by {
            assert(rest[i] == dirs[i + 1]);
        }
        law_first_writable_dir_wins(rest, writable, k - 1);
    }
}

/// A directory that can be written to is taken under its own name, and one that cannot be is passed
/// over, whatever its name.
pub proof fn law_writable_dir_is_taken(dir: Seq<char>, other: Seq<u8>)
    ensures
        tried(encode_utf8(dir), true) == SearchResult::Found(dir),
        tried(other, false) == SearchResult::Next,
        utf8_text(other) is None ==> tried(other, true) == SearchResult::Failed(
            TempDirError::NotText,
        ),
{
    law_text_read_back(dir, other);
}

/// Why the directory of the program is not known.
#[derive(Clone, Copy, Debug, PartialEq, Eq, Structural)]
pub enum ExeDirError {
    /// The program is not known.
    NoExe,
    /// The program's path has no parent.
    NoParent,
    /// The directory's name is not text.
    NotText,
}

impl ExeDirError {
    /// What is told of the failure.
    pub open spec fn text(self) -> Seq<char> {
        match self {
            ExeDirError::NoExe => "could not get running exe path"@,
            ExeDirError::NoParent => "could not get path parent"@,
            ExeDirError::NotText => "failed to convert exe dir to str"@,
        }
    }

    /// What is told of the failure.
    pub fn message(self) -> (s: &'static str)
        ensures
            s@ == self.text(),
    {
        match self {
            ExeDirError::NoExe => "could not get running exe path",
            ExeDirError::NoParent => "could not get path parent",
            ExeDirError::NotText => "failed to convert exe dir to str",
        }
    }
}

/// The directory of the program. `exe` is nothing where the program is not known, and otherwise
/// the parent of its path, if that has one.
pub fn get_exe_dir(exe: Option<Option<Vec<u8>>>) -> (r: Result<String, ExeDirError>)
    ensures
        match exe {
            None => r == Err::<String, ExeDirError>(ExeDirError::NoExe),
            Some(None) => r == Err::<String, ExeDirError>(ExeDirError::NoParent),
            Some(Some(dir)) => match utf8_text(dir@) {
                None => r == Err::<String, ExeDirError>(ExeDirError::NotText),
                Some(text) => r matches Ok(s) && s@ == text,
            },
        },
{
    match exe {
        None => Err(ExeDirError::NoExe),
        Some(None) => Err(ExeDirError::NoParent),
        Some(Some(dir)) => match decode(dir) {
            Some(s) => Ok(s),
            None => Err(ExeDirError::NotText),
        },
    }
}

/// The path of the socket of the process `pid` in the directory `dir`.
pub open spec fn sock_text(dir: Seq<char>, pid: u32) -> Seq<char> {
    dir + "/rpty."@ + decimal(pid as nat) + ".sock"@
}

/// The path of the socket of the process `pid` in the directory `dir`.
pub fn sock_path(dir: &str, pid: u32) -> (s: String)
    ensures
        s@ == sock_text(dir@, pid),
        s@ == dir@ + "/rpty."@ + decimal(pid as nat) + ".sock"@,
{
    let mut s = join(dir, "/rpty.");
    push_decimal(&mut s, pid as u64);
    s.append(".sock");
    s
}

/// The name of the file with which the process `pid` tries whether it can write.
pub open spec fn probe_text(pid: u32) -> Seq<char> {
    ".tunshell-write-test-"@ + decimal(pid as nat)
}

/// The name of the file with which the process `pid` tries whether it can write.
pub fn probe_name(pid: u32) -> (s: String)
    ensures
        s@ == probe_text(pid),
        s@ == ".tunshell-write-test-"@ + decimal(pid as nat),
{
    let mut s = String::new();
    s.append(".tunshell-write-test-");
    push_decimal(&mut s, pid as u64);
    assert(s@ == probe_text(pid));
    s
}

/// Two processes have different sockets in a directory, and try it with different files.
pub proof fn law_processes_kept_apart(dir: Seq<char>, a: u32, b: u32)
    requires
        a != b,
    ensures
        sock_text(dir, a) != sock_text(dir, b),
        probe_text(a) != probe_text(b),
{
    law_decimal_distinct(a as nat, b as nat);
    let da = decimal(a as nat);
    let db = decimal(b as nat);
    if sock_text(dir, a) == sock_text(dir, b) {
        let n = (dir + "/rpty."@).len() as int;
        let end = ".sock"@.len() as int;
        assert(sock_text(dir, a).len() == n + da.len() + end);
        assert(sock_text(dir, b).len() == n + db.len() + end);
        assert(sock_text(dir, a).subrange(n, n + da.len()) =~= da);
        assert(sock_text(dir, b).subrange(n, n + db.len()) =~= db);
    }
    if probe_text(a) == probe_text(b) {
        let n = ".tunshell-write-test-"@.len() as int;
        assert(probe_text(a).skip(n) =~= da);
        assert(probe_text(b).skip(n) =~= db);
    }
}

} // verus!
