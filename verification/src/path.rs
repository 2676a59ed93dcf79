//! Paths as the operating system spells them, as bytes: their components
//! and the order in which paths sort. A path is read the way Unix paths are
//! read: a leading separator is the root, a leading `.` segment is the
//! current directory, `..` is the parent directory, and empty segments and
//! other `.` segments are skipped. Paths are ordered by comparing their
//! components one by one.

use vstd::prelude::*;

verus! {

/// Byte of `/`, the path separator.
pub const SEPARATOR: u8 = 47;

/// Byte of `.`, which starts an extension.
pub const DOT: u8 = 46;

// ---------------------------------------------------------------------------
// Lexicographic order on byte strings
// ---------------------------------------------------------------------------

/// `a` sorts before `b` when both are compared byte by byte from index `i`
/// on: at the first index where they differ the smaller byte wins, and a
/// string that ends first sorts first.
pub open spec fn bytes_lt_from(a: Seq<u8>, b: Seq<u8>, i: int) -> bool
    decreases a.len() - i,
{
    if i < 0 || i >= a.len() {
        0 <= i < b.len()
    } else if i >= b.len() {
        false
    } else if a[i] != b[i] {
        a[i] < b[i]
    } else {
        bytes_lt_from(a, b, i + 1)
    }
}

/// Lexicographic order on byte strings.
pub open spec fn bytes_lt(a: Seq<u8>, b: Seq<u8>) -> bool {
    bytes_lt_from(a, b, 0)
}

pub proof fn lemma_bytes_lt_from_irreflexive(a: Seq<u8>, i: int)
    requires
        0 <= i,
    ensures
        !bytes_lt_from(a, a, i),
    decreases a.len() - i,
{
    if i < a.len() {
        lemma_bytes_lt_from_irreflexive(a, i + 1);
    }
}

pub proof fn lemma_bytes_lt_from_asymmetric(a: Seq<u8>, b: Seq<u8>, i: int)
    requires
        0 <= i,
        bytes_lt_from(a, b, i),
    ensures
        !bytes_lt_from(b, a, i),
    decreases a.len() - i,
{
    if i < a.len() && i < b.len() && a[i] == b[i] {
        lemma_bytes_lt_from_asymmetric(a, b, i + 1);
    }
}

pub proof fn lemma_bytes_lt_from_transitive(a: Seq<u8>, b: Seq<u8>, c: Seq<u8>, i: int)
    requires
        0 <= i,
        bytes_lt_from(a, b, i),
        bytes_lt_from(b, c, i),
    ensures
        bytes_lt_from(a, c, i),
    decreases a.len() - i,
{
    if i < a.len() && i < b.len() && i < c.len() && a[i] == b[i] && b[i] == c[i] {
        lemma_bytes_lt_from_transitive(a, b, c, i + 1);
    }
}

pub proof fn lemma_bytes_lt_from_total(a: Seq<u8>, b: Seq<u8>, i: int)
    requires
        0 <= i <= a.len(),
        i <= b.len(),
        !bytes_lt_from(a, b, i),
        !bytes_lt_from(b, a, i),
    ensures
        a.len() == b.len(),
        forall|j: int| i <= j < a.len() ==> a[j] == b[j],
    decreases a.len() - i,
{
    if i < a.len() && i < b.len() {
        lemma_bytes_lt_from_total(a, b, i + 1);
    }
}

proof fn lemma_bytes_lt_skip(a: Seq<u8>, b: Seq<u8>, k: int, i: int)
    requires
        0 <= k <= i,
        i <= a.len(),
        i <= b.len(),
        forall|j: int| k <= j < i ==> a[j] == b[j],
    ensures
        bytes_lt_from(a, b, k) == bytes_lt_from(a, b, i),
    decreases i - k,
{
    if k < i {
        lemma_bytes_lt_skip(a, b, k + 1, i);
    }
}

/// Byte strings are ordered by their first differing byte, the bytes read
/// as unsigned numbers: `a` sorts before `b` exactly when, at the first
/// index where they differ, the byte of `a` is the smaller one.
pub proof fn lemma_bytes_lt_first_difference(a: Seq<u8>, b: Seq<u8>, i: int)
    requires
        0 <= i < a.len(),
        i < b.len(),
        a[i] != b[i],
        forall|k: int| 0 <= k < i ==> a[k] == b[k],
    ensures
        bytes_lt(a, b) == ((a[i] as int) < (b[i] as int)),
        bytes_lt(b, a) == ((b[i] as int) < (a[i] as int)),
{
    lemma_bytes_lt_skip(a, b, 0, i);
    lemma_bytes_lt_skip(b, a, 0, i);
}

/// A proper prefix sorts before the longer string.
pub proof fn lemma_bytes_lt_proper_prefix(a: Seq<u8>, b: Seq<u8>)
    requires
        a.len() < b.len(),
        forall|k: int| 0 <= k < a.len() ==> a[k] == b[k],
    ensures
        bytes_lt(a, b),
        !bytes_lt(b, a),
{
    lemma_bytes_lt_skip(a, b, 0, a.len() as int);
    lemma_bytes_lt_skip(b, a, 0, a.len() as int);
}

/// Result of comparing two byte strings.
#[derive(Debug, Clone, Copy, PartialEq, Eq)]
pub enum ByteOrder {
    Before,
    Same,
    After,
}

/// Compares two byte strings lexicographically.
pub fn compare_bytes(a: &Vec<u8>, b: &Vec<u8>) -> (r: ByteOrder)
    ensures
        (r == ByteOrder::Before) == bytes_lt(a@, b@),
        (r == ByteOrder::After) == bytes_lt(b@, a@),
        (r == ByteOrder::Same) == (a@ == b@),
{
    let mut i: usize = 0;
    while i < a.len() && i < b.len()
        invariant
            i <= a.len(),
            i <= b.len(),
            bytes_lt(a@, b@) == bytes_lt_from(a@, b@, i as int),
            bytes_lt(b@, a@) == bytes_lt_from(b@, a@, i as int),
            forall|j: int| 0 <= j < i ==> a@[j] == b@[j],
        decreases a.len() - i,
    {
        if a[i] != b[i] {
            proof {
                lemma_bytes_lt_from_irreflexive(a@, 0);
                if a@ == b@ {
                    assert(a@[i as int] == b@[i as int]);
                }
            }
            if a[i] < b[i] {
                return ByteOrder::Before;
            } else {
                return ByteOrder::After;
            }
        }
        i = i + 1;
    }
    if a.len() < b.len() {
        proof {
            if a@ == b@ {
                assert(a@.len() == b@.len());
            }
        }
        ByteOrder::Before
    } else if b.len() < a.len() {
        proof {
            if a@ == b@ {
                assert(a@.len() == b@.len());
            }
        }
        ByteOrder::After
    } else {
        assert(a@ =~= b@);
        proof {
            lemma_bytes_lt_from_irreflexive(a@, 0);
        }
        ByteOrder::Same
    }
}

/// One component of a path.
pub enum PathComponent {
    RootDir,
    CurDir,
    ParentDir,
    Normal(Seq<u8>),
}

/// Components sort by kind first: the root, then the current directory,
/// then the parent directory, then names.
pub open spec fn component_rank(c: PathComponent) -> int {
    match c {
        PathComponent::RootDir => 1,
        PathComponent::CurDir => 2,
        PathComponent::ParentDir => 3,
        PathComponent::Normal(_) => 4,
    }
}

/// The order on components: by kind, and names byte by byte.
pub open spec fn component_lt(a: PathComponent, b: PathComponent) -> bool {
    match (a, b) {
        (PathComponent::Normal(x), PathComponent::Normal(y)) => bytes_lt(x, y),
        _ => component_rank(a) < component_rank(b),
    }
}

/// Index of the first separator of `p` at or after `i`, or the length of
/// `p` when there is none.
pub open spec fn separator_from(p: Seq<u8>, i: int) -> int
    decreases p.len() - i,
{
    if i < 0 || i >= p.len() {
        p.len() as int
    } else if p[i] == SEPARATOR {
        i
    } else {
        separator_from(p, i + 1)
    }
}

pub proof fn lemma_separator_from_bounds(p: Seq<u8>, i: int)
    requires
        0 <= i <= p.len(),
    ensures
        i <= separator_from(p, i) <= p.len(),
        separator_from(p, i) < p.len() ==> p[separator_from(p, i)] == SEPARATOR,
    decreases p.len() - i,
{
    if i < p.len() && p[i] != SEPARATOR {
        lemma_separator_from_bounds(p, i + 1);
    }
}

/// The component that one segment between separators contributes: none for
/// an empty segment or `.`, the parent directory for `..`, otherwise a name.
pub open spec fn segment_components(seg: Seq<u8>) -> Seq<PathComponent> {
    if seg.len() == 0 || seg == seq![DOT] {
        seq![]
    } else if seg == seq![DOT, DOT] {
        seq![PathComponent::ParentDir]
    } else {
        seq![PathComponent::Normal(seg)]
    }
}

/// The components of the segments of `p` from index `i` on.
pub open spec fn body_components(p: Seq<u8>, i: int) -> Seq<PathComponent>
    decreases p.len() - i,
{
    if i < 0 || i >= p.len() {
        seq![]
    } else {
        let e = separator_from(p, i);
        proof {
            lemma_separator_from_bounds(p, i);
        }
        segment_components(p.subrange(i, e)) + if e < p.len() {
            body_components(p, e + 1)
        } else {
            seq![]
        }
    }
}

/// The path starts at the root.
pub open spec fn has_root(p: Seq<u8>) -> bool {
    p.len() > 0 && p[0] == SEPARATOR
}

/// The path starts with a `.` segment, which names the current directory.
pub open spec fn starts_at_cur_dir(p: Seq<u8>) -> bool {
    !has_root(p) && p.len() > 0 && p[0] == DOT && (p.len() == 1 || p[1] == SEPARATOR)
}

/// The components of a path.
pub open spec fn path_components(p: Seq<u8>) -> Seq<PathComponent> {
    if has_root(p) {
        seq![PathComponent::RootDir] + body_components(p, 1)
    } else if starts_at_cur_dir(p) {
        seq![PathComponent::CurDir] + body_components(p, 1)
    } else {
        body_components(p, 0)
    }
}

/// Lexicographic order on component sequences, from index `i` on.
pub open spec fn components_lt_from(a: Seq<PathComponent>, b: Seq<PathComponent>, i: int) -> bool
    decreases a.len() - i,
{
    if i < 0 || i >= a.len() {
        0 <= i < b.len()
    } else if i >= b.len() {
        false
    } else if a[i] != b[i] {
        component_lt(a[i], b[i])
    } else {
        components_lt_from(a, b, i + 1)
    }
}

/// The order on paths: component by component.
pub open spec fn path_lt(p: Seq<u8>, q: Seq<u8>) -> bool {
    components_lt_from(path_components(p), path_components(q), 0)
}

/// The last component of a path, when it is a name.
pub open spec fn file_name(p: Seq<u8>) -> Option<Seq<u8>> {
    let c = path_components(p);
    if c.len() > 0 && c.last() is Normal {
        Some(c.last()->Normal_0)
    } else {
        None
    }
}

/// A name that can stand as one component of a path: not empty, neither
/// `.` nor `..`, and without separators.
pub open spec fn is_plain_name(n: Seq<u8>) -> bool {
    &&& n.len() > 0
    &&& n != seq![DOT]
    &&& n != seq![DOT, DOT]
    &&& forall|k: int| 0 <= k < n.len() ==> n[k] != SEPARATOR
}

proof fn lemma_separator_free(p: Seq<u8>, i: int)
    requires
        0 <= i <= p.len(),
    ensures
        forall|k: int| i <= k < separator_from(p, i) ==> p[k] != SEPARATOR,
    decreases p.len() - i,
{
    if i < p.len() && p[i] != SEPARATOR {
        lemma_separator_free(p, i + 1);
    }
}

proof fn lemma_body_names_plain(p: Seq<u8>, i: int)
    requires
        0 <= i,
    ensures
        forall|j: int|
            0 <= j < body_components(p, i).len() && (#[trigger] body_components(p, i)[j]) is Normal
                ==> is_plain_name(body_components(p, i)[j]->Normal_0),
    decreases p.len() - i,
{
    if i < p.len() {
        let e = separator_from(p, i);
        lemma_separator_from_bounds(p, i);
        lemma_separator_free(p, i);
        let seg = p.subrange(i, e);
        let head = segment_components(seg);
        let rest = if e < p.len() {
            body_components(p, e + 1)
        } else {
            seq![]
        };
        if e < p.len() {
            lemma_body_names_plain(p, e + 1);
        }
        assert(body_components(p, i) == head + rest);
        assert forall|j: int|
            0 <= j < body_components(p, i).len() && (#[trigger] body_components(p, i)[j]) is Normal
                implies is_plain_name(body_components(p, i)[j]->Normal_0) by {
            if j < head.len() {
                assert(body_components(p, i)[j] == head[j]);
                assert(head[j] == PathComponent::Normal(seg));
                assert forall|k: int| 0 <= k < seg.len() implies seg[k] != SEPARATOR by {
                    assert(seg[k] == p[i + k]);
                }
            } else {
                assert(body_components(p, i)[j] == rest[j - head.len()]);
            }
        }
    }
}

/// A file name is a plain name.
pub proof fn lemma_file_name_plain(p: Seq<u8>)
    ensures
        file_name(p) is Some ==> is_plain_name(file_name(p)->0),
{
    let c = path_components(p);
    if c.len() > 0 && c.last() is Normal {
        if has_root(p) || starts_at_cur_dir(p) {
            let b = body_components(p, 1);
            lemma_body_names_plain(p, 1);
            assert(c.last() == b[b.len() - 1]);
        } else {
            let b = body_components(p, 0);
            lemma_body_names_plain(p, 0);
            assert(c.last() == b[b.len() - 1]);
        }
    }
}

/// Where the segments of `p` start: after the root or the leading `.`, if
/// there is one.
pub open spec fn body_start(p: Seq<u8>) -> int {
    if has_root(p) || starts_at_cur_dir(p) {
        1
    } else {
        0
    }
}

/// The components of the parent of `p`: all but the last, when there is a
/// last one and it is not the root.
pub open spec fn parent_components(p: Seq<u8>) -> Option<Seq<PathComponent>> {
    let c = path_components(p);
    if c.len() > 0 && !(c.last() is RootDir) {
        Some(c.drop_last())
    } else {
        None
    }
}

proof fn lemma_separator_at(p: Seq<u8>, s: int, e: int)
    requires
        0 <= s <= e <= p.len(),
        e == p.len() || p[e] == SEPARATOR,
        forall|k: int| s <= k < e ==> p[k] != SEPARATOR,
    ensures
        separator_from(p, s) == e,
    decreases e - s,
{
    if s < e {
        lemma_separator_at(p, s + 1, e);
    }
}

proof fn lemma_separator_in_prefix(p: Seq<u8>, i: int, s: int)
    requires
        0 <= i <= separator_from(p, i) < s <= p.len(),
    ensures
        separator_from(p.subrange(0, s), i) == separator_from(p, i),
    decreases p.len() - i,
{
    let q = p.subrange(0, s);
    if i < p.len() && p[i] != SEPARATOR {
        lemma_separator_from_bounds(p, i + 1);
        lemma_separator_in_prefix(p, i + 1, s);
        assert(q[i] == p[i]);
    } else {
        assert(q[i] == p[i]);
    }
}

/// Cutting a path just after a separator splits its segments there.
proof fn lemma_body_cut(p: Seq<u8>, i: int, s: int)
    requires
        0 <= i <= s <= p.len(),
        i == s || p[s - 1] == SEPARATOR,
    ensures
        body_components(p, i) == body_components(p.subrange(0, s), i) + body_components(p, s),
    decreases s - i,
{
    let q = p.subrange(0, s);
    if i == s {
        assert(body_components(q, i) =~= Seq::<PathComponent>::empty());
        assert(body_components(p, i) =~= body_components(q, i) + body_components(p, s));
    } else {
        let e = separator_from(p, i);
        lemma_separator_from_bounds(p, i);
        lemma_separator_free(p, i);
        assert(e <= s - 1) by {
            if e > s - 1 {
                assert(p[s - 1] != SEPARATOR);
            }
        }
        lemma_separator_in_prefix(p, i, s);
        assert(q.subrange(i, e) =~= p.subrange(i, e));
        if e < s - 1 {
            lemma_body_cut(p, e + 1, s);
            assert(body_components(p, i) =~= body_components(q, i) + body_components(p, s));
        } else {
            assert(body_components(q, s) =~= Seq::<PathComponent>::empty());
            assert(body_components(p, i) =~= body_components(q, i) + body_components(p, s));
        }
    }
}

/// A separator followed by an empty or `.` segment at the end of a path
/// adds no component.
proof fn lemma_body_trailing(q: Seq<u8>, i: int, r: int)
    requires
        0 <= i <= r < q.len(),
        q[r] == SEPARATOR,
        separator_from(q, r + 1) == q.len(),
        segment_components(q.subrange(r + 1, q.len() as int)) == Seq::<PathComponent>::empty(),
    ensures
        body_components(q, i) == body_components(q.subrange(0, r), i),
    decreases r - i,
{
    let pre = q.subrange(0, r);
    let tail = if r + 1 < q.len() {
        assert(body_components(q, r + 1) =~= segment_components(
            q.subrange(r + 1, q.len() as int),
        ) + Seq::<PathComponent>::empty());
        body_components(q, r + 1)
    } else {
        body_components(q, r + 1)
    };
    assert(tail =~= Seq::<PathComponent>::empty());
    if i == r {
        assert(q.subrange(r, r) =~= Seq::<u8>::empty());
        assert(body_components(q, i) =~= Seq::<PathComponent>::empty());
        assert(body_components(pre, i) =~= Seq::<PathComponent>::empty());
    } else {
        let e = separator_from(q, i);
        lemma_separator_from_bounds(q, i);
        lemma_separator_free(q, i);
        assert(e <= r) by {
            if e > r {
                assert(q[r] != SEPARATOR);
            }
        }
        if e < r {
            lemma_separator_in_prefix(q, i, r);
            assert(pre.subrange(i, e) =~= q.subrange(i, e));
            lemma_body_trailing(q, e + 1, r);
            assert(body_components(q, i) =~= body_components(pre, i));
        } else {
            assert forall|k: int| i <= k < r implies pre[k] != SEPARATOR by {
                assert(pre[k] == q[k]);
            }
            lemma_separator_at(pre, i, r);
            assert(pre.subrange(i, r) =~= q.subrange(i, r));
            assert(body_components(q, i) =~= body_components(pre, i));
        }
    }
}

/// The path does not end with a separator past its root, nor with a `.`
/// segment.
pub open spec fn is_trimmed(q: Seq<u8>) -> bool {
    &&& !(q.len() > body_start(q) && q.last() == SEPARATOR)
    &&& !(q.len() >= 2 && q.last() == DOT && q[q.len() - 2] == SEPARATOR)
}

/// Where the prefix `p[..s]` ends once the separators and `.` segments
/// that end it are dropped, keeping the root or the leading `.`.
fn trimmed_end(p: &Vec<u8>, s: usize, b0: usize, root: bool, cur: bool) -> (m: usize)
    requires
        b0 <= s <= p.len(),
        b0 == body_start(p@),
        root == has_root(p@),
        cur == starts_at_cur_dir(p@),
        has_root(p@.subrange(0, s as int)) == root,
        starts_at_cur_dir(p@.subrange(0, s as int)) == cur,
    ensures
        b0 <= m <= s,
        has_root(p@.subrange(0, m as int)) == root,
        starts_at_cur_dir(p@.subrange(0, m as int)) == cur,
        body_components(p@.subrange(0, m as int), b0 as int) == body_components(
            p@.subrange(0, s as int),
            b0 as int,
        ),
        is_trimmed(p@.subrange(0, m as int)),
{
    let len = p.len();
    assert(b0 == 1 <==> (root || cur));
    let mut m = s;
    loop
        invariant
            len == p.len(),
            b0 <= m <= s <= len,
            b0 == body_start(p@),
            root == has_root(p@),
            cur == starts_at_cur_dir(p@),
            b0 == 1 <==> (root || cur),
            has_root(p@.subrange(0, m as int)) == root,
            starts_at_cur_dir(p@.subrange(0, m as int)) == cur,
            body_components(p@.subrange(0, m as int), b0 as int) == body_components(
                p@.subrange(0, s as int),
                b0 as int,
            ),
        ensures
            !(m >= b0 + 1 && p@[m - 1] == SEPARATOR),
            !(m >= b0 + 2 && p@[m - 1] == DOT && p@[m - 2] == SEPARATOR),
            !(root && m == 2 && p@[1] == DOT),
        decreases m,
    {
        let ghost q0 = p@.subrange(0, m as int);
        if m >= b0 + 1 && p[m - 1] == SEPARATOR {
            proof {
                lemma_separator_at(q0, m as int, m as int);
                lemma_body_trailing(q0, b0 as int, m - 1);
                assert(q0.subrange(0, m - 1) =~= p@.subrange(0, m - 1));
                assert(q0.subrange(m as int, m as int) =~= Seq::<u8>::empty());
                if m - 1 >= 1 {
                    assert(p@.subrange(0, m - 1)[0] == p@[0]);
                }
                if m - 1 >= 2 {
                    assert(p@.subrange(0, m - 1)[1] == p@[1]);
                }
                if m - 1 == 0 {
                    assert(p@[0] == SEPARATOR);
                }
            }
            m = m - 1;
        } else if m >= b0 + 2 && p[m - 1] == DOT && p[m - 2] == SEPARATOR {
            proof {
                let t = q0.subrange(m - 1, m as int);
                assert(t =~= seq![DOT]);
                lemma_separator_at(q0, m - 1, m as int);
                lemma_body_trailing(q0, b0 as int, m - 2);
                let q1 = p@.subrange(0, m - 1);
                assert(q0.subrange(0, m - 2) =~= p@.subrange(0, m - 2));
                assert(q1.subrange(0, m - 2) =~= p@.subrange(0, m - 2));
                assert(q1.subrange(m - 1, m - 1) =~= Seq::<u8>::empty());
                lemma_separator_at(q1, m - 1, m - 1);
                lemma_body_trailing(q1, b0 as int, m - 2);
                assert(q1[0] == p@[0]);
                if m - 1 >= 2 {
                    assert(q1[1] == p@[1]);
                }
                if m - 1 == 1 {
                    assert(p@[0] == SEPARATOR);
                }
            }
            m = m - 1;
        } else if root && m == 2 && p[1] == DOT {
            proof {
                let q1 = p@.subrange(0, 1);
                assert(body_components(q1, 1) =~= Seq::<PathComponent>::empty());
                lemma_separator_at(q0, 1, 2);
                assert(q0.subrange(1, 2) =~= seq![DOT]);
                assert(body_components(q0, 2) =~= Seq::<PathComponent>::empty());
                assert(body_components(q0, 1) =~= Seq::<PathComponent>::empty());
                assert(q1[0] == p@[0]);
            }
            m = 1;
        } else {
            break;
        }
    }
    proof {
        let q = p@.subrange(0, m as int);
        assert(body_start(q) == b0);
        if m >= 1 {
            assert(q.last() == p@[m - 1]);
        }
        if m >= 2 {
            assert(q[m - 2] == p@[m - 2]);
            assert(q[0] == p@[0]);
            assert(q[1] == p@[1]);
        }
    }
    m
}

/// The parent of `p`: the path up to its last component, when that is a
/// name, `.` or `..`, without the separators and `.` segments that end it;
/// none when the path is empty or only the root.
#[verifier::spinoff_prover]
pub fn parent_path(p: &Vec<u8>) -> (r: Option<Vec<u8>>)
    ensures
        match r {
            Some(q) => {
                &&& parent_components(p@) == Some(path_components(q@))
                &&& q@ == p@.subrange(0, q@.len() as int)
                &&& is_trimmed(q@)
            },
            None => parent_components(p@) is None,
        },
{
    let len = p.len();
    let root = len > 0 && p[0] == SEPARATOR;
    let cur = !root && len > 0 && p[0] == DOT && (len == 1 || p[1] == SEPARATOR);
    let b0: usize = if root || cur {
        1
    } else {
        0
    };
    let ghost pre: Seq<PathComponent> = if root {
        seq![PathComponent::RootDir]
    } else if cur {
        seq![PathComponent::CurDir]
    } else {
        seq![]
    };
    assert(b0 == body_start(p@));
    assert(path_components(p@) == pre + body_components(p@, b0 as int));
    let mut e: usize = len;
    loop
        invariant
            len == p.len(),
            b0 <= e <= len,
            b0 == body_start(p@),
            b0 == 1 <==> (root || cur),
            root == has_root(p@),
            cur == starts_at_cur_dir(p@),
            path_components(p@) == pre + body_components(p@, b0 as int),
            pre == (if root {
                seq![PathComponent::RootDir]
            } else if cur {
                seq![PathComponent::CurDir]
            } else {
                seq![]
            }),
            e == len || p@[e as int] == SEPARATOR,
            e < len ==> body_components(p@, e + 1) == Seq::<PathComponent>::empty(),
        decreases e,
    {
        let mut s = e;
        while s > b0 && p[s - 1] != SEPARATOR
            invariant
                len == p.len(),
                b0 <= s <= e <= len,
                forall|k: int| s <= k < e ==> p@[k] != SEPARATOR,
            decreases s,
        {
            s = s - 1;
        }
        let ghost seg = p@.subrange(s as int, e as int);
        proof {
            lemma_separator_at(p@, s as int, e as int);
            assert(body_components(p@, s as int) == segment_components(seg)) by {
                if s < len {
                    assert(body_components(p@, s as int) =~= segment_components(seg) + if e < len {
                        body_components(p@, e + 1)
                    } else {
                        seq![]
                    });
                } else {
                    assert(seg =~= Seq::<u8>::empty());
                }
            }
            lemma_body_cut(p@, b0 as int, s as int);
        }
        let n = e - s;
        let is_dot = n == 1 && p[s] == DOT;
        proof {
            if is_dot {
                assert(seg =~= seq![DOT]);
            }
            if n == 1 && seg == seq![DOT] {
                assert(seg[0] == p@[s as int]);
            }
        }
        if n > 0 && !is_dot {
            let ghost ps = p@.subrange(0, s as int);
            proof {
                let c = segment_components(seg);
                assert(seg.len() > 0 && seg != seq![DOT]);
                if seg == seq![DOT, DOT] {
                    assert(c == seq![PathComponent::ParentDir]);
                } else {
                    assert(c == seq![PathComponent::Normal(seg)]);
                }
                assert(c.len() == 1);
                assert(!(c[0] is RootDir));
                if s >= 1 {
                    assert(ps[0] == p@[0]);
                }
                if s >= 2 {
                    assert(ps[1] == p@[1]);
                }
                if cur {
                    assert(s >= 2) by {
                        if s < 2 {
                            assert(p@[1] == SEPARATOR || len == 1);
                        }
                    }
                }
                if s == 1 && !root && !cur {
                    assert(p@[0] == SEPARATOR);
                }
                assert(has_root(ps) == root);
                assert(starts_at_cur_dir(ps) == cur);
                assert(path_components(ps) == pre + body_components(ps, b0 as int));
                assert(path_components(p@) =~= path_components(ps) + c);
                assert(path_components(p@).drop_last() =~= path_components(ps));
            }
            let m = trimmed_end(p, s, b0, root, cur);
            let q = segment_bytes(p, 0, m);
            proof {
                assert(path_components(q@) == pre + body_components(q@, b0 as int));
                assert(path_components(q@) =~= path_components(ps));
            }
            return Some(q);
        }
        assert(segment_components(seg) =~= Seq::<PathComponent>::empty());
        if s == b0 {
            assert(body_components(p@, b0 as int) =~= Seq::<PathComponent>::empty());
            if cur {
                let q: Vec<u8> = Vec::new();
                assert(path_components(q@) =~= Seq::<PathComponent>::empty());
                assert(q@ =~= p@.subrange(0, 0));
                assert(path_components(p@) =~= seq![PathComponent::CurDir]);
                return Some(q);
            } else {
                assert(path_components(p@) =~= pre);
                return None;
            }
        }
        e = s - 1;
    }
}

// ---------------------------------------------------------------------------
// The order is a strict total order
// ---------------------------------------------------------------------------

proof fn lemma_component_irreflexive(a: PathComponent)
    ensures
        !component_lt(a, a),
{
    if let PathComponent::Normal(x) = a {
        lemma_bytes_lt_from_irreflexive(x, 0);
    }
}

proof fn lemma_component_asymmetric(a: PathComponent, b: PathComponent)
    requires
        component_lt(a, b),
    ensures
        !component_lt(b, a),
{
    if let (PathComponent::Normal(x), PathComponent::Normal(y)) = (a, b) {
        lemma_bytes_lt_from_asymmetric(x, y, 0);
    }
}

proof fn lemma_component_transitive(a: PathComponent, b: PathComponent, c: PathComponent)
    requires
        component_lt(a, b),
        component_lt(b, c),
    ensures
        component_lt(a, c),
{
    if let (PathComponent::Normal(x), PathComponent::Normal(y), PathComponent::Normal(z)) = (
        a,
        b,
        c,
    ) {
        lemma_bytes_lt_from_transitive(x, y, z, 0);
    }
}

proof fn lemma_component_total(a: PathComponent, b: PathComponent)
    requires
        !component_lt(a, b),
        !component_lt(b, a),
    ensures
        a == b,
{
    if let (PathComponent::Normal(x), PathComponent::Normal(y)) = (a, b) {
        lemma_bytes_lt_from_total(x, y, 0);
        assert(x =~= y);
    }
}

proof fn lemma_components_irreflexive(a: Seq<PathComponent>, i: int)
    requires
        0 <= i,
    ensures
        !components_lt_from(a, a, i),
    decreases a.len() - i,
{
    if i < a.len() {
        lemma_components_irreflexive(a, i + 1);
    }
}

proof fn lemma_components_asymmetric(a: Seq<PathComponent>, b: Seq<PathComponent>, i: int)
    requires
        0 <= i,
        components_lt_from(a, b, i),
    ensures
        !components_lt_from(b, a, i),
    decreases a.len() - i,
{
    if i < a.len() && i < b.len() {
        if a[i] == b[i] {
            lemma_components_asymmetric(a, b, i + 1);
        } else {
            lemma_component_asymmetric(a[i], b[i]);
        }
    }
}

proof fn lemma_components_transitive(
    a: Seq<PathComponent>,
    b: Seq<PathComponent>,
    c: Seq<PathComponent>,
    i: int,
)
    requires
        0 <= i,
        components_lt_from(a, b, i),
        components_lt_from(b, c, i),
    ensures
        components_lt_from(a, c, i),
    decreases a.len() - i,
{
    if i < a.len() && i < b.len() && i < c.len() {
        if a[i] == b[i] && b[i] == c[i] {
            lemma_components_transitive(a, b, c, i + 1);
        } else if a[i] == b[i] {
        } else if b[i] == c[i] {
        } else {
            lemma_component_transitive(a[i], b[i], c[i]);
            if a[i] == c[i] {
                lemma_component_asymmetric(a[i], b[i]);
            }
        }
    }
}

proof fn lemma_components_total(a: Seq<PathComponent>, b: Seq<PathComponent>, i: int)
    requires
        0 <= i <= a.len(),
        i <= b.len(),
        !components_lt_from(a, b, i),
        !components_lt_from(b, a, i),
    ensures
        a.len() == b.len(),
        forall|j: int| i <= j < a.len() ==> a[j] == b[j],
    decreases a.len() - i,
{
    if i < a.len() && i < b.len() {
        if a[i] == b[i] {
            lemma_components_total(a, b, i + 1);
        } else {
            lemma_component_total(a[i], b[i]);
        }
    }
}

/// No path sorts before itself.
pub proof fn lemma_path_lt_irreflexive(p: Seq<u8>)
    ensures
        !path_lt(p, p),
{
    lemma_components_irreflexive(path_components(p), 0);
}

/// Of two paths, at most one sorts before the other.
pub proof fn lemma_path_lt_asymmetric(p: Seq<u8>, q: Seq<u8>)
    requires
        path_lt(p, q),
    ensures
        !path_lt(q, p),
{
    lemma_components_asymmetric(path_components(p), path_components(q), 0);
}

/// The order on paths is transitive.
pub proof fn lemma_path_lt_transitive(p: Seq<u8>, q: Seq<u8>, r: Seq<u8>)
    requires
        path_lt(p, q),
        path_lt(q, r),
    ensures
        path_lt(p, r),
{
    lemma_components_transitive(path_components(p), path_components(q), path_components(r), 0);
}

/// Two paths of which neither sorts before the other have the same
/// components.
pub proof fn lemma_path_lt_total(p: Seq<u8>, q: Seq<u8>)
    requires
        !path_lt(p, q),
        !path_lt(q, p),
    ensures
        path_components(p) == path_components(q),
{
    lemma_components_total(path_components(p), path_components(q), 0);
    assert(path_components(p) =~= path_components(q));
}

/// Components sort by kind as std's paths do: the root before `.`, `.`
/// before `..`, and `..` before every name.
pub proof fn lemma_component_kinds_order(x: Seq<u8>)
    ensures
        component_lt(PathComponent::RootDir, PathComponent::CurDir),
        component_lt(PathComponent::CurDir, PathComponent::ParentDir),
        component_lt(PathComponent::ParentDir, PathComponent::Normal(x)),
        !component_lt(PathComponent::Normal(x), PathComponent::ParentDir),
        !component_lt(PathComponent::ParentDir, PathComponent::CurDir),
        !component_lt(PathComponent::CurDir, PathComponent::RootDir),
{
}

proof fn lemma_components_lt_skip(a: Seq<PathComponent>, b: Seq<PathComponent>, k: int, i: int)
    requires
        0 <= k <= i,
        i <= a.len(),
        i <= b.len(),
        forall|j: int| k <= j < i ==> a[j] == b[j],
    ensures
        components_lt_from(a, b, k) == components_lt_from(a, b, i),
    decreases i - k,
{
    if k < i {
        lemma_components_lt_skip(a, b, k + 1, i);
    }
}

/// Two paths that agree but in their last components, which are names,
/// are ordered by those names' first differing byte, read as an unsigned
/// number: two entries of one directory sort by their file names, byte by
/// byte.
pub proof fn lemma_path_lt_last_names(
    p: Seq<u8>,
    q: Seq<u8>,
    c: Seq<PathComponent>,
    x: Seq<u8>,
    y: Seq<u8>,
    i: int,
)
    requires
        path_components(p) == c.push(PathComponent::Normal(x)),
        path_components(q) == c.push(PathComponent::Normal(y)),
        0 <= i < x.len(),
        i < y.len(),
        x[i] != y[i],
        forall|k: int| 0 <= k < i ==> x[k] == y[k],
    ensures
        path_lt(p, q) == ((x[i] as int) < (y[i] as int)),
{
    let a = path_components(p);
    let b = path_components(q);
    let n = c.len() as int;
    assert forall|j: int| 0 <= j < n implies a[j] == b[j] by {
        assert(a[j] == c[j] && b[j] == c[j]);
    }
    lemma_components_lt_skip(a, b, 0, n);
    assert(a[n] == PathComponent::Normal(x) && b[n] == PathComponent::Normal(y));
    assert(x != y) by {
        if x == y {
            assert(x[i] == y[i]);
        }
    }
    assert(a[n] != b[n]);
    lemma_bytes_lt_first_difference(x, y, i);
}

// ---------------------------------------------------------------------------
// Computing components and comparing paths
// ---------------------------------------------------------------------------

/// Where one component lies in a path's bytes, and its kind: 1 for the root,
/// 2 for the current directory, 3 for the parent directory, 4 for a name
/// spanning `start..end`.
#[derive(Debug, Clone, Copy, PartialEq, Eq)]
pub struct ComponentSpan {
    pub rank: u8,
    pub start: usize,
    pub end: usize,
}

/// The component that a span of `p` stands for.
pub open spec fn span_component(p: Seq<u8>, s: ComponentSpan) -> PathComponent {
    if s.rank == 1 {
        PathComponent::RootDir
    } else if s.rank == 2 {
        PathComponent::CurDir
    } else if s.rank == 3 {
        PathComponent::ParentDir
    } else {
        PathComponent::Normal(p.subrange(s.start as int, s.end as int))
    }
}

/// The components that spans of `p` stand for.
pub open spec fn span_components(p: Seq<u8>, v: Seq<ComponentSpan>) -> Seq<PathComponent> {
    v.map_values(|s: ComponentSpan| span_component(p, s))
}

/// A span of one of the four kinds, inside `p`.
pub open spec fn span_ok(p: Seq<u8>, s: ComponentSpan) -> bool {
    1 <= s.rank <= 4 && s.start <= s.end <= p.len()
}

/// The components of `p`, as spans of its bytes.
pub fn components_of(p: &Vec<u8>) -> (r: Vec<ComponentSpan>)
    ensures
        span_components(p@, r@) == path_components(p@),
        forall|k: int| 0 <= k < r.len() ==> span_ok(p@, #[trigger] r@[k]),
{
    let len = p.len();
    let mut r: Vec<ComponentSpan> = Vec::new();
    let mut i: usize;
    if len > 0 && p[0] == SEPARATOR {
        r.push(ComponentSpan { rank: 1, start: 0, end: 0 });
        i = 1;
        assert(span_components(p@, r@) =~= seq![PathComponent::RootDir]);
    } else if len > 0 && p[0] == DOT && (len == 1 || p[1] == SEPARATOR) {
        r.push(ComponentSpan { rank: 2, start: 0, end: 0 });
        i = 1;
        assert(span_components(p@, r@) =~= seq![PathComponent::CurDir]);
    } else {
        i = 0;
        assert(span_components(p@, r@) =~= Seq::<PathComponent>::empty());
    }
    while i < len
        invariant
            len == p.len(),
            i <= len,
            span_components(p@, r@) + body_components(p@, i as int) == path_components(p@),
            forall|k: int| 0 <= k < r.len() ==> span_ok(p@, #[trigger] r@[k]),
        decreases len - i,
    {
        let mut e = i;
        while e < len && p[e] != SEPARATOR
            invariant
                len == p.len(),
                i <= e <= len,
                separator_from(p@, i as int) == separator_from(p@, e as int),
            decreases len - e,
        {
            e = e + 1;
        }
        proof {
            lemma_separator_from_bounds(p@, i as int);
        }
        let ghost seg = p@.subrange(i as int, e as int);
        let ghost before = r@;
        let n = e - i;
        assert(seg.len() == n);
        if n == 0 || (n == 1 && p[i] == DOT) {
            proof {
                if n == 1 {
                    assert(seg =~= seq![DOT]);
                }
            }
            assert(segment_components(seg) == Seq::<PathComponent>::empty());
        } else if n == 2 && p[i] == DOT && p[i + 1] == DOT {
            assert(seg =~= seq![DOT, DOT]);
            r.push(ComponentSpan { rank: 3, start: i, end: e });
            assert(segment_components(seg) == seq![PathComponent::ParentDir]);
        } else {
            proof {
                if seg == seq![DOT] {
                    assert(seg[0] == p@[i as int]);
                }
                if seg == seq![DOT, DOT] {
                    assert(seg[0] == p@[i as int] && seg[1] == p@[i + 1]);
                }
            }
            r.push(ComponentSpan { rank: 4, start: i, end: e });
            assert(segment_components(seg) == seq![PathComponent::Normal(seg)]);
        }
        assert(span_components(p@, r@) =~= span_components(p@, before) + segment_components(seg));
        let ghost old_i = i as int;
        if e < len {
            i = e + 1;
        } else {
            i = len;
        }
        assert(body_components(p@, old_i) =~= segment_components(seg) + body_components(
            p@,
            i as int,
        ));
        assert(span_components(p@, r@) + body_components(p@, i as int) =~= span_components(
            p@,
            before,
        ) + body_components(p@, old_i));
    }
    assert(body_components(p@, i as int) =~= Seq::<PathComponent>::empty());
    assert(span_components(p@, r@) =~= path_components(p@));
    r
}

/// A copy of `p[start..end]`.
pub fn segment_bytes(p: &Vec<u8>, start: usize, end: usize) -> (r: Vec<u8>)
    requires
        start <= end <= p.len(),
    ensures
        r@ == p@.subrange(start as int, end as int),
{
    let mut r: Vec<u8> = Vec::with_capacity(end - start);
    let mut i = start;
    while i < end
        invariant
            start <= i <= end <= p.len(),
            r@ == p@.subrange(start as int, i as int),
        decreases end - i,
    {
        r.push(p[i]);
        i = i + 1;
        assert(r@ =~= p@.subrange(start as int, i as int));
    }
    r
}

/// Compares two paths component by component.
pub fn compare_paths(p: &Vec<u8>, q: &Vec<u8>) -> (r: ByteOrder)
    ensures
        (r == ByteOrder::Before) == path_lt(p@, q@),
        (r == ByteOrder::After) == path_lt(q@, p@),
        (r == ByteOrder::Same) == (path_components(p@) == path_components(q@)),
{
    let a = components_of(p);
    let b = components_of(q);
    let ghost ca = path_components(p@);
    let ghost cb = path_components(q@);
    assert(ca.len() == a.len() && cb.len() == b.len());
    let mut k: usize = 0;
    while k < a.len() && k < b.len()
        invariant
            ca == span_components(p@, a@),
            cb == span_components(q@, b@),
            ca.len() == a.len(),
            cb.len() == b.len(),
            forall|j: int| 0 <= j < a.len() ==> span_ok(p@, #[trigger] a@[j]),
            forall|j: int| 0 <= j < b.len() ==> span_ok(q@, #[trigger] b@[j]),
            k <= a.len(),
            k <= b.len(),
            path_lt(p@, q@) == components_lt_from(ca, cb, k as int),
            path_lt(q@, p@) == components_lt_from(cb, ca, k as int),
            forall|j: int| 0 <= j < k ==> ca[j] == cb[j],
        decreases a.len() - k,
    {
        let x = a[k];
        let y = b[k];
        assert(ca[k as int] == span_component(p@, x));
        assert(cb[k as int] == span_component(q@, y));
        assert(span_ok(p@, x) && span_ok(q@, y));
        if x.rank != y.rank {
            assert(ca[k as int] != cb[k as int]);
            proof {
                lemma_components_irreflexive(ca, 0);
                if ca == cb {
                    assert(ca[k as int] == cb[k as int]);
                }
            }
            if x.rank < y.rank {
                return ByteOrder::Before;
            } else {
                return ByteOrder::After;
            }
        } else if x.rank == 4 {
            let sx = segment_bytes(p, x.start, x.end);
            let sy = segment_bytes(q, y.start, y.end);
            match compare_bytes(&sx, &sy) {
                ByteOrder::Before => {
                    assert(ca[k as int] != cb[k as int]);
                    proof {
                        lemma_components_irreflexive(ca, 0);
                        if ca == cb {
                            assert(ca[k as int] == cb[k as int]);
                        }
                    }
                    return ByteOrder::Before;
                },
                ByteOrder::After => {
                    assert(ca[k as int] != cb[k as int]);
                    proof {
                        lemma_components_irreflexive(ca, 0);
                        if ca == cb {
                            assert(ca[k as int] == cb[k as int]);
                        }
                    }
                    return ByteOrder::After;
                },
                ByteOrder::Same => {
                    assert(ca[k as int] == cb[k as int]);
                },
            }
        } else {
            assert(ca[k as int] == cb[k as int]);
        }
        k = k + 1;
    }
    proof {
        lemma_components_irreflexive(ca, 0);
    }
    if a.len() < b.len() {
        proof {
            if ca == cb {
                assert(ca.len() == cb.len());
            }
        }
        ByteOrder::Before
    } else if b.len() < a.len() {
        proof {
            if ca == cb {
                assert(ca.len() == cb.len());
            }
        }
        ByteOrder::After
    } else {
        assert(ca =~= cb);
        ByteOrder::Same
    }
}

} // verus!
