//! Sorted sets of directories.

use crate::path;
use crate::path::Route;
use crate::text;
use vstd::prelude::*;

verus! {

/// Whether `a` sorts before `b`, byte by byte.
pub open spec fn bytes_before(a: Seq<u8>, b: Seq<u8>) -> bool
    decreases a.len(),
{
    if b.len() == 0 {
        false
    } else if a.len() == 0 {
        true
    } else if a[0] != b[0] {
        a[0] < b[0]
    } else {
        bytes_before(a.drop_first(), b.drop_first())
    }
}

/// `.` sorts before `..`, and that before every name that leads down.
pub open spec fn rank(name: Seq<u8>) -> int {
    if name == path::dot() {
        0
    } else if name == path::dot_dot() {
        1
    } else {
        2
    }
}

/// Whether the name `a` sorts before `b`.
pub open spec fn name_before(a: Seq<u8>, b: Seq<u8>) -> bool {
    rank(a) < rank(b) || (rank(a) == rank(b) && bytes_before(a, b))
}

/// Whether the names `a` sort before `b`, name by name.
pub open spec fn names_before(a: Seq<Seq<u8>>, b: Seq<Seq<u8>>) -> bool
    decreases a.len(),
{
    if b.len() == 0 {
        false
    } else if a.len() == 0 {
        true
    } else if a[0] != b[0] {
        name_before(a[0], b[0])
    } else {
        names_before(a.drop_first(), b.drop_first())
    }
}

/// Whether the route `a` sorts before `b`: the empty one first, then those that
/// start at the root.
pub open spec fn before(a: Route, b: Route) -> bool {
    if a.rooted == b.rooted {
        names_before(a.names, b.names)
    } else if a.rooted {
        b.names.len() > 0
    } else {
        a.names.len() == 0
    }
}

proof fn lemma_bytes_order(a: Seq<u8>, b: Seq<u8>)
    ensures
        !(bytes_before(a, b) && bytes_before(b, a)),
        bytes_before(a, b) || bytes_before(b, a) || a == b,
        !bytes_before(a, a),
    decreases a.len(),
{
    if a.len() > 0 {
        lemma_bytes_order(a.drop_first(), a.drop_first());
        if b.len() > 0 {
            lemma_bytes_order(a.drop_first(), b.drop_first());
            if a[0] == b[0] && a.drop_first() == b.drop_first() {
                assert(a =~= seq![a[0]] + a.drop_first());
                assert(b =~= seq![b[0]] + b.drop_first());
            }
        }
    }
    if a.len() == 0 && b.len() == 0 {
        assert(a =~= b);
    }
}

proof fn lemma_bytes_trans(a: Seq<u8>, b: Seq<u8>, c: Seq<u8>)
    requires
        bytes_before(a, b),
        bytes_before(b, c),
    ensures
        bytes_before(a, c),
    decreases a.len(),
{
    if a.len() > 0 && a[0] == b[0] && b[0] == c[0] {
        lemma_bytes_trans(a.drop_first(), b.drop_first(), c.drop_first());
    }
}

proof fn lemma_name_order(a: Seq<u8>, b: Seq<u8>)
    ensures
        !(name_before(a, b) && name_before(b, a)),
        name_before(a, b) || name_before(b, a) || a == b,
        !name_before(a, a),
{
    lemma_bytes_order(a, b);
}

proof fn lemma_name_trans(a: Seq<u8>, b: Seq<u8>, c: Seq<u8>)
    requires
        name_before(a, b),
        name_before(b, c),
    ensures
        name_before(a, c),
{
    if rank(a) == rank(b) && rank(b) == rank(c) {
        lemma_bytes_trans(a, b, c);
    }
}

proof fn lemma_names_order(a: Seq<Seq<u8>>, b: Seq<Seq<u8>>)
    ensures
        !(names_before(a, b) && names_before(b, a)),
        names_before(a, b) || names_before(b, a) || a == b,
        !names_before(a, a),
    decreases a.len(),
{
    if a.len() > 0 {
        lemma_names_order(a.drop_first(), a.drop_first());
        if b.len() > 0 {
            lemma_name_order(a[0], b[0]);
            lemma_names_order(a.drop_first(), b.drop_first());
            if a[0] == b[0] && a.drop_first() == b.drop_first() {
                assert(a =~= seq![a[0]] + a.drop_first());
                assert(b =~= seq![b[0]] + b.drop_first());
            }
        }
    }
    if a.len() == 0 && b.len() == 0 {
        assert(a =~= b);
    }
}

proof fn lemma_names_trans(a: Seq<Seq<u8>>, b: Seq<Seq<u8>>, c: Seq<Seq<u8>>)
    requires
        names_before(a, b),
        names_before(b, c),
    ensures
        names_before(a, c),
    decreases a.len(),
{
    if a.len() > 0 {
        if a[0] == b[0] && b[0] == c[0] {
            lemma_names_trans(a.drop_first(), b.drop_first(), c.drop_first());
        } else if a[0] != b[0] && b[0] != c[0] {
            lemma_name_trans(a[0], b[0], c[0]);
            lemma_name_order(a[0], a[0]);
        }
    }
}

/// Of two distinct routes exactly one sorts before the other.
pub proof fn order_is_total(a: Route, b: Route)
    ensures
        !(before(a, b) && before(b, a)),
        before(a, b) || before(b, a) || a == b,
        !before(a, a),
{
    lemma_names_order(a.names, b.names);
}

/// The order of routes is transitive.
pub proof fn order_is_transitive(a: Route, b: Route, c: Route)
    requires
        before(a, b),
        before(b, c),
    ensures
        before(a, c),
{
    if a.rooted == b.rooted && b.rooted == c.rooted {
        lemma_names_trans(a.names, b.names, c.names);
    }
}

/// Whether `a` sorts before `b`, byte by byte.
fn sorts_before(a: &[u8], b: &[u8]) -> (r: bool)
    ensures
        r == bytes_before(a@, b@),
{
    let mut i: usize = 0;
    assert(a@.subrange(0, a@.len() as int) =~= a@);
    assert(b@.subrange(0, b@.len() as int) =~= b@);
    while i < a.len() && i < b.len()
        invariant
            i <= a@.len(),
            i <= b@.len(),
            bytes_before(a@, b@) == bytes_before(
                a@.subrange(i as int, a@.len() as int),
                b@.subrange(i as int, b@.len() as int),
            ),
        decreases a@.len() - i,
    {
        let ghost x = a@.subrange(i as int, a@.len() as int);
        let ghost y = b@.subrange(i as int, b@.len() as int);
        if a[i] != b[i] {
            return a[i] < b[i];
        }
        assert(x.drop_first() =~= a@.subrange(i + 1, a@.len() as int));
        assert(y.drop_first() =~= b@.subrange(i + 1, b@.len() as int));
        i = i + 1;
    }
    i < b.len()
}

/// The place of a name among the kinds of names.
fn rank_of(name: &[u8]) -> (r: u8)
    ensures
        r == rank(name@),
{
    if path::goes_down(name) {
        2
    } else if name.len() == 1 {
        assert(name@.len() != path::dot_dot().len());
        0
    } else {
        assert(name@.len() != path::dot().len());
        1
    }
}

/// Whether the path `a` sorts before `b`, component by component.
pub fn comes_before(a: &[u8], b: &[u8]) -> (r: bool)
    ensures
        r == before(path::route(a@), path::route(b@)),
{
    let x = path::names(a);
    let y = path::names(b);
    let ghost p = path::route(a@).names;
    let ghost q = path::route(b@).names;
    if path::is_rooted(a) != path::is_rooted(b) {
        return if path::is_rooted(a) {
            y.len() > 0
        } else {
            x.len() == 0
        };
    }
    let mut i: usize = 0;
    assert(p.subrange(0, p.len() as int) =~= p);
    assert(q.subrange(0, q.len() as int) =~= q);
    while i < x.len() && i < y.len()
        invariant
            i <= p.len(),
            i <= q.len(),
            text::are_pieces(x@, p),
            text::are_pieces(y@, q),
            path::route(a@).rooted == path::route(b@).rooted,
            p == path::route(a@).names,
            q == path::route(b@).names,
            names_before(p, q) == names_before(
                p.subrange(i as int, p.len() as int),
                q.subrange(i as int, q.len() as int),
            ),
        decreases p.len() - i,
    {
        let ghost u = p.subrange(i as int, p.len() as int);
        let ghost v = q.subrange(i as int, q.len() as int);
        let s: &[u8] = x[i];
        let t: &[u8] = y[i];
        assert(u[0] == s@);
        assert(v[0] == t@);
        if !text::same_bytes(s, t) {
            let m: u8 = rank_of(s);
            let n: u8 = rank_of(t);
            return m < n || (m == n && sorts_before(s, t));
        }
        assert(u.drop_first() =~= p.subrange(i + 1, p.len() as int));
        assert(v.drop_first() =~= q.subrange(i + 1, q.len() as int));
        i = i + 1;
    }
    i < y.len()
}

/// Whether `dirs` are sorted, none twice.
pub open spec fn sorted(dirs: Seq<Vec<u8>>) -> bool {
    forall|i: int, j: int|
        0 <= i < j < dirs.len() ==> before(
            path::route((#[trigger] dirs[i])@),
            path::route((#[trigger] dirs[j])@),
        )
}

/// Whether one of `dirs` is where `m` leads.
pub open spec fn found_in(dirs: Seq<Vec<u8>>, m: Route) -> bool {
    exists|i: int| 0 <= i < dirs.len() && path::route((#[trigger] dirs[i])@) == m
}

/// Adds a directory to a sorted set. One that is there already stays as it is.
pub fn insert(dirs: &mut Vec<Vec<u8>>, d: Vec<u8>)
    requires
        sorted(old(dirs)@),
    ensures
        sorted(final(dirs)@),
        found_in(old(dirs)@, path::route(d@)) ==> final(dirs)@ == old(dirs)@,
        !found_in(old(dirs)@, path::route(d@)) ==> exists|n: int|
            0 <= n <= old(dirs)@.len() && final(dirs)@ == #[trigger] old(dirs)@.insert(n, d),
        forall|m: Route| #[trigger]
            found_in(final(dirs)@, m) == (found_in(old(dirs)@, m) || m == path::route(d@)),
{
    let ghost was = dirs@;
    let ghost r = path::route(d@);
    let mut i: usize = 0;
    while i < dirs.len() && comes_before(dirs[i].as_slice(), d.as_slice())
        invariant
            i <= dirs@.len(),
            dirs@ == was,
            r == path::route(d@),
            forall|j: int| 0 <= j < i ==> before(path::route((#[trigger] was[j])@), r),
        decreases dirs@.len() - i,
    {
        i = i + 1;
    }
    if i < dirs.len() && path::same_path(dirs[i].as_slice(), d.as_slice()) {
        assert(path::route(was[i as int]@) == r);
        return;
    }
    proof {
        if i < was.len() {
            order_is_total(path::route(was[i as int]@), r);
        }
        assert forall|j: int| i <= j < was.len() implies before(
            r,
            path::route((#[trigger] was[j])@),
        ) by {
            if j > i {
                order_is_transitive(r, path::route(was[i as int]@), path::route(was[j]@));
            }
        }
        assert forall|j: int| 0 <= j < was.len() implies path::route((#[trigger] was[j])@) != r by {
            order_is_total(r, r);
        }
    }
    dirs.insert(i, d);
    proof {
        let now = dirs@;
        assert(now =~= was.insert(i as int, d));
        assert forall|a: int, b: int| 0 <= a < b < now.len() implies before(
            path::route((#[trigger] now[a])@),
            path::route((#[trigger] now[b])@),
        ) by {
            let x = if a < i { a } else { a - 1 };
            let y = if b < i { b } else { b - 1 };
            assert(a != i ==> now[a] == was[x]);
            assert(b != i ==> now[b] == was[y]);
        }
        assert forall|m: Route| #[trigger] found_in(now, m) == (found_in(was, m) || m == r) by {
            if found_in(was, m) {
                let j = choose|j: int| 0 <= j < was.len() && path::route((#[trigger] was[j])@) == m;
                let k = if j < i { j } else { j + 1 };
                assert(now[k] == was[j]);
            }
            if m == r {
                assert(now[i as int] == d);
            }
            if found_in(now, m) && m != r {
                let k = choose|k: int| 0 <= k < now.len() && path::route((#[trigger] now[k])@) == m;
                let j = if k < i { k } else { k - 1 };
                assert(now[k] == was[j]);
            }
        }
    }
}

/// Whether one of `dirs` is where the path `d` leads.
pub fn contains(dirs: &[Vec<u8>], d: &[u8]) -> (r: bool)
    ensures
        r == found_in(dirs@, path::route(d@)),
{
    let mut i: usize = 0;
    while i < dirs.len()
        invariant
            i <= dirs@.len(),
            forall|j: int|
                0 <= j < i ==> path::route((#[trigger] dirs@[j])@) != path::route(d@),
        decreases dirs@.len() - i,
    {
        if path::same_path(dirs[i].as_slice(), d) {
            return true;
        }
        i = i + 1;
    }
    false
}

/// Bytes are compared at the first place where they differ, and what ends there
/// comes first.
pub proof fn first_difference_decides(start: Seq<u8>, a: Seq<u8>, b: Seq<u8>)
    ensures
        a.len() > 0 && b.len() > 0 && a[0] != b[0] ==> (bytes_before(start + a, start + b) <==> a[0]
            < b[0]),
        bytes_before(start, start + b) <==> b.len() > 0,
        !bytes_before(start + a, start),
    decreases start.len(),
{
    if start.len() == 0 {
        assert(start + a =~= a);
        assert(start + b =~= b);
    } else {
        first_difference_decides(start.drop_first(), a, b);
        assert((start + a).drop_first() =~= start.drop_first() + a);
        assert((start + b).drop_first() =~= start.drop_first() + b);
    }
}

/// Paths are compared name by name, by the first that differs, and one that ends
/// there comes first. Names are compared byte by byte, but `.` comes before all
/// others and `..` before all but that.
pub proof fn first_different_name_decides(
    start: Seq<Seq<u8>>,
    a: Seq<Seq<u8>>,
    b: Seq<Seq<u8>>,
)
    ensures
        a.len() > 0 && b.len() > 0 && a[0] != b[0] ==> (names_before(start + a, start + b) <==> if a[0]
            == seq![0x2eu8] {
            true
        } else if b[0] == seq![0x2eu8] {
            false
        } else if a[0] == seq![0x2eu8, 0x2e] {
            true
        } else if b[0] == seq![0x2eu8, 0x2e] {
            false
        } else {
            bytes_before(a[0], b[0])
        }),
        names_before(start, start + b) <==> b.len() > 0,
        !names_before(start + a, start),
    decreases start.len(),
{
    if start.len() == 0 {
        assert(start + a =~= a);
        assert(start + b =~= b);
    } else {
        first_different_name_decides(start.drop_first(), a, b);
        assert((start + a).drop_first() =~= start.drop_first() + a);
        assert((start + b).drop_first() =~= start.drop_first() + b);
    }
}

/// Of two paths that start alike the names decide; the empty path comes first of
/// all, and a path from the root before any other.
pub proof fn rooted_paths_come_first(a: Route, b: Route)
    ensures
        a.rooted == b.rooted ==> before(a, b) == names_before(a.names, b.names),
        a.rooted && !b.rooted ==> (before(a, b) <==> b.names.len() > 0),
        !a.rooted && b.rooted ==> (before(a, b) <==> a.names.len() == 0),
{
}

/// Sorted directories follow each other in order, and no two lead to one place.
pub proof fn sorted_directories_differ(dirs: Seq<Vec<u8>>)
    ensures
        sorted(dirs) ==> forall|i: int, j: int|
            0 <= i < j < dirs.len() ==> {
                &&& before(path::route((#[trigger] dirs[i])@), path::route((#[trigger] dirs[j])@))
                &&& path::route(dirs[i]@) != path::route(dirs[j]@)
            },
{
    if sorted(dirs) {
        assert forall|i: int, j: int| 0 <= i < j < dirs.len() implies before(
            path::route((#[trigger] dirs[i])@),
            path::route((#[trigger] dirs[j])@),
        ) && path::route(dirs[i]@) != path::route(dirs[j]@) by {
            order_is_total(path::route(dirs[i]@), path::route(dirs[j]@));
        }
    }
}

/// A place is found exactly if it is where one of the directories leads.
pub proof fn found_places_are_routes(dirs: Seq<Vec<u8>>, m: Route)
    ensures
        found_in(dirs, m) <==> dirs.map_values(|d: Vec<u8>| path::route(d@)).contains(m),
{
    let all = dirs.map_values(|d: Vec<u8>| path::route(d@));
    if found_in(dirs, m) {
        let i = choose|i: int| 0 <= i < dirs.len() && path::route((#[trigger] dirs[i])@) == m;
        assert(all[i] == m);
    }
    if all.contains(m) {
        let i = choose|i: int| 0 <= i < all.len() && all[i] == m;
        assert(path::route(dirs[i]@) == m);
    }
}

} // verus!
