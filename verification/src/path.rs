//! Paths as byte strings, compared by their components.

use crate::text;
use vstd::prelude::*;

verus! {

/// What separates the components of a path.
pub const SLASH: u8 = 0x2f;

/// The name of a directory itself.
pub open spec fn dot() -> Seq<u8> {
    seq![0x2e]
}

/// The name of the parent directory.
pub open spec fn dot_dot() -> Seq<u8> {
    seq![0x2e, 0x2e]
}

/// What a path says: whether it starts at the root, and the names on it.
/// Two paths are equal if they say the same.
pub struct Route {
    pub rooted: bool,
    pub names: Seq<Seq<u8>>,
}

/// The pieces of a path that are names: repeated slashes count as one, and
/// `.` counts only at the very start.
pub open spec fn kept(parts: Seq<Seq<u8>>) -> Seq<Seq<u8>>
    decreases parts.len(),
{
    if parts.len() == 0 {
        Seq::empty()
    } else {
        let rest = kept(parts.drop_last());
        if parts.last().len() == 0 || (parts.last() == dot() && parts.len() > 1) {
            rest
        } else {
            rest.push(parts.last())
        }
    }
}

/// What the path `p` says.
pub open spec fn route(p: Seq<u8>) -> Route {
    Route { rooted: p.len() > 0 && p[0] == SLASH, names: kept(text::pieces(p, SLASH)) }
}

/// The names of `p`.
pub fn names<'a>(p: &'a [u8]) -> (r: Vec<&'a [u8]>)
    ensures
        text::are_pieces(r@, route(p@).names),
{
    let parts = text::split(p, SLASH);
    let ghost all = text::pieces(p@, SLASH);
    let mut out: Vec<&'a [u8]> = Vec::new();
    let mut i: usize = 0;
    while i < parts.len()
        invariant
            i <= parts@.len(),
            text::are_pieces(parts@, all),
            text::are_pieces(out@, kept(all.subrange(0, i as int))),
        decreases parts@.len() - i,
    {
        let part: &'a [u8] = parts[i];
        assert(all.subrange(0, i + 1).drop_last() =~= all.subrange(0, i as int));
        assert(all.subrange(0, i + 1).last() == part@);
        let is_dot = part.len() == 1 && part[0] == 0x2e;
        assert(is_dot == (part@ == dot())) by {
            if is_dot {
                assert(part@ =~= dot());
            }
        }
        if part.len() > 0 && !(is_dot && i > 0) {
            out.push(part);
        }
        i = i + 1;
    }
    assert(all.subrange(0, all.len() as int) =~= all);
    out
}

/// Whether `p` starts at the root.
pub fn is_rooted(p: &[u8]) -> (r: bool)
    ensures
        r == route(p@).rooted,
{
    p.len() > 0 && p[0] == SLASH
}

/// Whether the route `p` leads through `base` or ends there.
pub open spec fn within(p: Route, base: Route) -> bool {
    ||| !base.rooted && base.names.len() == 0
    ||| {
        &&& p.rooted == base.rooted
        &&& base.names.len() <= p.names.len()
        &&& p.names.subrange(0, base.names.len() as int) == base.names
    }
}

/// Whether each of the first names of `a` is that of `b` at its place.
fn same_start(a: &Vec<&[u8]>, b: &Vec<&[u8]>) -> (r: bool)
    requires
        b@.len() <= a@.len(),
    ensures
        r == forall|i: int| 0 <= i < b@.len() ==> (#[trigger] a@[i])@ == b@[i]@,
{
    let mut i: usize = 0;
    while i < b.len()
        invariant
            i <= b@.len() <= a@.len(),
            forall|j: int| 0 <= j < i ==> (#[trigger] a@[j])@ == b@[j]@,
        decreases b@.len() - i,
    {
        if !text::same_bytes(a[i], b[i]) {
            assert(a@[i as int]@ != b@[i as int]@);
            return false;
        }
        i = i + 1;
    }
    true
}

/// Whether `base` is a prefix of `p`; only whole components match.
pub fn starts_with(p: &[u8], base: &[u8]) -> (r: bool)
    ensures
        r == within(route(p@), route(base@)),
{
    let a = names(p);
    let b = names(base);
    if !is_rooted(base) && b.len() == 0 {
        return true;
    }
    if is_rooted(p) != is_rooted(base) || b.len() > a.len() {
        return false;
    }
    let ghost want = route(base@).names;
    let ghost have = route(p@).names.subrange(0, want.len() as int);
    let r = same_start(&a, &b);
    proof {
        if r {
            assert forall|i: int| 0 <= i < want.len() implies have[i] == want[i] by {
                assert(a@[i]@ == b@[i]@);
            }
            assert(have =~= want);
        } else {
            let i = choose|i: int| 0 <= i < b@.len() && (#[trigger] a@[i])@ != b@[i]@;
            assert(have[i] != want[i]);
        }
    }
    r
}

/// Whether `a` and `b` say the same.
pub fn same_path(a: &[u8], b: &[u8]) -> (r: bool)
    ensures
        r == (route(a@) == route(b@)),
{
    let x = names(a);
    let y = names(b);
    if is_rooted(a) != is_rooted(b) || x.len() != y.len() {
        return false;
    }
    let r = same_start(&x, &y);
    proof {
        if r {
            assert forall|i: int| 0 <= i < x@.len() implies route(a@).names[i] == route(b@).names[i] by {
                assert(x@[i]@ == y@[i]@);
            }
            assert(route(a@).names =~= route(b@).names);
        } else {
            let i = choose|i: int| 0 <= i < y@.len() && (#[trigger] x@[i])@ != y@[i]@;
            assert(route(a@).names[i] != route(b@).names[i]);
        }
    }
    r
}

/// Whether a name leads down: it is neither `.` nor `..`.
pub open spec fn leads_down(name: Seq<u8>) -> bool {
    name != dot() && name != dot_dot()
}

/// Whether `name` can be the name of a file.
pub open spec fn is_file_name(name: Seq<u8>) -> bool {
    &&& name.len() > 0
    &&& !name.contains(SLASH)
    &&& leads_down(name)
}

/// Whether some path says `m`.
pub open spec fn is_route(m: Route) -> bool {
    &&& forall|i: int|
        0 <= i < m.names.len() ==> (#[trigger] m.names[i]).len() > 0 && !m.names[i].contains(SLASH)
    &&& forall|i: int|
        0 <= i < m.names.len() && (i > 0 || m.rooted) ==> (#[trigger] m.names[i]) != dot()
}

/// Names separated by slashes.
pub open spec fn joined(names: Seq<Seq<u8>>) -> Seq<u8>
    decreases names.len(),
{
    if names.len() == 0 {
        Seq::empty()
    } else if names.len() == 1 {
        names[0]
    } else {
        joined(names.drop_last()) + seq![SLASH] + names.last()
    }
}

/// The plainest path that says `m`.
pub open spec fn written(m: Route) -> Seq<u8> {
    if m.rooted {
        seq![SLASH] + joined(m.names)
    } else {
        joined(m.names)
    }
}

/// The path `p` extended by `name`; a rooted `name` replaces it.
pub open spec fn extended(p: Seq<u8>, name: Seq<u8>) -> Seq<u8> {
    if name.len() > 0 && name[0] == SLASH {
        name
    } else if p.len() > 0 && p.last() != SLASH {
        p + seq![SLASH] + name
    } else {
        p + name
    }
}

/// Extends the path `p` by `name`.
pub fn extend(p: &mut Vec<u8>, name: &[u8])
    ensures
        final(p)@ == extended(old(p)@, name@),
{
    let n: usize = p.len();
    if name.len() > 0 && name[0] == SLASH {
        p.clear();
    } else if n > 0 && p[n - 1] != SLASH {
        p.push(SLASH);
    }
    let ghost start = p@;
    let mut i: usize = 0;
    while i < name.len()
        invariant
            i <= name@.len(),
            p@ == start + name@.subrange(0, i as int),
        decreases name@.len() - i,
    {
        p.push(name[i]);
        i = i + 1;
        assert(p@ =~= start + name@.subrange(0, i as int));
    }
    assert(name@.subrange(0, name@.len() as int) =~= name@);
    assert(p@ =~= extended(old(p)@, name@));
}

/// Splitting around a separator splits both sides.
proof fn lemma_pieces_concat(a: Seq<u8>, b: Seq<u8>, sep: u8)
    ensures
        text::pieces(a + seq![sep] + b, sep) == text::pieces(a, sep) + text::pieces(b, sep),
    decreases a.len(),
{
    let s = a + seq![sep] + b;
    text::lemma_before_first(a, sep);
    let n = text::before_first(a, sep);
    if n < a.len() {
        text::lemma_is_first(s, sep, n);
        let rest = a.subrange(n as int + 1, a.len() as int);
        lemma_pieces_concat(rest, b, sep);
        assert(s.subrange(n as int + 1, s.len() as int) =~= rest + seq![sep] + b);
        assert(s.subrange(0, n as int) =~= a.subrange(0, n as int));
        assert(text::pieces(s, sep) =~= text::pieces(a, sep) + text::pieces(b, sep));
    } else {
        text::lemma_is_first(s, sep, a.len());
        assert(s.subrange(0, a.len() as int) =~= a);
        assert(s.subrange(a.len() as int + 1, s.len() as int) =~= b);
    }
}

/// What holds no separator is its only piece.
proof fn lemma_pieces_plain(a: Seq<u8>, sep: u8)
    requires
        !a.contains(sep),
    ensures
        text::pieces(a, sep) == seq![a],
{
    text::lemma_before_first(a, sep);
    let n = text::before_first(a, sep);
    if n < a.len() {
        assert(a.contains(sep));
    }
}

proof fn lemma_pieces(s: Seq<u8>, sep: u8)
    ensures
        text::pieces(s, sep).len() >= 1,
        forall|i: int|
            0 <= i < text::pieces(s, sep).len() ==> !(#[trigger] text::pieces(s, sep)[i]).contains(sep),
        s.len() == 0 || s[0] == sep <==> text::pieces(s, sep)[0].len() == 0,
    decreases s.len(),
{
    text::lemma_before_first(s, sep);
    let n = text::before_first(s, sep);
    if n < s.len() {
        let rest = s.subrange(n as int + 1, s.len() as int);
        lemma_pieces(rest, sep);
        let ps = text::pieces(s, sep);
        assert forall|i: int| 0 <= i < ps.len() implies !(#[trigger] ps[i]).contains(sep) by {
            if i > 0 {
                assert(ps[i] == text::pieces(rest, sep)[i - 1]);
            }
        }
    }
}

proof fn lemma_kept_push(parts: Seq<Seq<u8>>, part: Seq<u8>)
    requires
        parts.len() >= 1,
    ensures
        kept(parts.push(part)) == if part.len() == 0 || part == dot() {
            kept(parts)
        } else {
            kept(parts).push(part)
        },
{
    assert(parts.push(part).drop_last() =~= parts);
}

proof fn lemma_kept_one(part: Seq<u8>)
    ensures
        kept(seq![part]) == if part.len() == 0 {
            Seq::empty()
        } else {
            seq![part]
        },
{
    reveal_with_fuel(kept, 2);
    assert(seq![part].drop_last() =~= Seq::<Seq<u8>>::empty());
    assert(seq![part].last() == part);
    assert(Seq::<Seq<u8>>::empty().push(part) =~= seq![part]);
}

proof fn lemma_kept_names(parts: Seq<Seq<u8>>)
    requires
        forall|i: int| 0 <= i < parts.len() ==> !(#[trigger] parts[i]).contains(SLASH),
    ensures
        forall|i: int|
            0 <= i < kept(parts).len() ==> (#[trigger] kept(parts)[i]).len() > 0 && !kept(
                parts,
            )[i].contains(SLASH),
        forall|i: int|
            0 <= i < kept(parts).len() && (i > 0 || (parts.len() > 0 && parts[0].len() == 0))
                ==> #[trigger] kept(parts)[i] != dot(),
    decreases parts.len(),
{
    if parts.len() > 0 {
        let rest = parts.drop_last();
        lemma_kept_names(rest);
        let k = kept(parts);
        assert forall|i: int|
            0 <= i < k.len() && (i > 0 || (parts.len() > 0 && parts[0].len() == 0)) implies #[trigger] k[i]
            != dot() by {
            if i < kept(rest).len() {
                assert(k[i] == kept(rest)[i]);
            } else if rest.len() == 0 {
                assert(kept(rest).len() == 0);
            }
        }
    }
}

/// What a path says is a route.
pub proof fn routes_are_routes(p: Seq<u8>)
    ensures
        is_route(route(p)),
{
    let ps = text::pieces(p, SLASH);
    lemma_pieces(p, SLASH);
    lemma_kept_names(ps);
}

/// Extending a path by a file name adds the name to what the path says.
pub proof fn extended_adds_name(p: Seq<u8>, name: Seq<u8>)
    requires
        is_file_name(name),
    ensures
        route(extended(p, name)) == down(route(p), name),
{
    lemma_pieces_plain(name, SLASH);
    assert(name[0] != SLASH) by {
        assert(name.contains(name[0]));
    }
    lemma_pieces(p, SLASH);
    let e = extended(p, name);
    if p.len() == 0 {
        assert(e =~= name);
        lemma_kept_one(name);
        lemma_pieces_plain(p, SLASH);
        assert(p =~= Seq::<u8>::empty());
        lemma_kept_one(p);
        assert(route(e).names =~= route(p).names.push(name));
    } else if p.last() != SLASH {
        lemma_pieces_concat(p, name, SLASH);
        assert(text::pieces(e, SLASH) =~= text::pieces(p, SLASH).push(name));
        lemma_kept_push(text::pieces(p, SLASH), name);
    } else {
        let q = p.drop_last();
        let none = Seq::<u8>::empty();
        assert(p =~= q + seq![SLASH] + none);
        assert(e =~= q + seq![SLASH] + name);
        lemma_pieces_concat(q, none, SLASH);
        lemma_pieces_concat(q, name, SLASH);
        lemma_pieces_plain(none, SLASH);
        lemma_pieces(q, SLASH);
        assert(text::pieces(p, SLASH) =~= text::pieces(q, SLASH).push(none));
        assert(text::pieces(e, SLASH) =~= text::pieces(q, SLASH).push(name));
        lemma_kept_push(text::pieces(q, SLASH), none);
        lemma_kept_push(text::pieces(q, SLASH), name);
    }
}

/// The path written for a route says that route.
pub proof fn written_says_route(m: Route)
    requires
        is_route(m),
    ensures
        route(written(m)) == m,
    decreases m.names.len(),
{
    let none = Seq::<u8>::empty();
    let n = m.names.len();
    lemma_pieces_plain(none, SLASH);
    if n == 0 {
        lemma_kept_one(none);
        if m.rooted {
            lemma_pieces_concat(none, none, SLASH);
            assert(written(m) =~= none + seq![SLASH] + none);
            assert(text::pieces(written(m), SLASH) =~= seq![none].push(none));
            lemma_kept_push(seq![none], none);
        }
        assert(route(written(m)).names =~= m.names);
    } else {
        let last = m.names.last();
        lemma_pieces_plain(last, SLASH);
        if n == 1 {
            if m.rooted {
                lemma_pieces_concat(none, last, SLASH);
                assert(written(m) =~= none + seq![SLASH] + last);
                assert(text::pieces(written(m), SLASH) =~= seq![none].push(last));
                lemma_kept_push(seq![none], last);
                lemma_kept_one(none);
            } else {
                lemma_kept_one(last);
                assert(!last.contains(SLASH));
                assert(last[0] != SLASH) by {
                    assert(last.contains(last[0]));
                }
            }
            assert(route(written(m)).names =~= m.names);
        } else {
            let up = Route { names: m.names.drop_last(), ..m };
            assert(is_route(up)) by {
                assert forall|i: int| 0 <= i < up.names.len() implies #[trigger] up.names[i]
                    == m.names[i] by {}
            }
            written_says_route(up);
            assert(written(m) =~= written(up) + seq![SLASH] + last);
            lemma_pieces_concat(written(up), last, SLASH);
            lemma_pieces(written(up), SLASH);
            assert(text::pieces(written(m), SLASH) =~= text::pieces(written(up), SLASH).push(last));
            lemma_kept_push(text::pieces(written(up), SLASH), last);
            assert(route(written(m)).names =~= m.names);
            if m.rooted {
                assert(written(m)[0] == SLASH);
            } else {
                assert(written(up).len() > 0) by {
                    if written(up).len() == 0 {
                        assert(text::pieces(written(up), SLASH) == seq![none]) by {
                            assert(written(up) =~= none);
                        }
                        lemma_kept_one(none);
                    }
                }
                assert(written(m)[0] == written(up)[0]);
            }
        }
    }
}

/// A route without its last name.
pub open spec fn up(m: Route) -> Route {
    Route { names: m.names.drop_last(), ..m }
}

/// A route with one more name.
pub open spec fn down(m: Route, name: Seq<u8>) -> Route {
    Route { names: m.names.push(name), ..m }
}

/// The name at the end of a route, if it ends in one that leads down.
pub open spec fn file_name_of(m: Route) -> Option<Seq<u8>> {
    if m.names.len() > 0 && leads_down(m.names.last()) {
        Some(m.names.last())
    } else {
        None
    }
}

proof fn lemma_joined_end(names: Seq<Seq<u8>>)
    requires
        names.len() > 0,
        names.last().len() > 0,
        !names.last().contains(SLASH),
    ensures
        joined(names).len() > 0,
        joined(names).last() != SLASH,
{
    let last = names.last();
    assert(last.contains(last.last()));
    assert(joined(names).last() == last.last());
}

/// Writing a longer route extends what is written for the shorter one.
pub proof fn written_down(m: Route, name: Seq<u8>)
    requires
        is_route(down(m, name)),
    ensures
        written(down(m, name)) == extended(written(m), name),
{
    let n = m.names.len();
    assert(down(m, name).names[n as int] == name);
    assert(down(m, name).names.drop_last() =~= m.names);
    assert(name[0] != SLASH) by {
        assert(name.contains(name[0]));
    }
    if n > 0 {
        assert(down(m, name).names[n - 1] == m.names.last());
        lemma_joined_end(m.names);
    }
    assert(written(down(m, name)) =~= extended(written(m), name));
}

/// Routes lead through routes.
pub(crate) proof fn lemma_part_of_route(m: Route, n: nat)
    requires
        is_route(m),
        n <= m.names.len(),
    ensures
        is_route(Route { names: m.names.subrange(0, n as int), ..m }),
{
    let part = m.names.subrange(0, n as int);
    assert forall|i: int| 0 <= i < n implies #[trigger] part[i] == m.names[i] by {}
}

/// Writes the first `n` of `names`.
pub(crate) fn write_names(rooted: bool, names: &Vec<&[u8]>, n: usize, Ghost(m): Ghost<Route>) -> (r: Vec<u8>)
    requires
        is_route(m),
        m.rooted == rooted,
        text::are_pieces(names@, m.names),
        n <= names@.len(),
    ensures
        r@ == written(Route { names: m.names.subrange(0, n as int), ..m }),
{
    let mut out: Vec<u8> = Vec::new();
    if rooted {
        out.push(SLASH);
    }
    let mut i: usize = 0;
    assert(m.names.subrange(0, 0) =~= Seq::<Seq<u8>>::empty());
    assert(out@ =~= written(Route { names: m.names.subrange(0, 0), ..m }));
    while i < n
        invariant
            is_route(m),
            text::are_pieces(names@, m.names),
            i <= n <= names@.len(),
            out@ == written(Route { names: m.names.subrange(0, i as int), ..m }),
        decreases n - i,
    {
        proof {
            let part = Route { names: m.names.subrange(0, i as int), ..m };
            assert(m.names.subrange(0, i + 1) =~= part.names.push(names@[i as int]@));
            lemma_part_of_route(m, (i + 1) as nat);
            written_down(part, names@[i as int]@);
        }
        extend(&mut out, names[i]);
        i = i + 1;
    }
    out
}

/// The plainest path that says what `p` says.
pub fn normalize(p: &[u8]) -> (r: Vec<u8>)
    ensures
        r@ == written(route(p@)),
{
    let list = names(p);
    proof {
        routes_are_routes(p@);
        let all = route(p@).names;
        assert(all.subrange(0, all.len() as int) =~= all);
    }
    write_names(is_rooted(p), &list, list.len(), Ghost(route(p@)))
}

/// Whether `name` leads down.
pub fn goes_down(name: &[u8]) -> (r: bool)
    ensures
        r == leads_down(name@),
{
    let n: usize = name.len();
    if n == 1 && name[0] == 0x2e {
        assert(name@ =~= dot());
        false
    } else if n == 2 && name[0] == 0x2e && name[1] == 0x2e {
        assert(name@ =~= dot_dot());
        false
    } else {
        true
    }
}

/// A file is found under the path that it was given, however the path of its
/// directory was spelled.
pub proof fn spelling_does_not_matter(p: Seq<u8>, name: Seq<u8>)
    requires
        is_file_name(name),
    ensures
        route(extended(written(route(p)), name)) == route(extended(p, name)),
{
    routes_are_routes(p);
    written_says_route(route(p));
    extended_adds_name(p, name);
    extended_adds_name(written(route(p)), name);
}

/// The names on a path are all its components but the empty ones and those that
/// are `.`; a `.` at the very start stays. The path is rooted if it starts with a
/// slash.
pub proof fn components_are_names(p: Seq<u8>)
    ensures
        route(p).rooted == (p.len() > 0 && p[0] == 0x2f),
        ({
            let parts = text::pieces(p, 0x2f);
            let first = if parts[0].len() > 0 {
                seq![parts[0]]
            } else {
                Seq::empty()
            };
            route(p).names == first + parts.skip(1).filter(
                |n: Seq<u8>| n.len() > 0 && n != seq![0x2eu8],
            )
        }),
{
    lemma_pieces(p, SLASH);
    lemma_kept_filter(text::pieces(p, SLASH));
}

proof fn lemma_kept_filter(parts: Seq<Seq<u8>>)
    requires
        parts.len() > 0,
    ensures
        kept(parts) == (if parts[0].len() > 0 {
            seq![parts[0]]
        } else {
            Seq::empty()
        }) + parts.skip(1).filter(|n: Seq<u8>| n.len() > 0 && n != seq![0x2eu8]),
    decreases parts.len(),
{
    let keep = |n: Seq<u8>| n.len() > 0 && n != seq![0x2eu8];
    let first = if parts[0].len() > 0 {
        seq![parts[0]]
    } else {
        Seq::empty()
    };
    reveal(Seq::filter);
    if parts.len() == 1 {
        assert(parts =~= seq![parts[0]]);
        lemma_kept_one(parts[0]);
        assert(parts.skip(1) =~= Seq::empty());
        assert(kept(parts) =~= first + parts.skip(1).filter(keep));
    } else {
        let less = parts.drop_last();
        lemma_kept_filter(less);
        assert(less.skip(1) =~= parts.skip(1).drop_last());
        assert(parts.skip(1).last() == parts.last());
        assert(kept(parts) =~= first + parts.skip(1).filter(keep));
    }
}

/// A path lies within another exactly if it goes on where that one ends, by any
/// number of names; within the empty path lies every path.
pub proof fn longer_paths_lie_within(p: Route, base: Route, more: Seq<Seq<u8>>)
    ensures
        within(Route { names: base.names + more, ..base }, base),
        within(p, base) <==> (!base.rooted && base.names.len() == 0) || (p.rooted == base.rooted
            && p.names == base.names + p.names.skip(base.names.len() as int)
            && base.names.len() <= p.names.len()),
{
    let n = base.names.len() as int;
    assert((base.names + more).subrange(0, n) =~= base.names);
    if n <= p.names.len() {
        assert(p.names =~= p.names.subrange(0, n) + p.names.skip(n));
        if p.names == base.names + p.names.skip(n) {
            assert(p.names.subrange(0, n) =~= (base.names + p.names.skip(n)).subrange(0, n));
            assert((base.names + p.names.skip(n)).subrange(0, n) =~= base.names);
        }
    }
}

/// What lies within a path that lies within another lies within that one too, and
/// every path lies within itself.
pub proof fn within_is_an_order(a: Route, b: Route, c: Route)
    ensures
        within(a, a),
        within(a, b) && within(b, c) && (b.rooted || b.names.len() > 0) ==> within(a, c),
        within(a, b) && within(b, a) && (a.rooted || a.names.len() > 0) && (b.rooted
            || b.names.len() > 0) ==> a == b,
{
    assert(a.names.subrange(0, a.names.len() as int) =~= a.names);
    if within(a, b) && within(b, c) && (b.rooted || b.names.len() > 0) && (c.rooted
        || c.names.len() > 0) {
        let n = c.names.len() as int;
        assert(a.names.subrange(0, n) =~= a.names.subrange(0, b.names.len() as int).subrange(0, n));
    }
    if within(a, b) && within(b, a) && (a.rooted || a.names.len() > 0) && (b.rooted
        || b.names.len() > 0) {
        assert(a.names.subrange(0, b.names.len() as int) =~= a.names);
    }
}

/// A name that is not rooted is put after the path, with one slash between them
/// unless the path is empty or ends with one.
pub proof fn names_are_put_after_paths(p: Seq<u8>, name: Seq<u8>)
    ensures
        name.len() > 0 && name[0] == 0x2f ==> extended(p, name) == name,
        name.len() == 0 || name[0] != 0x2f ==> extended(p, name) == p + (if p.len() == 0
            || p.last() == 0x2f {
            Seq::empty()
        } else {
            seq![0x2fu8]
        }) + name,
{
    assert(p + Seq::empty() + name =~= p + name);
}

/// Names are written with one slash between them, so that they are its pieces.
pub proof fn written_names_are_pieces(names: Seq<Seq<u8>>)
    requires
        names.len() > 0,
        forall|i: int| 0 <= i < names.len() ==> !(#[trigger] names[i]).contains(0x2fu8),
    ensures
        text::pieces(joined(names), 0x2f) == names,
    decreases names.len(),
{
    let last = names[names.len() - 1];
    lemma_pieces_plain(last, SLASH);
    if names.len() == 1 {
        assert(names =~= seq![last]);
    } else {
        let less = names.drop_last();
        assert forall|i: int| 0 <= i < less.len() implies !(#[trigger] less[i]).contains(0x2fu8) by {
            assert(less[i] == names[i]);
        }
        written_names_are_pieces(less);
        lemma_pieces_concat(joined(less), last, SLASH);
        assert(less + seq![last] =~= names);
    }
}

/// A path is written with a slash before its names exactly if it is rooted, and
/// the slash is all of it if there are none.
pub proof fn rooted_paths_start_with_a_slash(m: Route)
    ensures
        m.rooted ==> written(m) == seq![0x2fu8] + joined(m.names),
        !m.rooted ==> written(m) == joined(m.names),
        m.names.len() == 0 ==> joined(m.names).len() == 0,
{
}

/// The name at the end of a route is its last one, unless that is `.` or `..`.
pub proof fn last_names_are_file_names(m: Route)
    ensures
        file_name_of(m) is Some <==> m.names.len() > 0 && m.names.last() != seq![0x2eu8]
            && m.names.last() != seq![0x2eu8, 0x2e],
        file_name_of(m) is Some ==> file_name_of(m)->Some_0 == m.names.last(),
        m.names.len() > 0 ==> up(m).rooted == m.rooted && up(m).names.push(m.names.last()) == m.names,
{
    if m.names.len() > 0 {
        assert(m.names.drop_last().push(m.names.last()) =~= m.names);
    }
}

/// Going down and up again leads back.
pub proof fn up_undoes_down(m: Route, name: Seq<u8>)
    ensures
        up(down(m, name)) == m,
        down(m, name).names.last() == name,
        down(m, name).rooted == m.rooted,
{
    assert(m.names.push(name).drop_last() =~= m.names);
}

} // verus!
