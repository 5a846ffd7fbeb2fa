//! Paths packed into one table.

use crate::ids::Ids;
use crate::path;
use crate::text;
use vstd::prelude::*;

verus! {


/// The parent of a directory that has none.
pub const NO_PARENT: u32 = u32::MAX;

/// Every directory is a parent and a name, and every file a directory and a
/// name. All names lie in one array of bytes, so each part of a path is stored
/// once and not once per file.
pub struct PathTable {
    arena: Vec<u8>,
    dirs: Vec<Dir>,
    ids: Ids,
}

struct Dir {
    parent: u32,
    off: u32,
    len: u32,
}

/// What a `PathTable` holds.
#[verifier::ext_equal]
pub struct TableModel {
    /// The names.
    pub arena: Seq<u8>,
    /// The parent and the name of each directory.
    pub dirs: Seq<(u32, Seq<u8>)>,
    /// The directories that can be found again, by their path.
    pub ids: Map<Seq<u8>, u32>,
}

impl TableModel {
    /// Whether offsets and directories can be numbered in 32 bits.
    pub open spec fn fits(self) -> bool {
        self.arena.len() <= u32::MAX && self.dirs.len() <= u32::MAX
    }
}

/// A table that holds nothing.
pub open spec fn empty_table() -> TableModel {
    TableModel { arena: Seq::empty(), dirs: Seq::empty(), ids: Map::empty() }
}

/// A table with one more directory.
pub open spec fn added(t: TableModel, parent: u32, name: Seq<u8>, key: Seq<u8>) -> TableModel {
    TableModel {
        arena: t.arena + name,
        dirs: t.dirs.push((parent, name)),
        ids: t.ids.insert(key, t.dirs.len() as u32),
    }
}

/// A table in which the directory `m`, and the ones on the way to it, can be
/// found. Where the last name of `m` does not lead down, `m` has no parent and
/// stands in the table as a whole.
pub open spec fn interned(t: TableModel, m: path::Route) -> TableModel
    decreases m.names.len(),
{
    let key = path::written(m);
    match path::file_name_of(m) {
        Some(name) => {
            let above = interned(t, path::up(m));
            if above.ids.contains_key(key) {
                above
            } else {
                added(above, above.ids[path::written(path::up(m))], name, key)
            }
        },
        None => if t.ids.contains_key(key) {
            t
        } else {
            added(t, NO_PARENT, key, key)
        },
    }
}

/// A table that holds the name of one more file in the directory `m`.
pub open spec fn pushed(t: TableModel, m: path::Route, name: Seq<u8>) -> TableModel {
    let above = interned(t, m);
    TableModel { arena: above.arena + name, ..above }
}

/// The path of a directory.
pub open spec fn path_of(dirs: Seq<(u32, Seq<u8>)>, id: u32) -> Seq<u8>
    decreases id,
{
    if id >= dirs.len() {
        Seq::empty()
    } else {
        let (parent, name) = dirs[id as int];
        if parent < id {
            path::extended(path_of(dirs, parent), name)
        } else {
            path::extended(Seq::empty(), name)
        }
    }
}

/// Whether `b` holds all that `a` holds, at the same places.
pub open spec fn extends(b: TableModel, a: TableModel) -> bool {
    &&& a.arena.len() <= b.arena.len()
    &&& a.dirs.len() <= b.dirs.len()
    &&& b.arena.subrange(0, a.arena.len() as int) == a.arena
    &&& b.dirs.subrange(0, a.dirs.len() as int) == a.dirs
}

/// Whether every parent comes before its children.
pub open spec fn ordered(dirs: Seq<(u32, Seq<u8>)>) -> bool {
    forall|i: int| 0 <= i < dirs.len() ==> (#[trigger] dirs[i]).0 == NO_PARENT || dirs[i].0 < i
}

/// The paths of directories stay.
pub proof fn paths_stay(a: Seq<(u32, Seq<u8>)>, b: Seq<(u32, Seq<u8>)>, id: u32)
    requires
        a.len() <= b.len(),
        b.subrange(0, a.len() as int) == a,
        id < a.len(),
    ensures
        path_of(b, id) == path_of(a, id),
    decreases id,
{
    assert(b[id as int] == a[id as int]) by {
        assert(b.subrange(0, a.len() as int)[id as int] == b[id as int]);
    }
    if a[id as int].0 < id {
        paths_stay(a, b, a[id as int].0);
    }
}

pub(crate) proof fn lemma_extends_trans(c: TableModel, b: TableModel, a: TableModel)
    requires
        extends(c, b),
        extends(b, a),
    ensures
        extends(c, a),
{
    assert(c.arena.subrange(0, a.arena.len() as int) =~= b.arena.subrange(0, a.arena.len() as int))
        by {
        assert forall|i: int| 0 <= i < a.arena.len() implies c.arena[i] == b.arena[i] by {
            assert(c.arena.subrange(0, b.arena.len() as int)[i] == c.arena[i]);
        }
    }
    assert(c.dirs.subrange(0, a.dirs.len() as int) =~= b.dirs.subrange(0, a.dirs.len() as int)) by {
        assert forall|i: int| 0 <= i < a.dirs.len() implies c.dirs[i] == b.dirs[i] by {
            assert(c.dirs.subrange(0, b.dirs.len() as int)[i] == c.dirs[i]);
        }
    }
}

pub(crate) proof fn lemma_extends_refl(t: TableModel)
    ensures
        extends(t, t),
{
    assert(t.arena.subrange(0, t.arena.len() as int) =~= t.arena);
    assert(t.dirs.subrange(0, t.dirs.len() as int) =~= t.dirs);
}

proof fn lemma_added_extends(t: TableModel, parent: u32, name: Seq<u8>, key: Seq<u8>)
    ensures
        extends(added(t, parent, name, key), t),
{
    let a = added(t, parent, name, key);
    assert(a.arena.subrange(0, t.arena.len() as int) =~= t.arena);
    assert(a.dirs.subrange(0, t.dirs.len() as int) =~= t.dirs);
}

/// Finding a place for a directory only adds to the table.
pub proof fn interned_extends(t: TableModel, m: path::Route)
    ensures
        extends(interned(t, m), t),
        interned(t, m).ids.contains_key(path::written(m)),
    decreases m.names.len(),
{
    let key = path::written(m);
    match path::file_name_of(m) {
        Some(name) => {
            let above = interned(t, path::up(m));
            interned_extends(t, path::up(m));
            if !above.ids.contains_key(key) {
                let parent = above.ids[path::written(path::up(m))];
                lemma_added_extends(above, parent, name, key);
                lemma_extends_trans(interned(t, m), above, t);
            }
        },
        None => {
            if t.ids.contains_key(key) {
                lemma_extends_refl(t);
            } else {
                lemma_added_extends(t, NO_PARENT, key, key);
            }
        },
    }
}

/// Whether each of the last names of `m`, from the one at `n` on, leads down.
spec fn down_from(m: path::Route, n: nat) -> bool {
    forall|i: int| n <= i < m.names.len() ==> path::leads_down(#[trigger] m.names[i])
}

/// The first `n` names of `m`.
spec fn part(m: path::Route, n: nat) -> path::Route {
    path::Route { names: m.names.subrange(0, n as int), ..m }
}

proof fn lemma_part(m: path::Route, n: nat)
    requires
        n < m.names.len(),
    ensures
        path::up(part(m, n + 1)) == part(m, n),
        part(m, n + 1) == path::down(part(m, n), m.names[n as int]),
        part(m, n + 1).names.last() == m.names[n as int],
{
    assert(part(m, n + 1).names.drop_last() =~= part(m, n).names);
    assert(part(m, n + 1).names =~= part(m, n).names.push(m.names[n as int]));
}

/// Interning the way to a directory is part of interning it.
proof fn lemma_parts_extend(t: TableModel, m: path::Route, n: nat, k: nat)
    requires
        n <= k <= m.names.len(),
        down_from(m, n),
    ensures
        extends(interned(t, part(m, k)), interned(t, part(m, n))),
    decreases k - n,
{
    if k == n {
        lemma_extends_refl(interned(t, part(m, n)));
    } else {
        let j = (k - 1) as nat;
        lemma_parts_extend(t, m, n, j);
        lemma_part(m, j);
        let above = interned(t, part(m, j));
        let key = path::written(part(m, k));
        if above.ids.contains_key(key) {
        } else {
            lemma_added_extends(
                above,
                above.ids[path::written(part(m, j))],
                m.names[j as int],
                key,
            );
            lemma_extends_trans(interned(t, part(m, k)), above, interned(t, part(m, n)));
        }
    }
}

proof fn lemma_whole(m: path::Route)
    ensures
        part(m, m.names.len()) == m,
{
    assert(m.names.subrange(0, m.names.len() as int) =~= m.names);
}

/// Interning a directory leaves open whether one below it can be found.
proof fn lemma_deeper_unknown(t: TableModel, m: path::Route, deeper: path::Route)
    requires
        path::is_route(m),
        path::is_route(deeper),
        m.names.len() < deeper.names.len(),
    ensures
        interned(t, m).ids.contains_key(path::written(deeper)) == t.ids.contains_key(
            path::written(deeper),
        ),
    decreases m.names.len(),
{
    path::written_says_route(m);
    path::written_says_route(deeper);
    if path::file_name_of(m) is Some {
        path::lemma_part_of_route(m, (m.names.len() - 1) as nat);
        assert(m.names.subrange(0, m.names.len() - 1) =~= m.names.drop_last());
        lemma_deeper_unknown(t, path::up(m), deeper);
    }
}

impl PathTable {
    /// What the table holds.
    pub closed spec fn model(self) -> TableModel {
        TableModel {
            arena: self.arena@,
            dirs: Seq::new(
                self.dirs@.len(),
                |i: int|
                    (
                        self.dirs@[i].parent,
                        self.arena@.subrange(
                            self.dirs@[i].off as int,
                            self.dirs@[i].off + self.dirs@[i].len,
                        ),
                    ),
            ),
            ids: self.ids@,
        }
    }

    /// What every operation keeps.
    pub closed spec fn wf(self) -> bool {
        let t = self.model();
        &&& t.fits()
        &&& self.ids.wf()
        &&& ordered(t.dirs)
        &&& forall|i: int|
            0 <= i < self.dirs@.len() ==> (#[trigger] self.dirs@[i]).off + self.dirs@[i].len
                <= self.arena@.len()
        &&& forall|k: Seq<u8>| #[trigger]
            t.ids.contains_key(k) ==> t.ids[k] < t.dirs.len() && path_of(t.dirs, t.ids[k]) == k
    }

    /// What the table holds can be numbered.
    pub proof fn holds_what_fits(self)
        requires
            self.wf(),
        ensures
            self.model().fits(),
    {
    }

    /// A table that holds nothing.
    pub fn new() -> (r: PathTable)
        ensures
            r.wf(),
            r.model() == empty_table(),
    {
        let r = PathTable { arena: Vec::new(), dirs: Vec::new(), ids: Ids::new() };
        assert(r.model().dirs =~= Seq::<(u32, Seq<u8>)>::empty());
        r
    }

    /// Stores a name; where it lies.
    fn add_name(&mut self, name: &[u8]) -> (r: (u32, u32))
        requires
            old(self).wf(),
            old(self).model().arena.len() + name@.len() <= u32::MAX,
        ensures
            final(self).wf(),
            final(self).dirs == old(self).dirs,
            final(self).ids == old(self).ids,
            final(self).model() == (TableModel {
                arena: old(self).model().arena + name@,
                ..old(self).model()
            }),
            r.0 == old(self).model().arena.len(),
            r.1 == name@.len(),
    {
        let ghost before = *self;
        let off: u32 = self.arena.len() as u32;
        let mut i: usize = 0;
        while i < name.len()
            invariant
                i <= name@.len(),
                self.arena@ == before.arena@ + name@.subrange(0, i as int),
                self.dirs == before.dirs,
                self.ids == before.ids,
            decreases name@.len() - i,
        {
            self.arena.push(name[i]);
            i = i + 1;
            assert(self.arena@ =~= before.arena@ + name@.subrange(0, i as int));
        }
        assert(name@.subrange(0, name@.len() as int) =~= name@);
        proof {
            let a = before.model().dirs;
            let b = self.model().dirs;
            assert forall|j: int| 0 <= j < a.len() implies #[trigger] a[j] == b[j] by {
                let d = before.dirs@[j];
                assert(self.arena@.subrange(d.off as int, d.off + d.len) =~= before.arena@.subrange(
                    d.off as int,
                    d.off + d.len,
                ));
            }
            assert(a =~= b);
        }
        (off, name.len() as u32)
    }

    /// The name at a place.
    fn name(&self, off: u32, len: u32) -> (r: &[u8])
        requires
            self.wf(),
            off + len <= self.model().arena.len(),
        ensures
            r@ == self.model().arena.subrange(off as int, off + len),
    {
        let all: &[u8] = self.arena.as_slice();
        &all[off as usize..(off + len) as usize]
    }

    /// Adds a directory that cannot be found yet.
    fn add_dir(&mut self, parent: u32, name: &[u8], key: &[u8]) -> (r: u32)
        requires
            old(self).wf(),
            parent == NO_PARENT || parent < old(self).model().dirs.len(),
            !old(self).model().ids.contains_key(key@),
            key@ == path::extended(path_of(old(self).model().dirs, parent), name@),
            added(old(self).model(), parent, name@, key@).fits(),
        ensures
            final(self).wf(),
            final(self).model() == added(old(self).model(), parent, name@, key@),
            r == old(self).model().dirs.len(),
    {
        let ghost t = self.model();
        let (off, len) = self.add_name(name);
        let ghost mid = *self;
        let id: u32 = self.dirs.len() as u32;
        self.dirs.push(Dir { parent, off, len });
        self.ids.insert(text::copy(key), id);
        proof {
            let n = added(t, parent, name@, key@);
            assert(self.arena@.subrange(off as int, off + len) =~= name@);
            assert forall|j: int| 0 <= j < t.dirs.len() implies #[trigger] self.model().dirs[j]
                == t.dirs[j] by {
                assert(mid.model().dirs[j] == t.dirs[j]);
            }
            assert(self.model().dirs =~= n.dirs);
            assert(self.model() =~= n);
            lemma_added_extends(t, parent, name@, key@);
            assert forall|k: Seq<u8>| #[trigger] n.ids.contains_key(k) implies n.ids[k]
                < n.dirs.len() && path_of(n.dirs, n.ids[k]) == k by {
                if k == key@ {
                    if parent < t.dirs.len() {
                        paths_stay(t.dirs, n.dirs, parent);
                    }
                } else {
                    assert(t.ids.contains_key(k));
                    paths_stay(t.dirs, n.dirs, t.ids[k]);
                }
            }
        }
        id
    }

    /// How many of the names of `p`, from its start, the table takes as one.
    fn root_len(names: &Vec<&[u8]>, Ghost(m): Ghost<path::Route>) -> (r: usize)
        requires
            text::are_pieces(names@, m.names),
        ensures
            r <= m.names.len(),
            down_from(m, r as nat),
            path::file_name_of(part(m, r as nat)) is None,
    {
        let mut n: usize = names.len();
        while n > 0 && path::goes_down(names[n - 1])
            invariant
                n <= names@.len(),
                text::are_pieces(names@, m.names),
                down_from(m, n as nat),
            decreases n,
        {
            assert(names@[n - 1]@ == m.names[n - 1]);
            n = n - 1;
        }
        assert(n > 0 ==> part(m, n as nat).names.last() == names@[n - 1]@);
        n
    }

    /// Finds the directory `p`, or adds it and the ones on the way to it.
    pub fn intern(&mut self, p: &[u8]) -> (id: u32)
        requires
            old(self).wf(),
            interned(old(self).model(), path::route(p@)).fits(),
        ensures
            final(self).wf(),
            final(self).model() == interned(old(self).model(), path::route(p@)),
            id == final(self).model().ids[path::written(path::route(p@))],
            id < final(self).model().dirs.len(),
            path_of(final(self).model().dirs, id) == path::written(path::route(p@)),
            extends(final(self).model(), old(self).model()),
    {
        let ghost t = self.model();
        let ghost m = path::route(p@);
        proof {
            path::routes_are_routes(p@);
            interned_extends(t, m);
        }
        let names = path::names(p);
        let n: usize = Self::root_len(&names, Ghost(m));
        let mut key: Vec<u8> = path::write_names(path::is_rooted(p), &names, n, Ghost(m));
        proof {
            lemma_parts_extend(t, m, n as nat, m.names.len());
            lemma_whole(m);
        }
        let mut id: u32 = match self.ids.get(key.as_slice()) {
            Some(id) => id,
            None => self.add_dir(NO_PARENT, key.as_slice(), key.as_slice()),
        };
        let mut i: usize = n;
        while i < names.len()
            invariant
                n <= i <= names@.len(),
                path::is_route(m),
                text::are_pieces(names@, m.names),
                down_from(m, n as nat),
                interned(t, m).fits(),
                self.wf(),
                self.model() == interned(t, part(m, i as nat)),
                key@ == path::written(part(m, i as nat)),
                self.model().ids.contains_key(key@),
                id == self.model().ids[key@],
            decreases names@.len() - i,
        {
            proof {
                lemma_part(m, i as nat);
                path::lemma_part_of_route(m, (i + 1) as nat);
                path::written_down(part(m, i as nat), names@[i as int]@);
                lemma_parts_extend(t, m, (i + 1) as nat, m.names.len());
                lemma_whole(m);
            }
            path::extend(&mut key, names[i]);
            id = match self.ids.get(key.as_slice()) {
                Some(id) => id,
                None => self.add_dir(id, names[i], key.as_slice()),
            };
            i = i + 1;
        }
        id
    }

    /// Whether the table can hold the name of one more file in the directory
    /// `parent`.
    pub fn has_room(&self, parent: &[u8], name: &[u8]) -> (r: bool)
        requires
            self.wf(),
        ensures
            r == pushed(self.model(), path::route(parent@), name@).fits(),
    {
        let ghost t = self.model();
        let ghost m = path::route(parent@);
        proof {
            path::routes_are_routes(parent@);
        }
        let names = path::names(parent);
        let n: usize = Self::root_len(&names, Ghost(m));
        let mut key: Vec<u8> = path::write_names(path::is_rooted(parent), &names, n, Ghost(m));
        let max: usize = u32::MAX as usize;
        let mut bytes: usize = self.arena.len();
        let mut dirs: usize = self.dirs.len();
        proof {
            lemma_parts_extend(t, m, n as nat, m.names.len());
            lemma_whole(m);
        }
        if self.ids.get(key.as_slice()).is_none() {
            if key.len() > max - bytes || dirs == max {
                return false;
            }
            bytes = bytes + key.len();
            dirs = dirs + 1;
        }
        let mut i: usize = n;
        while i < names.len()
            invariant
                n <= i <= names@.len(),
                path::is_route(m),
                m == path::route(parent@),
                text::are_pieces(names@, m.names),
                down_from(m, n as nat),
                self.wf(),
                t == self.model(),
                max == u32::MAX,
                bytes <= max,
                dirs <= max,
                bytes == interned(t, part(m, i as nat)).arena.len(),
                dirs == interned(t, part(m, i as nat)).dirs.len(),
                key@ == path::written(part(m, i as nat)),
            decreases names@.len() - i,
        {
            proof {
                lemma_part(m, i as nat);
                path::lemma_part_of_route(m, i as nat);
                path::lemma_part_of_route(m, (i + 1) as nat);
                path::written_down(part(m, i as nat), names@[i as int]@);
                lemma_parts_extend(t, m, (i + 1) as nat, m.names.len());
                lemma_whole(m);
                lemma_deeper_unknown(t, part(m, i as nat), part(m, (i + 1) as nat));
            }
            path::extend(&mut key, names[i]);
            if self.ids.get(key.as_slice()).is_none() {
                if names[i].len() > max - bytes || dirs == max {
                    return false;
                }
                bytes = bytes + names[i].len();
                dirs = dirs + 1;
            }
            i = i + 1;
        }
        proof {
            lemma_whole(m);
        }
        name.len() <= max - bytes
    }

    /// The path of a directory.
    fn dir_path(&self, id: u32) -> (r: Vec<u8>)
        requires
            self.wf(),
        ensures
            r@ == path_of(self.model().dirs, id),
        decreases (if id < self.model().dirs.len() { id + 1 } else { 0 }),
    {
        if id as usize >= self.dirs.len() {
            return Vec::new();
        }
        assert(self.model().dirs[id as int].0 == self.dirs@[id as int].parent);
        let parent: u32 = self.dirs[id as usize].parent;
        let mut p: Vec<u8> = self.dir_path(parent);
        path::extend(&mut p, self.name(self.dirs[id as usize].off, self.dirs[id as usize].len));
        p
    }

    /// Stores the file `name` in the directory `parent`.
    pub fn add_file(&mut self, parent: &[u8], name: &[u8]) -> (r: FilePath)
        requires
            old(self).wf(),
            pushed(old(self).model(), path::route(parent@), name@).fits(),
        ensures
            final(self).wf(),
            final(self).model() == pushed(old(self).model(), path::route(parent@), name@),
            r.lies_in(final(self).model()),
            r.path_in(final(self).model()) == path::extended(
                path::written(path::route(parent@)),
                name@,
            ),
    {
        let dir: u32 = self.intern(parent);
        let (off, len) = self.add_name(name);
        assert(self.model().arena.subrange(off as int, off + len) =~= name@);
        FilePath { dir, off, len }
    }

    /// The directories in just the room that they need.
    fn fitted_dirs(&self) -> (r: Vec<Dir>)
        ensures
            r@ == self.dirs@,
    {
        let n: usize = self.dirs.len();
        let mut out: Vec<Dir> = Vec::with_capacity(n);
        let mut i: usize = 0;
        while i < n
            invariant
                i <= n == self.dirs@.len(),
                out@ == self.dirs@.subrange(0, i as int),
            decreases n - i,
        {
            let d: &Dir = &self.dirs[i];
            out.push(Dir { parent: d.parent, off: d.off, len: d.len });
            i = i + 1;
            assert(out@ =~= self.dirs@.subrange(0, i as int));
        }
        assert(self.dirs@.subrange(0, n as int) =~= self.dirs@);
        out
    }

    /// Drops what is needed only to find directories again, and the room that was
    /// left to grow.
    pub fn seal(&mut self)
        requires
            old(self).wf(),
        ensures
            final(self).wf(),
            final(self).model() == (TableModel { ids: Map::empty(), ..old(self).model() }),
    {
        let ghost t = self.model();
        self.ids = Ids::new();
        self.arena = text::copy(self.arena.as_slice());
        self.dirs = self.fitted_dirs();
        assert(self.model().dirs =~= t.dirs);
        assert(self.model() =~= (TableModel { ids: Map::empty(), ..t }));
    }
}

impl Default for PathTable {
    fn default() -> (r: PathTable)
        ensures
            r.wf(),
            r.model() == empty_table(),
    {
        PathTable::new()
    }
}

/// The path of a file, as two places in a `PathTable`.
pub struct FilePath {
    dir: u32,
    off: u32,
    len: u32,
}

impl FilePath {
    /// Whether the places exist in a table.
    pub closed spec fn lies_in(self, t: TableModel) -> bool {
        self.dir < t.dirs.len() && self.off + self.len <= t.arena.len()
    }

    /// The path.
    pub closed spec fn path_in(self, t: TableModel) -> Seq<u8> {
        path::extended(
            path_of(t.dirs, self.dir),
            t.arena.subrange(self.off as int, self.off + self.len),
        )
    }

    /// The path.
    pub fn to_path(&self, table: &PathTable) -> (r: Vec<u8>)
        requires
            table.wf(),
            self.lies_in(table.model()),
        ensures
            r@ == self.path_in(table.model()),
    {
        let mut p: Vec<u8> = table.dir_path(self.dir);
        path::extend(&mut p, table.name(self.off, self.len));
        p
    }
}

/// The paths of files stay.
pub proof fn file_paths_stay(b: TableModel, a: TableModel, f: FilePath)
    requires
        extends(b, a),
        f.lies_in(a),
    ensures
        f.lies_in(b),
        f.path_in(b) == f.path_in(a),
{
    paths_stay(a.dirs, b.dirs, f.dir);
    let x = a.arena.subrange(f.off as int, f.off + f.len);
    let y = b.arena.subrange(f.off as int, f.off + f.len);
    assert forall|i: int| 0 <= i < x.len() implies x[i] == y[i] by {
        assert(b.arena.subrange(0, a.arena.len() as int)[f.off + i] == b.arena[f.off + i]);
    }
    assert(x =~= y);
}

/// What was interned can be found: interning it again changes nothing.
pub proof fn interning_again_changes_nothing(t: TableModel, m: path::Route)
    ensures
        interned(interned(t, m), m) == interned(t, m),
{
    lemma_known(t, m, interned(t, m));
}

proof fn lemma_known(t: TableModel, m: path::Route, later: TableModel)
    requires
        interned(t, m).ids.dom().subset_of(later.ids.dom()),
    ensures
        interned(later, m) == later,
    decreases m.names.len(),
{
    interned_extends(t, m);
    assert(later.ids.dom().contains(path::written(m)));
    if path::file_name_of(m) is Some {
        let above = interned(t, path::up(m));
        assert(above.ids.dom().subset_of(interned(t, m).ids.dom()));
        lemma_known(t, path::up(m), later);
    }
}

/// Storing a file only adds to the table.
pub proof fn pushed_extends(t: TableModel, m: path::Route, name: Seq<u8>)
    ensures
        extends(pushed(t, m, name), t),
{
    let above = interned(t, m);
    let p = pushed(t, m, name);
    interned_extends(t, m);
    assert(p.arena.subrange(0, above.arena.len() as int) =~= above.arena);
    assert(p.dirs.subrange(0, above.dirs.len() as int) =~= above.dirs);
    lemma_extends_trans(p, above, t);
}

/// A table fits as long as its bytes and its directories can be numbered in 32
/// bits.
pub proof fn tables_fit_32_bits(t: TableModel)
    ensures
        t.fits() <==> t.arena.len() <= 0xffff_ffff && t.dirs.len() <= 0xffff_ffff,
        empty_table().arena.len() == 0,
        empty_table().dirs.len() == 0,
        empty_table().ids.dom() == Set::<Seq<u8>>::empty(),
{
    assert(empty_table().ids.dom() =~= Set::<Seq<u8>>::empty());
}

/// A directory below one that can be found adds at most itself: one directory and
/// the bytes of its name, under the number of the one above it.
pub proof fn each_directory_adds_its_name(t: TableModel, m: path::Route, name: Seq<u8>)
    requires
        name != seq![0x2eu8],
        name != seq![0x2eu8, 0x2e],
    ensures
        ({
            let above = interned(t, m);
            let below = interned(t, path::down(m, name));
            let key = path::written(path::down(m, name));
            if above.ids.contains_key(key) {
                below == above
            } else {
                &&& below.arena == above.arena + name
                &&& below.dirs == above.dirs.push((above.ids[path::written(m)], name))
                &&& below.ids == above.ids.insert(key, above.dirs.len() as u32)
            }
        }),
{
    path::up_undoes_down(m, name);
}

/// A directory whose path ends in no name stands in the table as a whole.
pub proof fn other_directories_stand_as_a_whole(t: TableModel, m: path::Route)
    requires
        path::file_name_of(m) is None,
    ensures
        ({
            let key = path::written(m);
            if t.ids.contains_key(key) {
                interned(t, m) == t
            } else {
                &&& interned(t, m).arena == t.arena + key
                &&& interned(t, m).dirs == t.dirs.push((u32::MAX, key))
                &&& interned(t, m).ids == t.ids.insert(key, t.dirs.len() as u32)
            }
        }),
{
}

/// Files of one directory share its path: each further one adds the bytes of its
/// own name and nothing else.
pub proof fn files_share_their_directory(t: TableModel, m: path::Route, a: Seq<u8>, b: Seq<u8>)
    ensures
        pushed(t, m, a).arena == interned(t, m).arena + a,
        pushed(t, m, a).dirs == interned(t, m).dirs,
        pushed(t, m, a).ids == interned(t, m).ids,
        pushed(pushed(t, m, a), m, b).arena == pushed(t, m, a).arena + b,
        pushed(pushed(t, m, a), m, b).dirs == pushed(t, m, a).dirs,
{
    lemma_known(t, m, pushed(t, m, a));
}

/// What a table holds stays in one that extends it, at the same places.
pub proof fn longer_tables_keep_all(b: TableModel, a: TableModel, i: int)
    requires
        extends(b, a),
    ensures
        0 <= i < a.arena.len() ==> i < b.arena.len() && b.arena[i] == a.arena[i],
        0 <= i < a.dirs.len() ==> i < b.dirs.len() && b.dirs[i] == a.dirs[i],
{
    if 0 <= i < a.arena.len() {
        assert(b.arena.subrange(0, a.arena.len() as int)[i] == b.arena[i]);
    }
    if 0 <= i < a.dirs.len() {
        assert(b.dirs.subrange(0, a.dirs.len() as int)[i] == b.dirs[i]);
    }
}

/// The path of a directory is that of its parent and its name, or its name alone
/// where it has no parent.
pub proof fn directories_lie_in_their_parents(dirs: Seq<(u32, Seq<u8>)>, id: u32)
    requires
        ordered(dirs),
        id < dirs.len() < u32::MAX,
    ensures
        dirs[id as int].0 == u32::MAX ==> path_of(dirs, id) == dirs[id as int].1,
        dirs[id as int].0 != u32::MAX ==> dirs[id as int].0 < id && path_of(dirs, id)
            == path::extended(path_of(dirs, dirs[id as int].0), dirs[id as int].1),
{
    let (parent, name) = dirs[id as int];
    assert(path::extended(Seq::empty(), name) =~= name);
}

} // verus!
