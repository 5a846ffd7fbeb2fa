//! What a scan covers: which mounts, which entries of a directory, and the
//! files found.

use crate::path;
use crate::remount;
use crate::table;
use crate::table::{FilePath, PathTable};
use crate::text;
use std::collections::HashSet;
use vstd::prelude::*;
use vstd::string::*;

verus! {

/// The files of a scan and what is known of each.
pub struct Paths<T> {
    pub table: PathTable,
    pub files: Vec<(FilePath, T)>,
}

/// The files in a list, cut into batches.
pub open spec fn batches<A>(files: Seq<A>, batch: nat) -> Seq<Seq<A>>
    decreases files.len(),
{
    if files.len() == 0 || batch == 0 {
        Seq::empty()
    } else {
        let n = if batch < files.len() {
            batch as int
        } else {
            files.len() as int
        };
        seq![files.subrange(0, n)] + batches(files.subrange(n, files.len() as int), batch)
    }
}

/// Whether `reply` is what `step` answers to a batch.
pub open spec fn answers<T, U, E, F: FnMut(&PathTable, Vec<(FilePath, T)>) -> Result<
    Vec<(FilePath, U)>,
    E,
>>(step: F, table: PathTable, batch: Seq<(FilePath, T)>, reply: Result<Vec<(FilePath, U)>, E>) -> bool {
    exists|chunk: Vec<(FilePath, T)>|
        chunk@ == batch && #[trigger] step.ensures((&table, chunk), reply)
}

/// Whether `step` answered the first of the batches `all` with `replies`, and
/// with no error before the last of them.
pub open spec fn ran<T, U, E, F: FnMut(&PathTable, Vec<(FilePath, T)>) -> Result<
    Vec<(FilePath, U)>,
    E,
>>(
    step: F,
    table: PathTable,
    all: Seq<Seq<(FilePath, T)>>,
    replies: Seq<Result<Vec<(FilePath, U)>, E>>,
) -> bool {
    &&& replies.len() <= all.len()
    &&& forall|i: int|
        0 <= i < replies.len() ==> answers(step, table, all[i], #[trigger] replies[i])
    &&& forall|i: int| 0 <= i < replies.len() - 1 ==> #[trigger] replies[i] is Ok
}

/// What the answers hold, one after the other.
pub open spec fn joined<U, E>(replies: Seq<Result<Vec<(FilePath, U)>, E>>) -> Seq<(FilePath, U)>
    decreases replies.len(),
{
    if replies.len() == 0 {
        Seq::empty()
    } else {
        match replies.last() {
            Ok(v) => joined(replies.drop_last()) + v@,
            Err(_) => joined(replies.drop_last()),
        }
    }
}

/// The files that have an answer, with it.
pub open spec fn answered<T, U>(files: Seq<(FilePath, T)>, replies: Seq<Option<U>>) -> Seq<
    (FilePath, U),
>
    decreases replies.len(),
{
    if replies.len() == 0 || files.len() == 0 {
        Seq::empty()
    } else {
        let rest = answered(files.drop_last(), replies.drop_last());
        match replies.last() {
            Some(u) => rest.push((files.last().0, u)),
            None => rest,
        }
    }
}

impl<T> Paths<T> {
    /// Whether the table holds every file.
    pub open spec fn wf(self) -> bool {
        &&& self.table.wf()
        &&& forall|i: int|
            0 <= i < self.files@.len() ==> (#[trigger] self.files@[i]).0.lies_in(self.table.model())
    }

    /// The path of a file.
    pub fn path(&self, fp: &FilePath) -> (r: Vec<u8>)
        requires
            self.table.wf(),
            fp.lies_in(self.table.model()),
        ensures
            r@ == fp.path_in(self.table.model()),
    {
        fp.to_path(&self.table)
    }

    /// Adds the file `name` in the directory `parent`.
    pub fn push(&mut self, parent: &[u8], name: &[u8], payload: T)
        requires
            old(self).wf(),
            table::pushed(old(self).table.model(), path::route(parent@), name@).fits(),
        ensures
            final(self).wf(),
            final(self).table.model() == table::pushed(
                old(self).table.model(),
                path::route(parent@),
                name@,
            ),
            final(self).files@.len() == old(self).files@.len() + 1,
            final(self).files@.drop_last() == old(self).files@,
            final(self).files@.last().1 == payload,
            final(self).files@.last().0.path_in(final(self).table.model()) == path::extended(
                path::written(path::route(parent@)),
                name@,
            ),
            forall|i: int|
                0 <= i < old(self).files@.len() ==> (#[trigger] final(self).files@[i]).0.path_in(
                    final(self).table.model(),
                ) == old(self).files@[i].0.path_in(old(self).table.model()),
    {
        let ghost before = *self;
        let file = self.table.add_file(parent, name);
        self.files.push((file, payload));
        proof {
            let t = self.table.model();
            table::pushed_extends(before.table.model(), path::route(parent@), name@);
            assert forall|i: int| 0 <= i < before.files@.len() implies (
            #[trigger] self.files@[i]).0.lies_in(t) && self.files@[i].0.path_in(t)
                == before.files@[i].0.path_in(before.table.model()) by {
                assert(self.files@[i] == before.files@[i]);
                table::file_paths_stay(t, before.table.model(), before.files@[i].0);
            }
            assert(self.files@.drop_last() =~= before.files@);
        }
    }

    /// Replaces what is known of the files, a batch at a time. `step` decides
    /// what is dropped between batches; the first error ends the run.
    pub fn map_batched<U, E, F: FnMut(&PathTable, Vec<(FilePath, T)>) -> Result<
        Vec<(FilePath, U)>,
        E,
    >>(self, batch: usize, step: F) -> (r: Result<Paths<U>, E>)
        requires
            forall|chunk: Vec<(FilePath, T)>|
                batches(self.files@, batch as nat).contains(chunk@) ==> #[trigger] step.requires(
                    (&self.table, chunk),
                ),
        ensures
            ({
                let all = batches(self.files@, batch as nat);
                match r {
                    Ok(p) => p.table == self.table
                        && exists|replies: Seq<Result<Vec<(FilePath, U)>, E>>| #[trigger]
                        ran(step, self.table, all, replies) && replies.len() == all.len() && (
                        replies.len() > 0 ==> replies.last() is Ok) && p.files@ == joined(replies),
                    Err(e) => exists|replies: Seq<Result<Vec<(FilePath, U)>, E>>| #[trigger]
                        ran(step, self.table, all, replies) && replies.len() > 0 && replies.last()
                            == Err::<Vec<(FilePath, U)>, E>(e),
                }
            }),
    {
        let table = self.table;
        let files = self.files;
        let ghost items = files@;
        let ghost all = batches(items, batch as nat);
        let mut ask = step;
        let mut out: Vec<(FilePath, U)> = Vec::new();
        let ghost mut replies: Seq<Result<Vec<(FilePath, U)>, E>> = Seq::empty();
        if batch == 0 {
            assert(ran(step, table, all, replies));
            return Ok(Paths { table, files: out });
        }
        let mut chunk: Vec<(FilePath, T)> = Vec::new();
        proof {
            assert(chunk@ + items.subrange(0, items.len() as int) =~= items);
            assert(all.subrange(0, 0) + all =~= all);
        }
        for item in it: files
            invariant
                it.seq() == items,
                ask == step,
                all == batches(items, batch as nat),
                batch > 0,
                chunk@.len() < batch,
                table == self.table,
                self.files@ == items,
                forall|c: Vec<(FilePath, T)>|
                    all.contains(c@) ==> #[trigger] step.requires((&table, c)),
                replies.len() <= all.len(),
                all == all.subrange(0, replies.len() as int) + batches(
                    chunk@ + items.subrange(it.index() as int, items.len() as int),
                    batch as nat,
                ),
                ran(step, table, all, replies),
                forall|i: int| 0 <= i < replies.len() ==> #[trigger] replies[i] is Ok,
                out@ == joined(replies),
        {
            let ghost i = it.index() as int;
            let ghost rest = items.subrange(i + 1, items.len() as int);
            assert(items.subrange(i, items.len() as int) =~= seq![item] + rest);
            assert(chunk@ + (seq![item] + rest) =~= chunk@.push(item) + rest);
            chunk.push(item);
            if chunk.len() == batch {
                let ghost full = chunk@;
                let ghost n = replies.len();
                proof {
                    let left = full + rest;
                    assert(left.subrange(0, batch as int) =~= full);
                    assert(left.subrange(batch as int, left.len() as int) =~= rest);
                    assert(batches(left, batch as nat) == seq![full] + batches(rest, batch as nat));
                    assert(all[n as int] == full);
                }
                let mut next: Vec<(FilePath, T)> = Vec::new();
                std::mem::swap(&mut next, &mut chunk);
                assert(all.contains(next@));
                let reply = ask(&table, next);
                proof {
                    let before = replies;
                    replies = replies.push(reply);
                    assert(replies.drop_last() =~= before);
                    assert forall|j: int| 0 <= j < replies.len() implies answers(
                        step,
                        table,
                        all[j],
                        #[trigger] replies[j],
                    ) by {
                        if j < before.len() {
                            assert(replies[j] == before[j]);
                        }
                    }
                    assert forall|j: int| 0 <= j < replies.len() - 1 implies #[trigger] replies[j] is Ok by {
                        assert(replies[j] == before[j]);
                    }
                    assert(ran(step, table, all, replies));
                    assert(chunk@ + rest =~= rest);
                    assert(all =~= all.subrange(0, replies.len() as int) + batches(
                        rest,
                        batch as nat,
                    ));
                }
                match reply {
                    Ok(v) => {
                        let mut v = v;
                        out.append(&mut v);
                    },
                    Err(e) => {
                        return Err(e);
                    },
                }
            }
        }
        proof {
            assert(chunk@ + items.subrange(items.len() as int, items.len() as int) =~= chunk@);
        }
        if chunk.len() > 0 {
            let ghost full = chunk@;
            let ghost n = replies.len();
            proof {
                assert(full.subrange(0, full.len() as int) =~= full);
                assert(full.subrange(full.len() as int, full.len() as int) =~= Seq::empty());
                reveal_with_fuel(batches, 2);
                assert(batches(full, batch as nat) =~= seq![full]);
                assert(all[n as int] == full);
                assert(all.contains(full));
            }
            let reply = ask(&table, chunk);
            proof {
                let before = replies;
                replies = replies.push(reply);
                assert(replies.drop_last() =~= before);
                assert forall|j: int| 0 <= j < replies.len() implies answers(
                    step,
                    table,
                    all[j],
                    #[trigger] replies[j],
                ) by {
                    if j < before.len() {
                        assert(replies[j] == before[j]);
                    }
                }
                assert forall|j: int| 0 <= j < replies.len() - 1 implies #[trigger] replies[j] is Ok by {
                    assert(replies[j] == before[j]);
                }
                assert(ran(step, table, all, replies));
            }
            match reply {
                Ok(v) => {
                    let mut v = v;
                    out.append(&mut v);
                },
                Err(e) => {
                    return Err(e);
                },
            }
        }
        assert(ran(step, table, all, replies));
        Ok(Paths { table, files: out })
    }

    /// Keeps the files for which `f` has an answer, with it. The table keeps
    /// the names of the others: that is cheaper than moving them together.
    pub fn filter_map<U, F: FnMut(&FilePath, T, &PathTable) -> Option<U>>(self, f: F) -> (r: Paths<
        U,
    >)
        requires
            forall|i: int|
                0 <= i < self.files@.len() ==> f.requires(
                    (&(#[trigger] self.files@[i]).0, self.files@[i].1, &self.table),
                ),
        ensures
            r.table == self.table,
            exists|replies: Seq<Option<U>>|
                {
                    &&& replies.len() == self.files@.len()
                    &&& forall|i: int|
                        0 <= i < replies.len() ==> f.ensures(
                            (&self.files@[i].0, self.files@[i].1, &self.table),
                            #[trigger] replies[i],
                        )
                    &&& r.files@ == #[trigger] answered(self.files@, replies)
                },
    {
        let table = self.table;
        let files = self.files;
        let ghost items = files@;
        let mut ask = f;
        let mut out: Vec<(FilePath, U)> = Vec::new();
        let ghost mut replies: Seq<Option<U>> = Seq::empty();
        for item in it: files
            invariant
                it.seq() == items,
                ask == f,
                table == self.table,
                self.files@ == items,
                forall|i: int|
                    0 <= i < items.len() ==> f.requires(
                        (&(#[trigger] items[i]).0, items[i].1, &table),
                    ),
                replies.len() == it.index(),
                forall|i: int|
                    0 <= i < replies.len() ==> f.ensures(
                        (&items[i].0, items[i].1, &table),
                        #[trigger] replies[i],
                    ),
                out@ == answered(items.subrange(0, it.index() as int), replies),
        {
            let ghost i = it.index() as int;
            assert(items[i] == item);
            let (p, t) = item;
            let reply = ask(&p, t, &table);
            proof {
                let before = replies;
                replies = replies.push(reply);
                assert(replies.drop_last() =~= before);
                assert(items.subrange(0, i + 1).drop_last() =~= items.subrange(0, i));
                assert(items.subrange(0, i + 1).last() == items[i]);
                assert forall|j: int| 0 <= j < replies.len() implies f.ensures(
                    (&items[j].0, items[j].1, &table),
                    #[trigger] replies[j],
                ) by {
                    if j < before.len() {
                        assert(replies[j] == before[j]);
                    }
                }
            }
            if let Some(u) = reply {
                out.push((p, u));
            }
        }
        assert(items.subrange(0, items.len() as int) =~= items);
        Paths { table, files: out }
    }
}

impl<T> Default for Paths<T> {
    fn default() -> (r: Paths<T>)
        ensures
            r.wf(),
            r.table.model() == table::empty_table(),
            r.files@ == Seq::<(FilePath, T)>::empty(),
    {
        Paths { table: PathTable::new(), files: Vec::new() }
    }
}

/// The directory under which a path is stored.
pub open spec fn stored_dir(m: path::Route) -> path::Route {
    if m.names.len() > 0 {
        path::up(m)
    } else {
        path::Route { rooted: false, names: Seq::empty() }
    }
}

/// The name under which a path is stored.
pub open spec fn stored_name(m: path::Route) -> Seq<u8> {
    match path::file_name_of(m) {
        Some(name) => name,
        None => Seq::empty(),
    }
}

/// A table that holds the paths of a list.
pub open spec fn collected<T>(list: Seq<(Vec<u8>, T)>) -> table::TableModel
    decreases list.len(),
{
    if list.len() == 0 {
        table::empty_table()
    } else {
        let m = path::route(list.last().0@);
        table::pushed(collected(list.drop_last()), stored_dir(m), stored_name(m))
    }
}

proof fn lemma_collected<T>(list: Seq<(Vec<u8>, T)>, n: nat)
    requires
        n <= list.len(),
        collected(list).fits(),
    ensures
        collected(list.subrange(0, n as int)).fits(),
    decreases list.len() - n,
{
    if n < list.len() {
        let next = list.subrange(0, n as int + 1);
        lemma_collected(list, n + 1);
        assert(next.drop_last() =~= list.subrange(0, n as int));
        let m = path::route(next.last().0@);
        table::pushed_extends(collected(next.drop_last()), stored_dir(m), stored_name(m));
    } else {
        assert(list.subrange(0, n as int) =~= list);
    }
}

impl<T> Paths<T> {
    /// The files of a list of whole paths.
    pub fn from_iter(list: Vec<(Vec<u8>, T)>) -> (r: Paths<T>)
        requires
            collected(list@).fits(),
        ensures
            r.wf(),
            r.table.model() == (table::TableModel { ids: Map::empty(), ..collected(list@) }),
            r.files@.len() == list@.len(),
            forall|i: int|
                0 <= i < list@.len() ==> {
                    let m = path::route(list@[i].0@);
                    let f = #[trigger] r.files@[i];
                    &&& f.1 == list@[i].1
                    &&& f.0.path_in(r.table.model()) == path::extended(
                        path::written(stored_dir(m)),
                        stored_name(m),
                    )
                    &&& path::file_name_of(m) is Some ==> f.0.path_in(r.table.model())
                        == path::written(m)
                },
    {
        let ghost items = list@;
        let mut out: Paths<T> = Paths { table: PathTable::new(), files: Vec::new() };
        assert(items.subrange(0, 0) =~= Seq::empty());
        for item in it: list
            invariant
                it.seq() == items,
                collected(items).fits(),
                out.wf(),
                out.table.model() == collected(items.subrange(0, it.index() as int)),
                out.files@.len() == it.index(),
                forall|i: int|
                    0 <= i < it.index() ==> {
                        let m = path::route(items[i].0@);
                        let f = #[trigger] out.files@[i];
                        &&& f.1 == items[i].1
                        &&& f.0.path_in(out.table.model()) == path::extended(
                            path::written(stored_dir(m)),
                            stored_name(m),
                        )
                    },
        {
            let ghost n = it.index() as int;
            let ghost before = out;
            assert(items[n] == item);
            let (p, t) = item;
            let ghost m = path::route(p@);
            proof {
                path::routes_are_routes(p@);
                lemma_collected(items, (n + 1) as nat);
                assert(items.subrange(0, n + 1).drop_last() =~= items.subrange(0, n));
                assert(items.subrange(0, n + 1).last() == items[n]);
            }
            let names = path::names(p.as_slice());
            let len: usize = names.len();
            if len == 0 {
                let none: [u8; 0] = [];
                proof {
                    let nothing = path::Route { rooted: false, names: Seq::empty() };
                    assert(none@ =~= path::written(nothing));
                    path::written_says_route(nothing);
                    assert(none@ =~= stored_name(m));
                }
                out.push(&none, &none, t);
            } else {
                let dir = path::write_names(path::is_rooted(p.as_slice()), &names, len - 1, Ghost(m));
                proof {
                    assert(m.names.subrange(0, len - 1) =~= m.names.drop_last());
                    path::lemma_part_of_route(m, (len - 1) as nat);
                    path::written_says_route(path::up(m));
                    assert(names@[len - 1]@ == m.names.last());
                }
                if path::goes_down(names[len - 1]) {
                    out.push(dir.as_slice(), names[len - 1], t);
                } else {
                    let none: [u8; 0] = [];
                    assert(none@ =~= stored_name(m));
                    out.push(dir.as_slice(), &none, t);
                }
            }
            proof {
                assert forall|i: int| 0 <= i < n + 1 implies ({
                    let m = path::route(items[i].0@);
                    let f = #[trigger] out.files@[i];
                    &&& f.1 == items[i].1
                    &&& f.0.path_in(out.table.model()) == path::extended(
                        path::written(stored_dir(m)),
                        stored_name(m),
                    )
                }) by {
                    if i < n {
                        assert(out.files@.drop_last()[i] == out.files@[i]);
                        assert(before.files@[i] == out.files@[i]);
                    }
                }
            }
        }
        let ghost done = out;
        out.table.seal();
        proof {
            assert(items.subrange(0, items.len() as int) =~= items);
            assert forall|i: int| 0 <= i < items.len() implies ({
                let m = path::route(items[i].0@);
                let f = #[trigger] out.files@[i];
                &&& f.0.lies_in(out.table.model())
                &&& f.0.path_in(out.table.model()) == f.0.path_in(done.table.model())
                &&& path::file_name_of(m) is Some ==> f.0.path_in(out.table.model())
                    == path::written(m)
            }) by {
                let a = done.table.model();
                let b = out.table.model();
                assert(b.arena.subrange(0, a.arena.len() as int) =~= a.arena);
                assert(b.dirs.subrange(0, a.dirs.len() as int) =~= a.dirs);
                table::file_paths_stay(b, a, done.files@[i].0);
                let m = path::route(items[i].0@);
                path::routes_are_routes(items[i].0@);
                if path::file_name_of(m) is Some {
                    assert(path::down(path::up(m), m.names.last()).names =~= m.names);
                    path::written_down(path::up(m), m.names.last());
                }
            }
        }
        out
    }
}

/// The paths of files, in order.
pub open spec fn paths_of<T>(files: Seq<(FilePath, T)>) -> Seq<FilePath> {
    files.map_values(|f: (FilePath, T)| f.0)
}

/// The items of batches, one after the other.
pub open spec fn flat<A>(batches: Seq<Seq<A>>) -> Seq<A>
    decreases batches.len(),
{
    if batches.len() == 0 {
        Seq::empty()
    } else {
        flat(batches.drop_last()) + batches.last()
    }
}

proof fn lemma_flat_first<A>(first: Seq<A>, rest: Seq<Seq<A>>)
    ensures
        flat(seq![first] + rest) == first + flat(rest),
    decreases rest.len(),
{
    let all = seq![first] + rest;
    if rest.len() == 0 {
        reveal_with_fuel(flat, 2);
        assert(all.drop_last() =~= Seq::empty());
        assert(flat(all) =~= first + flat(rest));
    } else {
        lemma_flat_first(first, rest.drop_last());
        assert(all.drop_last() =~= seq![first] + rest.drop_last());
        assert(flat(all) =~= first + flat(rest));
    }
}

/// The batches hold every item once, in order.
pub proof fn batches_hold_all<A>(files: Seq<A>, batch: nat)
    requires
        batch > 0,
    ensures
        flat(batches(files, batch)) == files,
    decreases files.len(),
{
    if files.len() > 0 {
        let n = if batch < files.len() {
            batch as int
        } else {
            files.len() as int
        };
        let rest = files.subrange(n, files.len() as int);
        batches_hold_all(rest, batch);
        lemma_flat_first(files.subrange(0, n), batches(rest, batch));
        assert(files.subrange(0, n) + rest =~= files);
    } else {
        assert(flat(batches(files, batch)) =~= files);
    }
}

/// Whether each answer has the paths of its batch.
pub open spec fn answers_keep_paths<T, U, E>(
    all: Seq<Seq<(FilePath, T)>>,
    replies: Seq<Result<Vec<(FilePath, U)>, E>>,
) -> bool {
    &&& replies.len() == all.len()
    &&& forall|i: int|
        0 <= i < all.len() ==> ((#[trigger] replies[i]) matches Ok(v) && paths_of(v@) == paths_of(
            all[i],
        ))
}

proof fn lemma_joined_paths<T, U, E>(
    all: Seq<Seq<(FilePath, T)>>,
    replies: Seq<Result<Vec<(FilePath, U)>, E>>,
)
    requires
        answers_keep_paths(all, replies),
    ensures
        paths_of(joined(replies)) == paths_of(flat(all)),
    decreases all.len(),
{
    if all.len() > 0 {
        let less = all.drop_last();
        let before = replies.drop_last();
        assert forall|i: int| 0 <= i < less.len() implies ((#[trigger] before[i]) matches Ok(v)
            && paths_of(v@) == paths_of(less[i])) by {
            assert(before[i] == replies[i]);
        }
        lemma_joined_paths(less, before);
        let last = replies[replies.len() - 1];
        let v = last->Ok_0;
        assert(last is Ok && paths_of(v@) == paths_of(all[all.len() - 1]));
        assert(paths_of(joined(replies)) =~= paths_of(joined(before)) + paths_of(v@));
        assert(paths_of(flat(all)) =~= paths_of(flat(less)) + paths_of(all.last()));
    } else {
        assert(paths_of(joined(replies)) =~= paths_of(flat(all)));
    }
}

/// Where each answer has the paths of its batch, what comes of all of them has
/// the paths of the files: each once, in order.
pub proof fn batches_keep_paths<T, U, E>(
    files: Seq<(FilePath, T)>,
    batch: nat,
    replies: Seq<Result<Vec<(FilePath, U)>, E>>,
)
    requires
        batch > 0,
        answers_keep_paths(batches(files, batch), replies),
    ensures
        paths_of(joined(replies)) == paths_of(files),
{
    batches_hold_all(files, batch);
    lemma_joined_paths(batches(files, batch), replies);
}

/// The type of filesystem that the kernel reports for ZFS.
pub const ZFS_SUPER_MAGIC: i64 = 0x2fc1_2fc1;

/// Whether `f_type` is the type of a ZFS filesystem. Other filesystems that can
/// share blocks are left alone: their block sizes and their rules of alignment
/// are not the ones that hold here.
pub fn is_zfs_type(f_type: i64) -> (r: bool)
    ensures
        r == (f_type == ZFS_SUPER_MAGIC),
        r == (f_type == 0x2fc1_2fc1),
{
    f_type == ZFS_SUPER_MAGIC
}

/// Whether `name` is one of `list`.
pub open spec fn lists(list: Seq<Vec<u8>>, name: Seq<u8>) -> bool {
    exists|i: int| 0 <= i < list.len() && (#[trigger] list[i])@ == name
}

/// Whether `name` is one of `list`.
fn is_listed(list: &[Vec<u8>], name: &[u8]) -> (r: bool)
    ensures
        r == lists(list@, name@),
{
    let mut i: usize = 0;
    while i < list.len()
        invariant
            i <= list@.len(),
            forall|j: int| 0 <= j < i ==> (#[trigger] list@[j])@ != name@,
        decreases list@.len() - i,
    {
        if text::same_bytes(list[i].as_slice(), name) {
            return true;
        }
        i = i + 1;
    }
    false
}

/// Pools, by whether blocks can be cloned in them.
#[derive(Debug)]
pub struct Pools {
    pub cloneable: Vec<Vec<u8>>,
    pub skipped: Vec<Vec<u8>>,
}

/// Whether the state of a pool's feature lets blocks be cloned.
pub open spec fn lets_clone(state: Seq<u8>) -> bool {
    state == "active".spec_bytes() || state == "enabled".spec_bytes()
}

/// The pools among `lines`, each a name, a tab and the state of the feature,
/// for which the state lets blocks be cloned, or does not.
pub open spec fn pools_of(lines: Seq<Seq<u8>>, cloneable: bool) -> Seq<Seq<u8>>
    decreases lines.len(),
{
    if lines.len() == 0 {
        Seq::empty()
    } else {
        let rest = pools_of(lines.drop_last(), cloneable);
        match text::cut(lines.last(), seq![0x09]) {
            Some((name, state)) => if lets_clone(state) == cloneable {
                rest.push(name)
            } else {
                rest
            },
            None => rest,
        }
    }
}

/// Whether `list` holds `names`.
pub open spec fn holds_names(list: Seq<Vec<u8>>, names: Seq<Seq<u8>>) -> bool {
    &&& list.len() == names.len()
    &&& forall|i: int| 0 <= i < list.len() ==> (#[trigger] list[i])@ == names[i]
}

/// The pools in the report `out` on the feature that clones blocks. In a pool
/// without it nothing can be shared.
pub fn cloneable_pools(out: &[u8]) -> (r: Pools)
    ensures
        holds_names(r.cloneable@, pools_of(text::line_pieces(out@), true)),
        holds_names(r.skipped@, pools_of(text::line_pieces(out@), false)),
{
    let lines = text::lines(out);
    let ghost all = text::line_pieces(out@);
    let tab: [u8; 1] = [0x09];
    assert(tab@ =~= seq![0x09]);
    let mut cloneable: Vec<Vec<u8>> = Vec::new();
    let mut skipped: Vec<Vec<u8>> = Vec::new();
    let mut i: usize = 0;
    while i < lines.len()
        invariant
            i <= lines@.len(),
            tab@ == seq![0x09u8],
            text::are_pieces(lines@, all),
            holds_names(cloneable@, pools_of(all.subrange(0, i as int), true)),
            holds_names(skipped@, pools_of(all.subrange(0, i as int), false)),
        decreases lines@.len() - i,
    {
        assert(all.subrange(0, i + 1).drop_last() =~= all.subrange(0, i as int));
        assert(all.subrange(0, i + 1).last() == lines@[i as int]@);
        if let Some((name, state)) = text::split_once(lines[i], &tab) {
            if text::is_word(state, "active") || text::is_word(state, "enabled") {
                cloneable.push(text::copy(name));
            } else {
                skipped.push(text::copy(name));
            }
        }
        i = i + 1;
    }
    assert(all.subrange(0, all.len() as int) =~= all);
    Pools { cloneable, skipped }
}

/// The pool of a dataset.
pub open spec fn pool_of(source: Seq<u8>) -> Seq<u8> {
    text::pieces(source, path::SLASH)[0]
}

/// Whether a mount is a dataset's root, in one of `pools`. The bind mount of a
/// subtree is none: the dataset's root covers it.
pub open spec fn is_dataset(f: remount::Fields, pools: Seq<Vec<u8>>) -> bool {
    &&& f.fstype == "zfs".spec_bytes()
    &&& path::route(remount::unescaped(f.root)) == (path::Route { rooted: true, names: Seq::empty() })
    &&& lists(pools, pool_of(f.source))
}

/// Where the datasets in one of `pools` are mounted, according to the list of
/// mounts `mountinfo`: by legacy means too.
pub fn zfs_mountpoints(mountinfo: &[u8], pools: &[Vec<u8>]) -> (r: Vec<Vec<u8>>)
    ensures
        ({
            let want = remount::listed(
                text::line_pieces(mountinfo@),
                |f: remount::Fields| is_dataset(f, pools@),
            );
            &&& r@.len() == want.len()
            &&& forall|i: int|
                0 <= i < r@.len() ==> (#[trigger] r@[i])@ == remount::unescaped(want[i].point)
        }),
{
    let lines = text::lines(mountinfo);
    let ghost all = text::line_pieces(mountinfo@);
    let ghost wanted = |f: remount::Fields| is_dataset(f, pools@);
    let mut out: Vec<Vec<u8>> = Vec::new();
    let mut i: usize = 0;
    while i < lines.len()
        invariant
            i <= lines@.len(),
            text::are_pieces(lines@, all),
            wanted == |f: remount::Fields| is_dataset(f, pools@),
            out@.len() == remount::listed(all.subrange(0, i as int), wanted).len(),
            forall|j: int|
                0 <= j < out@.len() ==> (#[trigger] out@[j])@ == remount::unescaped(
                    remount::listed(all.subrange(0, i as int), wanted)[j].point,
                ),
        decreases lines@.len() - i,
    {
        assert(all.subrange(0, i + 1).drop_last() =~= all.subrange(0, i as int));
        assert(all.subrange(0, i + 1).last() == lines@[i as int]@);
        if let Some(m) = remount::parse_mountinfo(lines[i]) {
            let names = path::names(m.root.as_slice());
            assert(names@.len() == 0 <==> path::route(m.root@).names =~= Seq::<Seq<u8>>::empty());
            if text::is_word(m.fstype.as_slice(), "zfs") && path::is_rooted(m.root.as_slice())
                && names.len() == 0 {
                let parts = text::split(m.source.as_slice(), path::SLASH);
                if is_listed(pools, parts[0]) {
                    out.push(m.point);
                }
            }
        }
        i = i + 1;
    }
    assert(all.subrange(0, all.len() as int) =~= all);
    out
}

/// A file as its directory lists it.
#[derive(Debug)]
pub struct Entry {
    pub name: Vec<u8>,
    pub dev: u64,
    pub ino: u64,
    pub nlink: u64,
}

/// What an entry of a directory is.
#[derive(Debug, Clone, Copy, PartialEq, Eq, Structural)]
pub enum Kind {
    Dir,
    File,
    /// A symbolic link, a device, a pipe or a socket.
    Other,
}

/// What to do with an entry of a directory.
#[derive(Debug, Clone, Copy, PartialEq, Eq, Structural)]
pub enum Visit {
    /// Read it as a directory.
    Descend,
    /// Take it as a file.
    File,
    /// Pass over it.
    Skip,
}

/// What to do with an entry of a directory on the device `root_dev`. The walk
/// stops at mounts, and symbolic links are not followed.
pub open spec fn visit_of(kind: Kind, dev: u64, root_dev: u64) -> Visit {
    match kind {
        Kind::Dir => if dev == root_dev {
            Visit::Descend
        } else {
            Visit::Skip
        },
        Kind::File => Visit::File,
        Kind::Other => Visit::Skip,
    }
}

/// What to do with an entry of a directory on the device `root_dev`.
pub fn visit(kind: Kind, dev: u64, root_dev: u64) -> (r: Visit)
    ensures
        r == visit_of(kind, dev, root_dev),
{
    match kind {
        Kind::Dir => if dev == root_dev {
            Visit::Descend
        } else {
            Visit::Skip
        },
        Kind::File => Visit::File,
        Kind::Other => Visit::Skip,
    }
}

/// What a directory holds, as far as the walk is concerned.
#[derive(Debug)]
pub struct Listing {
    /// The names of the directories to read next.
    pub dirs: Vec<Vec<u8>>,
    pub files: Vec<Entry>,
}

/// Those of `found` to which `what` is to be done, in order.
pub open spec fn picked(found: Seq<(Kind, Entry)>, root_dev: u64, what: Visit) -> Seq<Entry>
    decreases found.len(),
{
    if found.len() == 0 {
        Seq::empty()
    } else {
        let rest = picked(found.drop_last(), root_dev, what);
        let (kind, e) = found.last();
        if visit_of(kind, e.dev, root_dev) == what {
            rest.push(e)
        } else {
            rest
        }
    }
}

/// Sorts the entries of a directory on the device `root_dev`.
pub fn survey(found: Vec<(Kind, Entry)>, root_dev: u64) -> (r: Listing)
    ensures
        r.files@ == picked(found@, root_dev, Visit::File),
        ({
            let want = picked(found@, root_dev, Visit::Descend);
            &&& r.dirs@.len() == want.len()
            &&& forall|i: int| 0 <= i < want.len() ==> (#[trigger] r.dirs@[i]) == want[i].name
        }),
        forall|i: int|
            0 <= i < found@.len() && (#[trigger] found@[i]).0 == Kind::File ==> r.files@.contains(
                found@[i].1,
            ),
        forall|i: int|
            0 <= i < found@.len() && (#[trigger] found@[i]).0 == Kind::Dir && found@[i].1.dev
                == root_dev ==> r.dirs@.contains(found@[i].1.name),
        r.files@.len() == found@.filter(|f: (Kind, Entry)| f.0 == Kind::File).len(),
        r.dirs@.len() == found@.filter(
            |f: (Kind, Entry)| f.0 == Kind::Dir && f.1.dev == root_dev,
        ).len(),
{
    let ghost all = found@;
    let mut dirs: Vec<Vec<u8>> = Vec::new();
    let mut files: Vec<Entry> = Vec::new();
    assert(all.subrange(0, 0) =~= Seq::empty());
    for item in it: found
        invariant
            it.seq() == all,
            files@ == picked(all.subrange(0, it.index() as int), root_dev, Visit::File),
            ({
                let want = picked(all.subrange(0, it.index() as int), root_dev, Visit::Descend);
                &&& dirs@.len() == want.len()
                &&& forall|i: int| 0 <= i < want.len() ==> (#[trigger] dirs@[i]) == want[i].name
            }),
    {
        let ghost n = it.index() as int;
        assert(all.subrange(0, n + 1).drop_last() =~= all.subrange(0, n));
        assert(all.subrange(0, n + 1).last() == item);
        let (kind, e) = item;
        match visit(kind, e.dev, root_dev) {
            Visit::Descend => dirs.push(e.name),
            Visit::File => files.push(e),
            Visit::Skip => {},
        }
    }
    assert(all.subrange(0, all.len() as int) =~= all);
    proof {
        no_entry_is_lost(all, root_dev);
        entries_are_all_visited(all, root_dev);
        let want = picked(all, root_dev, Visit::Descend);
        assert forall|i: int|
            0 <= i < all.len() && (#[trigger] all[i]).0 == Kind::Dir && all[i].1.dev
                == root_dev implies dirs@.contains(all[i].1.name) by {
            let j = choose|j: int| 0 <= j < want.len() && want[j] == all[i].1;
            assert(dirs@[j] == all[i].1.name);
        }
    }
    Listing { dirs, files }
}

/// A file's device and number, as one number.
pub open spec fn inode(dev: u64, ino: u64) -> u128 {
    (dev * 0x1_0000_0000_0000_0000 + ino) as u128
}

/// A file's device and number, as one number.
pub fn inode_key(dev: u64, ino: u64) -> (r: u128)
    ensures
        r == inode(dev, ino),
{
    dev as u128 * 0x1_0000_0000_0000_0000 + ino as u128
}

/// Distinct files have distinct numbers.
pub proof fn inodes_differ(dev: u64, ino: u64, dev2: u64, ino2: u64)
    ensures
        inode(dev, ino) == inode(dev2, ino2) <==> dev == dev2 && ino == ino2,
{
}

/// The rules of a walk on one dataset.
pub struct Rules {
    pub root_dev: u64,
    pub exclude: Set<u128>,
}

impl Entry {
    /// The file's device and number.
    pub open spec fn inode(self) -> u128 {
        inode(self.dev, self.ino)
    }

    /// Whether a file is on the dataset and not left out.
    pub open spec fn in_scope(self, rules: Rules) -> bool {
        self.dev == rules.root_dev && !rules.exclude.contains(self.inode())
    }
}

/// The files among `entries` to take, where `seen` are the files with several
/// names that were taken before.
pub open spec fn taken(entries: Seq<Entry>, rules: Rules, seen: Set<u128>) -> Seq<Entry>
    decreases entries.len(),
{
    if entries.len() == 0 {
        Seq::empty()
    } else {
        let before = entries.drop_last();
        let e = entries.last();
        let rest = taken(before, rules, seen);
        if e.in_scope(rules) && (e.nlink > 1 ==> !seen_after(before, rules, seen).contains(
            e.inode(),
        )) {
            rest.push(e)
        } else {
            rest
        }
    }
}

/// The files with several names that were taken, after `entries`.
pub open spec fn seen_after(entries: Seq<Entry>, rules: Rules, seen: Set<u128>) -> Set<u128>
    decreases entries.len(),
{
    if entries.len() == 0 {
        seen
    } else {
        let before = seen_after(entries.drop_last(), rules, seen);
        let e = entries.last();
        if e.in_scope(rules) && e.nlink > 1 {
            before.insert(e.inode())
        } else {
            before
        }
    }
}

/// The table after `files` in the directory `m` were stored.
pub open spec fn after_pushes(t: table::TableModel, m: path::Route, files: Seq<Entry>) -> table::TableModel
    decreases files.len(),
{
    if files.len() == 0 {
        t
    } else {
        table::pushed(after_pushes(t, m, files.drop_last()), m, files.last().name@)
    }
}

proof fn lemma_pushes_extend(t: table::TableModel, m: path::Route, files: Seq<Entry>, n: nat)
    requires
        n <= files.len(),
    ensures
        table::extends(after_pushes(t, m, files), after_pushes(t, m, files.subrange(0, n as int))),
    decreases files.len(),
{
    if n == files.len() {
        assert(files.subrange(0, n as int) =~= files);
        table::lemma_extends_refl(after_pushes(t, m, files));
    } else {
        let less = files.drop_last();
        lemma_pushes_extend(t, m, less, n);
        assert(less.subrange(0, n as int) =~= files.subrange(0, n as int));
        table::pushed_extends(after_pushes(t, m, less), m, files.last().name@);
        table::lemma_extends_trans(
            after_pushes(t, m, files),
            after_pushes(t, m, less),
            after_pushes(t, m, files.subrange(0, n as int)),
        );
    }
}

/// Every file that is taken was listed, and later entries take none away.
proof fn lemma_taken(entries: Seq<Entry>, rules: Rules, seen: Set<u128>, n: nat)
    requires
        n <= entries.len(),
    ensures
        ({
            let part = taken(entries.subrange(0, n as int), rules, seen);
            let all = taken(entries, rules, seen);
            part.len() <= all.len() && all.subrange(0, part.len() as int) == part
        }),
    decreases entries.len(),
{
    let part = taken(entries.subrange(0, n as int), rules, seen);
    let all = taken(entries, rules, seen);
    if n == entries.len() {
        assert(entries.subrange(0, n as int) =~= entries);
        assert(all.subrange(0, all.len() as int) =~= all);
    } else {
        let less = entries.drop_last();
        lemma_taken(less, rules, seen, n);
        assert(less.subrange(0, n as int) =~= entries.subrange(0, n as int));
        let most = taken(less, rules, seen);
        assert(all.subrange(0, most.len() as int) =~= most);
        assert(all.subrange(0, part.len() as int) =~= most.subrange(0, part.len() as int));
    }
}

/// Of the names of one file at most one is taken: the others share its storage
/// already.
pub proof fn aliases_are_taken_once(entries: Seq<Entry>, rules: Rules, seen: Set<u128>)
    ensures
        ({
            let all = taken(entries, rules, seen);
            &&& forall|i: int, j: int|
                0 <= i < j < all.len() && (#[trigger] all[i]).nlink > 1 && (
                #[trigger] all[j]).nlink > 1 ==> all[i].inode() != all[j].inode()
            &&& forall|i: int|
                0 <= i < all.len() && (#[trigger] all[i]).nlink > 1 ==> !seen.contains(
                    all[i].inode(),
                ) && seen_after(entries, rules, seen).contains(all[i].inode())
            &&& forall|i: int| 0 <= i < all.len() ==> (#[trigger] all[i]).in_scope(rules)
            &&& seen.subset_of(seen_after(entries, rules, seen))
        }),
    decreases entries.len(),
{
    if entries.len() > 0 {
        let less = entries.drop_last();
        aliases_are_taken_once(less, rules, seen);
        let most = taken(less, rules, seen);
        let all = taken(entries, rules, seen);
        assert forall|i: int| 0 <= i < most.len() implies #[trigger] all[i] == most[i] by {}
        assert forall|i: int, j: int|
            0 <= i < j < all.len() && (#[trigger] all[i]).nlink > 1 && (
            #[trigger] all[j]).nlink > 1 implies all[i].inode() != all[j].inode() by {
            assert(most[i].nlink > 1);
            if j < most.len() {
                assert(most[j].nlink > 1);
            }
        }
        assert forall|i: int| 0 <= i < all.len() && (#[trigger] all[i]).nlink > 1 implies !seen.contains(
            all[i].inode(),
        ) && seen_after(entries, rules, seen).contains(all[i].inode()) by {
            if i < most.len() {
                assert(most[i].nlink > 1);
            }
        }
        assert forall|i: int| 0 <= i < all.len() implies (#[trigger] all[i]).in_scope(rules) by {
            if i < most.len() {
                assert(most[i].in_scope(rules));
            }
        }
    }
}

impl Paths<u64> {
    /// Whether these are the files of `first` and, tagged `fsid`, `files` in the
    /// directory `m`.
    pub open spec fn took(self, first: Paths<u64>, m: path::Route, files: Seq<Entry>, fsid: u64) -> bool {
        let t = self.table.model();
        let n = first.files@.len();
        &&& self.wf()
        &&& t == after_pushes(first.table.model(), m, files)
        &&& self.files@.len() == n + files.len()
        &&& self.keeps(first)
        &&& forall|i: int|
            0 <= i < files.len() ==> {
                let f = #[trigger] self.files@[n + i];
                f.1 == fsid && f.0.path_in(t) == path::extended(path::written(m), files[i].name@)
            }
    }

    /// Whether the files of `first` come first, with the paths they had.
    pub open spec fn keeps(self, first: Paths<u64>) -> bool {
        let n = first.files@.len();
        &&& n <= self.files@.len()
        &&& forall|i: int|
            0 <= i < n ==> {
                let f = #[trigger] self.files@[i];
                f == first.files@[i] && f.0.path_in(self.table.model()) == f.0.path_in(
                    first.table.model(),
                )
            }
    }

    /// Takes one more file.
    fn take_file(
        &mut self,
        parent: &[u8],
        e: &Entry,
        fsid: u64,
        Ghost(first): Ghost<Paths<u64>>,
        Ghost(files): Ghost<Seq<Entry>>,
    )
        requires
            old(self).took(first, path::route(parent@), files, fsid),
            table::pushed(old(self).table.model(), path::route(parent@), e.name@).fits(),
        ensures
            final(self).took(first, path::route(parent@), files.push(*e), fsid),
    {
        let ghost before = *self;
        self.push(parent, e.name.as_slice(), fsid);
        proof {
            let now = files.push(*e);
            let m = path::route(parent@);
            let n = first.files@.len();
            let t = self.table.model();
            assert(now.drop_last() =~= files);
            assert forall|i: int| 0 <= i < before.files@.len() implies #[trigger] self.files@[i]
                == before.files@[i] by {
                assert(self.files@.drop_last()[i] == self.files@[i]);
            }
            assert forall|i: int| 0 <= i < n implies ({
                let f = #[trigger] self.files@[i];
                f == first.files@[i] && f.0.path_in(t) == f.0.path_in(first.table.model())
            }) by {
                assert(before.files@[i] == first.files@[i]);
            }
            assert forall|i: int| 0 <= i < now.len() implies ({
                let f = #[trigger] self.files@[n + i];
                f.1 == fsid && f.0.path_in(t) == path::extended(path::written(m), now[i].name@)
            }) by {
                if i < files.len() {
                    assert(before.files@[n + i].1 == fsid);
                }
            }
        }
    }

    /// Takes the files that the directory `parent` lists, tagged with the id of
    /// their dataset. A file with several names is taken once; `seen` holds
    /// those, and a file with one name skips it. Whether the table had room for
    /// all of them.
    pub fn take(
        &mut self,
        parent: &[u8],
        entries: &[Entry],
        root_dev: u64,
        fsid: u64,
        exclude: &HashSet<u128>,
        seen: &mut HashSet<u128>,
    ) -> (fits: bool)
        requires
            old(self).wf(),
        ensures
            final(self).wf(),
            final(self).keeps(*old(self)),
            ({
                let rules = Rules { root_dev, exclude: exclude@ };
                let files = taken(entries@, rules, old(seen)@);
                let m = path::route(parent@);
                &&& fits == after_pushes(old(self).table.model(), m, files).fits()
                &&& fits ==> final(self).took(*old(self), m, files, fsid)
                &&& fits ==> final(seen)@ == seen_after(entries@, rules, old(seen)@)
            }),
    {
        broadcast use vstd::std_specs::hash::group_hash_axioms;

        let ghost rules = Rules { root_dev, exclude: exclude@ };
        let ghost first = *self;
        let ghost seen0 = seen@;
        let ghost m = path::route(parent@);
        let mut i: usize = 0;
        assert(entries@.subrange(0, 0) =~= Seq::empty());
        while i < entries.len()
            invariant
                i <= entries@.len(),
                rules == (Rules { root_dev, exclude: exclude@ }),
                first == *old(self),
                seen0 == old(seen)@,
                m == path::route(parent@),
                seen@ == seen_after(entries@.subrange(0, i as int), rules, seen0),
                self.took(first, m, taken(entries@.subrange(0, i as int), rules, seen0), fsid),
            decreases entries@.len() - i,
        {
            let ghost next = entries@.subrange(0, i + 1);
            let ghost done = taken(entries@.subrange(0, i as int), rules, seen0);
            assert(next.drop_last() =~= entries@.subrange(0, i as int));
            assert(next.last() == entries@[i as int]);
            let e: &Entry = &entries[i];
            let key: u128 = inode_key(e.dev, e.ino);
            i = i + 1;
            if e.dev != root_dev || exclude.contains(&key) {
                continue;
            }
            if e.nlink > 1 && !seen.insert(key) {
                assert(seen@ =~= seen_after(next, rules, seen0));
                continue;
            }
            assert(taken(next, rules, seen0) == done.push(*e));
            assert(seen@ =~= seen_after(next, rules, seen0));
            if !self.table.has_room(parent, e.name.as_slice()) {
                proof {
                    let files = taken(entries@, rules, seen0);
                    let now = done.push(*e);
                    assert(now.drop_last() =~= done);
                    lemma_taken(entries@, rules, seen0, i as nat);
                    lemma_pushes_extend(first.table.model(), m, files, now.len());
                }
                return false;
            }
            self.take_file(parent, e, fsid, Ghost(first), Ghost(done));
        }
        assert(entries@.subrange(0, entries@.len() as int) =~= entries@);
        proof {
            self.table.holds_what_fits();
        }
        true
    }
}

/// A regular file is always taken, whatever device it is on; a directory is read
/// if it is on the device, and nothing else is visited.
pub proof fn kinds_decide(kind: Kind, dev: u64, root_dev: u64)
    ensures
        visit_of(kind, dev, root_dev) == Visit::File <==> kind == Kind::File,
        visit_of(kind, dev, root_dev) == Visit::Descend <==> kind == Kind::Dir && dev == root_dev,
{
}

/// The files of a listing are all its entries that are regular files, and the
/// directories all those on the device, in order; names play no part.
pub proof fn entries_are_all_visited(found: Seq<(Kind, Entry)>, root_dev: u64)
    ensures
        picked(found, root_dev, Visit::File) == found.filter_map(
            |f: (Kind, Entry)|
                if f.0 == Kind::File {
                    Some(f.1)
                } else {
                    None
                },
        ),
        picked(found, root_dev, Visit::Descend) == found.filter_map(
            |f: (Kind, Entry)|
                if f.0 == Kind::Dir && f.1.dev == root_dev {
                    Some(f.1)
                } else {
                    None
                },
        ),
        picked(found, root_dev, Visit::File).len() == found.filter(
            |f: (Kind, Entry)| f.0 == Kind::File,
        ).len(),
        picked(found, root_dev, Visit::Descend).len() == found.filter(
            |f: (Kind, Entry)| f.0 == Kind::Dir && f.1.dev == root_dev,
        ).len(),
    decreases found.len(),
{
    let file = |f: (Kind, Entry)|
        if f.0 == Kind::File {
            Some(f.1)
        } else {
            None
        };
    let dir = |f: (Kind, Entry)|
        if f.0 == Kind::Dir && f.1.dev == root_dev {
            Some(f.1)
        } else {
            None
        };
    reveal(Seq::filter);
    if found.len() > 0 {
        let less = found.drop_last();
        let e = found.last().1;
        entries_are_all_visited(less, root_dev);
        assert(less.filter_map(file).push(e) =~= less.filter_map(file) + seq![e]);
        assert(less.filter_map(dir).push(e) =~= less.filter_map(dir) + seq![e]);
    }
    assert(picked(found, root_dev, Visit::File) =~= found.filter_map(file));
    assert(picked(found, root_dev, Visit::Descend) =~= found.filter_map(dir));
}

/// Every entry that is to be visited is picked, and nothing is picked that is not
/// such an entry.
pub proof fn no_entry_is_lost(found: Seq<(Kind, Entry)>, root_dev: u64)
    ensures
        forall|i: int|
            0 <= i < found.len() && (#[trigger] found[i]).0 == Kind::File ==> picked(
                found,
                root_dev,
                Visit::File,
            ).contains(found[i].1),
        forall|i: int|
            0 <= i < found.len() && (#[trigger] found[i]).0 == Kind::Dir && found[i].1.dev == root_dev
                ==> picked(found, root_dev, Visit::Descend).contains(found[i].1),
        forall|e: Entry| #[trigger]
            picked(found, root_dev, Visit::File).contains(e) ==> found.contains((Kind::File, e)),
        forall|e: Entry| #[trigger]
            picked(found, root_dev, Visit::Descend).contains(e) ==> e.dev == root_dev
                && found.contains((Kind::Dir, e)),
    decreases found.len(),
{
    if found.len() > 0 {
        let less = found.drop_last();
        let last = found[found.len() - 1];
        no_entry_is_lost(less, root_dev);
        let files = picked(found, root_dev, Visit::File);
        let dirs = picked(found, root_dev, Visit::Descend);
        let files0 = picked(less, root_dev, Visit::File);
        let dirs0 = picked(less, root_dev, Visit::Descend);
        assert forall|i: int| 0 <= i < found.len() && (#[trigger] found[i]).0 == Kind::File implies files.contains(
            found[i].1,
        ) by {
            if i < less.len() {
                assert(less[i] == found[i]);
                let j = choose|j: int| 0 <= j < files0.len() && files0[j] == found[i].1;
                assert(files[j] == found[i].1);
            } else {
                assert(files[files.len() - 1] == last.1);
            }
        }
        assert forall|i: int|
            0 <= i < found.len() && (#[trigger] found[i]).0 == Kind::Dir && found[i].1.dev
                == root_dev implies dirs.contains(found[i].1) by {
            if i < less.len() {
                assert(less[i] == found[i]);
                let j = choose|j: int| 0 <= j < dirs0.len() && dirs0[j] == found[i].1;
                assert(dirs[j] == found[i].1);
            } else {
                assert(dirs[dirs.len() - 1] == last.1);
            }
        }
        assert forall|e: Entry| #[trigger] files.contains(e) implies found.contains((Kind::File, e)) by {
            let j = choose|j: int| 0 <= j < files.len() && files[j] == e;
            if j < files0.len() {
                assert(files0[j] == e);
                assert(files0.contains(e));
                let i = choose|i: int| 0 <= i < less.len() && less[i] == (Kind::File, e);
                assert(found[i] == (Kind::File, e));
            } else {
                assert(found[found.len() - 1] == (Kind::File, e));
            }
        }
        assert forall|e: Entry| #[trigger] dirs.contains(e) implies e.dev == root_dev
            && found.contains((Kind::Dir, e)) by {
            let j = choose|j: int| 0 <= j < dirs.len() && dirs[j] == e;
            if j < dirs0.len() {
                assert(dirs0[j] == e);
                assert(dirs0.contains(e));
                let i = choose|i: int| 0 <= i < less.len() && less[i] == (Kind::Dir, e);
                assert(found[i] == (Kind::Dir, e));
            } else {
                assert(found[found.len() - 1] == (Kind::Dir, e));
            }
        }
    }
}

/// The number of a file gives back its device and its number there.
pub proof fn inodes_say_device_and_number(dev: u64, ino: u64)
    ensures
        inode(dev, ino) / 0x1_0000_0000_0000_0000u128 == dev,
        inode(dev, ino) % 0x1_0000_0000_0000_0000u128 == ino,
{
}

/// One more entry is taken exactly if it is on the dataset, is not left out, and
/// is not another name of a file with several names that was taken before or
/// stands earlier in the list; what was taken stays, in order.
pub proof fn each_file_is_taken(entries: Seq<Entry>, e: Entry, rules: Rules, seen: Set<u128>)
    ensures
        taken(Seq::<Entry>::empty(), rules, seen) == Seq::<Entry>::empty(),
        ({
            let wanted = e.dev == rules.root_dev && !rules.exclude.contains(inode(e.dev, e.ino));
            let alias = e.nlink > 1 && (seen.contains(inode(e.dev, e.ino)) || exists|i: int|
                0 <= i < entries.len() && (#[trigger] entries[i]).nlink > 1 && entries[i].dev == e.dev
                    && entries[i].ino == e.ino);
            taken(entries.push(e), rules, seen) == if wanted && !alias {
                taken(entries, rules, seen).push(e)
            } else {
                taken(entries, rules, seen)
            }
        }),
{
    let all = entries.push(e);
    assert(all.drop_last() =~= entries);
    assert(all.last() == e);
    if e.in_scope(rules) {
        several_names_are_remembered(entries, rules, seen, e.inode());
        if exists|i: int|
            0 <= i < entries.len() && (#[trigger] entries[i]).nlink > 1 && entries[i].dev == e.dev
                && entries[i].ino == e.ino {
            let i = choose|i: int|
                0 <= i < entries.len() && (#[trigger] entries[i]).nlink > 1 && entries[i].dev == e.dev
                    && entries[i].ino == e.ino;
            assert(entries[i].inode() == e.inode());
        }
        if seen_after(entries, rules, seen).contains(e.inode()) && !seen.contains(e.inode()) {
            let i = choose|i: int|
                0 <= i < entries.len() && (#[trigger] entries[i]).nlink > 1 && entries[i].dev
                    == rules.root_dev && inode(entries[i].dev, entries[i].ino) == e.inode();
            inodes_differ(entries[i].dev, entries[i].ino, e.dev, e.ino);
        }
    }
}

/// Remembered are the files with several names that were remembered before, and
/// those on the dataset that are listed and not left out; no others.
pub proof fn several_names_are_remembered(
    entries: Seq<Entry>,
    rules: Rules,
    seen: Set<u128>,
    key: u128,
)
    ensures
        seen_after(entries, rules, seen).contains(key) <==> seen.contains(key) || (
        !rules.exclude.contains(key) && exists|i: int|
            0 <= i < entries.len() && (#[trigger] entries[i]).nlink > 1 && entries[i].dev
                == rules.root_dev && inode(entries[i].dev, entries[i].ino) == key),
    decreases entries.len(),
{
    if entries.len() > 0 {
        let less = entries.drop_last();
        let last = entries[entries.len() - 1];
        several_names_are_remembered(less, rules, seen, key);
        if exists|i: int|
            0 <= i < less.len() && (#[trigger] less[i]).nlink > 1 && less[i].dev == rules.root_dev
                && inode(less[i].dev, less[i].ino) == key {
            let i = choose|i: int|
                0 <= i < less.len() && (#[trigger] less[i]).nlink > 1 && less[i].dev == rules.root_dev
                    && inode(less[i].dev, less[i].ino) == key;
            assert(entries[i] == less[i]);
        }
        if exists|i: int|
            0 <= i < entries.len() && (#[trigger] entries[i]).nlink > 1 && entries[i].dev
                == rules.root_dev && inode(entries[i].dev, entries[i].ino) == key {
            let i = choose|i: int|
                0 <= i < entries.len() && (#[trigger] entries[i]).nlink > 1 && entries[i].dev
                    == rules.root_dev && inode(entries[i].dev, entries[i].ino) == key;
            if i < less.len() {
                assert(less[i] == entries[i]);
            }
        }
        if last.in_scope(rules) && last.nlink > 1 && last.inode() == key {
            assert(entries[entries.len() - 1].nlink > 1);
        }
    }
}

/// A file with one name is taken whatever was taken before.
pub proof fn single_names_are_always_taken(
    entries: Seq<Entry>,
    rules: Rules,
    seen: Set<u128>,
    i: int,
)
    requires
        0 <= i < entries.len(),
        entries[i].nlink <= 1,
        entries[i].dev == rules.root_dev,
        !rules.exclude.contains(inode(entries[i].dev, entries[i].ino)),
    ensures
        taken(entries, rules, seen).contains(entries[i]),
    decreases entries.len(),
{
    let less = entries.drop_last();
    let all = taken(entries, rules, seen);
    if i < less.len() {
        assert(less[i] == entries[i]);
        single_names_are_always_taken(less, rules, seen, i);
        let rest = taken(less, rules, seen);
        let j = choose|j: int| 0 <= j < rest.len() && rest[j] == entries[i];
        assert(all[j] == entries[i]);
    } else {
        assert(all[all.len() - 1] == entries[i]);
    }
}

/// Files are stored one after the other, each by its own name in the directory.
pub proof fn pushes_follow_each_other(
    t: table::TableModel,
    m: path::Route,
    files: Seq<Entry>,
    e: Entry,
)
    ensures
        after_pushes(t, m, Seq::empty()) == t,
        after_pushes(t, m, files.push(e)) == table::pushed(after_pushes(t, m, files), m, e.name@),
{
    assert(files.push(e).drop_last() =~= files);
}

/// What was taken comes after what was there, each file with the tag and the path
/// of its name in the directory; the files before keep theirs.
pub proof fn files_are_taken_with_their_paths(
    now: Paths<u64>,
    first: Paths<u64>,
    m: path::Route,
    files: Seq<Entry>,
    fsid: u64,
)
    requires
        now.took(first, m, files, fsid),
    ensures
        now.files@.len() == first.files@.len() + files.len(),
        now.files@.subrange(0, first.files@.len() as int) == first.files@,
        forall|i: int|
            0 <= i < first.files@.len() ==> (#[trigger] now.files@[i]).0.path_in(now.table.model())
                == first.files@[i].0.path_in(first.table.model()),
        forall|i: int|
            0 <= i < files.len() ==> {
                let f = #[trigger] now.files@[first.files@.len() + i];
                &&& f.1 == fsid
                &&& f.0.path_in(now.table.model()) == path::extended(
                    path::written(m),
                    files[i].name@,
                )
                &&& f.0.lies_in(now.table.model())
            },
{
    let n = first.files@.len();
    assert forall|i: int| 0 <= i < n implies now.files@[i] == first.files@[i] && (
    #[trigger] now.files@[i]).0.path_in(now.table.model()) == first.files@[i].0.path_in(
        first.table.model(),
    ) by {}
    assert(now.files@.subrange(0, n as int) =~= first.files@);
}

/// What is kept is kept in place, with its tag and path.
pub proof fn kept_files_stay(now: Paths<u64>, first: Paths<u64>)
    requires
        now.keeps(first),
    ensures
        first.files@.len() <= now.files@.len(),
        forall|i: int|
            0 <= i < first.files@.len() ==> {
                let f = #[trigger] now.files@[i];
                &&& f == first.files@[i]
                &&& f.0.path_in(now.table.model()) == f.0.path_in(first.table.model())
            },
{
}

/// The pools of a report are those of all its lines, in order: each line that has
/// a tab gives the name before the first one, and the rest of it says whether the
/// feature is active or enabled.
pub proof fn lines_name_pools(lines: Seq<Seq<u8>>, cloneable: bool)
    ensures
        pools_of(lines, cloneable) == lines.filter_map(
            |line: Seq<u8>|
                match text::cut(line, seq![0x09u8]) {
                    Some((name, state)) => if (state == "active".spec_bytes() || state
                        == "enabled".spec_bytes()) == cloneable {
                        Some(name)
                    } else {
                        None
                    },
                    None => None,
                },
        ),
    decreases lines.len(),
{
    let keep = |line: Seq<u8>|
        match text::cut(line, seq![0x09u8]) {
            Some((name, state)) => if (state == "active".spec_bytes() || state
                == "enabled".spec_bytes()) == cloneable {
                Some(name)
            } else {
                None
            },
            None => None,
        };
    if lines.len() > 0 {
        lines_name_pools(lines.drop_last(), cloneable);
        let rest = lines.drop_last().filter_map(keep);
        match keep(lines.last()) {
            Some(name) => {
                assert(rest.push(name) =~= rest + seq![name]);
            },
            None => {},
        }
    }
    assert(pools_of(lines, cloneable) =~= lines.filter_map(keep));
}

/// Each line with a tab names one pool, which either lets blocks be cloned or is
/// skipped.
pub proof fn pools_are_cloneable_or_skipped(lines: Seq<Seq<u8>>)
    ensures
        pools_of(lines, true).len() + pools_of(lines, false).len() == lines.filter(
            |line: Seq<u8>| text::cut(line, seq![0x09u8]) is Some,
        ).len(),
    decreases lines.len(),
{
    reveal(Seq::filter);
    if lines.len() > 0 {
        pools_are_cloneable_or_skipped(lines.drop_last());
    }
}

/// A list holds names exactly if its items, taken as bytes, are they.
pub proof fn held_names_are_the_items(list: Seq<Vec<u8>>, names: Seq<Seq<u8>>)
    ensures
        holds_names(list, names) <==> list.map_values(|v: Vec<u8>| v@) == names,
{
    if holds_names(list, names) {
        assert(list.map_values(|v: Vec<u8>| v@) =~= names);
    }
    if list.map_values(|v: Vec<u8>| v@) == names {
        assert forall|i: int| 0 <= i < list.len() implies (#[trigger] list[i])@ == names[i] by {
            assert(list.map_values(|v: Vec<u8>| v@)[i] == names[i]);
        }
    }
}

/// A name is listed exactly if it is among the items, taken as bytes.
pub proof fn listed_names_are_items(list: Seq<Vec<u8>>, name: Seq<u8>)
    ensures
        lists(list, name) <==> list.map_values(|v: Vec<u8>| v@).contains(name),
{
    let all = list.map_values(|v: Vec<u8>| v@);
    if lists(list, name) {
        let i = choose|i: int| 0 <= i < list.len() && (#[trigger] list[i])@ == name;
        assert(all[i] == name);
    }
    if all.contains(name) {
        let i = choose|i: int| 0 <= i < all.len() && all[i] == name;
        assert(list[i]@ == name);
    }
}

/// The pool of a dataset is what comes before the first slash of its name, or the
/// whole name.
pub proof fn pools_come_first(source: Seq<u8>)
    ensures
        ({
            let pool = pool_of(source);
            &&& !pool.contains(0x2fu8)
            &&& pool.len() <= source.len()
            &&& pool == source.subrange(0, pool.len() as int)
            &&& pool.len() < source.len() ==> source[pool.len() as int] == 0x2f
        }),
{
    text::first_piece_ends_at_separator(source, path::SLASH);
}

/// A mount counts as a dataset exactly if it is a ZFS file system, shows the root
/// of it, and is in one of the pools.
pub proof fn dataset_roots_count(f: remount::Fields, pools: Seq<Vec<u8>>)
    ensures
        is_dataset(f, pools) <==> f.fstype == "zfs".spec_bytes() && path::route(
            remount::unescaped(f.root),
        ).rooted && path::route(remount::unescaped(f.root)).names.len() == 0 && exists|i: int|
            0 <= i < pools.len() && (#[trigger] pools[i])@ == pool_of(f.source),
{
    let m = path::route(remount::unescaped(f.root));
    if m.names.len() == 0 {
        assert(m.names =~= Seq::<Seq<u8>>::empty());
    }
}

/// Batch `i` holds the files from `i` batches on, a full batch of them or what is
/// left.
pub proof fn batches_are_full<A>(files: Seq<A>, batch: nat)
    requires
        batch > 0,
    ensures
        files.len() <= batches(files, batch).len() * batch < files.len() + batch,
        forall|i: int|
            0 <= i < batches(files, batch).len() ==> #[trigger] batches(files, batch)[i]
                == files.subrange(
                i * batch,
                vstd::math::min(i * batch + batch, files.len() as int),
            ),
    decreases files.len(),
{
    let all = batches(files, batch);
    if files.len() > 0 {
        let n = vstd::math::min(batch as int, files.len() as int);
        let rest = files.subrange(n, files.len() as int);
        let tail = batches(rest, batch);
        batches_are_full(rest, batch);
        assert(all == seq![files.subrange(0, n)] + tail);
        assert((tail.len() + 1) * batch == tail.len() * batch + batch) by (nonlinear_arith);
        if batch >= files.len() {
            assert(rest.len() == 0);
        }
        assert forall|i: int| 0 <= i < all.len() implies #[trigger] all[i] == files.subrange(
            i * batch,
            vstd::math::min(i * batch + batch, files.len() as int),
        ) by {
            if i > 0 {
                assert(all[i] == tail[i - 1]);
                assert(i * batch == (i - 1) * batch + batch) by (nonlinear_arith);
                assert((i - 1) * batch >= 0) by (nonlinear_arith)
                    requires
                        i >= 1,
                ;
                assert(i * batch <= (tail.len()) * batch) by (nonlinear_arith)
                    requires
                        i <= tail.len(),
                ;
                assert(tail[i - 1] =~= files.subrange(
                    i * batch,
                    vstd::math::min(i * batch + batch, files.len() as int),
                ));
            }
        }
    } else {
        assert(0 * batch == 0) by (nonlinear_arith);
    }
}

/// Batches of no files hold nothing.
pub proof fn empty_batches_hold_nothing<A>(files: Seq<A>)
    ensures
        batches(files, 0).len() == 0,
{
}

/// What the answers hold grows by each good one, at its end.
pub proof fn answers_are_joined<U, E>(
    replies: Seq<Result<Vec<(FilePath, U)>, E>>,
    reply: Result<Vec<(FilePath, U)>, E>,
)
    ensures
        joined(Seq::<Result<Vec<(FilePath, U)>, E>>::empty()).len() == 0,
        joined(replies.push(reply)) == match reply {
            Ok(v) => joined(replies) + v@,
            Err(_) => joined(replies),
        },
{
    assert(replies.push(reply).drop_last() =~= replies);
}

/// A file is kept exactly if it has an answer, under its path and with that
/// answer; the order stays.
pub proof fn answered_files_are_kept<T, U>(
    files: Seq<(FilePath, T)>,
    replies: Seq<Option<U>>,
    file: (FilePath, T),
    reply: Option<U>,
)
    requires
        files.len() == replies.len(),
    ensures
        answered(Seq::<(FilePath, T)>::empty(), Seq::<Option<U>>::empty()).len() == 0,
        answered(files.push(file), replies.push(reply)) == match reply {
            Some(u) => answered(files, replies).push((file.0, u)),
            None => answered(files, replies),
        },
{
    assert(replies.push(reply).drop_last() =~= replies);
    assert(files.push(file).drop_last() =~= files);
}

/// Batches are handed out in order and whole, up to the first error.
pub proof fn batches_are_answered_in_order<
    T,
    U,
    E,
    F: FnMut(&PathTable, Vec<(FilePath, T)>) -> Result<Vec<(FilePath, U)>, E>,
>(
    step: F,
    table: PathTable,
    all: Seq<Seq<(FilePath, T)>>,
    replies: Seq<Result<Vec<(FilePath, U)>, E>>,
    i: int,
)
    requires
        ran(step, table, all, replies),
        0 <= i < replies.len(),
    ensures
        i < all.len(),
        exists|chunk: Vec<(FilePath, T)>|
            chunk@ == all[i] && #[trigger] step.ensures((&table, chunk), replies[i]),
        replies[i] is Err ==> i == replies.len() - 1,
{
    assert(answers(step, table, all[i], replies[i]));
}

/// A path is stored as the directory that it is in and its name there; what names
/// no file, such as a path that ends in `..`, is stored without a name.
pub proof fn paths_are_stored_by_directory(m: path::Route)
    ensures
        m.names.len() > 0 ==> stored_dir(m).rooted == m.rooted && stored_dir(m).names
            == m.names.drop_last(),
        m.names.len() > 0 && m.names.last() != seq![0x2eu8] && m.names.last() != seq![0x2eu8, 0x2e]
            ==> stored_name(m) == m.names.last(),
        m.names.len() > 0 && (m.names.last() == seq![0x2eu8] || m.names.last() == seq![0x2eu8, 0x2e])
            ==> stored_name(m).len() == 0,
        m.names.len() == 0 ==> stored_name(m).len() == 0 && stored_dir(m).names.len() == 0
            && !stored_dir(m).rooted,
{
}

/// A list is stored path by path.
pub proof fn lists_are_stored_in_order<T>(list: Seq<(Vec<u8>, T)>, item: (Vec<u8>, T))
    ensures
        collected(Seq::<(Vec<u8>, T)>::empty()) == table::empty_table(),
        collected(list.push(item)) == table::pushed(
            collected(list),
            stored_dir(path::route(item.0@)),
            stored_name(path::route(item.0@)),
        ),
{
    assert(list.push(item).drop_last() =~= list);
}

/// Files that were found have their places in the table.
pub proof fn files_lie_in_their_table<T>(p: Paths<T>, i: int)
    requires
        p.wf(),
        0 <= i < p.files@.len(),
    ensures
        p.table.wf(),
        p.files@[i].0.lies_in(p.table.model()),
{
}

} // verus!
