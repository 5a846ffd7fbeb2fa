//! The command line.

use crate::path;
use crate::text;
use vstd::prelude::*;
use vstd::string::*;

verus! {

/// Where the cache is kept by default: under the user's cache directory `xdg`,
/// or `.cache` in their home directory, or the system's cache.
pub open spec fn cache_path(xdg: Option<Seq<u8>>, home: Option<Seq<u8>>) -> Seq<u8> {
    let base = match (xdg, home) {
        (Some(x), _) => x,
        (None, Some(h)) => path::extended(h, ".cache".spec_bytes()),
        (None, None) => "/var/cache".spec_bytes(),
    };
    path::extended(path::extended(base, "zfs-dedup".spec_bytes()), "cache.redb".spec_bytes())
}

/// The bytes of a value that may be missing.
pub open spec fn bytes_of(v: Option<Vec<u8>>) -> Option<Seq<u8>> {
    match v {
        Some(v) => Some(v@),
        None => None,
    }
}

/// Where the cache is kept by default.
pub fn default_cache(xdg: Option<Vec<u8>>, home: Option<Vec<u8>>) -> (r: Vec<u8>)
    ensures
        r@ == cache_path(bytes_of(xdg), bytes_of(home)),
{
    let mut base: Vec<u8> = match xdg {
        Some(x) => x,
        None => match home {
            Some(h) => {
                let mut h = h;
                path::extend(&mut h, ".cache".as_bytes());
                h
            },
            None => text::copy("/var/cache".as_bytes()),
        },
    };
    path::extend(&mut base, "zfs-dedup".as_bytes());
    path::extend(&mut base, "cache.redb".as_bytes());
    base
}

/// What the command line asks for.
#[derive(Debug)]
pub struct Args {
    pub cache: Vec<u8>,
    pub dry_run: bool,
    pub jobs: Option<usize>,
    pub force: bool,
    pub dirs: Vec<Vec<u8>>,
}

/// One argument.
pub enum Arg<'a> {
    /// An option of one letter.
    Short(char),
    /// An option of one word.
    Long(&'a str),
    /// An argument that is no option.
    Value(Vec<u8>),
}

/// The options.
#[derive(Debug, Clone, Copy, PartialEq, Eq, Structural)]
pub enum Flag {
    Cache,
    DryRun,
    Jobs,
    Force,
    Help,
    Version,
}

/// The letter and the word of an option.
pub open spec fn spelling(f: Flag) -> (char, Seq<u8>) {
    match f {
        Flag::Cache => ('c', "cache".spec_bytes()),
        Flag::DryRun => ('n', "dry-run".spec_bytes()),
        Flag::Jobs => ('j', "jobs".spec_bytes()),
        Flag::Force => ('f', "force".spec_bytes()),
        Flag::Help => ('h', "help".spec_bytes()),
        Flag::Version => ('V', "version".spec_bytes()),
    }
}

impl<'a> Arg<'a> {
    /// Whether the argument is the option `f`.
    pub open spec fn spells(self, f: Flag) -> bool {
        match self {
            Arg::Short(c) => c == spelling(f).0,
            Arg::Long(w) => w.spec_bytes() == spelling(f).1,
            Arg::Value(_) => false,
        }
    }

    /// The option that the argument is.
    pub fn flag(&self) -> (r: Option<Flag>)
        ensures
            match r {
                Some(f) => self.spells(f),
                None => forall|f: Flag| !(#[trigger] self.spells(f)),
            },
    {
        if self.is_option('c', "cache") {
            Some(Flag::Cache)
        } else if self.is_option('n', "dry-run") {
            Some(Flag::DryRun)
        } else if self.is_option('j', "jobs") {
            Some(Flag::Jobs)
        } else if self.is_option('f', "force") {
            Some(Flag::Force)
        } else if self.is_option('h', "help") {
            Some(Flag::Help)
        } else if self.is_option('V', "version") {
            Some(Flag::Version)
        } else {
            None
        }
    }

    fn is_option(&self, letter: char, word: &str) -> (r: bool)
        ensures
            r == match *self {
                Arg::Short(c) => c == letter,
                Arg::Long(w) => w.spec_bytes() == word.spec_bytes(),
                Arg::Value(_) => false,
            },
    {
        match self {
            Arg::Short(c) => *c == letter,
            Arg::Long(w) => text::is_word(w.as_bytes(), word),
            Arg::Value(_) => false,
        }
    }
}

/// No argument is two options.
pub proof fn spellings_differ(a: Arg<'_>, f: Flag, g: Flag)
    requires
        a.spells(f),
        a.spells(g),
    ensures
        f == g,
{
    broadcast use is_ascii_spec_bytes;

    reveal_strlit("cache");
    reveal_strlit("dry-run");
    reveal_strlit("jobs");
    reveal_strlit("force");
    reveal_strlit("help");
    reveal_strlit("version");
    assert(is_ascii("cache"));
    assert(is_ascii("dry-run"));
    assert(is_ascii("jobs"));
    assert(is_ascii("force"));
    assert(is_ascii("help"));
    assert(is_ascii("version"));
    assert("cache".spec_bytes()[0] != "force".spec_bytes()[0]);
    assert("dry-run".spec_bytes()[0] != "version".spec_bytes()[0]);
    assert("jobs".spec_bytes()[0] != "help".spec_bytes()[0]);
}

/// What an argument asks for.
#[derive(Debug, Clone, Copy, PartialEq, Eq, Structural)]
pub enum Next {
    /// The next argument.
    Go,
    /// The path of the cache.
    CachePath,
    /// The number of threads.
    NumJobs,
    /// The usage, and no run.
    ShowUsage,
    /// The version, and no run.
    ShowVersion,
    /// It is no option that there is.
    Unexpected,
}

/// What an argument asks for.
pub open spec fn next_after(a: Arg<'_>) -> Next {
    if a.spells(Flag::Cache) {
        Next::CachePath
    } else if a.spells(Flag::Jobs) {
        Next::NumJobs
    } else if a.spells(Flag::Help) {
        Next::ShowUsage
    } else if a.spells(Flag::Version) {
        Next::ShowVersion
    } else if a.spells(Flag::DryRun) || a.spells(Flag::Force) || a is Value {
        Next::Go
    } else {
        Next::Unexpected
    }
}

impl Args {
    /// What is asked for with no argument.
    pub fn new(cache: Vec<u8>) -> (r: Args)
        ensures
            r.cache == cache,
            !r.dry_run,
            r.jobs is None,
            !r.force,
            r.dirs@ == Seq::<Vec<u8>>::empty(),
    {
        Args { cache, dry_run: false, jobs: None, force: false, dirs: Vec::new() }
    }

    /// Takes one argument.
    pub fn take(&mut self, a: Arg<'_>) -> (next: Next)
        ensures
            next == next_after(a),
            final(self).cache == old(self).cache,
            final(self).jobs == old(self).jobs,
            final(self).dry_run == (old(self).dry_run || a.spells(Flag::DryRun)),
            final(self).force == (old(self).force || a.spells(Flag::Force)),
            final(self).dirs@ == match a {
                Arg::Value(v) => old(self).dirs@.push(v),
                _ => old(self).dirs@,
            },
    {
        let flag = a.flag();
        proof {
            assert forall|f: Flag, g: Flag| #[trigger] a.spells(f) && #[trigger] a.spells(g) implies f
                == g by {
                spellings_differ(a, f, g);
            }
        }
        match flag {
            Some(Flag::Cache) => Next::CachePath,
            Some(Flag::Jobs) => Next::NumJobs,
            Some(Flag::Help) => Next::ShowUsage,
            Some(Flag::Version) => Next::ShowVersion,
            Some(Flag::DryRun) => {
                self.dry_run = true;
                Next::Go
            },
            Some(Flag::Force) => {
                self.force = true;
                Next::Go
            },
            None => match a {
                Arg::Value(v) => {
                    self.dirs.push(v);
                    Next::Go
                },
                _ => Next::Unexpected,
            },
        }
    }
}

/// The cache is kept in the user's cache directory, else in that of the home
/// directory, else in that of the system; always under the name of the program.
pub proof fn caches_have_their_place(xdg: Option<Seq<u8>>, home: Option<Seq<u8>>, x: Seq<u8>)
    ensures
        ({
            let placed = |base: Seq<u8>|
                path::extended(
                    path::extended(base, "zfs-dedup".spec_bytes()),
                    "cache.redb".spec_bytes(),
                );
            &&& cache_path(Some(x), home) == placed(x)
            &&& cache_path(None, Some(x)) == placed(path::extended(x, ".cache".spec_bytes()))
            &&& cache_path(None, None) == placed("/var/cache".spec_bytes())
        }),
{
}

/// What an argument asks for is decided by its letter or its word; what is no
/// option is always taken, and an option that there is not is refused.
pub proof fn letters_and_words_decide(a: Arg<'_>)
    ensures
        match a {
            Arg::Value(_) => next_after(a) == Next::Go && forall|f: Flag| !(#[trigger] a.spells(f)),
            Arg::Short(c) => {
                &&& a.spells(Flag::DryRun) <==> c == 'n'
                &&& a.spells(Flag::Force) <==> c == 'f'
                &&& next_after(a) == if c == 'c' {
                    Next::CachePath
                } else if c == 'j' {
                    Next::NumJobs
                } else if c == 'h' {
                    Next::ShowUsage
                } else if c == 'V' {
                    Next::ShowVersion
                } else if c == 'n' || c == 'f' {
                    Next::Go
                } else {
                    Next::Unexpected
                }
            },
            Arg::Long(w) => {
                let word = w.spec_bytes();
                &&& a.spells(Flag::DryRun) <==> word == "dry-run".spec_bytes()
                &&& a.spells(Flag::Force) <==> word == "force".spec_bytes()
                &&& next_after(a) == if word == "cache".spec_bytes() {
                    Next::CachePath
                } else if word == "jobs".spec_bytes() {
                    Next::NumJobs
                } else if word == "help".spec_bytes() {
                    Next::ShowUsage
                } else if word == "version".spec_bytes() {
                    Next::ShowVersion
                } else if word == "dry-run".spec_bytes() || word == "force".spec_bytes() {
                    Next::Go
                } else {
                    Next::Unexpected
                }
            },
        },
{
}

/// A value that is there counts, whatever its bytes.
pub proof fn values_count_if_there(v: Vec<u8>)
    ensures
        bytes_of(Some(v)) == Some(v@),
        bytes_of(None) is None,
{
}

} // verus!
