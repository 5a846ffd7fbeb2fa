//! Mounts as the kernel lists them, and which of them to remount writable.
//!
//! Some systems bind-mount a tree read-only over a writable dataset. Inside a
//! private mount namespace such a bind can be remounted writable without the
//! host noticing.

use crate::path;
use crate::text;
use vstd::prelude::*;
use vstd::string::*;

verus! {

/// What introduces an octal escape.
pub const BACKSLASH: u8 = 0x5c;

pub const SPACE: u8 = 0x20;

pub const COMMA: u8 = 0x2c;

/// The byte that three octal digits stand for.
pub open spec fn octal(a: u8, b: u8, c: u8) -> u8 {
    (((a - 0x30) * 64 + (b - 0x30) * 8 + (c - 0x30)) % 256) as u8
}

/// `s` with each octal escape replaced by its byte. Where a backslash is not
/// followed by three bytes, it ends the result.
pub open spec fn unescaped(s: Seq<u8>) -> Seq<u8>
    decreases s.len(),
{
    if s.len() == 0 {
        Seq::empty()
    } else if s[0] != BACKSLASH {
        seq![s[0]] + unescaped(s.drop_first())
    } else if s.len() >= 4 {
        seq![octal(s[1], s[2], s[3])] + unescaped(s.subrange(4, s.len() as int))
    } else {
        seq![BACKSLASH]
    }
}

/// `s` with its octal escapes resolved.
pub fn unescape(s: &[u8]) -> (r: Vec<u8>)
    ensures
        r@ == unescaped(s@),
{
    let n: usize = s.len();
    let mut out: Vec<u8> = Vec::new();
    let mut i: usize = 0;
    assert(s@.subrange(0, n as int) =~= s@);
    while i < n
        invariant
            i <= n,
            n == s@.len(),
            out@ + unescaped(s@.subrange(i as int, n as int)) == unescaped(s@),
        decreases n - i,
    {
        let ghost rest = s@.subrange(i as int, n as int);
        let ghost done = out@;
        if s[i] != BACKSLASH {
            out.push(s[i]);
            assert(rest.drop_first() =~= s@.subrange(i + 1, n as int));
            assert(out@ + unescaped(rest.drop_first()) =~= done + unescaped(rest));
            i = i + 1;
        } else if n - i >= 4 {
            // 208 is -'0' modulo 256.
            let v: u32 = (s[i + 1] as u32 + 208) * 64 + (s[i + 2] as u32 + 208) * 8 + (s[i + 3] as u32
                + 208);
            let byte: u8 = (v % 256) as u8;
            assert(byte == octal(rest[1], rest[2], rest[3]));
            out.push(byte);
            assert(rest.subrange(4, rest.len() as int) =~= s@.subrange(i + 4, n as int));
            assert(out@ + unescaped(rest.subrange(4, rest.len() as int)) =~= done + unescaped(rest));
            i = i + 4;
        } else {
            out.push(BACKSLASH);
            assert(out@ =~= done + unescaped(rest));
            return out;
        }
    }
    assert(out@ + unescaped(s@.subrange(n as int, n as int)) =~= out@);
    out
}

/// `b` as the kernel writes it in a list of mounts.
pub open spec fn escape(b: u8) -> Seq<u8> {
    if b == SPACE || b == 0x09 || b == 0x0a || b == BACKSLASH {
        seq![BACKSLASH, (0x30 + b / 64) as u8, (0x30 + b / 8 % 8) as u8, (0x30 + b % 8) as u8]
    } else {
        seq![b]
    }
}

/// `s` as the kernel writes it in a list of mounts.
pub open spec fn escaped(s: Seq<u8>) -> Seq<u8>
    decreases s.len(),
{
    if s.len() == 0 {
        Seq::empty()
    } else {
        escape(s[0]) + escaped(s.drop_first())
    }
}

/// Any path comes back from the form in which the kernel lists it.
pub proof fn unescaped_undoes_escaped(s: Seq<u8>)
    ensures
        unescaped(escaped(s)) == s,
    decreases s.len(),
{
    if s.len() > 0 {
        let rest = escaped(s.drop_first());
        unescaped_undoes_escaped(s.drop_first());
        let e = escaped(s);
        if escape(s[0]).len() == 4 {
            assert(e.subrange(4, e.len() as int) =~= rest);
            assert(octal(e[1], e[2], e[3]) == s[0]);
        } else {
            assert(e.drop_first() =~= rest);
        }
        assert(seq![s[0]] + s.drop_first() =~= s);
    }
}

/// A flag of a mount that a remount has to keep: the kernel refuses to drop
/// the ones that restrict.
#[derive(Debug, Clone, Copy, PartialEq, Eq, Structural)]
pub enum MountFlag {
    Nosuid,
    Nodev,
    Noexec,
    Noatime,
    Nodiratime,
    Relatime,
    Strictatime,
    Sync,
    Dirsync,
    Lazytime,
}

/// The option that sets a flag.
pub open spec fn word(f: MountFlag) -> Seq<u8> {
    match f {
        MountFlag::Nosuid => "nosuid".spec_bytes(),
        MountFlag::Nodev => "nodev".spec_bytes(),
        MountFlag::Noexec => "noexec".spec_bytes(),
        MountFlag::Noatime => "noatime".spec_bytes(),
        MountFlag::Nodiratime => "nodiratime".spec_bytes(),
        MountFlag::Relatime => "relatime".spec_bytes(),
        MountFlag::Strictatime => "strictatime".spec_bytes(),
        MountFlag::Sync => "sync".spec_bytes(),
        MountFlag::Dirsync => "dirsync".spec_bytes(),
        MountFlag::Lazytime => "lazytime".spec_bytes(),
    }
}

/// No option sets two flags.
pub proof fn words_differ(f: MountFlag, g: MountFlag)
    requires
        f != g,
    ensures
        word(f) != word(g),
{
    broadcast use is_ascii_spec_bytes;

    reveal_strlit("nosuid");
    reveal_strlit("nodev");
    reveal_strlit("noexec");
    reveal_strlit("noatime");
    reveal_strlit("nodiratime");
    reveal_strlit("relatime");
    reveal_strlit("strictatime");
    reveal_strlit("sync");
    reveal_strlit("dirsync");
    reveal_strlit("lazytime");
    assert(is_ascii("nosuid"));
    assert(is_ascii("nodev"));
    assert(is_ascii("noexec"));
    assert(is_ascii("noatime"));
    assert(is_ascii("nodiratime"));
    assert(is_ascii("relatime"));
    assert(is_ascii("strictatime"));
    assert(is_ascii("sync"));
    assert(is_ascii("dirsync"));
    assert(is_ascii("lazytime"));
    assert("nosuid".spec_bytes()[2] != "noexec".spec_bytes()[2]);
    assert("noatime".spec_bytes()[0] != "dirsync".spec_bytes()[0]);
    assert("relatime".spec_bytes()[0] != "lazytime".spec_bytes()[0]);
}

/// The flag that the option `opt` sets.
pub fn opt_flag(opt: &[u8]) -> (r: Option<MountFlag>)
    ensures
        match r {
            Some(f) => opt@ == word(f),
            None => forall|f: MountFlag| opt@ != #[trigger] word(f),
        },
{
    if text::is_word(opt, "nosuid") {
        Some(MountFlag::Nosuid)
    } else if text::is_word(opt, "nodev") {
        Some(MountFlag::Nodev)
    } else if text::is_word(opt, "noexec") {
        Some(MountFlag::Noexec)
    } else if text::is_word(opt, "noatime") {
        Some(MountFlag::Noatime)
    } else if text::is_word(opt, "nodiratime") {
        Some(MountFlag::Nodiratime)
    } else if text::is_word(opt, "relatime") {
        Some(MountFlag::Relatime)
    } else if text::is_word(opt, "strictatime") {
        Some(MountFlag::Strictatime)
    } else if text::is_word(opt, "sync") {
        Some(MountFlag::Sync)
    } else if text::is_word(opt, "dirsync") {
        Some(MountFlag::Dirsync)
    } else if text::is_word(opt, "lazytime") {
        Some(MountFlag::Lazytime)
    } else {
        None
    }
}

/// A set of flags.
#[derive(Debug, Clone, Copy, PartialEq, Eq, Structural)]
pub struct MountFlags {
    pub nosuid: bool,
    pub nodev: bool,
    pub noexec: bool,
    pub noatime: bool,
    pub nodiratime: bool,
    pub relatime: bool,
    pub strictatime: bool,
    pub sync: bool,
    pub dirsync: bool,
    pub lazytime: bool,
}

impl MountFlags {
    /// Whether the set holds `f`.
    pub open spec fn holds(self, f: MountFlag) -> bool {
        match f {
            MountFlag::Nosuid => self.nosuid,
            MountFlag::Nodev => self.nodev,
            MountFlag::Noexec => self.noexec,
            MountFlag::Noatime => self.noatime,
            MountFlag::Nodiratime => self.nodiratime,
            MountFlag::Relatime => self.relatime,
            MountFlag::Strictatime => self.strictatime,
            MountFlag::Sync => self.sync,
            MountFlag::Dirsync => self.dirsync,
            MountFlag::Lazytime => self.lazytime,
        }
    }

    /// No flag.
    pub fn empty() -> (r: MountFlags)
        ensures
            forall|f: MountFlag| !(#[trigger] r.holds(f)),
    {
        MountFlags {
            nosuid: false,
            nodev: false,
            noexec: false,
            noatime: false,
            nodiratime: false,
            relatime: false,
            strictatime: false,
            sync: false,
            dirsync: false,
            lazytime: false,
        }
    }

    /// Whether the set holds `f`.
    pub fn contains(&self, f: MountFlag) -> (r: bool)
        ensures
            r == self.holds(f),
    {
        match f {
            MountFlag::Nosuid => self.nosuid,
            MountFlag::Nodev => self.nodev,
            MountFlag::Noexec => self.noexec,
            MountFlag::Noatime => self.noatime,
            MountFlag::Nodiratime => self.nodiratime,
            MountFlag::Relatime => self.relatime,
            MountFlag::Strictatime => self.strictatime,
            MountFlag::Sync => self.sync,
            MountFlag::Dirsync => self.dirsync,
            MountFlag::Lazytime => self.lazytime,
        }
    }

    /// Adds `f`.
    pub fn insert(&mut self, f: MountFlag)
        ensures
            forall|g: MountFlag| #[trigger] final(self).holds(g) == (old(self).holds(g) || g == f),
    {
        match f {
            MountFlag::Nosuid => self.nosuid = true,
            MountFlag::Nodev => self.nodev = true,
            MountFlag::Noexec => self.noexec = true,
            MountFlag::Noatime => self.noatime = true,
            MountFlag::Nodiratime => self.nodiratime = true,
            MountFlag::Relatime => self.relatime = true,
            MountFlag::Strictatime => self.strictatime = true,
            MountFlag::Sync => self.sync = true,
            MountFlag::Dirsync => self.dirsync = true,
            MountFlag::Lazytime => self.lazytime = true,
        }
    }
}

/// A mount.
#[derive(Debug)]
pub struct Mount {
    pub point: Vec<u8>,
    /// The path within the mounted filesystem: `/` for a dataset's root, another
    /// one for the bind mount of a subtree.
    pub root: Vec<u8>,
    pub source: Vec<u8>,
    pub flags: MountFlags,
    pub ro: bool,
    pub super_rw: bool,
    pub fstype: Vec<u8>,
}

/// The fields of a line of the kernel's list of mounts that matter here.
pub struct Fields {
    pub root: Seq<u8>,
    pub point: Seq<u8>,
    pub opts: Seq<u8>,
    pub fstype: Seq<u8>,
    pub source: Seq<u8>,
    pub super_opts: Seq<u8>,
}

/// What stands between the fields of the mount and those of its filesystem.
pub open spec fn dash() -> Seq<u8> {
    seq![SPACE, 0x2d, SPACE]
}

/// The fields of `line`:
///
/// `id parent maj:min root point opts [optional...] - fstype source super-opts`
pub open spec fn fields(line: Seq<u8>) -> Option<Fields> {
    match text::cut(line, dash()) {
        None => None,
        Some((head, tail)) => {
            let h = text::pieces(head, SPACE);
            let t = text::pieces(tail, SPACE);
            if h.len() < 6 || t.len() < 3 {
                None
            } else {
                Some(
                    Fields {
                        root: h[3],
                        point: h[4],
                        opts: h[5],
                        fstype: t[0],
                        source: t[1],
                        super_opts: t[2],
                    },
                )
            }
        },
    }
}

impl Mount {
    /// Whether this is the mount that a line with the fields `f` lists.
    pub open spec fn is_of(self, f: Fields) -> bool {
        &&& self.point@ == unescaped(f.point)
        &&& self.root@ == unescaped(f.root)
        &&& self.source@ == f.source
        &&& self.fstype@ == f.fstype
        &&& forall|g: MountFlag| #[trigger]
            self.flags.holds(g) == text::has_piece(f.opts, COMMA, word(g))
        &&& self.ro == text::has_piece(f.opts, COMMA, "ro".spec_bytes())
        &&& self.super_rw == text::has_piece(f.super_opts, COMMA, "rw".spec_bytes())
    }
}

/// The flags that the options `opts` set.
fn flags_of(opts: &[u8]) -> (r: MountFlags)
    ensures
        forall|g: MountFlag| #[trigger] r.holds(g) == text::has_piece(opts@, COMMA, word(g)),
{
    let parts = text::split(opts, COMMA);
    let ghost want = text::pieces(opts@, COMMA);
    let mut flags = MountFlags::empty();
    let mut i: usize = 0;
    while i < parts.len()
        invariant
            i <= parts@.len(),
            text::are_pieces(parts@, want),
            forall|g: MountFlag| #[trigger]
                flags.holds(g) == want.subrange(0, i as int).contains(word(g)),
        decreases parts@.len() - i,
    {
        let ghost before = want.subrange(0, i as int);
        let ghost after = want.subrange(0, i + 1);
        let ghost had = flags;
        let part: &[u8] = parts[i];
        let flag = opt_flag(part);
        if let Some(f) = flag {
            flags.insert(f);
        }
        proof {
            assert(after =~= before.push(part@));
            assert forall|g: MountFlag| #[trigger] flags.holds(g) == after.contains(word(g)) by {
                let w = word(g);
                assert(had.holds(g) == before.contains(w));
                if part@ == w {
                    assert(after[i as int] == w);
                    if flag != Some(g) {
                        words_differ(flag->0, g);
                    }
                } else {
                    if before.contains(w) {
                        let j = choose|j: int| 0 <= j < before.len() && before[j] == w;
                        assert(after[j] == w);
                    }
                    if after.contains(w) {
                        let j = choose|j: int| 0 <= j < after.len() && after[j] == w;
                        assert(before[j] == w);
                    }
                }
            }
        }
        i = i + 1;
    }
    assert(want.subrange(0, want.len() as int) =~= want);
    flags
}

/// Whether `word` is one of the options in `opts`.
fn has_opt(opts: &[u8], word: &str) -> (r: bool)
    ensures
        r == text::has_piece(opts@, COMMA, word.spec_bytes()),
{
    let parts = text::split(opts, COMMA);
    let r = text::any_is(&parts, word);
    proof {
        let want = text::pieces(opts@, COMMA);
        if r {
            let i = choose|i: int|
                0 <= i < parts@.len() && (#[trigger] parts@[i])@ == word.spec_bytes();
            assert(want[i] == word.spec_bytes());
        } else if want.contains(word.spec_bytes()) {
            let i = choose|i: int| 0 <= i < want.len() && want[i] == word.spec_bytes();
            assert(parts@[i]@ == want[i]);
        }
    }
    r
}

/// The mount that `line` lists; `None` if the line lacks a field.
pub fn parse_mountinfo(line: &[u8]) -> (r: Option<Mount>)
    ensures
        match r {
            Some(m) => fields(line@) is Some && m.is_of(fields(line@)->0),
            None => fields(line@) is None,
        },
{
    let pat: [u8; 3] = [SPACE, 0x2d, SPACE];
    assert(pat@ =~= dash());
    match text::split_once(line, &pat) {
        None => None,
        Some((head, tail)) => {
            let h = text::split(head, SPACE);
            let t = text::split(tail, SPACE);
            if h.len() < 6 || t.len() < 3 {
                return None;
            }
            Some(
                Mount {
                    point: unescape(h[4]),
                    root: unescape(h[3]),
                    source: text::copy(t[1]),
                    flags: flags_of(h[5]),
                    ro: has_opt(h[5], "ro"),
                    super_rw: has_opt(t[2], "rw"),
                    fstype: text::copy(t[0]),
                },
            )
        },
    }
}

/// The mounts among `lines` that satisfy `wanted`, in order. A line that lists
/// no mount is passed over.
pub open spec fn listed(lines: Seq<Seq<u8>>, wanted: spec_fn(Fields) -> bool) -> Seq<Fields>
    decreases lines.len(),
{
    if lines.len() == 0 {
        Seq::empty()
    } else {
        let rest = listed(lines.drop_last(), wanted);
        match fields(lines.last()) {
            Some(f) => if wanted(f) {
                rest.push(f)
            } else {
                rest
            },
            None => rest,
        }
    }
}

/// Nothing is listed that is not wanted.
pub(crate) proof fn lemma_listed(lines: Seq<Seq<u8>>, wanted: spec_fn(Fields) -> bool)
    ensures
        forall|i: int|
            0 <= i < listed(lines, wanted).len() ==> wanted(#[trigger] listed(lines, wanted)[i]),
    decreases lines.len(),
{
    if lines.len() > 0 {
        let rest = listed(lines.drop_last(), wanted);
        let all = listed(lines, wanted);
        lemma_listed(lines.drop_last(), wanted);
        assert forall|i: int| 0 <= i < all.len() implies wanted(#[trigger] all[i]) by {
            if i < rest.len() {
                assert(all[i] == rest[i]);
            }
        }
    }
}

/// Whether the route `p` leads through one of `roots` or one of them leads
/// through `p`.
pub open spec fn touches(p: path::Route, roots: Seq<Vec<u8>>) -> bool {
    exists|i: int| 0 <= i < roots.len() && meet(p, path::route(#[trigger] roots[i]@))
}

/// Whether one of two routes leads through the other.
pub open spec fn meet(p: path::Route, q: path::Route) -> bool {
    path::within(p, q) || path::within(q, p)
}

/// Whether a mount is a read-only bind over a writable dataset at, under or
/// above one of `roots`.
pub open spec fn is_rw_bind(f: Fields, roots: Seq<Vec<u8>>) -> bool {
    &&& f.fstype == "zfs".spec_bytes()
    &&& text::has_piece(f.opts, COMMA, "ro".spec_bytes())
    &&& text::has_piece(f.super_opts, COMMA, "rw".spec_bytes())
    &&& touches(path::route(unescaped(f.point)), roots)
}

/// Whether `point` lies at, under or above one of `roots`.
fn in_scope(point: &[u8], roots: &[Vec<u8>]) -> (r: bool)
    ensures
        r == touches(path::route(point@), roots@),
{
    let mut i: usize = 0;
    while i < roots.len()
        invariant
            i <= roots@.len(),
            forall|j: int|
                0 <= j < i ==> !meet(path::route(point@), path::route(#[trigger] roots@[j]@)),
        decreases roots@.len() - i,
    {
        let root: &[u8] = roots[i].as_slice();
        if path::starts_with(point, root) || path::starts_with(root, point) {
            assert(meet(path::route(point@), path::route(roots@[i as int]@)));
            return true;
        }
        i = i + 1;
    }
    false
}

/// The mounts in the list `mountinfo` to remount writable for a scan of
/// `roots`: read-only binds over writable datasets. A dataset or pool that is
/// itself read-only stays as it is.
pub fn rw_binds(mountinfo: &[u8], roots: &[Vec<u8>]) -> (r: Vec<Mount>)
    ensures
        ({
            let want = listed(text::line_pieces(mountinfo@), |f: Fields| is_rw_bind(f, roots@));
            &&& r@.len() == want.len()
            &&& forall|i: int| 0 <= i < r@.len() ==> (#[trigger] r@[i]).is_of(want[i])
        }),
        forall|i: int|
            0 <= i < r@.len() ==> (#[trigger] r@[i]).ro && r@[i].super_rw && r@[i].fstype@
                == "zfs".spec_bytes() && touches(path::route(r@[i].point@), roots@),
{
    let lines = text::lines(mountinfo);
    let ghost all = text::line_pieces(mountinfo@);
    let ghost wanted = |f: Fields| is_rw_bind(f, roots@);
    let mut out: Vec<Mount> = Vec::new();
    let mut i: usize = 0;
    while i < lines.len()
        invariant
            i <= lines@.len(),
            text::are_pieces(lines@, all),
            wanted == |f: Fields| is_rw_bind(f, roots@),
            out@.len() == listed(all.subrange(0, i as int), wanted).len(),
            forall|j: int|
                0 <= j < out@.len() ==> (#[trigger] out@[j]).is_of(
                    listed(all.subrange(0, i as int), wanted)[j],
                ),
        decreases lines@.len() - i,
    {
        assert(all.subrange(0, i + 1).drop_last() =~= all.subrange(0, i as int));
        assert(all.subrange(0, i + 1).last() == lines@[i as int]@);
        if let Some(m) = parse_mountinfo(lines[i]) {
            if text::is_word(m.fstype.as_slice(), "zfs") && m.ro && m.super_rw && in_scope(
                m.point.as_slice(),
                roots,
            ) {
                out.push(m);
            }
        }
        i = i + 1;
    }
    assert(all.subrange(0, all.len() as int) =~= all);
    proof {
        lemma_listed(all, wanted);
        let want = listed(all, wanted);
        assert forall|i: int| 0 <= i < out@.len() implies (#[trigger] out@[i]).ro && out@[i].super_rw
            && out@[i].fstype@ == "zfs".spec_bytes() && touches(
            path::route(out@[i].point@),
            roots@,
        ) by {
            assert(wanted(want[i]));
            assert(out@[i].is_of(want[i]));
        }
    }
    out
}

/// An octal escape stands for one byte and every other byte for itself, wherever
/// they are; a backslash without three bytes after it is the last that counts.
pub proof fn escapes_stand_for_bytes(s: Seq<u8>, b: u8, x: u8, y: u8, z: u8)
    ensures
        unescaped(Seq::empty()) == Seq::<u8>::empty(),
        b != 0x5c ==> unescaped(seq![b] + s) == seq![b] + unescaped(s),
        unescaped(seq![0x5cu8, x, y, z] + s) == seq![
            (((x - 0x30) * 64 + (y - 0x30) * 8 + (z - 0x30)) % 256) as u8,
        ] + unescaped(s),
        s.len() < 3 ==> unescaped(seq![0x5cu8] + s) == seq![0x5cu8],
{
    let plain = seq![b] + s;
    assert(plain.drop_first() =~= s);
    let coded = seq![0x5cu8, x, y, z] + s;
    assert(coded.subrange(4, coded.len() as int) =~= s);
    assert((seq![0x5cu8] + s)[0] == 0x5c);
}

/// Three octal digits give back the number that they write.
pub proof fn octal_digits_write_bytes(b: u8)
    ensures
        octal((0x30 + b / 64) as u8, (0x30 + b / 8 % 8) as u8, (0x30 + b % 8) as u8) == b,
{
}

/// A line is cut at the first dash that stands alone. It lists a mount exactly if
/// six words or more stand before it and three or more after it: the path within
/// the file system, the mount point and the options are the fourth to the sixth
/// before it, and the type, the source and the options of the file system the
/// first to the third after it.
pub proof fn fields_stand_in_order(line: Seq<u8>)
    ensures
        match text::cut(line, seq![0x20u8, 0x2d, 0x20]) {
            None => fields(line) is None,
            Some((head, tail)) => {
                let h = text::pieces(head, 0x20);
                let t = text::pieces(tail, 0x20);
                &&& fields(line) is Some <==> h.len() >= 6 && t.len() >= 3
                &&& fields(line) is Some ==> ({
                    let f = fields(line)->Some_0;
                    &&& f.root == h[3]
                    &&& f.point == h[4]
                    &&& f.opts == h[5]
                    &&& f.fstype == t[0]
                    &&& f.source == t[1]
                    &&& f.super_opts == t[2]
                })
            },
        },
{
}

/// A set holds a flag exactly if it is marked there.
pub proof fn sets_hold_marked_flags(flags: MountFlags)
    ensures
        flags.holds(MountFlag::Nosuid) == flags.nosuid,
        flags.holds(MountFlag::Nodev) == flags.nodev,
        flags.holds(MountFlag::Noexec) == flags.noexec,
        flags.holds(MountFlag::Noatime) == flags.noatime,
        flags.holds(MountFlag::Nodiratime) == flags.nodiratime,
        flags.holds(MountFlag::Relatime) == flags.relatime,
        flags.holds(MountFlag::Strictatime) == flags.strictatime,
        flags.holds(MountFlag::Sync) == flags.sync,
        flags.holds(MountFlag::Dirsync) == flags.dirsync,
        flags.holds(MountFlag::Lazytime) == flags.lazytime,
{
}

/// A mount says what its line says: paths without their escapes, each flag if its
/// word is one of the options between commas, read-only if `ro` is, and on a
/// writable file system if `rw` is one of that one's options.
pub proof fn mounts_say_what_lines_say(m: Mount, f: Fields)
    requires
        m.is_of(f),
    ensures
        m.point@ == unescaped(f.point),
        m.root@ == unescaped(f.root),
        m.source@ == f.source,
        m.fstype@ == f.fstype,
        ({
            let opts = text::pieces(f.opts, 0x2c);
            &&& m.ro == opts.contains("ro".spec_bytes())
            &&& m.super_rw == text::pieces(f.super_opts, 0x2c).contains("rw".spec_bytes())
            &&& m.flags.nosuid == opts.contains("nosuid".spec_bytes())
            &&& m.flags.nodev == opts.contains("nodev".spec_bytes())
            &&& m.flags.noexec == opts.contains("noexec".spec_bytes())
            &&& m.flags.noatime == opts.contains("noatime".spec_bytes())
            &&& m.flags.nodiratime == opts.contains("nodiratime".spec_bytes())
            &&& m.flags.relatime == opts.contains("relatime".spec_bytes())
            &&& m.flags.strictatime == opts.contains("strictatime".spec_bytes())
            &&& m.flags.sync == opts.contains("sync".spec_bytes())
            &&& m.flags.dirsync == opts.contains("dirsync".spec_bytes())
            &&& m.flags.lazytime == opts.contains("lazytime".spec_bytes())
        }),
{
    assert(m.flags.holds(MountFlag::Nosuid) == text::has_piece(f.opts, COMMA, word(MountFlag::Nosuid)));
    assert(m.flags.holds(MountFlag::Nodev) == text::has_piece(f.opts, COMMA, word(MountFlag::Nodev)));
    assert(m.flags.holds(MountFlag::Noexec) == text::has_piece(f.opts, COMMA, word(MountFlag::Noexec)));
    assert(m.flags.holds(MountFlag::Noatime) == text::has_piece(f.opts, COMMA, word(MountFlag::Noatime)));
    assert(m.flags.holds(MountFlag::Nodiratime) == text::has_piece(f.opts, COMMA, word(MountFlag::Nodiratime)));
    assert(m.flags.holds(MountFlag::Relatime) == text::has_piece(f.opts, COMMA, word(MountFlag::Relatime)));
    assert(m.flags.holds(MountFlag::Strictatime) == text::has_piece(f.opts, COMMA, word(MountFlag::Strictatime)));
    assert(m.flags.holds(MountFlag::Sync) == text::has_piece(f.opts, COMMA, word(MountFlag::Sync)));
    assert(m.flags.holds(MountFlag::Dirsync) == text::has_piece(f.opts, COMMA, word(MountFlag::Dirsync)));
    assert(m.flags.holds(MountFlag::Lazytime) == text::has_piece(f.opts, COMMA, word(MountFlag::Lazytime)));
}

/// Listed are all lines that list a mount that is wanted, in order.
pub proof fn all_wanted_mounts_are_listed(lines: Seq<Seq<u8>>, wanted: spec_fn(Fields) -> bool)
    ensures
        listed(lines, wanted) == lines.filter_map(
            |line: Seq<u8>|
                match fields(line) {
                    Some(f) => if wanted(f) {
                        Some(f)
                    } else {
                        None
                    },
                    None => None,
                },
        ),
    decreases lines.len(),
{
    let keep = |line: Seq<u8>|
        match fields(line) {
            Some(f) => if wanted(f) {
                Some(f)
            } else {
                None
            },
            None => None,
        };
    if lines.len() > 0 {
        all_wanted_mounts_are_listed(lines.drop_last(), wanted);
        let rest = lines.drop_last().filter_map(keep);
        match keep(lines.last()) {
            Some(f) => {
                assert(rest.push(f) =~= rest + seq![f]);
            },
            None => {},
        }
    }
    assert(listed(lines, wanted) =~= lines.filter_map(keep));
}

/// A mount is remounted exactly if it is a ZFS file system, mounted read-only
/// where the file system itself is writable, and lies at, under or above a root.
pub proof fn read_only_binds_are_remounted(f: Fields, roots: Seq<Vec<u8>>)
    ensures
        is_rw_bind(f, roots) <==> f.fstype == "zfs".spec_bytes() && text::pieces(
            f.opts,
            0x2c,
        ).contains("ro".spec_bytes()) && text::pieces(f.super_opts, 0x2c).contains(
            "rw".spec_bytes(),
        ) && exists|i: int|
            0 <= i < roots.len() && (path::within(
                path::route(unescaped(f.point)),
                path::route((#[trigger] roots[i])@),
            ) || path::within(path::route(roots[i]@), path::route(unescaped(f.point)))),
{
    let p = path::route(unescaped(f.point));
    if touches(p, roots) {
        let i = choose|i: int| 0 <= i < roots.len() && meet(p, path::route(#[trigger] roots[i]@));
        assert(path::within(p, path::route(roots[i]@)) || path::within(path::route(roots[i]@), p));
    }
    if exists|i: int|
        0 <= i < roots.len() && (path::within(p, path::route((#[trigger] roots[i])@))
            || path::within(path::route(roots[i]@), p)) {
        let i = choose|i: int|
            0 <= i < roots.len() && (path::within(p, path::route((#[trigger] roots[i])@))
                || path::within(path::route(roots[i]@), p));
        assert(meet(p, path::route(roots[i]@)));
    }
}

} // verus!
