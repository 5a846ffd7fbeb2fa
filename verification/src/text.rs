//! Byte strings: equality, splitting, lines.

use vstd::prelude::*;
use vstd::string::*;

verus! {

/// Whether `a` and `b` hold the same bytes.
pub fn same_bytes(a: &[u8], b: &[u8]) -> (r: bool)
    ensures
        r == (a@ == b@),
{
    if a.len() != b.len() {
        return false;
    }
    let mut i: usize = 0;
    while i < a.len()
        invariant
            i <= a@.len(),
            a@.len() == b@.len(),
            forall|j: int| 0 <= j < i ==> a@[j] == b@[j],
        decreases a@.len() - i,
    {
        if a[i] != b[i] {
            return false;
        }
        i = i + 1;
    }
    assert(a@ =~= b@);
    true
}

/// Whether `s` is the text `word`.
pub fn is_word(s: &[u8], word: &str) -> (r: bool)
    ensures
        r == (s@ == word.spec_bytes()),
{
    same_bytes(s, word.as_bytes())
}

/// A copy of `s`.
pub fn copy(s: &[u8]) -> (r: Vec<u8>)
    ensures
        r@ == s@,
{
    vstd::slice::slice_to_vec(s)
}

/// How many bytes of `s` come before the first `b`; all of them if there is none.
pub open spec fn before_first(s: Seq<u8>, b: u8) -> nat
    decreases s.len(),
{
    if s.len() == 0 || s[0] == b {
        0
    } else {
        1 + before_first(s.drop_first(), b)
    }
}

/// The pieces of `s` between the bytes `sep`.
pub open spec fn pieces(s: Seq<u8>, sep: u8) -> Seq<Seq<u8>>
    decreases s.len(),
{
    let n = before_first(s, sep);
    if n >= s.len() {
        seq![s]
    } else {
        seq![s.subrange(0, n as int)] + pieces(s.subrange(n as int + 1, s.len() as int), sep)
    }
}

pub(crate) proof fn lemma_before_first(s: Seq<u8>, b: u8)
    ensures
        before_first(s, b) <= s.len(),
        before_first(s, b) < s.len() ==> s[before_first(s, b) as int] == b,
        forall|i: int| 0 <= i < before_first(s, b) ==> s[i] != b,
    decreases s.len(),
{
    if s.len() > 0 && s[0] != b {
        lemma_before_first(s.drop_first(), b);
        assert forall|i: int| 0 <= i < before_first(s, b) implies s[i] != b by {
            if i > 0 {
                assert(s[i] == s.drop_first()[i - 1]);
            }
        }
    }
}

/// The first `b` is where it is found and nowhere before.
pub(crate) proof fn lemma_is_first(s: Seq<u8>, b: u8, n: nat)
    requires
        n <= s.len(),
        n < s.len() ==> s[n as int] == b,
        forall|i: int| 0 <= i < n ==> s[i] != b,
    ensures
        before_first(s, b) == n,
{
    lemma_before_first(s, b);
    let m = before_first(s, b);
    if m < n {
        assert(s[m as int] != b);
    } else if n < m {
        assert(s[n as int] != b);
    }
}

/// The place of the first `b` at or after `from`, or the length if there is none.
fn find_byte(s: &[u8], from: usize, b: u8) -> (r: usize)
    requires
        from <= s@.len(),
    ensures
        from <= r <= s@.len(),
        r - from == before_first(s@.subrange(from as int, s@.len() as int), b),
{
    let mut i: usize = from;
    while i < s.len() && s[i] != b
        invariant
            from <= i <= s@.len(),
            forall|j: int| from <= j < i ==> s@[j] != b,
        decreases s@.len() - i,
    {
        i = i + 1;
    }
    proof {
        let rest = s@.subrange(from as int, s@.len() as int);
        assert forall|j: int| 0 <= j < i - from implies rest[j] != b by {
            assert(rest[j] == s@[from + j]);
        }
        lemma_is_first(rest, b, (i - from) as nat);
    }
    i
}

/// Whether each of `parts` holds the bytes of the piece of `want` at its place.
pub open spec fn are_pieces(parts: Seq<&[u8]>, want: Seq<Seq<u8>>) -> bool {
    &&& parts.len() == want.len()
    &&& forall|i: int| 0 <= i < parts.len() ==> (#[trigger] parts[i])@ == want[i]
}

/// The pieces of `s` between the bytes `sep`.
pub fn split<'a>(s: &'a [u8], sep: u8) -> (r: Vec<&'a [u8]>)
    ensures
        are_pieces(r@, pieces(s@, sep)),
        r@.len() >= 1,
{
    let mut parts: Vec<&'a [u8]> = Vec::new();
    let mut from: usize = 0;
    let ghost mut done: Seq<Seq<u8>> = Seq::empty();
    proof {
        assert(s@.subrange(0, s@.len() as int) =~= s@);
        assert(done + pieces(s@, sep) =~= pieces(s@, sep));
    }
    loop
        invariant
            from <= s@.len(),
            are_pieces(parts@, done),
            done + pieces(s@.subrange(from as int, s@.len() as int), sep) == pieces(s@, sep),
        decreases s@.len() - from,
    {
        let end: usize = find_byte(s, from, sep);
        let ghost rest = s@.subrange(from as int, s@.len() as int);
        let ghost n = before_first(rest, sep);
        parts.push(&s[from..end]);
        if end == s.len() {
            proof {
                assert(s@.subrange(from as int, end as int) =~= rest);
                assert(pieces(rest, sep) == seq![rest]);
                assert(parts@.len() == pieces(s@, sep).len());
                assert(are_pieces(parts@, pieces(s@, sep)));
            }
            return parts;
        }
        proof {
            let piece = rest.subrange(0, n as int);
            let tail = rest.subrange(n as int + 1, rest.len() as int);
            assert(s@.subrange(from as int, end as int) =~= piece);
            assert(tail =~= s@.subrange(end + 1, s@.len() as int));
            assert(pieces(rest, sep) == seq![piece] + pieces(tail, sep));
            assert(done.push(piece) + pieces(tail, sep) =~= done + (seq![piece] + pieces(tail, sep)));
            done = done.push(piece);
        }
        from = end + 1;
    }
}

/// Whether `pat` is in `s` at `i`.
pub open spec fn occurs_at(s: Seq<u8>, pat: Seq<u8>, i: int) -> bool {
    0 <= i <= s.len() - pat.len() && s.subrange(i, i + pat.len()) == pat
}

/// The place of the first `pat` in `s` at or after `i`.
pub open spec fn find_from(s: Seq<u8>, pat: Seq<u8>, i: int) -> Option<int>
    decreases s.len() - i + 1,
{
    if i < 0 || i + pat.len() > s.len() {
        None
    } else if occurs_at(s, pat, i) {
        Some(i)
    } else {
        find_from(s, pat, i + 1)
    }
}

/// What comes before and after the first `pat` in `s`.
pub open spec fn cut(s: Seq<u8>, pat: Seq<u8>) -> Option<(Seq<u8>, Seq<u8>)> {
    match find_from(s, pat, 0) {
        Some(i) => Some((s.subrange(0, i), s.subrange(i + pat.len(), s.len() as int))),
        None => None,
    }
}

/// What comes before and after the first `pat` in `s`.
pub fn split_once<'a>(s: &'a [u8], pat: &[u8]) -> (r: Option<(&'a [u8], &'a [u8])>)
    ensures
        match (r, cut(s@, pat@)) {
            (Some((a, b)), Some((x, y))) => a@ == x && b@ == y,
            (None, None) => true,
            _ => false,
        },
{
    let n: usize = pat.len();
    let len: usize = s.len();
    if n > len {
        return None;
    }
    let mut i: usize = 0;
    while i <= len - n
        invariant
            n == pat@.len(),
            len == s@.len(),
            n <= len,
            i <= len - n + 1,
            find_from(s@, pat@, 0) == find_from(s@, pat@, i as int),
        decreases len + 1 - i,
    {
        if same_bytes(&s[i..i + n], pat) {
            return Some((&s[0..i], &s[i + n..len]));
        }
        if i == len - n {
            assert(find_from(s@, pat@, i + 1) is None);
            return None;
        }
        i = i + 1;
    }
    None
}

/// `s` without a carriage return at its end.
pub open spec fn without_cr(s: Seq<u8>) -> Seq<u8> {
    if s.len() > 0 && s.last() == 0x0d {
        s.drop_last()
    } else {
        s
    }
}

/// The lines of `s`. A line ends with a newline, before which a carriage return
/// belongs to the line's end too; the last line may lack it.
pub open spec fn line_pieces(s: Seq<u8>) -> Seq<Seq<u8>> {
    let all = pieces(s, 0x0a);
    let ended = all.drop_last().map_values(|l: Seq<u8>| without_cr(l));
    if all.last().len() == 0 {
        ended
    } else {
        ended.push(all.last())
    }
}

/// The lines of `s`.
pub fn lines<'a>(s: &'a [u8]) -> (r: Vec<&'a [u8]>)
    ensures
        are_pieces(r@, line_pieces(s@)),
{
    let all = split(s, 0x0a);
    let last: usize = all.len() - 1;
    let mut out: Vec<&'a [u8]> = Vec::new();
    let mut i: usize = 0;
    while i < last
        invariant
            i <= last,
            last == all@.len() - 1,
            are_pieces(all@, pieces(s@, 0x0a)),
            out@.len() == i,
            forall|j: int| 0 <= j < i ==> (#[trigger] out@[j])@ == without_cr(all@[j]@),
        decreases last - i,
    {
        let l: &'a [u8] = all[i];
        let n: usize = l.len();
        if n > 0 && l[n - 1] == 0x0d {
            out.push(&l[0..n - 1]);
            assert(l@.subrange(0, n - 1) =~= l@.drop_last());
        } else {
            out.push(l);
        }
        i = i + 1;
    }
    let l: &'a [u8] = all[last];
    if l.len() > 0 {
        out.push(l);
    }
    proof {
        let want = line_pieces(s@);
        assert forall|j: int| 0 <= j < out@.len() implies (#[trigger] out@[j])@ == want[j] by {
            if j < last {
                assert(all@[j]@ == pieces(s@, 0x0a)[j]);
            }
        }
    }
    out
}

/// Whether `word` is one of the pieces of `s` between the bytes `sep`.
pub open spec fn has_piece(s: Seq<u8>, sep: u8, word: Seq<u8>) -> bool {
    pieces(s, sep).contains(word)
}

/// Whether the text `word` is one of `parts`.
pub fn any_is(parts: &Vec<&[u8]>, word: &str) -> (r: bool)
    ensures
        r == exists|i: int| 0 <= i < parts@.len() && (#[trigger] parts@[i])@ == word.spec_bytes(),
{
    let mut i: usize = 0;
    while i < parts.len()
        invariant
            i <= parts@.len(),
            forall|j: int| 0 <= j < i ==> (#[trigger] parts@[j])@ != word.spec_bytes(),
        decreases parts@.len() - i,
    {
        if is_word(parts[i], word) {
            return true;
        }
        i = i + 1;
    }
    false
}

/// The first piece has no separator and ends where the first one stands, or with
/// the text.
pub proof fn first_piece_ends_at_separator(s: Seq<u8>, sep: u8)
    ensures
        ({
            let first = pieces(s, sep)[0];
            &&& pieces(s, sep).len() > 0
            &&& !first.contains(sep)
            &&& first.len() <= s.len()
            &&& first == s.subrange(0, first.len() as int)
            &&& first.len() < s.len() ==> s[first.len() as int] == sep
        }),
{
    lemma_before_first(s, sep);
    let first = pieces(s, sep)[0];
    assert(first =~= s.subrange(0, first.len() as int));
    assert forall|i: int| 0 <= i < first.len() implies first[i] != sep by {
        assert(first[i] == s[i]);
    }
}

/// Text without the separator is one piece, and a separator between two texts
/// parts their pieces.
pub proof fn separators_part_pieces(a: Seq<u8>, b: Seq<u8>, sep: u8)
    ensures
        !a.contains(sep) ==> pieces(a, sep) == seq![a],
        pieces(a + seq![sep] + b, sep) == pieces(a, sep) + pieces(b, sep),
    decreases a.len(),
{
    let all = a + seq![sep] + b;
    let n = before_first(a, sep);
    lemma_before_first(a, sep);
    if !a.contains(sep) {
        if n < a.len() {
            assert(a.contains(a[n as int]));
        }
    }
    assert forall|i: int| 0 <= i < n implies all[i] != sep by {
        assert(all[i] == a[i]);
    }
    lemma_is_first(all, sep, n);
    if n >= a.len() {
        assert(all.subrange(0, n as int) =~= a);
        assert(all.subrange(n as int + 1, all.len() as int) =~= b);
        assert(pieces(all, sep) =~= pieces(a, sep) + pieces(b, sep));
    } else {
        let tail = a.subrange(n as int + 1, a.len() as int);
        separators_part_pieces(tail, b, sep);
        assert(all.subrange(0, n as int) =~= a.subrange(0, n as int));
        assert(all.subrange(n as int + 1, all.len() as int) =~= tail + seq![sep] + b);
        assert(pieces(all, sep) =~= pieces(a, sep) + pieces(b, sep));
    }
}

proof fn lemma_none_are(s: Seq<u8>, b: u8)
    requires
        !s.contains(b),
    ensures
        s.filter(|x: u8| x == b).len() == 0,
    decreases s.len(),
{
    reveal(Seq::filter);
    if s.len() > 0 {
        let less = s.drop_last();
        assert forall|i: int| 0 <= i < less.len() implies less[i] != b by {
            assert(s[i] == less[i]);
        }
        assert(s[s.len() - 1] != b);
        lemma_none_are(less, b);
    }
}

/// No piece holds the separator, and there is one piece more than separators.
pub proof fn pieces_hold_no_separator(s: Seq<u8>, sep: u8)
    ensures
        forall|i: int| 0 <= i < pieces(s, sep).len() ==> !(#[trigger] pieces(s, sep)[i]).contains(sep),
        pieces(s, sep).len() == s.filter(|b: u8| b == sep).len() + 1,
    decreases s.len(),
{
    first_piece_ends_at_separator(s, sep);
    lemma_before_first(s, sep);
    let n = before_first(s, sep);
    let is_sep = |b: u8| b == sep;
    let head = s.subrange(0, n as int);
    assert(!head.contains(sep)) by {
        assert forall|i: int| 0 <= i < head.len() implies head[i] != sep by {
            assert(head[i] == s[i]);
        }
    }
    lemma_none_are(head, sep);
    if n < s.len() {
        let tail = s.subrange(n as int + 1, s.len() as int);
        pieces_hold_no_separator(tail, sep);
        assert(s =~= head + (seq![sep] + tail));
        Seq::filter_distributes_over_add(head, seq![sep] + tail, is_sep);
        Seq::filter_distributes_over_add(seq![sep], tail, is_sep);
        assert(seq![sep].filter(is_sep).len() == 1) by {
            reveal_with_fuel(Seq::filter, 2);
            assert(seq![sep].drop_last() =~= Seq::empty());
        }
        assert forall|i: int| 0 <= i < pieces(s, sep).len() implies !(
        #[trigger] pieces(s, sep)[i]).contains(sep) by {
            if i > 0 {
                assert(pieces(s, sep)[i] == pieces(tail, sep)[i - 1]);
            }
        }
    } else {
        assert(s =~= head);
    }
}

proof fn lemma_find_from(s: Seq<u8>, pat: Seq<u8>, i: int)
    requires
        0 <= i,
    ensures
        match find_from(s, pat, i) {
            Some(j) => i <= j && occurs_at(s, pat, j) && forall|k: int|
                i <= k < j ==> !#[trigger] occurs_at(s, pat, k),
            None => forall|k: int| i <= k ==> !#[trigger] occurs_at(s, pat, k),
        },
    decreases s.len() - i + 1,
{
    if i + pat.len() <= s.len() && !occurs_at(s, pat, i) {
        lemma_find_from(s, pat, i + 1);
    }
}

/// A text is cut at the first place where the pattern stands: what is before it,
/// the pattern and what is after it make up the text. It is not cut exactly if
/// the pattern stands nowhere in it.
pub proof fn cuts_are_at_the_first(s: Seq<u8>, pat: Seq<u8>)
    ensures
        match cut(s, pat) {
            Some((a, b)) => s == a + pat + b && forall|i: int|
                0 <= i < a.len() ==> #[trigger] s.subrange(i, i + pat.len()) != pat,
            None => forall|i: int|
                0 <= i && i + pat.len() <= s.len() ==> #[trigger] s.subrange(i, i + pat.len()) != pat,
        },
{
    lemma_find_from(s, pat, 0);
    match find_from(s, pat, 0) {
        Some(j) => {
            let (a, b) = cut(s, pat)->Some_0;
            assert(s.subrange(j, j + pat.len()) == pat);
            assert(s =~= a + s.subrange(j, j + pat.len()) + b);
            assert forall|i: int| 0 <= i < a.len() implies #[trigger] s.subrange(i, i + pat.len())
                != pat by {
                assert(!occurs_at(s, pat, i));
            }
        },
        None => {
            assert forall|i: int| 0 <= i && i + pat.len() <= s.len() implies #[trigger] s.subrange(
                i,
                i + pat.len(),
            ) != pat by {
                assert(!occurs_at(s, pat, i));
            }
        },
    }
}

/// A line that ends gives itself, without a carriage return at its end, before
/// the lines after it; a line that does not end gives itself, unless it is empty.
pub proof fn lines_end_with_newlines(a: Seq<u8>, b: Seq<u8>)
    requires
        !a.contains(0x0au8),
    ensures
        line_pieces(a + seq![0x0au8] + b) == seq![
            if a.len() > 0 && a.last() == 0x0d {
                a.drop_last()
            } else {
                a
            },
        ] + line_pieces(b),
        line_pieces(a) == if a.len() == 0 {
            Seq::empty()
        } else {
            seq![a]
        },
{
    separators_part_pieces(a, b, 0x0a);
    first_piece_ends_at_separator(b, 0x0a);
    let all = pieces(a + seq![0x0au8] + b, 0x0a);
    let rest = pieces(b, 0x0a);
    assert(all =~= seq![a] + rest);
    assert(all.last() == rest.last());
    assert(all.drop_last() =~= seq![a] + rest.drop_last());
    let f = |l: Seq<u8>| without_cr(l);
    assert(all.drop_last().map_values(f) =~= seq![without_cr(a)] + rest.drop_last().map_values(f));
    assert(line_pieces(a + seq![0x0au8] + b) =~= seq![without_cr(a)] + line_pieces(b));
    assert(seq![a].drop_last().map_values(f) =~= Seq::<Seq<u8>>::empty());
    assert(line_pieces(a) =~= if a.len() == 0 {
        Seq::empty()
    } else {
        seq![a]
    });
}

/// Parts are pieces exactly if their bytes are, one for one.
pub proof fn parts_are_pieces(parts: Seq<&[u8]>, want: Seq<Seq<u8>>)
    ensures
        are_pieces(parts, want) <==> parts.map_values(|p: &[u8]| p@) == want,
{
    if are_pieces(parts, want) {
        assert(parts.map_values(|p: &[u8]| p@) =~= want);
    }
    if parts.map_values(|p: &[u8]| p@) == want {
        assert forall|i: int| 0 <= i < parts.len() implies (#[trigger] parts[i])@ == want[i] by {
            assert(parts.map_values(|p: &[u8]| p@)[i] == want[i]);
        }
    }
}

} // verus!
