//! Plain text as sequences of characters: trimming white space, splitting
//! at a character, and splitting a document into lines.
use vstd::prelude::*;

verus! {

/// Unicode `White_Space` property, the set of characters that trimming removes.
pub open spec fn is_space(c: char) -> bool {
    let u = c as u32;
    (0x09 <= u && u <= 0x0d) || u == 0x20 || u == 0x85 || u == 0xa0 || u == 0x1680 || (0x2000
        <= u && u <= 0x200a) || u == 0x2028 || u == 0x2029 || u == 0x202f || u == 0x205f || u
        == 0x3000
}

/// `s` without its leading white space.
pub open spec fn trim_start(s: Seq<char>) -> Seq<char>
    decreases s.len(),
{
    if s.len() > 0 && is_space(s[0]) {
        trim_start(s.drop_first())
    } else {
        s
    }
}

/// `s` without its trailing white space.
pub open spec fn trim_end(s: Seq<char>) -> Seq<char>
    decreases s.len(),
{
    if s.len() > 0 && is_space(s.last()) {
        trim_end(s.drop_last())
    } else {
        s
    }
}

/// `s` without white space at either end.
pub open spec fn trim(s: Seq<char>) -> Seq<char> {
    trim_end(trim_start(s))
}

/// The pieces of `s` between occurrences of `sep`; always at least one piece.
pub open spec fn split_on(s: Seq<char>, sep: char) -> Seq<Seq<char>>
    decreases s.len(),
{
    if s.len() == 0 {
        seq![Seq::empty()]
    } else {
        let p = split_on(s.drop_last(), sep);
        if s.last() == sep {
            p.push(Seq::empty())
        } else {
            p.update(p.len() - 1, p.last().push(s.last()))
        }
    }
}

/// The lines of `s`: split at `\n`, a `\r` before a `\n` dropped, and no
/// empty piece after a final `\n`.
pub open spec fn lines_of(s: Seq<char>) -> Seq<Seq<char>> {
    let p = split_on(s, '\n');
    let k = if s.len() == 0 || s.last() == '\n' {
        p.len() - 1
    } else {
        p.len() as int
    };
    Seq::new(
        k as nat,
        |i: int|
            if i < p.len() - 1 && p[i].len() > 0 && p[i].last() == '\r' {
                p[i].drop_last()
            } else {
                p[i]
            },
    )
}

/// The lines joined by `\n`, with no newline after the last one.
pub open spec fn join_lines(ls: Seq<Seq<char>>) -> Seq<char>
    decreases ls.len(),
{
    if ls.len() == 0 {
        Seq::empty()
    } else if ls.len() == 1 {
        ls[0]
    } else {
        join_lines(ls.drop_last()) + seq!['\n'] + ls.last()
    }
}

/// Each line followed by `\n`.
pub open spec fn terminated_lines(ls: Seq<Seq<char>>) -> Seq<char>
    decreases ls.len(),
{
    if ls.len() == 0 {
        Seq::empty()
    } else {
        terminated_lines(ls.drop_last()) + ls.last() + seq!['\n']
    }
}

pub proof fn lemma_split_on_nonempty(s: Seq<char>, sep: char)
    ensures
        split_on(s, sep).len() >= 1,
    decreases s.len(),
{
    if s.len() > 0 {
        lemma_split_on_nonempty(s.drop_last(), sep);
    }
}

/// No piece of a split holds the separator.
pub proof fn lemma_split_on_pieces(s: Seq<char>, sep: char)
    ensures
        forall|k: int| 0 <= k < split_on(s, sep).len() ==> !(#[trigger] split_on(s, sep)[k]).contains(sep),
    decreases s.len(),
{
    lemma_split_on_nonempty(s, sep);
    if s.len() > 0 {
        lemma_split_on_pieces(s.drop_last(), sep);
        lemma_split_on_nonempty(s.drop_last(), sep);
        let p = split_on(s.drop_last(), sep);
        if s.last() != sep {
            assert forall|k: int| 0 <= k < split_on(s, sep).len() implies !(#[trigger] split_on(s, sep)[k]).contains(sep) by {
                if k == p.len() - 1 {
                    let q = p.last().push(s.last());
                    assert(!p[k].contains(sep));
                    if q.contains(sep) {
                        let m = choose|m: int| 0 <= m < q.len() && q[m] == sep;
                        assert(p[k][m] == sep);
                    }
                }
            }
        } else {
            assert forall|k: int| 0 <= k < split_on(s, sep).len() implies !(#[trigger] split_on(s, sep)[k]).contains(sep) by {
                if k < p.len() {
                    assert(!p[k].contains(sep));
                }
            }
        }
    }
}

/// Every character of a trimmed text occurs in the text.
pub proof fn lemma_trim_chars(s: Seq<char>, c: char)
    ensures
        trim(s).contains(c) ==> s.contains(c),
{
    lemma_trim_start_chars(s, c);
    lemma_trim_end_chars(trim_start(s), c);
}

proof fn lemma_trim_start_chars(s: Seq<char>, c: char)
    ensures
        trim_start(s).contains(c) ==> s.contains(c),
    decreases s.len(),
{
    if s.len() > 0 && is_space(s[0]) {
        lemma_trim_start_chars(s.drop_first(), c);
        if s.drop_first().contains(c) {
            let m = choose|m: int| 0 <= m < s.drop_first().len() && s.drop_first()[m] == c;
            assert(s[m + 1] == c);
        }
    }
}

proof fn lemma_trim_end_chars(s: Seq<char>, c: char)
    ensures
        trim_end(s).contains(c) ==> s.contains(c),
    decreases s.len(),
{
    if s.len() > 0 && is_space(s.last()) {
        lemma_trim_end_chars(s.drop_last(), c);
        if s.drop_last().contains(c) {
            let m = choose|m: int| 0 <= m < s.drop_last().len() && s.drop_last()[m] == c;
            assert(s[m] == c);
        }
    }
}

/// Every character of a piece of a split occurs in the text split.
pub proof fn lemma_split_on_chars(s: Seq<char>, sep: char, c: char)
    ensures
        forall|k: int|
            0 <= k < split_on(s, sep).len() && (#[trigger] split_on(s, sep)[k]).contains(c)
                ==> s.contains(c),
    decreases s.len(),
{
    if s.len() > 0 {
        lemma_split_on_chars(s.drop_last(), sep, c);
        lemma_split_on_nonempty(s.drop_last(), sep);
        let p = split_on(s.drop_last(), sep);
        assert forall|k: int|
            0 <= k < split_on(s, sep).len() && (#[trigger] split_on(s, sep)[k]).contains(c)
                implies s.contains(c) by {
            let q = split_on(s, sep)[k];
            let m = choose|m: int| 0 <= m < q.len() && q[m] == c;
            if s.last() == sep {
                if k < p.len() {
                    assert(p[k].contains(c));
                    let m2 = choose|m2: int| 0 <= m2 < s.drop_last().len() && s.drop_last()[m2] == c;
                    assert(s[m2] == c);
                }
            } else if k == p.len() - 1 && m == q.len() - 1 {
                assert(s[s.len() - 1] == c);
            } else {
                assert(p[k][m] == c);
                assert(p[k].contains(c));
                let m2 = choose|m2: int| 0 <= m2 < s.drop_last().len() && s.drop_last()[m2] == c;
                assert(s[m2] == c);
            }
        }
    }
}

/// Every character of a line occurs in the text it was split from.
pub proof fn lemma_lines_chars(s: Seq<char>, c: char)
    ensures
        forall|k: int|
            0 <= k < lines_of(s).len() && (#[trigger] lines_of(s)[k]).contains(c) ==> s.contains(c),
{
    lemma_split_on_chars(s, '\n', c);
    lemma_split_on_nonempty(s, '\n');
    let p = split_on(s, '\n');
    assert forall|k: int|
        0 <= k < lines_of(s).len() && (#[trigger] lines_of(s)[k]).contains(c) implies s.contains(c) by {
        let l = lines_of(s)[k];
        let m = choose|m: int| 0 <= m < l.len() && l[m] == c;
        assert(p[k][m] == c);
        assert(p[k].contains(c));
    }
}

/// A text with no white space at either end.
pub open spec fn bare(c: Seq<char>) -> bool {
    c.len() == 0 || (!is_space(c[0]) && !is_space(c.last()))
}

/// `n` spaces (none where `n` is not positive).
pub open spec fn spaces(n: int) -> Seq<char> {
    Seq::new(
        if n > 0 {
            n as nat
        } else {
            0
        },
        |_k: int| ' ',
    )
}

/// Splitting at a separator splits the two sides apart.
pub proof fn lemma_split_on_concat(a: Seq<char>, b: Seq<char>, sep: char)
    ensures
        split_on(a + seq![sep] + b, sep) == split_on(a, sep) + split_on(b, sep),
    decreases b.len(),
{
    lemma_split_on_nonempty(a, sep);
    let s = a + seq![sep] + b;
    if b.len() == 0 {
        assert(s.drop_last() =~= a);
        assert(split_on(s, sep) =~= split_on(a, sep) + split_on(b, sep));
    } else {
        assert(s.drop_last() =~= a + seq![sep] + b.drop_last());
        lemma_split_on_concat(a, b.drop_last(), sep);
        lemma_split_on_nonempty(b.drop_last(), sep);
        let p = split_on(a, sep);
        let q = split_on(b.drop_last(), sep);
        if b.last() == sep {
            assert(split_on(s, sep) =~= p + q.push(Seq::empty()));
        } else {
            assert(split_on(s, sep) =~= p + q.update(q.len() - 1, q.last().push(b.last())));
        }
    }
}

/// A text without the separator splits into itself alone.
pub proof fn lemma_split_on_single(s: Seq<char>, sep: char)
    requires
        !s.contains(sep),
    ensures
        split_on(s, sep) == seq![s],
    decreases s.len(),
{
    if s.len() > 0 {
        assert(!s.drop_last().contains(sep)) by {
            if s.drop_last().contains(sep) {
                let m = choose|m: int| 0 <= m < s.drop_last().len() && s.drop_last()[m] == sep;
                assert(s[m] == sep);
            }
        }
        assert(s[s.len() - 1] != sep);
        lemma_split_on_single(s.drop_last(), sep);
        assert(s.drop_last().push(s.last()) =~= s);
        assert(split_on(s, sep) =~= seq![s]);
    } else {
        assert(s =~= Seq::<char>::empty());
    }
}

proof fn lemma_trim_start_spaces(k: int, t: Seq<char>)
    ensures
        trim_start(spaces(k) + t) == trim_start(t),
    decreases k,
{
    if k > 0 {
        assert((spaces(k) + t)[0] == ' ');
        assert((spaces(k) + t).drop_first() =~= spaces(k - 1) + t);
        lemma_trim_start_spaces(k - 1, t);
    } else {
        assert(spaces(k) + t =~= t);
    }
}

proof fn lemma_trim_end_spaces(t: Seq<char>, k: int)
    ensures
        trim_end(t + spaces(k)) == trim_end(t),
    decreases k,
{
    if k > 0 {
        assert((t + spaces(k)).last() == ' ');
        assert((t + spaces(k)).drop_last() =~= t + spaces(k - 1));
        lemma_trim_end_spaces(t, k - 1);
    } else {
        assert(t + spaces(k) =~= t);
    }
}

/// A text without white space at its ends, framed by spaces, trims back to
/// itself.
pub proof fn lemma_trim_padded(c: Seq<char>, k: int)
    requires
        bare(c),
    ensures
        trim(seq![' '] + c + spaces(k) + seq![' ']) == c,
{
    let kk = if k > 0 {
        k
    } else {
        0
    };
    let x = seq![' '] + c + spaces(k) + seq![' '];
    assert(x =~= spaces(1) + (c + spaces(kk + 1)));
    lemma_trim_start_spaces(1, c + spaces(kk + 1));
    lemma_trim_end_spaces(c, kk + 1);
    if c.len() > 0 {
        assert((c + spaces(kk + 1))[0] == c[0]);
        assert(trim_start(c + spaces(kk + 1)) == c + spaces(kk + 1));
        assert(trim_end(c) == c);
    } else {
        assert(c + spaces(kk + 1) =~= spaces(kk + 1) + Seq::<char>::empty());
        lemma_trim_start_spaces(kk + 1, Seq::<char>::empty());
        assert(trim_end(Seq::<char>::empty()) == Seq::<char>::empty());
    }
}

proof fn lemma_trim_start_bare(s: Seq<char>)
    ensures
        trim_start(s).len() == 0 || !is_space(trim_start(s)[0]),
    decreases s.len(),
{
    if s.len() > 0 && is_space(s[0]) {
        lemma_trim_start_bare(s.drop_first());
    }
}

proof fn lemma_trim_end_prefix(s: Seq<char>)
    ensures
        trim_end(s).len() <= s.len(),
        trim_end(s) == s.take(trim_end(s).len() as int),
        trim_end(s).len() == 0 || !is_space(trim_end(s).last()),
    decreases s.len(),
{
    if s.len() > 0 && is_space(s.last()) {
        lemma_trim_end_prefix(s.drop_last());
        assert(s.drop_last().take(trim_end(s).len() as int) =~= s.take(trim_end(s).len() as int));
    } else {
        assert(s.take(s.len() as int) =~= s);
    }
}

/// A trimmed text has no white space at either end.
pub proof fn lemma_trim_bare(s: Seq<char>)
    ensures
        bare(trim(s)),
{
    lemma_trim_start_bare(s);
    lemma_trim_end_prefix(trim_start(s));
    if trim(s).len() > 0 {
        assert(trim(s)[0] == trim_start(s)[0]);
    }
}

/// `l` without one trailing carriage return.
pub open spec fn strip_cr(l: Seq<char>) -> Seq<char> {
    if l.len() > 0 && l.last() == '\r' {
        l.drop_last()
    } else {
        l
    }
}

proof fn lemma_trim_start_push(a: Seq<char>, c: char)
    requires
        is_space(c),
    ensures
        trim_start(a).len() > 0 ==> trim_start(a.push(c)) == trim_start(a).push(c),
        trim_start(a).len() == 0 ==> trim_start(a.push(c)).len() == 0,
    decreases a.len(),
{
    if a.len() == 0 {
        assert(a.push(c).drop_first() =~= a);
    } else if is_space(a[0]) {
        assert(a.push(c).drop_first() =~= a.drop_first().push(c));
        lemma_trim_start_push(a.drop_first(), c);
    }
}

/// A trailing carriage return does not change the trimmed text.
pub proof fn lemma_trim_strip_cr(l: Seq<char>)
    ensures
        trim(strip_cr(l)) == trim(l),
{
    if l.len() > 0 && l.last() == '\r' {
        let a = l.drop_last();
        assert(a.push('\r') =~= l);
        lemma_trim_start_push(a, '\r');
        if trim_start(a).len() > 0 {
            assert(trim_start(a).push('\r').drop_last() =~= trim_start(a));
        }
    }
}

/// Whether `c` has the Unicode `White_Space` property.
pub fn is_space_char(c: char) -> (r: bool)
    ensures
        r == is_space(c),
{
    let u = c as u32;
    (0x09 <= u && u <= 0x0d) || u == 0x20 || u == 0x85 || u == 0xa0 || u == 0x1680 || (0x2000
        <= u && u <= 0x200a) || u == 0x2028 || u == 0x2029 || u == 0x202f || u == 0x205f || u
        == 0x3000
}

/// The slice of `s` without white space at either end.
pub fn trim_str(s: &str) -> (r: &str)
    ensures
        r@ == trim(s@),
{
    let n = s.unicode_len();
    let mut i: usize = 0;
    assert(s@.subrange(0, n as int) =~= s@);
    while i < n && is_space_char(s.get_char(i))
        invariant
            i <= n,
            n == s@.len(),
            trim_start(s@) == trim_start(s@.subrange(i as int, n as int)),
        decreases n - i,
    {
        assert(s@.subrange(i as int, n as int).drop_first() =~= s@.subrange(i + 1, n as int));
        i = i + 1;
    }
    assert(trim_start(s@) == s@.subrange(i as int, n as int));
    let mut j: usize = n;
    while j > i && is_space_char(s.get_char(j - 1))
        invariant
            i <= j <= n,
            n == s@.len(),
            trim(s@) == trim_end(s@.subrange(i as int, j as int)),
        decreases j,
    {
        assert(s@.subrange(i as int, j as int).drop_last() =~= s@.subrange(i as int, j - 1));
        j = j - 1;
    }
    s.substring_char(i, j)
}

/// Whether `c` occurs in `s`.
pub fn has_char(s: &str, c: char) -> (r: bool)
    ensures
        r == s@.contains(c),
{
    let n = s.unicode_len();
    let mut i: usize = 0;
    while i < n
        invariant
            i <= n,
            n == s@.len(),
            forall|k: int| 0 <= k < i ==> s@[k] != c,
        decreases n - i,
    {
        if s.get_char(i) == c {
            return true;
        }
        i = i + 1;
    }
    false
}

/// The pieces of `s` between occurrences of `sep`.
pub fn split_str(s: &str, sep: char) -> (r: Vec<String>)
    ensures
        r.deep_view() == split_on(s@, sep),
{
    let n = s.unicode_len();
    let mut cells: Vec<String> = Vec::new();
    let mut start: usize = 0;
    let mut i: usize = 0;
    assert(s@.take(0) =~= Seq::<char>::empty());
    assert(cells.deep_view().push(s@.subrange(0, 0)) =~= seq![Seq::<char>::empty()]);
    while i < n
        invariant
            start <= i <= n,
            n == s@.len(),
            split_on(s@.take(i as int), sep) == cells.deep_view().push(
                s@.subrange(start as int, i as int),
            ),
        decreases n - i,
    {
        let c = s.get_char(i);
        assert(s@.take(i + 1).drop_last() =~= s@.take(i as int));
        assert(s@.take(i + 1).last() == c);
        if c == sep {
            let piece = s.substring_char(start, i).to_owned();
            let ghost before = cells.deep_view();
            cells.push(piece);
            assert(cells.deep_view() =~= before.push(piece@));
            start = i + 1;
            assert(s@.subrange(start as int, i + 1) =~= Seq::<char>::empty());
        } else {
            assert(s@.subrange(start as int, i as int).push(c) =~= s@.subrange(start as int, i + 1));
        }
        i = i + 1;
    }
    let piece = s.substring_char(start, n).to_owned();
    let ghost before = cells.deep_view();
    cells.push(piece);
    assert(cells.deep_view() =~= before.push(piece@));
    assert(s@.take(n as int) =~= s@);
    cells
}

/// The lines of `s`, as `str::lines` gives them.
pub fn split_lines(s: &str) -> (r: Vec<String>)
    ensures
        r.deep_view() == lines_of(s@),
{
    let p = split_str(s, '\n');
    proof {
        lemma_split_on_nonempty(s@, '\n');
    }
    let n = s.unicode_len();
    let k: usize = if n == 0 || s.get_char(n - 1) == '\n' {
        p.len() - 1
    } else {
        p.len()
    };
    let ghost want = lines_of(s@);
    assert(want.len() == k);
    let mut out: Vec<String> = Vec::new();
    let mut i: usize = 0;
    while i < k
        invariant
            i <= k <= p.len(),
            p.deep_view() == split_on(s@, '\n'),
            want == lines_of(s@),
            want.len() == k,
            out.deep_view() =~= want.take(i as int),
        decreases k - i,
    {
        let piece: &str = p[i].as_str();
        let m = piece.unicode_len();
        assert(p.deep_view()[i as int] == p@[i as int]@);
        let ghost before = out.deep_view();
        if i + 1 < p.len() && m > 0 && piece.get_char(m - 1) == '\r' {
            let line = piece.substring_char(0, m - 1).to_owned();
            assert(line@ =~= p@[i as int]@.drop_last());
            out.push(line);
        } else {
            out.push(p[i].clone());
        }
        assert(out.deep_view() =~= before.push(want[i as int]));
        assert(want.take(i + 1) =~= want.take(i as int).push(want[i as int]));
        i = i + 1;
    }
    assert(want.take(k as int) =~= want);
    out
}

} // verus!
