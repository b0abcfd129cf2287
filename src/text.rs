//! Character-level helpers shared by the reference and record-file parsers.
use vstd::prelude::*;

verus! {

broadcast use vstd::string::group_string_axioms;

/// The pieces of `s` between occurrences of `c`, as `str::split` yields them:
/// always at least one piece, empty pieces kept.
pub open spec fn split_on(s: Seq<char>, c: char) -> Seq<Seq<char>>
    decreases s.len(),
{
    if s.len() == 0 {
        seq![Seq::empty()]
    } else {
        let rest = split_on(s.drop_last(), c);
        if s.last() == c {
            rest.push(Seq::empty())
        } else {
            rest.update(rest.len() - 1, rest.last().push(s.last()))
        }
    }
}

proof fn lemma_split_on_nonempty(s: Seq<char>, c: char)
    ensures
        split_on(s, c).len() >= 1,
    decreases s.len(),
{
    if s.len() > 0 {
        lemma_split_on_nonempty(s.drop_last(), c);
    }
}

/// `s` without its trailing carriage return, if it has one.
pub open spec fn strip_cr(s: Seq<char>) -> Seq<char> {
    if s.len() > 0 && s.last() == '\r' {
        s.drop_last()
    } else {
        s
    }
}

/// The lines of `s`, as `str::lines` yields them: split at `\n`, a `\r` just
/// before a `\n` dropped, and no empty last line after a final `\n`.
pub open spec fn lines_of(s: Seq<char>) -> Seq<Seq<char>> {
    let parts = split_on(s, '\n');
    let n = parts.len() - 1;
    let ended = Seq::new(n as nat, |i: int| strip_cr(parts[i]));
    if parts[n].len() == 0 {
        ended
    } else {
        ended.push(parts[n])
    }
}

/// Lines joined with `\n` between them, none after the last.
pub open spec fn join_lines(ls: Seq<Seq<char>>) -> Seq<char>
    decreases ls.len(),
{
    if ls.len() == 0 {
        Seq::empty()
    } else if ls.len() == 1 {
        ls[0]
    } else {
        join_lines(ls.drop_last()) + seq!['\n'] + ls.last()
    }
}

/// The character sequences held by a vector of character vectors.
pub open spec fn views(v: Seq<Vec<char>>) -> Seq<Seq<char>> {
    v.map_values(|p: Vec<char>| p@)
}

proof fn lemma_split_on_step(s: Seq<char>, c: char, i: int)
    requires
        0 <= i < s.len(),
    ensures
        split_on(s.take(i + 1), c) == ({
            let rest = split_on(s.take(i), c);
            if s[i] == c {
                rest.push(Seq::empty())
            } else {
                rest.update(rest.len() - 1, rest.last().push(s[i]))
            }
        }),
{
    assert(s.take(i + 1).drop_last() =~= s.take(i));
}

/// The pieces of `s` between occurrences of `c`.
pub fn split_chars(s: &[char], c: char) -> (r: Vec<Vec<char>>)
    ensures
        views(r@) == split_on(s@, c),
{
    let mut done: Vec<Vec<char>> = Vec::new();
    let mut cur: Vec<char> = Vec::new();
    let n = s.len();
    for i in 0..n
        invariant
            n == s@.len(),
            views(done@).push(cur@) == split_on(s@.take(i as int), c),
    {
        proof {
            lemma_split_on_step(s@, c, i as int);
            lemma_split_on_nonempty(s@.take(i as int), c);
        }
        if s[i] == c {
            done.push(cur);
            cur = Vec::new();
            assert(views(done@).push(cur@) =~= split_on(s@.take(i + 1), c));
        } else {
            cur.push(s[i]);
            assert(views(done@).push(cur@) =~= split_on(s@.take(i + 1), c));
        }
    }
    assert(s@.take(n as int) =~= s@);
    done.push(cur);
    assert(views(done@) =~= split_on(s@, c));
    done
}

/// The lines of `s`, as [`lines_of`] describes them.
pub fn split_lines(s: &[char]) -> (r: Vec<Vec<char>>)
    ensures
        views(r@) == lines_of(s@),
{
    let mut done: Vec<Vec<char>> = Vec::new();
    let mut cur: Vec<char> = Vec::new();
    let n = s.len();
    let mut i: usize = 0;
    while i < n
        invariant
            n == s@.len(),
            i <= n,
            split_on(s@.take(i as int), '\n').len() == done@.len() + 1,
            forall|j: int|
                0 <= j < done@.len() ==> done@[j]@ == strip_cr(
                    #[trigger] split_on(s@.take(i as int), '\n')[j],
                ),
            cur@ == split_on(s@.take(i as int), '\n').last(),
        decreases n - i,
    {
        proof {
            lemma_split_on_step(s@, '\n', i as int);
        }
        let ghost before = split_on(s@.take(i as int), '\n');
        let ghost after = split_on(s@.take(i + 1), '\n');
        let ghost old_done = done@;
        if s[i] == '\n' {
            let m = cur.len();
            if m > 0 && cur[m - 1] == '\r' {
                cur.pop();
            }
            assert(cur@ == strip_cr(before.last()));
            let ghost stripped = cur@;
            done.push(cur);
            cur = Vec::new();
            assert(after == before.push(Seq::empty()));
            assert(done@[old_done.len() as int]@ == stripped);
            assert forall|j: int| 0 <= j < done@.len() implies done@[j]@ == strip_cr(
                #[trigger] after[j],
            ) by {
                if j < old_done.len() {
                    assert(after[j] == before[j]);
                    assert(old_done[j]@ == strip_cr(before[j]));
                    assert(done@[j] == old_done[j]);
                }
            }
        } else {
            cur.push(s[i]);
            assert forall|j: int| 0 <= j < done@.len() implies done@[j]@ == strip_cr(
                #[trigger] after[j],
            ) by {
                assert(after[j] == before[j]);
            }
        }
        i = i + 1;
    }
    assert(s@.take(n as int) =~= s@);
    let ghost parts = split_on(s@, '\n');
    let ghost ended = done@;
    assert(views(ended) =~= Seq::new((parts.len() - 1) as nat, |j: int| strip_cr(parts[j])));
    if cur.len() > 0 {
        done.push(cur);
        assert(views(done@) =~= views(ended).push(parts.last()));
    }
    assert(views(done@) =~= lines_of(s@));
    done
}

/// The white-space characters of Unicode, as `char::is_whitespace` knows them.
pub open spec fn is_white(c: char) -> bool {
    let u = c as u32;
    (9 <= u <= 13) || u == 32 || u == 0x85 || u == 0xa0 || u == 0x1680 || (0x2000 <= u
        <= 0x200a) || u == 0x2028 || u == 0x2029 || u == 0x202f || u == 0x205f || u == 0x3000
}

/// Whether `s` holds nothing but white space (the empty sequence included).
pub open spec fn is_blank(s: Seq<char>) -> bool {
    forall|i: int| 0 <= i < s.len() ==> is_white(#[trigger] s[i])
}

/// `is_white`, computed.
pub fn is_white_char(c: char) -> (r: bool)
    ensures
        r == is_white(c),
{
    let u = c as u32;
    (9 <= u && u <= 13) || u == 32 || u == 0x85 || u == 0xa0 || u == 0x1680 || (0x2000 <= u && u
        <= 0x200a) || u == 0x2028 || u == 0x2029 || u == 0x202f || u == 0x205f || u == 0x3000
}

/// `s` without its leading white space.
pub open spec fn trim_start(s: Seq<char>) -> Seq<char>
    decreases s.len(),
{
    if s.len() > 0 && is_white(s[0]) {
        trim_start(s.drop_first())
    } else {
        s
    }
}

/// `s` without its trailing white space.
pub open spec fn trim_end(s: Seq<char>) -> Seq<char>
    decreases s.len(),
{
    if s.len() > 0 && is_white(s.last()) {
        trim_end(s.drop_last())
    } else {
        s
    }
}

/// `s` without leading or trailing white space, as `str::trim` gives it.
pub open spec fn trim(s: Seq<char>) -> Seq<char> {
    trim_end(trim_start(s))
}

/// The bounds of `trim(s[a..b])` within `s`.
pub fn trim_bounds(s: &[char], a: usize, b: usize) -> (r: (usize, usize))
    requires
        a <= b <= s@.len(),
    ensures
        a <= r.0 <= r.1 <= b,
        s@.subrange(r.0 as int, r.1 as int) == trim(s@.subrange(a as int, b as int)),
{
    let ghost whole = s@.subrange(a as int, b as int);
    let mut lo = a;
    while lo < b && is_white_char(s[lo])
        invariant
            a <= lo <= b <= s@.len(),
            whole == s@.subrange(a as int, b as int),
            trim_start(whole) == trim_start(s@.subrange(lo as int, b as int)),
        decreases b - lo,
    {
        assert(s@.subrange(lo as int, b as int).drop_first() =~= s@.subrange(lo + 1, b as int));
        lo = lo + 1;
    }
    let ghost front = s@.subrange(lo as int, b as int);
    assert(trim_start(whole) == front);
    let mut hi = b;
    while hi > lo && is_white_char(s[hi - 1])
        invariant
            a <= lo <= hi <= b <= s@.len(),
            front == s@.subrange(lo as int, b as int),
            trim_end(front) == trim_end(s@.subrange(lo as int, hi as int)),
        decreases hi - lo,
    {
        assert(s@.subrange(lo as int, hi as int).drop_last() =~= s@.subrange(lo as int, hi - 1));
        hi = hi - 1;
    }
    (lo, hi)
}

/// Whether `a` and `b` hold the same characters.
pub fn same_chars(a: &[char], b: &[char]) -> (r: bool)
    ensures
        r == (a@ == b@),
{
    if a.len() != b.len() {
        return false;
    }
    let mut i: usize = 0;
    while i < a.len()
        invariant
            a@.len() == b@.len(),
            i <= a@.len(),
            forall|j: int| 0 <= j < i ==> a@[j] == b@[j],
        decreases a.len() - i,
    {
        if a[i] != b[i] {
            assert(a@[i as int] != b@[i as int]);
            return false;
        }
        i = i + 1;
    }
    assert(a@ =~= b@);
    true
}

/// Lines, each followed by a line break.
pub open spec fn terminated(ls: Seq<Seq<char>>) -> Seq<char>
    decreases ls.len(),
{
    if ls.len() == 0 {
        Seq::empty()
    } else {
        terminated(ls.drop_last()) + ls.last() + seq!['\n']
    }
}

/// `s` has no white space at either end.
pub open spec fn no_outer_space(s: Seq<char>) -> bool {
    s.len() == 0 || (!is_white(s[0]) && !is_white(s.last()))
}

pub proof fn lemma_concat_lacks(a: Seq<char>, b: Seq<char>, c: char)
    requires
        !a.contains(c),
        !b.contains(c),
    ensures
        !(a + b).contains(c),
{
    assert forall|i: int| 0 <= i < (a + b).len() implies (a + b)[i] != c by {
        if i < a.len() {
            assert((a + b)[i] == a[i]);
        } else {
            assert((a + b)[i] == b[i - a.len()]);
        }
    }
}

pub proof fn lemma_split_on_plain(x: Seq<char>, c: char)
    requires
        !x.contains(c),
    ensures
        split_on(x, c) == seq![x],
    decreases x.len(),
{
    if x.len() > 0 {
        assert(!x.drop_last().contains(c)) by {
            assert forall|i: int| 0 <= i < x.drop_last().len() implies x.drop_last()[i] != c by {
                assert(x.drop_last()[i] == x[i]);
            }
        }
        lemma_split_on_plain(x.drop_last(), c);
        assert(x.last() != c) by {
            assert(x[x.len() - 1] == x.last());
        }
        assert(x.drop_last().push(x.last()) =~= x);
        assert(split_on(x, c) =~= seq![x]);
    } else {
        assert(x =~= Seq::<char>::empty());
    }
}

/// Splitting at a separator splits the parts on either side of it.
pub proof fn lemma_split_on_concat(x: Seq<char>, y: Seq<char>, c: char)
    ensures
        split_on(x + seq![c] + y, c) == split_on(x, c) + split_on(y, c),
    decreases y.len(),
{
    let z = x + seq![c] + y;
    assert(split_on(Seq::<char>::empty(), c) == seq![Seq::<char>::empty()]);
    if y.len() == 0 {
        assert(z.drop_last() =~= x);
        assert(y =~= Seq::<char>::empty());
        assert(split_on(z, c) =~= split_on(x, c) + split_on(y, c));
    } else {
        lemma_split_on_concat(x, y.drop_last(), c);
        assert(z.drop_last() =~= x + seq![c] + y.drop_last());
        lemma_split_on_nonempty(y.drop_last(), c);
        assert(z.last() == y.last());
        assert(split_on(z, c) =~= split_on(x, c) + split_on(y, c));
    }
}

proof fn lemma_split_terminated(ls: Seq<Seq<char>>)
    requires
        forall|i: int| 0 <= i < ls.len() ==> !(#[trigger] ls[i]).contains('\n'),
    ensures
        split_on(terminated(ls), '\n') == ls.push(Seq::empty()),
    decreases ls.len(),
{
    let e = Seq::<char>::empty();
    assert(split_on(e, '\n') == seq![e]);
    if ls.len() == 0 {
        assert(terminated(ls) == e);
        assert(split_on(terminated(ls), '\n') =~= ls.push(e));
    } else {
        let init = ls.drop_last();
        let l = ls.last();
        assert(!l.contains('\n')) by {
            assert(ls[ls.len() - 1] == l);
        }
        assert forall|i: int| 0 <= i < init.len() implies !(#[trigger] init[i]).contains('\n') by {
            assert(init[i] == ls[i]);
        }
        lemma_split_terminated(init);
        lemma_split_on_plain(l, '\n');
        lemma_split_on_concat(l, e, '\n');
        assert(l + seq!['\n'] + e =~= l + seq!['\n']);
        if init.len() == 0 {
            assert(terminated(init) == e);
            assert(terminated(ls) =~= l + seq!['\n']);
            assert(split_on(terminated(ls), '\n') =~= ls.push(e));
        } else {
            let front = terminated(init.drop_last()) + init.last();
            assert(terminated(init) =~= front + seq!['\n']);
            lemma_split_on_concat(front, e, '\n');
            assert(front + seq!['\n'] + e =~= front + seq!['\n']);
            assert(split_on(front, '\n') =~= init) by {
                assert(split_on(front, '\n') + seq![e] =~= init.push(e));
                assert(split_on(front, '\n') =~= (split_on(front, '\n') + seq![e]).drop_last());
            }
            lemma_split_on_concat(front, l + seq!['\n'], '\n');
            assert(terminated(ls) =~= front + seq!['\n'] + (l + seq!['\n']));
            assert(split_on(terminated(ls), '\n') =~= ls.push(e));
        }
    }
}

/// The lines of text written as lines each followed by a line break are those
/// lines, when none holds a line break or ends with a carriage return.
pub proof fn lemma_lines_of_terminated(ls: Seq<Seq<char>>)
    requires
        forall|i: int| 0 <= i < ls.len() ==> !(#[trigger] ls[i]).contains('\n'),
        forall|i: int| 0 <= i < ls.len() ==> strip_cr(#[trigger] ls[i]) == ls[i],
    ensures
        lines_of(terminated(ls)) == ls,
{
    lemma_split_terminated(ls);
    let parts = ls.push(Seq::<char>::empty());
    assert(Seq::new(ls.len(), |i: int| strip_cr(parts[i])) =~= ls) by {
        assert forall|i: int| 0 <= i < ls.len() implies strip_cr(parts[i]) == ls[i] by {
            assert(parts[i] == ls[i]);
        }
    }
}

proof fn lemma_trim_end_keeps_first(s: Seq<char>)
    requires
        s.len() > 0,
        !is_white(s[0]),
    ensures
        trim_end(s).len() > 0,
        trim_end(s)[0] == s[0],
    decreases s.len(),
{
    if is_white(s.last()) {
        assert(s.len() > 1);
        assert(s.drop_last()[0] == s[0]);
        lemma_trim_end_keeps_first(s.drop_last());
    }
}

/// Trimming keeps a first character that is not white space.
pub proof fn lemma_trim_keeps_first(s: Seq<char>)
    requires
        s.len() > 0,
        !is_white(s[0]),
    ensures
        trim(s).len() > 0,
        trim(s)[0] == s[0],
{
    lemma_trim_end_keeps_first(s);
}

/// Trimming changes nothing without white space at either end.
pub proof fn lemma_trim_plain(s: Seq<char>)
    requires
        no_outer_space(s),
    ensures
        trim(s) == s,
{
}

/// The characters of `s`, in order.
pub fn chars_of(s: &str) -> (r: Vec<char>)
    ensures
        r@ == s@,
{
    let mut out: Vec<char> = Vec::new();
    for c in iter: s.chars()
        invariant
            iter.seq() == s@,
            out@ == iter.seq().take(iter.index() as int),
    {
        out.push(c);
    }
    out
}

/// Appends the characters `s[a..b]` to `out`.
pub fn append_range(out: &mut Vec<char>, s: &[char], a: usize, b: usize)
    requires
        a <= b <= s@.len(),
    ensures
        final(out)@ == old(out)@ + s@.subrange(a as int, b as int),
{
    let mut i = a;
    while i < b
        invariant
            a <= i <= b <= s@.len(),
            out@ == old(out)@ + s@.subrange(a as int, i as int),
        decreases b - i,
    {
        out.push(s[i]);
        i = i + 1;
        assert(out@ =~= old(out)@ + s@.subrange(a as int, i as int));
    }
}

/// Appends the characters of `s` to `out`.
pub fn append_str(out: &mut Vec<char>, s: &str)
    ensures
        final(out)@ == old(out)@ + s@,
{
    let mut cs = chars_of(s);
    out.append(&mut cs);
}

/// Relies on `String`'s `FromIterator<&char>`: the string holds the given
/// characters, in order.
#[verifier::external_body]
pub(crate) fn string_of(cs: &[char]) -> (r: String)
    ensures
        r@ == cs@,
{
    cs.iter().collect()
}

} // verus!
