//! Searching and splitting sequences: the mathematical model of
//! `str::split`, `str::split_once`, `str::trim` and their byte counterparts.
use vstd::prelude::*;

verus! {

/// `pat` occurs in `s` starting at index `i`.
pub open spec fn occurs_at<A>(s: Seq<A>, pat: Seq<A>, i: int) -> bool {
    0 <= i && i + pat.len() <= s.len() && s.subrange(i, i + pat.len()) == pat
}

/// The first index at or after `pos` where `pat` occurs in `s`.
pub open spec fn find_from<A>(s: Seq<A>, pat: Seq<A>, pos: int) -> Option<int>
    decreases s.len() + 1 - pos,
{
    if pos < 0 || pos + pat.len() > s.len() {
        None
    } else if occurs_at(s, pat, pos) {
        Some(pos)
    } else {
        find_from(s, pat, pos + 1)
    }
}

/// The first index where `pat` occurs in `s`.
pub open spec fn find<A>(s: Seq<A>, pat: Seq<A>) -> Option<int> {
    find_from(s, pat, 0)
}

/// The pieces of `s[start..]` between the non-overlapping occurrences of a
/// non-empty `pat`, scanning from `pos`.
pub open spec fn split_from<A>(s: Seq<A>, pat: Seq<A>, start: int, pos: int) -> Seq<Seq<A>>
    decreases s.len() - pos,
{
    if start < 0 || pos < start || pat.len() == 0 || pos + pat.len() > s.len() {
        seq![s.subrange(start, s.len() as int)]
    } else if occurs_at(s, pat, pos) {
        seq![s.subrange(start, pos)] + split_from(s, pat, pos + pat.len(), pos + pat.len())
    } else {
        split_from(s, pat, start, pos + 1)
    }
}

/// `s` split at every occurrence of the non-empty separator `pat`, as
/// `str::split` and bstr's `split_str` do it.
pub open spec fn split<A>(s: Seq<A>, pat: Seq<A>) -> Seq<Seq<A>> {
    split_from(s, pat, 0, 0)
}

/// `s` split around the first occurrence of `pat`, as `str::split_once`.
pub open spec fn split_once<A>(s: Seq<A>, pat: Seq<A>) -> Option<(Seq<A>, Seq<A>)> {
    match find(s, pat) {
        Some(i) => Some((s.subrange(0, i), s.subrange(i + pat.len(), s.len() as int))),
        None => None,
    }
}

/// `find_from` gives the least occurrence at or after `pos`.
pub proof fn lemma_find_from<A>(s: Seq<A>, pat: Seq<A>, pos: int)
    requires
        0 <= pos,
    ensures
        match find_from(s, pat, pos) {
            Some(i) => pos <= i && occurs_at(s, pat, i) && forall|j: int|
                pos <= j < i ==> !occurs_at(s, pat, j),
            None => forall|j: int| pos <= j ==> !occurs_at(s, pat, j),
        },
    decreases s.len() + 1 - pos,
{
    if pos + pat.len() > s.len() {
    } else if occurs_at(s, pat, pos) {
    } else {
        lemma_find_from(s, pat, pos + 1);
    }
}

/// An index that is an occurrence with none before it is what `find` returns.
pub proof fn lemma_find_unique<A>(s: Seq<A>, pat: Seq<A>, i: int)
    requires
        occurs_at(s, pat, i),
        forall|j: int| 0 <= j < i ==> !occurs_at(s, pat, j),
    ensures
        find(s, pat) == Some(i),
{
    lemma_find_from(s, pat, 0);
    match find(s, pat) {
        Some(k) => {
            if k < i {
            } else if k > i {
            }
        },
        None => {},
    }
}

/// A sequence with no occurrence anywhere has no `find` result.
pub proof fn lemma_find_none<A>(s: Seq<A>, pat: Seq<A>)
    requires
        forall|j: int| !occurs_at(s, pat, j),
    ensures
        find(s, pat) is None,
{
    lemma_find_from(s, pat, 0);
}

/// Splitting takes the piece up to the next occurrence, then goes on after it.
pub proof fn lemma_split_find<A>(s: Seq<A>, pat: Seq<A>, start: int, pos: int)
    requires
        pat.len() > 0,
        0 <= start <= pos,
    ensures
        split_from(s, pat, start, pos) == match find_from(s, pat, pos) {
            None => seq![s.subrange(start, s.len() as int)],
            Some(i) => seq![s.subrange(start, i)] + split_from(s, pat, i + pat.len(), i + pat.len()),
        },
    decreases s.len() + 1 - pos,
{
    if pos + pat.len() > s.len() {
    } else if occurs_at(s, pat, pos) {
    } else {
        lemma_split_find(s, pat, start, pos + 1);
    }
}

/// Occurrences in a suffix are occurrences in the whole, shifted.
pub proof fn lemma_occurs_shift<A>(s: Seq<A>, pat: Seq<A>, start: int, j: int)
    requires
        0 <= start <= s.len(),
        0 <= j,
    ensures
        occurs_at(s.subrange(start, s.len() as int), pat, j) == occurs_at(s, pat, start + j),
{
    let t = s.subrange(start, s.len() as int);
    if 0 <= j && j + pat.len() <= t.len() {
        assert(t.subrange(j, j + pat.len()) =~= s.subrange(start + j, start + j + pat.len()));
    }
}

/// Splitting always gives at least one piece.
pub proof fn lemma_split_from_nonempty<A>(s: Seq<A>, pat: Seq<A>, start: int, pos: int)
    ensures
        split_from(s, pat, start, pos).len() >= 1,
    decreases s.len() + 1 - pos,
{
    if start < 0 || pos < start || pat.len() == 0 || pos + pat.len() > s.len() {
    } else if occurs_at(s, pat, pos) {
    } else {
        lemma_split_from_nonempty(s, pat, start, pos + 1);
    }
}

/// Splitting always gives at least one piece.
pub proof fn lemma_split_nonempty<A>(s: Seq<A>, pat: Seq<A>)
    ensures
        split(s, pat).len() >= 1,
{
    lemma_split_from_nonempty(s, pat, 0, 0);
}

/// Splitting a suffix is splitting the whole from a later position.
pub proof fn lemma_split_from_shift<A>(s: Seq<A>, pat: Seq<A>, k: int, start: int, pos: int)
    requires
        0 <= k <= s.len(),
        0 <= start <= pos,
        k + start <= s.len(),
    ensures
        split_from(s, pat, k + start, k + pos) == split_from(s.subrange(k, s.len() as int), pat, start, pos),
    decreases s.len() + 1 - (k + pos),
{
    let t = s.subrange(k, s.len() as int);
    assert(s.subrange(k + start, s.len() as int) =~= t.subrange(start, t.len() as int));
    if pat.len() == 0 || k + pos + pat.len() > s.len() {
    } else {
        lemma_occurs_shift(s, pat, k, pos);
        if occurs_at(s, pat, k + pos) {
            assert(s.subrange(k + start, k + pos) =~= t.subrange(start, pos));
            lemma_split_from_shift(s, pat, k, pos + pat.len(), pos + pat.len());
        } else {
            lemma_split_from_shift(s, pat, k, start, pos + 1);
        }
    }
}

/// Scanning past positions where `pat` does not occur changes nothing.
pub proof fn lemma_split_skip<A>(s: Seq<A>, pat: Seq<A>, start: int, pos: int, q: int)
    requires
        0 <= start <= pos <= q,
        pat.len() > 0,
        forall|j: int| pos <= j < q ==> !occurs_at(s, pat, j),
    ensures
        split_from(s, pat, start, pos) == split_from(s, pat, start, q),
    decreases q - pos,
{
    if pos < q {
        if pos + pat.len() > s.len() {
            lemma_split_skip_end(s, pat, start, q);
        } else {
            lemma_split_skip(s, pat, start, pos + 1, q);
        }
    }
}

proof fn lemma_split_skip_end<A>(s: Seq<A>, pat: Seq<A>, start: int, q: int)
    requires
        0 <= start <= q,
        pat.len() > 0,
        q + pat.len() > s.len(),
    ensures
        split_from(s, pat, start, q) == seq![s.subrange(start, s.len() as int)],
{
}

/// A text without the separator is one piece.
pub proof fn lemma_split_none<A>(s: Seq<A>, c: A)
    requires
        !s.contains(c),
    ensures
        split(s, seq![c]) == seq![s],
{
    assert forall|j: int| 0 <= j < s.len() implies !occurs_at(s, seq![c], j) by {
        if occurs_at(s, seq![c], j) {
            assert(s.subrange(j, j + 1)[0] == c);
        }
    }
    lemma_split_skip(s, seq![c], 0, 0, s.len() as int);
    assert(s.subrange(0, s.len() as int) =~= s);
}

/// The piece before the first separator, then the pieces of the rest.
pub proof fn lemma_split_prefix<A>(a: Seq<A>, c: A, b: Seq<A>)
    requires
        !a.contains(c),
    ensures
        split(a + seq![c] + b, seq![c]) == seq![a] + split(b, seq![c]),
{
    let s = a + seq![c] + b;
    let pat = seq![c];
    assert forall|j: int| 0 <= j < a.len() implies !occurs_at(s, pat, j) by {
        if occurs_at(s, pat, j) {
            assert(s.subrange(j, j + 1)[0] == c);
            assert(s[j] == a[j]);
        }
    }
    lemma_split_skip(s, pat, 0, 0, a.len() as int);
    assert(s.subrange(a.len() as int, a.len() + 1int) =~= pat);
    assert(occurs_at(s, pat, a.len() as int));
    assert(s.subrange(0, a.len() as int) =~= a);
    lemma_split_from_shift(s, pat, a.len() + 1int, 0, 0);
    assert(s.subrange(a.len() + 1int, s.len() as int) =~= b);
}

/// The first occurrence of `pat` in `a + pat + b`, where it cannot start
/// inside `a`, is right after `a`.
pub proof fn lemma_find_after<A>(a: Seq<A>, pat: Seq<A>, b: Seq<A>)
    requires
        forall|j: int| 0 <= j < a.len() ==> !occurs_at(#[trigger] (a + pat + b), pat, j),
    ensures
        find(a + pat + b, pat) == Some(a.len() as int),
{
    let s = a + pat + b;
    assert(s.subrange(a.len() as int, a.len() + pat.len() as int) =~= pat);
    lemma_find_unique(s, pat, a.len() as int);
}

/// No element of `s` is `c`.
pub open spec fn free_of<A>(s: Seq<A>, c: A) -> bool {
    forall|j: int| 0 <= j < s.len() ==> s[j] != c
}

proof fn lemma_split_from_free<A>(s: Seq<A>, c: A, start: int, pos: int)
    requires
        0 <= start <= pos <= s.len(),
        forall|j: int| start <= j < pos ==> s[j] != c,
    ensures
        forall|i: int| 0 <= i < split_from(s, seq![c], start, pos).len() ==> free_of(
            #[trigger] split_from(s, seq![c], start, pos)[i],
            c,
        ),
    decreases s.len() + 1 - pos,
{
    let pat = seq![c];
    if pos + 1 > s.len() {
        let piece = s.subrange(start, s.len() as int);
        assert(free_of(piece, c));
        assert(split_from(s, pat, start, pos) =~= seq![piece]);
        assert forall|i: int| 0 <= i < split_from(s, pat, start, pos).len() implies free_of(
            #[trigger] split_from(s, pat, start, pos)[i],
            c,
        ) by {
            assert(split_from(s, pat, start, pos)[i] == piece);
        }
    } else if occurs_at(s, pat, pos) {
        let piece = s.subrange(start, pos);
        assert(free_of(piece, c));
        lemma_split_from_free(s, c, pos + 1, pos + 1);
        let rest = split_from(s, pat, pos + 1, pos + 1);
        assert(split_from(s, pat, start, pos) == seq![piece] + rest);
        assert forall|i: int| 0 <= i < split_from(s, pat, start, pos).len() implies free_of(
            #[trigger] split_from(s, pat, start, pos)[i],
            c,
        ) by {
            if i > 0 {
                assert(split_from(s, pat, start, pos)[i] == rest[i - 1]);
            } else {
                assert(split_from(s, pat, start, pos)[i] == piece);
            }
        }
    } else {
        assert(s.subrange(pos, pos + 1)[0] == s[pos]);
        if s[pos] == c {
            assert(s.subrange(pos, pos + 1) =~= pat);
        }
        lemma_split_from_free(s, c, start, pos + 1);
        assert(split_from(s, pat, start, pos) == split_from(s, pat, start, pos + 1));
    }
}

/// No piece of a split holds the separator.
pub proof fn lemma_split_free<A>(s: Seq<A>, c: A)
    ensures
        forall|i: int| 0 <= i < split(s, seq![c]).len() ==> free_of(#[trigger] split(s, seq![c])[i], c),
{
    lemma_split_from_free(s, c, 0, 0);
}

/// The pieces joined with `sep` between each two.
pub open spec fn join<A>(parts: Seq<Seq<A>>, sep: Seq<A>) -> Seq<A>
    decreases parts.len(),
{
    if parts.len() == 0 {
        Seq::empty()
    } else if parts.len() == 1 {
        parts[0]
    } else {
        join(parts.drop_last(), sep) + sep + parts.last()
    }
}

/// Joining puts the first piece, the separator, and the rest joined.
pub proof fn lemma_join_front<A>(parts: Seq<Seq<A>>, sep: Seq<A>)
    requires
        parts.len() >= 2,
    ensures
        join(parts, sep) == parts[0] + sep + join(parts.drop_first(), sep),
    decreases parts.len(),
{
    if parts.len() == 2 {
        assert(parts.drop_last().len() == 1);
        assert(parts.drop_first().len() == 1);
        assert(parts.drop_last()[0] == parts[0]);
        assert(parts.drop_first()[0] == parts[1]);
        assert(join(parts.drop_last(), sep) == parts[0]);
        assert(join(parts.drop_first(), sep) == parts[1]);
        assert(join(parts, sep) =~= parts[0] + sep + join(parts.drop_first(), sep));
    } else {
        assert(join(parts.drop_first(), sep) == join(parts.drop_first().drop_last(), sep) + sep
            + parts.drop_first().last());
        lemma_join_front(parts.drop_last(), sep);
        assert(parts.drop_last().drop_first() =~= parts.drop_first().drop_last());
        assert(parts.drop_last()[0] == parts[0]);
        assert(parts.drop_first().last() == parts.last());
        assert(join(parts, sep) =~= parts[0] + sep + join(parts.drop_first(), sep));
    }
}

/// The piece before the first occurrence of `pat`, then the pieces of the
/// rest, where `pat` cannot start inside `a`.
pub proof fn lemma_split_prefix_pat<A>(a: Seq<A>, pat: Seq<A>, b: Seq<A>)
    requires
        pat.len() > 0,
        forall|j: int| 0 <= j < a.len() ==> !occurs_at(#[trigger] (a + pat + b), pat, j),
    ensures
        split(a + pat + b, pat) == seq![a] + split(b, pat),
{
    let s = a + pat + b;
    lemma_split_skip(s, pat, 0, 0, a.len() as int);
    assert(s.subrange(a.len() as int, a.len() + pat.len() as int) =~= pat);
    assert(occurs_at(s, pat, a.len() as int));
    assert(s.subrange(0, a.len() as int) =~= a);
    lemma_split_from_shift(s, pat, a.len() + pat.len() as int, 0, 0);
    assert(s.subrange(a.len() + pat.len() as int, s.len() as int) =~= b);
}

/// A text where `pat` occurs nowhere is one piece.
pub proof fn lemma_split_none_pat<A>(s: Seq<A>, pat: Seq<A>)
    requires
        pat.len() > 0,
        forall|j: int| !occurs_at(s, pat, j),
    ensures
        split(s, pat) == seq![s],
{
    lemma_split_skip(s, pat, 0, 0, s.len() as int);
    assert(s.subrange(0, s.len() as int) =~= s);
}

/// `a`, the separator `c` and `b` split once at that separator, where `a`
/// holds no `c`.
pub proof fn lemma_split_once_at<A>(a: Seq<A>, c: A, b: Seq<A>)
    requires
        free_of(a, c),
    ensures
        split_once(a + seq![c] + b, seq![c]) == Some((a, b)),
{
    let pat = seq![c];
    let s = a + pat + b;
    assert forall|j: int| 0 <= j < a.len() implies !occurs_at(#[trigger] (a + pat + b), pat, j) by {
        if occurs_at(s, pat, j) {
            assert(s.subrange(j, j + 1)[0] == c);
            assert(s[j] == a[j]);
        }
    }
    lemma_find_after(a, pat, b);
    assert(s.subrange(0, a.len() as int) =~= a);
    assert(s.subrange(a.len() + 1int, s.len() as int) =~= b);
}

/// A sequence that holds no `c` does not split at `c`.
pub proof fn lemma_split_once_free<A>(s: Seq<A>, c: A)
    requires
        free_of(s, c),
    ensures
        split_once(s, seq![c]) is None,
{
    assert forall|j: int| !occurs_at(s, seq![c], j) by {
        if occurs_at(s, seq![c], j) {
            assert(s.subrange(j, j + 1)[0] == c);
            assert(s[j] == c);
        }
    }
    lemma_find_none(s, seq![c]);
}

/// The first piece of a split is what comes before the first occurrence
/// of the separator at or after `pos`, or all of `s` where there is none.
proof fn lemma_split_from_first<A>(s: Seq<A>, pat: Seq<A>, pos: int)
    requires
        pat.len() > 0,
        0 <= pos,
    ensures
        split_from(s, pat, 0, pos).len() >= 1,
        split_from(s, pat, 0, pos)[0] == match find_from(s, pat, pos) {
            Some(i) => s.subrange(0, i),
            None => s.subrange(0, s.len() as int),
        },
    decreases s.len() + 1 - pos,
{
    if pos + pat.len() > s.len() {
    } else if occurs_at(s, pat, pos) {
    } else {
        lemma_split_from_first(s, pat, pos + 1);
    }
}

/// The first piece of `s` split at `pat` is what comes before the first
/// occurrence of `pat`, or all of `s` where there is none.
pub proof fn lemma_split_first<A>(s: Seq<A>, pat: Seq<A>)
    requires
        pat.len() > 0,
    ensures
        split(s, pat).len() >= 1,
        split(s, pat)[0] == match find(s, pat) {
            Some(i) => s.subrange(0, i),
            None => s,
        },
{
    lemma_split_from_first(s, pat, 0);
    assert(s.subrange(0, s.len() as int) =~= s);
}

/// Splitting what was joined with a separator that no piece holds gives the pieces back.
pub proof fn lemma_split_join<A>(parts: Seq<Seq<A>>, c: A)
    requires
        parts.len() >= 1,
        forall|i: int| 0 <= i < parts.len() ==> free_of(#[trigger] parts[i], c),
    ensures
        split(join(parts, seq![c]), seq![c]) == parts,
    decreases parts.len(),
{
    if parts.len() == 1 {
        assert(free_of(parts[0], c));
        lemma_split_none(parts[0], c);
        assert(split(join(parts, seq![c]), seq![c]) =~= parts);
    } else {
        lemma_join_front(parts, seq![c]);
        assert(free_of(parts[0], c));
        assert forall|i: int| 0 <= i < parts.drop_first().len() implies free_of(#[trigger] parts.drop_first()[i], c) by {
            assert(parts.drop_first()[i] == parts[i + 1]);
        }
        lemma_split_join(parts.drop_first(), c);
        lemma_split_prefix(parts[0], c, join(parts.drop_first(), seq![c]));
        assert(seq![parts[0]] + parts.drop_first() =~= parts);
    }
}

/// Splitting `x`, the separator `c` and a tail `b` that holds no `c` gives
/// the pieces of `x` and then `b`.
pub proof fn lemma_split_append<A>(x: Seq<A>, c: A, b: Seq<A>)
    requires
        free_of(b, c),
    ensures
        split(x + seq![c] + b, seq![c]) == split(x, seq![c]).push(b),
    decreases x.len(),
{
    let pat = seq![c];
    assert(!b.contains(c)) by {
        if b.contains(c) {
            let i = choose|i: int| 0 <= i < b.len() && b[i] == c;
            assert(b[i] != c);
        }
    }
    lemma_split_none(b, c);
    lemma_find_from(x, pat, 0);
    match find(x, pat) {
        None => {
            assert(!x.contains(c)) by {
                if x.contains(c) {
                    let i = choose|i: int| 0 <= i < x.len() && x[i] == c;
                    assert(x.subrange(i, i + 1) =~= pat);
                    assert(occurs_at(x, pat, i));
                }
            }
            lemma_split_none(x, c);
            lemma_split_prefix(x, c, b);
            assert(seq![x] + seq![b] =~= seq![x].push(b));
        },
        Some(i) => {
            let x1 = x.subrange(0, i);
            let x2 = x.subrange(i + 1, x.len() as int);
            assert(occurs_at(x, pat, i));
            assert(x.subrange(i, i + 1)[0] == x[i]);
            assert(x[i] == c);
            assert(x =~= x1 + pat + x2);
            assert(!x1.contains(c)) by {
                if x1.contains(c) {
                    let k = choose|k: int| 0 <= k < x1.len() && x1[k] == c;
                    assert(x.subrange(k, k + 1) =~= pat);
                    assert(occurs_at(x, pat, k));
                }
            }
            lemma_split_append(x2, c, b);
            lemma_split_prefix(x1, c, x2);
            assert(x + pat + b =~= x1 + pat + (x2 + pat + b));
            lemma_split_prefix(x1, c, x2 + pat + b);
            assert(seq![x1] + split(x2, pat).push(b) =~= (seq![x1] + split(x2, pat)).push(b));
        },
    }
}

} // verus!
