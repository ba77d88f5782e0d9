use vstd::prelude::*;

verus! {

broadcast use vstd::string::group_string_axioms;

// ---------------------------------------------------------------------------
// Splitting on a separator character
// ---------------------------------------------------------------------------
/// The pieces of `s` between occurrences of `sep`, as `str::split` yields
/// them: always at least one piece, empty pieces included.
pub open spec fn split_on(s: Seq<char>, sep: char) -> Seq<Seq<char>>
    decreases s.len(),
{
    if s.len() == 0 {
        seq![Seq::<char>::empty()]
    } else {
        let rest = split_on(s.drop_first(), sep);
        if s[0] == sep {
            seq![Seq::<char>::empty()] + rest
        } else {
            rest.update(0, seq![s[0]] + rest[0])
        }
    }
}

/// `pieces` with `prefix` put in front of its first piece.
pub open spec fn prefix_first(prefix: Seq<char>, pieces: Seq<Seq<char>>) -> Seq<Seq<char>> {
    pieces.update(0, prefix + pieces[0])
}

pub proof fn lemma_split_on_nonempty(s: Seq<char>, sep: char)
    ensures
        split_on(s, sep).len() >= 1,
    decreases s.len(),
{
    if s.len() > 0 {
        lemma_split_on_nonempty(s.drop_first(), sep);
    }
}


/// The pieces joined back together with `sep` between them.
pub open spec fn join_with(pieces: Seq<Seq<char>>, sep: char) -> Seq<char>
    decreases pieces.len(),
{
    if pieces.len() <= 1 {
        if pieces.len() == 1 { pieces[0] } else { Seq::<char>::empty() }
    } else {
        pieces[0] + seq![sep] + join_with(pieces.drop_first(), sep)
    }
}

proof fn lemma_join_prefix_first(pieces: Seq<Seq<char>>, sep: char, x: Seq<char>)
    requires
        pieces.len() >= 1,
    ensures
        join_with(prefix_first(x, pieces), sep) == x + join_with(pieces, sep),
{
    let p = prefix_first(x, pieces);
    if pieces.len() == 1 {
    } else {
        assert(p.drop_first() =~= pieces.drop_first());
        assert(join_with(p, sep) =~= x + join_with(pieces, sep));
    }
}

/// Splitting loses nothing: the pieces, joined with the separator, give
/// back the text, and no piece holds the separator.
pub proof fn lemma_split_join(s: Seq<char>, sep: char)
    ensures
        join_with(split_on(s, sep), sep) == s,
        forall|i: int, j: int| 0 <= i < split_on(s, sep).len() && 0 <= j < split_on(s, sep)[i].len()
            ==> #[trigger] split_on(s, sep)[i][j] != sep,
    decreases s.len(),
{
    if s.len() == 0 {
        assert(split_on(s, sep) =~= seq![Seq::<char>::empty()]);
        assert(s =~= Seq::<char>::empty());
    } else {
        let rest = split_on(s.drop_first(), sep);
        lemma_split_join(s.drop_first(), sep);
        lemma_split_on_nonempty(s.drop_first(), sep);
        if s[0] == sep {
            let p = seq![Seq::<char>::empty()] + rest;
            assert(p.drop_first() =~= rest);
            assert(join_with(p, sep) =~= seq![sep] + s.drop_first());
            assert(s =~= seq![sep] + s.drop_first());
            assert forall|i: int, j: int| 0 <= i < p.len() && 0 <= j < p[i].len() implies #[trigger] p[i][j] != sep by {
                assert(p[i] == rest[i - 1]);
            }
        } else {
            lemma_join_prefix_first(rest, sep, seq![s[0]]);
            assert(s =~= seq![s[0]] + s.drop_first());
            let p = rest.update(0, seq![s[0]] + rest[0]);
            assert forall|i: int, j: int| 0 <= i < p.len() && 0 <= j < p[i].len() implies #[trigger] p[i][j] != sep by {
                if i == 0 {
                    if j > 0 {
                        assert(p[0][j] == rest[0][j - 1]);
                    }
                }
            }
        }
    }
}


/// A text without the separator is a single piece.
pub proof fn lemma_split_single(a: Seq<char>, sep: char)
    requires
        forall|i: int| 0 <= i < a.len() ==> a[i] != sep,
    ensures
        split_on(a, sep) == seq![a],
    decreases a.len(),
{
    if a.len() == 0 {
        assert(a =~= Seq::<char>::empty());
        assert(split_on(a, sep) =~= seq![a]);
    } else {
        lemma_split_single(a.drop_first(), sep);
        let rest = split_on(a.drop_first(), sep);
        assert(a[0] != sep);
        assert(split_on(a, sep) == rest.update(0, seq![a[0]] + rest[0]));
        assert(seq![a[0]] + a.drop_first() =~= a);
        assert(rest.update(0, seq![a[0]] + rest[0]) =~= seq![a]);
    }
}

/// A piece without the separator, then the separator, then the rest: the
/// piece comes first, then the pieces of the rest.
pub proof fn lemma_split_after(a: Seq<char>, b: Seq<char>, sep: char)
    requires
        forall|i: int| 0 <= i < a.len() ==> a[i] != sep,
    ensures
        split_on(a + seq![sep] + b, sep) == seq![a] + split_on(b, sep),
    decreases a.len(),
{
    let s = a + seq![sep] + b;
    lemma_split_on_nonempty(b, sep);
    if a.len() == 0 {
        assert(s[0] == sep);
        assert(s.drop_first() =~= b);
        assert(a =~= Seq::<char>::empty());
        assert(split_on(s, sep) == seq![Seq::<char>::empty()] + split_on(s.drop_first(), sep));
        assert(split_on(s, sep) =~= seq![a] + split_on(b, sep));
    } else {
        lemma_split_after(a.drop_first(), b, sep);
        assert(s[0] == a[0]);
        assert(a[0] != sep);
        assert(s.drop_first() =~= a.drop_first() + seq![sep] + b);
        let rest = split_on(s.drop_first(), sep);
        assert(rest == seq![a.drop_first()] + split_on(b, sep));
        assert(split_on(s, sep) == rest.update(0, seq![s[0]] + rest[0]));
        assert(seq![a[0]] + a.drop_first() =~= a);
        assert(rest.update(0, seq![s[0]] + rest[0]) =~= seq![a] + split_on(b, sep));
    }
}

/// Pieces without the separator, joined with it, split back into the same
/// pieces.
pub proof fn lemma_split_join_back(ws: Seq<Seq<char>>, sep: char)
    requires
        ws.len() >= 1,
        forall|i: int, j: int| 0 <= i < ws.len() && 0 <= j < ws[i].len() ==> #[trigger] ws[i][j] != sep,
    ensures
        split_on(join_with(ws, sep), sep) == ws,
    decreases ws.len(),
{
    assert(forall|j: int| 0 <= j < ws[0].len() ==> ws[0][j] != sep);
    if ws.len() == 1 {
        lemma_split_single(ws[0], sep);
        assert(seq![ws[0]] =~= ws);
    } else {
        let rest = ws.drop_first();
        assert forall|i: int, j: int| 0 <= i < rest.len() && 0 <= j < rest[i].len() implies #[trigger] rest[i][j] != sep by {
            assert(rest[i] == ws[i + 1]);
        }
        lemma_split_join_back(rest, sep);
        lemma_split_after(ws[0], join_with(rest, sep), sep);
        assert(seq![ws[0]] + rest =~= ws);
    }
}

/// The pieces of `s` between the occurrences of `sep`.
pub fn split_chars(s: &Vec<char>, sep: char) -> (res: Vec<Vec<char>>)
    ensures
        res@.len() == split_on(s@, sep).len(),
        forall|i: int| 0 <= i < res@.len() ==> #[trigger] res@[i]@ == split_on(s@, sep)[i],
{
    let mut done: Vec<Vec<char>> = Vec::new();
    let mut cur: Vec<char> = Vec::new();
    let mut i: usize = 0;
    proof {
        assert(s@.skip(0) =~= s@);
        lemma_split_on_nonempty(s@, sep);
        assert(prefix_first(Seq::<char>::empty(), split_on(s@, sep)) =~= split_on(s@, sep)) by {
            assert(Seq::<char>::empty() + split_on(s@, sep)[0] =~= split_on(s@, sep)[0]);
        }
    }
    while i < s.len()
        invariant
            i <= s@.len(),
            ({
                let want = split_on(s@, sep);
                let tail = prefix_first(cur@, split_on(s@.skip(i as int), sep));
                &&& want.len() == done@.len() + tail.len()
                &&& forall|k: int| 0 <= k < done@.len() ==> #[trigger] done@[k]@ == want[k]
                &&& forall|k: int| 0 <= k < tail.len() ==> #[trigger] tail[k] == want[done@.len() + k]
            }),
        decreases s@.len() - i,
    {
        let c = s[i];
        let ghost rest = split_on(s@.skip(i + 1), sep);
        proof {
            assert(s@.skip(i as int).drop_first() =~= s@.skip(i + 1));
            lemma_split_on_nonempty(s@.skip(i + 1), sep);
        }
        if c == sep {
            let ghost old_cur = cur@;
            let ghost old_done = done@;
            let piece = cur;
            done.push(piece);
            cur = Vec::new();
            proof {
                let want = split_on(s@, sep);
                let old_tail = prefix_first(old_cur, split_on(s@.skip(i as int), sep));
                assert(split_on(s@.skip(i as int), sep) =~= seq![Seq::<char>::empty()] + rest);
                let new_tail = prefix_first(cur@, rest);
                assert(new_tail =~= rest) by {
                    assert(Seq::<char>::empty() + rest[0] =~= rest[0]);
                }
                assert(old_tail[0] =~= old_cur);
                assert forall|k: int| 0 <= k < new_tail.len() implies #[trigger] new_tail[k]
                    == want[done@.len() + k] by {
                    assert(new_tail[k] == old_tail[k + 1]);
                }
                assert forall|k: int| 0 <= k < done@.len() implies #[trigger] done@[k]@ == want[k] by {
                    if k < old_done.len() {
                        assert(done@[k] == old_done[k]);
                    } else {
                        assert(old_tail[0] == want[old_done.len() as int]);
                    }
                }
            }
        } else {
            let ghost old_cur = cur@;
            cur.push(c);
            proof {
                let want = split_on(s@, sep);
                assert(split_on(s@.skip(i as int), sep) =~= rest.update(0, seq![c] + rest[0]));
                let old_tail = prefix_first(old_cur, split_on(s@.skip(i as int), sep));
                let new_tail = prefix_first(cur@, rest);
                assert(new_tail =~= old_tail) by {
                    assert(cur@ + rest[0] =~= old_cur + (seq![c] + rest[0]));
                }
            }
        }
        i = i + 1;
    }
    proof {
        assert(s@.skip(s@.len() as int) =~= Seq::<char>::empty());
        let tail = prefix_first(cur@, split_on(s@.skip(i as int), sep));
        assert(tail =~= seq![cur@]) by {
            assert(cur@ + Seq::<char>::empty() =~= cur@);
        }
    }
    done.push(cur);
    proof {
        let want = split_on(s@, sep);
        assert forall|k: int| 0 <= k < done@.len() implies #[trigger] done@[k]@ == want[k] by {
            if k < done@.len() - 1 {
            } else {
                let tail = prefix_first(done@[k]@, split_on(s@.skip(i as int), sep));
                assert(tail[0] == want[k]);
                assert(tail[0] =~= done@[k]@);
            }
        }
    }
    done
}


// ---------------------------------------------------------------------------
// Prefixes, equality, searching
// ---------------------------------------------------------------------------
/// `s` begins with `p`.
pub open spec fn starts_with(s: Seq<char>, p: Seq<char>) -> bool {
    p.len() <= s.len() && s.take(p.len() as int) == p
}

/// `p` occurs in `s` at position `i`.
pub open spec fn occurs_at(s: Seq<char>, p: Seq<char>, i: int) -> bool {
    0 <= i && i + p.len() <= s.len() && s.subrange(i, i + p.len()) == p
}

/// The first position at or after `from` where `p` occurs in `s`.
pub open spec fn find_from(s: Seq<char>, p: Seq<char>, from: int) -> Option<int>
    decreases s.len() - from,
{
    if from < 0 || from + p.len() > s.len() {
        None
    } else if occurs_at(s, p, from) {
        Some(from)
    } else if from >= s.len() {
        None
    } else {
        find_from(s, p, from + 1)
    }
}

/// What `s.split(p).nth(1)` yields: the text between the first occurrence of
/// `p` and the next one (or the end of `s`), if `p` occurs at all.
pub open spec fn segment_after(s: Seq<char>, p: Seq<char>) -> Option<Seq<char>> {
    match find_from(s, p, 0) {
        None => None,
        Some(a) => {
            let start = a + p.len();
            match find_from(s, p, start) {
                Some(b) => Some(s.subrange(start, b)),
                None => Some(s.subrange(start, s.len() as int)),
            }
        },
    }
}

/// The first position of `c` in `s`, if any.
pub open spec fn index_of(s: Seq<char>, c: char) -> Option<int>
    decreases s.len(),
{
    if s.len() == 0 {
        None
    } else if s[0] == c {
        Some(0)
    } else {
        match index_of(s.drop_first(), c) {
            Some(i) => Some(i + 1),
            None => None,
        }
    }
}

/// What `s.split(c).next()` yields: `s` up to its first `c`, or all of it.
pub open spec fn before_char(s: Seq<char>, c: char) -> Seq<char> {
    match index_of(s, c) {
        Some(i) => s.take(i),
        None => s,
    }
}

pub fn chars_eq(a: &[char], b: &[char]) -> (res: bool)
    ensures
        res == (a@ == b@),
{
    if a.len() != b.len() {
        return false;
    }
    let mut i: usize = 0;
    while i < a.len()
        invariant
            i <= a@.len(),
            a@.len() == b@.len(),
            forall|k: int| 0 <= k < i ==> a@[k] == b@[k],
        decreases a@.len() - i,
    {
        if a[i] != b[i] {
            return false;
        }
        i = i + 1;
    }
    assert(a@ =~= b@);
    true
}

pub fn starts_with_chars(s: &[char], p: &[char]) -> (res: bool)
    ensures
        res == starts_with(s@, p@),
{
    if p.len() > s.len() {
        return false;
    }
    let mut i: usize = 0;
    while i < p.len()
        invariant
            i <= p@.len(),
            p@.len() <= s@.len(),
            forall|k: int| 0 <= k < i ==> s@[k] == p@[k],
        decreases p@.len() - i,
    {
        if s[i] != p[i] {
            assert(s@.take(p@.len() as int)[i as int] != p@[i as int]);
            return false;
        }
        i = i + 1;
    }
    assert(s@.take(p@.len() as int) =~= p@);
    true
}

fn occurs_at_chars(s: &[char], p: &[char], at: usize) -> (res: bool)
    requires
        at + p@.len() <= s@.len(),
    ensures
        res == occurs_at(s@, p@, at as int),
{
    let n = s.len();
    let mut k: usize = 0;
    while k < p.len()
        invariant
            k <= p@.len(),
            n == s@.len(),
            at + p@.len() <= s@.len(),
            forall|j: int| 0 <= j < k ==> s@[at + j] == p@[j],
        decreases p@.len() - k,
    {
        assert(at + k < s@.len());
        if s[at + k] != p[k] {
            assert(s@.subrange(at as int, at + p@.len())[k as int] != p@[k as int]);
            return false;
        }
        k = k + 1;
    }
    assert(s@.subrange(at as int, at + p@.len()) =~= p@);
    true
}

/// The first position at or after `from` where `p` occurs in `s`.
pub fn find_from_chars(s: &[char], p: &[char], from: usize) -> (res: Option<usize>)
    ensures
        match res {
            Some(i) => find_from(s@, p@, from as int) == Some(i as int),
            None => find_from(s@, p@, from as int) is None,
        },
{
    if p.len() > s.len() {
        proof {
            reveal_with_fuel(find_from, 1);
        }
        return None;
    }
    let last = s.len() - p.len();
    if from > last {
        return None;
    }
    let mut i = from;
    loop
        invariant
            from <= i <= last,
            last + p@.len() == s@.len(),
            find_from(s@, p@, from as int) == find_from(s@, p@, i as int),
        decreases last - i,
    {
        if occurs_at_chars(s, p, i) {
            return Some(i);
        }
        if i == last {
            proof {
                if p@.len() == 0 {
                    assert(s@.subrange(i as int, i as int) =~= p@);
                }
                assert(find_from(s@, p@, i + 1) is None);
            }
            return None;
        }
        i = i + 1;
    }
}

/// The text between the first occurrence of `p` in `s` and the next one (or
/// the end of `s`); `None` where `p` does not occur.
pub fn segment_after_chars(s: &[char], p: &[char]) -> (res: Option<Vec<char>>)
    ensures
        match res {
            Some(v) => segment_after(s@, p@) == Some(v@),
            None => segment_after(s@, p@) is None,
        },
{
    let n = s.len();
    match find_from_chars(s, p, 0) {
        None => None,
        Some(a) => {
            proof {
                lemma_find_from_bounds(s@, p@, 0);
            }
            let start = a + p.len();
            let end = match find_from_chars(s, p, start) {
                Some(b) => {
                    proof {
                        lemma_find_from_bounds(s@, p@, start as int);
                    }
                    b
                },
                None => s.len(),
            };
            Some(copy_range(s, start, end))
        },
    }
}

proof fn lemma_find_from_bounds(s: Seq<char>, p: Seq<char>, from: int)
    ensures
        find_from(s, p, from) matches Some(i) ==> from <= i && i + p.len() <= s.len()
            && occurs_at(s, p, i),
    decreases s.len() - from,
{
    if from < 0 || from + p.len() > s.len() {
    } else if occurs_at(s, p, from) {
    } else if from >= s.len() {
    } else {
        lemma_find_from_bounds(s, p, from + 1);
    }
}

/// A search from `from` finds the first occurrence of `p` at or after
/// `from`, and finds none only where there is none.
pub proof fn lemma_find_from_first(s: Seq<char>, p: Seq<char>, from: int)
    requires
        0 <= from,
    ensures
        find_from(s, p, from) matches Some(i) ==> from <= i && occurs_at(s, p, i)
            && forall|k: int| from <= k < i ==> !#[trigger] occurs_at(s, p, k),
        find_from(s, p, from) is None ==> forall|k: int| from <= k ==> !#[trigger] occurs_at(s, p, k),
    decreases s.len() - from,
{
    if from + p.len() > s.len() {
    } else if occurs_at(s, p, from) {
    } else if from >= s.len() {
        assert(s.subrange(from, from + p.len()) =~= p);
    } else {
        lemma_find_from_first(s, p, from + 1);
    }
}

/// What follows the first occurrence of `p` in `s`, up to the next one or
/// to the end: there is none exactly where `p` never occurs; otherwise it
/// starts right after the first occurrence, holds no occurrence that starts
/// inside it, and is followed by an occurrence or by the end of `s`.
pub proof fn lemma_segment_after_between(s: Seq<char>, p: Seq<char>)
    ensures
        (segment_after(s, p) is None) == (forall|k: int| !#[trigger] occurs_at(s, p, k)),
        segment_after(s, p) matches Some(seg) ==> exists|a: int| {
            &&& #[trigger] occurs_at(s, p, a)
            &&& forall|k: int| k < a ==> !#[trigger] occurs_at(s, p, k)
            &&& a + p.len() + seg.len() <= s.len()
            &&& s.subrange(a + p.len(), a + p.len() + seg.len()) == seg
            &&& forall|k: int| a + p.len() <= k < a + p.len() + seg.len() ==> !#[trigger] occurs_at(s, p, k)
            &&& (a + p.len() + seg.len() == s.len() || occurs_at(s, p, a + p.len() + seg.len()))
        },
{
    lemma_find_from_first(s, p, 0);
    match find_from(s, p, 0) {
        None => {
            assert forall|k: int| !#[trigger] occurs_at(s, p, k) by {
                if k >= 0 {
                } else {
                }
            }
        },
        Some(a) => {
            assert(occurs_at(s, p, a));
            let start = a + p.len();
            lemma_find_from_first(s, p, start);
            match find_from(s, p, start) {
                Some(b) => {
                    let seg = s.subrange(start, b);
                    assert(seg.len() == b - start);
                    assert(start + seg.len() == b);
                    assert(forall|k: int| k < a ==> !#[trigger] occurs_at(s, p, k));
                },
                None => {
                    let seg = s.subrange(start, s.len() as int);
                    assert(start + seg.len() == s.len());
                    assert(forall|k: int| k < a ==> !#[trigger] occurs_at(s, p, k));
                },
            }
        },
    }
}

/// A copy of `s[start..end]`.
pub fn copy_range(s: &[char], start: usize, end: usize) -> (res: Vec<char>)
    requires
        start <= end <= s@.len(),
    ensures
        res@ == s@.subrange(start as int, end as int),
{
    let mut res: Vec<char> = Vec::new();
    let mut i = start;
    while i < end
        invariant
            start <= i <= end,
            end <= s@.len(),
            res@ == s@.subrange(start as int, i as int),
        decreases end - i,
    {
        res.push(s[i]);
        i = i + 1;
        assert(res@ =~= s@.subrange(start as int, i as int));
    }
    res
}

proof fn lemma_index_of(s: Seq<char>, c: char)
    ensures
        match index_of(s, c) {
            Some(i) => 0 <= i < s.len() && s[i] == c && forall|k: int| 0 <= k < i ==> s[k] != c,
            None => forall|k: int| 0 <= k < s.len() ==> s[k] != c,
        },
    decreases s.len(),
{
    if s.len() > 0 {
        lemma_index_of(s.drop_first(), c);
        if s[0] != c {
            assert forall|k: int| 1 <= k < s.len() implies s[k] == s.drop_first()[k - 1] by {}
        }
    }
}

/// `v` is the whole of `s` before its first `c`: `s` begins with `v`, `v`
/// holds no `c`, and right after `v` the text `s` ends or has a `c`.
pub open spec fn runs_up_to(v: Seq<char>, s: Seq<char>, c: char) -> bool {
    &&& v.len() <= s.len()
    &&& s.take(v.len() as int) == v
    &&& forall|i: int| 0 <= i < v.len() ==> v[i] != c
    &&& (v.len() == s.len() || s[v.len() as int] == c)
}

/// What comes before the first `c` is all of the text up to that `c`,
/// nothing less: it is the one text that runs up to the first `c`.
pub proof fn lemma_before_char_runs_up_to(s: Seq<char>, c: char)
    ensures
        runs_up_to(before_char(s, c), s, c),
        forall|v: Seq<char>| #[trigger] runs_up_to(v, s, c) ==> v == before_char(s, c),
{
    lemma_index_of(s, c);
    let b = before_char(s, c);
    match index_of(s, c) {
        Some(i) => {
            assert(b =~= s.take(i));
        },
        None => {
            assert(s.take(s.len() as int) =~= s);
        },
    }
    assert forall|v: Seq<char>| #[trigger] runs_up_to(v, s, c) implies v == b by {
        if v.len() < b.len() {
            assert(s[v.len() as int] == b[v.len() as int]);
            assert(false);
        } else if v.len() > b.len() {
            assert(s[b.len() as int] == v[b.len() as int]);
            assert(false);
        }
        assert(v =~= b);
    }
}

/// A value without `c`, alone or followed by `c` and anything, comes back
/// whole from `before_char`.
pub proof fn lemma_value_comes_back_whole(v: Seq<char>, rest: Seq<char>, c: char)
    requires
        forall|i: int| 0 <= i < v.len() ==> v[i] != c,
    ensures
        before_char(v + seq![c] + rest, c) == v,
        before_char(v, c) == v,
{
    let s = v + seq![c] + rest;
    lemma_before_char_runs_up_to(s, c);
    lemma_before_char_runs_up_to(v, c);
    assert(s.take(v.len() as int) =~= v);
    assert(s[v.len() as int] == c);
    assert(runs_up_to(v, s, c));
    assert(v.take(v.len() as int) =~= v);
    assert(runs_up_to(v, v, c));
}

/// `s` up to its first `c`, or all of it.
pub fn before_char_chars(s: &[char], c: char) -> (res: Vec<char>)
    ensures
        res@ == before_char(s@, c),
{
    proof {
        lemma_index_of(s@, c);
    }
    let mut i: usize = 0;
    while i < s.len()
        invariant
            i <= s@.len(),
            match index_of(s@, c) {
                Some(i) => 0 <= i < s@.len() && s@[i] == c && forall|k: int| 0 <= k < i ==> s@[k] != c,
                None => forall|k: int| 0 <= k < s@.len() ==> s@[k] != c,
            },
            forall|k: int| 0 <= k < i ==> s@[k] != c,
        decreases s@.len() - i,
    {
        if s[i] == c {
            assert(s@[i as int] == c);
            proof {
                match index_of(s@, c) {
                    Some(j) => {
                        assert(j == i as int);
                    },
                    None => {},
                }
            }
            return copy_range(s, 0, i);
        }
        i = i + 1;
    }
    proof {
        assert(index_of(s@, c) is None);
    }
    copy_range(s, 0, s.len())
}


// ---------------------------------------------------------------------------
// Decimal numbers
// ---------------------------------------------------------------------------
/// The decimal digit for `d` (`0 <= d < 10`).
pub open spec fn digit_char(d: nat) -> char {
    seq!['0', '1', '2', '3', '4', '5', '6', '7', '8', '9'][d as int]
}

/// The decimal representation of `n`, as `format!("{}", n)` writes it.
pub open spec fn decimal(n: nat) -> Seq<char>
    decreases n,
{
    if n < 10 {
        seq![digit_char(n)]
    } else {
        decimal(n / 10).push(digit_char(n % 10))
    }
}

fn digit_of(d: u64) -> (c: char)
    requires
        d < 10,
    ensures
        c == digit_char(d as nat),
{
    match d {
        0 => '0',
        1 => '1',
        2 => '2',
        3 => '3',
        4 => '4',
        5 => '5',
        6 => '6',
        7 => '7',
        8 => '8',
        _ => '9',
    }
}

/// The decimal digits of `n`.
pub fn decimal_chars(n: u64) -> (res: Vec<char>)
    ensures
        res@ == decimal(n as nat),
    decreases n,
{
    if n < 10 {
        let mut v: Vec<char> = Vec::new();
        v.push(digit_of(n));
        assert(v@ =~= decimal(n as nat));
        v
    } else {
        let mut v = decimal_chars(n / 10);
        v.push(digit_of(n % 10));
        v
    }
}

/// The character is an ASCII decimal digit.
pub open spec fn is_digit(c: char) -> bool {
    '0' <= c && c <= '9'
}

/// The value of the digit `c`.
pub open spec fn digit_value(c: char) -> nat {
    (c as int - '0' as int) as nat
}

/// The value of a string of decimal digits (most significant first).
pub open spec fn digits_value(d: Seq<char>) -> nat
    decreases d.len(),
{
    if d.len() == 0 {
        0
    } else {
        digits_value(d.drop_last()) * 10 + digit_value(d.last())
    }
}

pub open spec fn all_digits(d: Seq<char>) -> bool {
    forall|i: int| 0 <= i < d.len() ==> #[trigger] is_digit(d[i])
}

/// The digits of an unsigned literal: `s` without one leading `+`.
pub open spec fn unsigned_digits(s: Seq<char>) -> Seq<char> {
    if s.len() > 0 && s[0] == '+' {
        s.drop_first()
    } else {
        s
    }
}

/// The value of `s` read as `u64::from_str` and `u32::from_str` read it
/// (an optional `+`, then one or more decimal digits), before the range check.
pub open spec fn unsigned_value(s: Seq<char>) -> Option<nat> {
    let d = unsigned_digits(s);
    if d.len() > 0 && all_digits(d) {
        Some(digits_value(d))
    } else {
        None
    }
}

/// What `s.parse::<u64>()` gives, as an `Option`.
pub open spec fn parsed_u64(s: Seq<char>) -> Option<u64> {
    match unsigned_value(s) {
        Some(v) => if v <= u64::MAX { Some(v as u64) } else { None },
        None => None,
    }
}

/// What `s.parse::<u32>()` gives, as an `Option`.
pub open spec fn parsed_u32(s: Seq<char>) -> Option<u32> {
    match unsigned_value(s) {
        Some(v) => if v <= u32::MAX { Some(v as u32) } else { None },
        None => None,
    }
}

proof fn lemma_digits_prefix_monotone(d: Seq<char>, i: int, j: int)
    requires
        0 <= i <= j <= d.len(),
    ensures
        digits_value(d.take(i)) <= digits_value(d.take(j)),
    decreases j - i,
{
    if i < j {
        lemma_digits_prefix_monotone(d, i, j - 1);
        assert(d.take(j).drop_last() =~= d.take(j - 1));
    }
}


/// A number written in decimal reads back as the same number: a course id
/// or a number of seconds that the bot writes is what a user can type back.
pub proof fn lemma_decimal_reads_back(n: nat)
    ensures
        decimal(n).len() > 0,
        all_digits(decimal(n)),
        unsigned_value(decimal(n)) == Some(n),
        n <= u64::MAX ==> parsed_u64(decimal(n)) == Some(n as u64),
        n <= u32::MAX ==> parsed_u32(decimal(n)) == Some(n as u32),
        n > u64::MAX ==> parsed_u64(decimal(n)) is None,
        n > u32::MAX ==> parsed_u32(decimal(n)) is None,
        n <= u64::MAX ==> parsed_u64(seq!['+'] + decimal(n)) == Some(n as u64),
        n <= u32::MAX ==> parsed_u32(seq!['+'] + decimal(n)) == Some(n as u32),
{
    lemma_decimal_digits(n);
    let d = decimal(n);
    assert(d[0] != '+');
    assert(unsigned_digits(d) == d);
    let p = seq!['+'] + d;
    assert(p[0] == '+');
    assert(p.drop_first() =~= d);
    assert(unsigned_digits(p) == d);
}

/// Text that is empty, or holds anything but decimal digits after an
/// optional leading `+`, is no number.
pub proof fn lemma_not_a_number(s: Seq<char>, i: int)
    requires
        0 <= i < s.len(),
        !is_digit(s[i]),
        !(i == 0 && s[i] == '+'),
    ensures
        parsed_u64(s) is None,
        parsed_u32(s) is None,
        parsed_u64(Seq::<char>::empty()) is None,
        parsed_u32(Seq::<char>::empty()) is None,
        parsed_u64(seq!['+']) is None,
{
    let d = unsigned_digits(s);
    if s.len() > 0 && s[0] == '+' {
        assert(d[i - 1] == s[i]);
    } else {
        assert(d[i] == s[i]);
    }
    assert(unsigned_digits(Seq::<char>::empty()) =~= Seq::<char>::empty());
    assert(seq!['+'].drop_first() =~= Seq::<char>::empty());
}

proof fn lemma_decimal_digits(n: nat)
    ensures
        decimal(n).len() > 0,
        all_digits(decimal(n)),
        digits_value(decimal(n)) == n,
        is_digit(decimal(n)[0]),
    decreases n,
{
    if n < 10 {
        assert(decimal(n) =~= seq![digit_char(n)]);
        assert(digit_value(digit_char(n)) == n);
        assert(seq![digit_char(n)].drop_last() =~= Seq::<char>::empty());
        assert(digits_value(Seq::<char>::empty()) == 0);
        assert(digits_value(decimal(n)) == digits_value(Seq::<char>::empty()) * 10 + digit_value(digit_char(n)));
    } else {
        lemma_decimal_digits(n / 10);
        let prev = decimal(n / 10);
        let d = decimal(n);
        assert(d =~= prev.push(digit_char(n % 10)));
        assert(d.drop_last() =~= prev);
        assert(digit_value(digit_char(n % 10)) == n % 10);
        vstd::arithmetic::div_mod::lemma_fundamental_div_mod(n as int, 10);
        assert(d.last() == digit_char(n % 10));
        assert(digits_value(d) == digits_value(prev) * 10 + digit_value(d.last()));
        assert forall|i: int| 0 <= i < d.len() implies #[trigger] is_digit(d[i]) by {
            if i < prev.len() {
                assert(d[i] == prev[i]);
            }
        }
        assert(d[0] == prev[0]);
    }
}

/// `s` read as an unsigned decimal number, as `s.parse::<u64>().ok()` reads it.
pub fn parse_u64(s: &[char]) -> (res: Option<u64>)
    ensures
        res == parsed_u64(s@),
{
    let n = s.len();
    let start: usize = if n > 0 && s[0] == '+' { 1 } else { 0 };
    let ghost d = unsigned_digits(s@);
    assert(d =~= s@.subrange(start as int, n as int));
    if start == n {
        return None;
    }
    let mut acc: u64 = 0;
    let mut i = start;
    assert(d.take(0) =~= Seq::<char>::empty());
    while i < n
        invariant
            start <= i <= n,
            n == s@.len(),
            d == s@.subrange(start as int, n as int),
            d == unsigned_digits(s@),
            acc as nat == digits_value(d.take(i - start)),
            forall|k: int| 0 <= k < i - start ==> #[trigger] is_digit(d[k]),
        decreases n - i,
    {
        let c = s[i];
        assert(c == d[i - start]);
        if !('0' <= c && c <= '9') {
            assert(!is_digit(d[i - start]));
            assert(!all_digits(d));
            assert(unsigned_value(s@) is None);
            return None;
        }
        let v: u64 = match c {
            '0' => 0,
            '1' => 1,
            '2' => 2,
            '3' => 3,
            '4' => 4,
            '5' => 5,
            '6' => 6,
            '7' => 7,
            '8' => 8,
            _ => 9,
        };
        assert(v == digit_value(c));
        let ghost next = d.take(i - start + 1);
        assert(next.drop_last() =~= d.take(i - start));
        assert(next.last() == c);
        match acc.checked_mul(10) {
            None => {
                proof {
                    if all_digits(d) {
                        lemma_digits_prefix_monotone(d, i - start + 1, d.len() as int);
                        assert(d.take(d.len() as int) =~= d);
                    }
                }
                return None;
            },
            Some(m) => match m.checked_add(v) {
                None => {
                    proof {
                        if all_digits(d) {
                            lemma_digits_prefix_monotone(d, i - start + 1, d.len() as int);
                            assert(d.take(d.len() as int) =~= d);
                        }
                    }
                    return None;
                },
                Some(a) => {
                    acc = a;
                },
            },
        }
        i = i + 1;
    }
    assert(d.take(n - start) =~= d);
    assert(all_digits(d));
    Some(acc)
}

/// `s` read as an unsigned decimal number, as `s.parse::<u32>().ok()` reads it.
pub fn parse_u32(s: &[char]) -> (res: Option<u32>)
    ensures
        res == parsed_u32(s@),
{
    match parse_u64(s) {
        Some(v) => if v <= 4294967295u64 {
            Some(v as u32)
        } else {
            None
        },
        None => None,
    }
}



// ---------------------------------------------------------------------------
// UTF-8 lengths
// ---------------------------------------------------------------------------
/// The number of bytes `c` takes in UTF-8.
pub open spec fn char_width(c: char) -> nat {
    vstd::utf8::encode_scalar(c as u32).len()
}

/// The number of bytes `s` takes in UTF-8 (what `str::len` gives).
pub open spec fn byte_len(s: Seq<char>) -> nat {
    vstd::utf8::encode_utf8(s).len()
}

/// The number of leading characters of `s` that take exactly `b` bytes in
/// UTF-8: `None` where `b` bytes into `s` is no character boundary (or lies
/// outside `s`), where `&s[..b]` panics.
pub open spec fn chars_within(s: Seq<char>, b: int) -> Option<int>
    decreases s.len(),
{
    if b == 0 {
        Some(0)
    } else if b < 0 || s.len() == 0 {
        None
    } else {
        match chars_within(s.drop_first(), b - char_width(s[0])) {
            Some(k) => Some(k + 1),
            None => None,
        }
    }
}

/// `chars_within` counts no more characters than the text has.
pub proof fn lemma_chars_within_bounded(s: Seq<char>, b: int)
    ensures
        chars_within(s, b) matches Some(k) ==> 0 <= k <= s.len(),
    decreases s.len(),
{
    if b != 0 && b >= 0 && s.len() > 0 {
        lemma_chars_within_bounded(s.drop_first(), b - char_width(s[0]));
    }
}

/// The UTF-8 encoding of two texts one after the other.
pub proof fn lemma_encode_utf8_concat(a: Seq<char>, b: Seq<char>)
    ensures
        vstd::utf8::encode_utf8(a + b) == vstd::utf8::encode_utf8(a) + vstd::utf8::encode_utf8(b),
    decreases a.len(),
{
    if a.len() > 0 {
        lemma_encode_utf8_concat(a.drop_first(), b);
        assert((a + b).drop_first() =~= a.drop_first() + b);
        assert((a + b)[0] == a[0]);
        assert(vstd::utf8::encode_utf8(a + b) =~= vstd::utf8::encode_utf8(a) + vstd::utf8::encode_utf8(b));
    } else {
        assert(a + b =~= b);
        assert(vstd::utf8::encode_utf8(a) =~= Seq::<u8>::empty());
        assert(vstd::utf8::encode_utf8(a) + vstd::utf8::encode_utf8(b) =~= vstd::utf8::encode_utf8(b));
    }
}

/// `chars_within` finds the text before a text: in `t + u`, the first
/// `byte_len(t)` bytes are the characters of `t`.
pub proof fn lemma_chars_within_prefix(t: Seq<char>, u: Seq<char>)
    ensures
        chars_within(t + u, byte_len(t) as int) == Some(t.len() as int),
    decreases t.len(),
{
    if t.len() == 0 {
        assert(vstd::utf8::encode_utf8(t) =~= Seq::<u8>::empty());
    } else {
        lemma_chars_within_prefix(t.drop_first(), u);
        assert((t + u).drop_first() =~= t.drop_first() + u);
        assert((t + u)[0] == t[0]);
        assert(byte_len(t) == char_width(t[0]) + byte_len(t.drop_first()));
        vstd::utf8::char_is_scalar(t[0]);
        assert(char_width(t[0]) >= 1);
    }
}

/// The number of bytes `c` takes in UTF-8.
pub fn char_width_of(c: char) -> (res: usize)
    ensures
        res == char_width(c),
{
    let v = c as u32;
    proof {
        vstd::utf8::char_is_scalar(c);
    }
    if v <= 0x7F {
        1
    } else if v <= 0x7FF {
        2
    } else if v <= 0xFFFF {
        3
    } else {
        4
    }
}

/// The number of leading characters of `s` that take exactly `b` bytes.
pub fn chars_within_bytes(s: &[char], b: usize) -> (res: Option<usize>)
    ensures
        match chars_within(s@, b as int) {
            Some(k) => res matches Some(r) && r as int == k,
            None => res is None,
        },
{
    let n = s.len();
    let mut i: usize = 0;
    let mut used: usize = 0;
    assert(s@.skip(0) =~= s@);
    loop
        invariant
            i <= n,
            n == s@.len(),
            used <= b,
            chars_within(s@, b as int) == match chars_within(s@.skip(i as int), b - used) {
                Some(k) => Some(k + i),
                None => None::<int>,
            },
        decreases n - i,
    {
        if used == b {
            return Some(i);
        }
        if i == n {
            assert(s@.skip(i as int).len() == 0);
            return None;
        }
        let w = char_width_of(s[i]);
        let ghost rest = s@.skip(i as int);
        assert(rest[0] == s@[i as int]);
        assert(rest.drop_first() =~= s@.skip(i + 1));
        if w > b - used {
            proof {
                vstd::utf8::char_is_scalar(s@[i as int]);
                let d = b - used - w;
                assert(d < 0);
                assert(chars_within(rest.drop_first(), d) is None) by {
                    if d != 0 {
                    }
                }
            }
            return None;
        }
        used = used + w;
        i = i + 1;
    }
}

/// Builds a `String` from its characters with std's `FromIterator<&char>`
/// (`chars.iter().collect()`), for which vstd gives no specification.
/// Claimed: the string's characters are exactly `chars`, in order.
#[verifier::external_body]
pub fn string_of(chars: &[char]) -> (res: String)
    ensures
        res@ == chars@,
{
    chars.iter().collect()
}

/// The characters of `s`, in order.
pub fn chars_of(s: &str) -> (res: Vec<char>)
    ensures
        res@ == s@,
{
    let mut res: Vec<char> = Vec::new();
    for c in it: s.chars()
        invariant
            res@ == it.seq().take(it.index() as int),
    {
        res.push(c);
    }
    res
}

} // verus!
