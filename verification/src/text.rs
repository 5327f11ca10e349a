//! Character-level text handling: whitespace trimming and splitting on a
//! separator, each stated over `Seq<char>` and implemented on `Vec<char>`.

use vstd::prelude::*;

verus! {

broadcast use vstd::string::group_string_axioms;

/// Copies the characters of a string slice into a vector.
pub fn chars_of(s: &str) -> (r: Vec<char>)
    ensures
        r@ == s@,
{
    let mut r: Vec<char> = Vec::new();
    for c in it: s.chars()
        invariant
            r@.len() == it.index(),
            forall|i: int| 0 <= i < r@.len() ==> r@[i] == it.seq()[i],
    {
        r.push(c);
    }
    assert(r@ =~= s@);
    r
}


/// The Unicode `White_Space` property, which `char::is_whitespace` and
/// `str::trim` go by.
pub open spec fn is_white(c: char) -> bool {
    ||| ('\u{9}' <= c && c <= '\u{d}')
    ||| c == ' '
    ||| c == '\u{85}'
    ||| c == '\u{a0}'
    ||| c == '\u{1680}'
    ||| ('\u{2000}' <= c && c <= '\u{200a}')
    ||| c == '\u{2028}'
    ||| c == '\u{2029}'
    ||| c == '\u{202f}'
    ||| c == '\u{205f}'
    ||| c == '\u{3000}'
}

/// Whether `c` is whitespace.
pub fn white(c: char) -> (b: bool)
    ensures
        b == is_white(c),
{
    ('\u{9}' <= c && c <= '\u{d}') || c == ' ' || c == '\u{85}' || c == '\u{a0}' || c
        == '\u{1680}' || ('\u{2000}' <= c && c <= '\u{200a}') || c == '\u{2028}' || c
        == '\u{2029}' || c == '\u{202f}' || c == '\u{205f}' || c == '\u{3000}'
}

/// `s` without its leading whitespace.
pub open spec fn trim_start(s: Seq<char>) -> Seq<char>
    decreases s.len(),
{
    if s.len() > 0 && is_white(s[0]) {
        trim_start(s.drop_first())
    } else {
        s
    }
}

/// `s` without its trailing whitespace.
pub open spec fn trim_end(s: Seq<char>) -> Seq<char>
    decreases s.len(),
{
    if s.len() > 0 && is_white(s.last()) {
        trim_end(s.drop_last())
    } else {
        s
    }
}

/// `s` without leading and trailing whitespace, as `str::trim` gives it.
pub open spec fn trim(s: Seq<char>) -> Seq<char> {
    trim_end(trim_start(s))
}

proof fn lemma_trim_start_step(s: Seq<char>, i: int, j: int)
    requires
        0 <= i < j <= s.len(),
        is_white(s[i]),
    ensures
        trim_start(s.subrange(i, j)) == trim_start(s.subrange(i + 1, j)),
{
    assert(s.subrange(i, j).drop_first() =~= s.subrange(i + 1, j));
}

proof fn lemma_trim_end_step(s: Seq<char>, i: int, j: int)
    requires
        0 <= i < j <= s.len(),
        is_white(s[j - 1]),
    ensures
        trim_end(s.subrange(i, j)) == trim_end(s.subrange(i, j - 1)),
{
    assert(s.subrange(i, j).drop_last() =~= s.subrange(i, j - 1));
}

/// Copies `s[from..to]` into a new vector.
pub fn copy_range(s: &Vec<char>, from: usize, to: usize) -> (r: Vec<char>)
    requires
        from <= to <= s@.len(),
    ensures
        r@ == s@.subrange(from as int, to as int),
{
    let mut r: Vec<char> = Vec::new();
    let mut i = from;
    while i < to
        invariant
            from <= i <= to <= s@.len(),
            r@ == s@.subrange(from as int, i as int),
        decreases to - i,
    {
        r.push(s[i]);
        i += 1;
        assert(r@ =~= s@.subrange(from as int, i as int));
    }
    r
}

/// `s` with leading and trailing whitespace removed.
pub fn trim_chars(s: &Vec<char>) -> (r: Vec<char>)
    ensures
        r@ == trim(s@),
{
    let mut a: usize = 0;
    assert(s@.subrange(0, s@.len() as int) =~= s@);
    while a < s.len() && white(s[a])
        invariant
            a <= s@.len(),
            trim_start(s@) == trim_start(s@.subrange(a as int, s@.len() as int)),
        decreases s@.len() - a,
    {
        proof {
            lemma_trim_start_step(s@, a as int, s@.len() as int);
        }
        a += 1;
    }
    let ghost rest = s@.subrange(a as int, s@.len() as int);
    assert(trim_start(rest) == rest);
    let mut b: usize = s.len();
    assert(rest =~= s@.subrange(a as int, b as int));
    while b > a && white(s[b - 1])
        invariant
            a <= b <= s@.len(),
            trim_end(rest) == trim_end(s@.subrange(a as int, b as int)),
        decreases b,
    {
        proof {
            lemma_trim_end_step(s@, a as int, b as int);
        }
        b -= 1;
    }
    copy_range(s, a, b)
}

/// Whether `sep` occurs in `s` at position `i`.
pub open spec fn occurs_at(s: Seq<char>, sep: Seq<char>, i: int) -> bool {
    0 <= i && i + sep.len() <= s.len() && s.subrange(i, i + sep.len()) == sep
}

/// The first position at or after `i` where `sep` occurs in `s`.
pub open spec fn first_occurrence(s: Seq<char>, sep: Seq<char>, i: int) -> Option<int>
    decreases s.len() + 1 - i,
{
    if i < 0 || i + sep.len() > s.len() {
        None
    } else if occurs_at(s, sep, i) {
        Some(i)
    } else {
        first_occurrence(s, sep, i + 1)
    }
}

/// The pieces of `s[start..]` between non-overlapping occurrences of a
/// non-empty `sep`, found from left to right.
pub open spec fn split_from(s: Seq<char>, sep: Seq<char>, start: int) -> Seq<Seq<char>>
    decreases s.len() + 1 - start,
{
    if sep.len() == 0 || start < 0 || start > s.len() {
        seq![]
    } else {
        match first_occurrence(s, sep, start) {
            Some(p) => if start <= p && p + sep.len() <= s.len() {
                seq![s.subrange(start, p)] + split_from(s, sep, p + sep.len())
            } else {
                seq![]
            },
            None => seq![s.subrange(start, s.len() as int)],
        }
    }
}

/// The pieces of `s` as `str::split` with the pattern `sep` gives them.
/// An empty pattern matches before every character and at the end.
pub open spec fn split(s: Seq<char>, sep: Seq<char>) -> Seq<Seq<char>> {
    if sep.len() == 0 {
        seq![Seq::<char>::empty()] + Seq::new(s.len(), |i: int| seq![s[i]]) + seq![
            Seq::<char>::empty(),
        ]
    } else {
        split_from(s, sep, 0)
    }
}

/// The first occurrence found is one, and none comes before it.
pub proof fn lemma_first_occurrence_bounds(s: Seq<char>, sep: Seq<char>, i: int)
    ensures
        first_occurrence(s, sep, i) matches Some(p) ==> i <= p && p + sep.len() <= s.len()
            && occurs_at(s, sep, p) && forall|q: int| i <= q < p ==> !occurs_at(s, sep, q),
        0 <= i && first_occurrence(s, sep, i) is None ==> forall|q: int|
            i <= q ==> !occurs_at(s, sep, q),
    decreases s.len() + 1 - i,
{
    if !(i < 0 || i + sep.len() > s.len()) && !occurs_at(s, sep, i) {
        lemma_first_occurrence_bounds(s, sep, i + 1);
    }
}

/// Splitting gives at least one piece.
pub proof fn lemma_split_nonempty(s: Seq<char>, sep: Seq<char>)
    ensures
        split(s, sep).len() >= 1,
{
    if sep.len() > 0 {
        lemma_first_occurrence_bounds(s, sep, 0);
    }
}

/// Whether `sep` occurs in `s` at position `i`.
fn occurs_at_exec(s: &Vec<char>, sep: &Vec<char>, i: usize) -> (b: bool)
    requires
        i + sep@.len() <= s@.len(),
    ensures
        b == occurs_at(s@, sep@, i as int),
{
    let n = s.len();
    let mut k: usize = 0;
    while k < sep.len()
        invariant
            i + sep@.len() <= s@.len(),
            n == s@.len(),
            k <= sep@.len(),
            forall|m: int| 0 <= m < k ==> s@[i + m] == sep@[m],
        decreases sep@.len() - k,
    {
        if s[i + k] != sep[k] {
            assert(s@.subrange(i as int, i + sep@.len())[k as int] != sep@[k as int]);
            return false;
        }
        k += 1;
    }
    assert(s@.subrange(i as int, i + sep@.len()) =~= sep@);
    true
}

/// Splits `s` on `sep` as `str::split` does.
pub fn split_chars(s: &Vec<char>, sep: &Vec<char>) -> (r: Vec<Vec<char>>)
    ensures
        r@.len() == split(s@, sep@).len(),
        r@.len() >= 1,
        forall|i: int| 0 <= i < r@.len() ==> #[trigger] r@[i]@ == split(s@, sep@)[i],
{
    let mut r: Vec<Vec<char>> = Vec::new();
    if sep.len() == 0 {
        r.push(Vec::new());
        let mut i: usize = 0;
        while i < s.len()
            invariant
                i <= s@.len(),
                r@.len() == i + 1,
                r@[0]@ == Seq::<char>::empty(),
                forall|k: int| 1 <= k <= i ==> #[trigger] r@[k]@ == seq![s@[k - 1]],
            decreases s@.len() - i,
        {
            let mut one: Vec<char> = Vec::new();
            one.push(s[i]);
            assert(one@ =~= seq![s@[i as int]]);
            r.push(one);
            i += 1;
        }
        r.push(Vec::new());
        return r;
    }
    let ghost whole = split(s@, sep@);
    let mut start: usize = 0;
    let mut i: usize = 0;
    while i <= s.len() && sep.len() <= s.len() - i
        invariant
            sep@.len() > 0,
            whole == split_from(s@, sep@, 0),
            start <= i,
            i <= s@.len(),
            first_occurrence(s@, sep@, start as int) == first_occurrence(s@, sep@, i as int),
            forall|k: int| 0 <= k < r@.len() ==> #[trigger] r@[k]@ == whole[k],
            whole == r@.map_values(|v: Vec<char>| v@) + split_from(s@, sep@, start as int),
        decreases s@.len() - i,
    {
        if occurs_at_exec(s, sep, i) {
            let piece = copy_range(s, start, i);
            let ghost before = r@.map_values(|v: Vec<char>| v@);
            r.push(piece);
            assert(r@.map_values(|v: Vec<char>| v@) =~= before.push(s@.subrange(start as int, i as int)));
            start = i + sep.len();
            i = start;
        } else {
            i += 1;
        }
    }
    let last = copy_range(s, start, s.len());
    let ghost before = r@.map_values(|v: Vec<char>| v@);
    r.push(last);
    assert(r@.map_values(|v: Vec<char>| v@) =~= before.push(s@.subrange(start as int, s@.len() as int)));
    r
}


/// `String::push`: appends the character `c` to the end of `s`, as its
/// documentation says.
#[verifier::external_body]
fn push_char(s: &mut String, c: char)
    ensures
        final(s)@ == old(s)@.push(c),
{
    s.push(c)
}

/// A string holding the characters of `v`.
pub fn string_of(v: &Vec<char>) -> (r: String)
    ensures
        r@ == v@,
{
    let mut r = String::new();
    let mut i: usize = 0;
    while i < v.len()
        invariant
            i <= v@.len(),
            r@ == v@.subrange(0, i as int),
        decreases v@.len() - i,
    {
        push_char(&mut r, v[i]);
        i += 1;
        assert(r@ =~= v@.subrange(0, i as int));
    }
    assert(v@.subrange(0, i as int) =~= v@);
    r
}


proof fn lemma_first_occurrence_shift(s: Seq<char>, sep: Seq<char>, start: int, i: int)
    requires
        0 <= start <= s.len(),
        0 <= i,
    ensures
        first_occurrence(s, sep, start + i) == (match first_occurrence(s.skip(start), sep, i) {
            Some(q) => Some(q + start),
            None => None::<int>,
        }),
    decreases s.len() + 1 - (start + i),
{
    let t = s.skip(start);
    if !(start + i + sep.len() > s.len()) {
        assert(t.subrange(i, i + sep.len()) =~= s.subrange(start + i, start + i + sep.len()));
        if !occurs_at(s, sep, start + i) {
            lemma_first_occurrence_shift(s, sep, start, i + 1);
        }
    }
}

proof fn lemma_split_from_shift(s: Seq<char>, sep: Seq<char>, start: int, i: int)
    requires
        sep.len() > 0,
        0 <= start <= s.len(),
        0 <= i,
    ensures
        split_from(s, sep, start + i) == split_from(s.skip(start), sep, i),
    decreases s.len() + 1 - (start + i),
{
    let t = s.skip(start);
    if start + i <= s.len() {
        lemma_first_occurrence_shift(s, sep, start, i);
        lemma_first_occurrence_bounds(t, sep, i);
        match first_occurrence(t, sep, i) {
            Some(q) => {
                assert(s.subrange(start + i, q + start) =~= t.subrange(i, q));
                assert(split_from(s, sep, q + start + sep.len()) == split_from(t, sep, q + sep.len())) by {
                    lemma_split_from_shift(s, sep, start, q + sep.len());
                }
            },
            None => {
                assert(s.subrange(start + i, s.len() as int) =~= t.subrange(i, t.len() as int));
            },
        }
    }
}

/// Splitting on a non-empty separator cuts at its leftmost occurrence: the
/// first piece is the text before it, and the rest is the split of what
/// follows it.
pub proof fn lemma_split_leftmost(s: Seq<char>, sep: Seq<char>, p: int)
    requires
        sep.len() > 0,
        occurs_at(s, sep, p),
        forall|q: int| 0 <= q < p ==> !occurs_at(s, sep, q),
    ensures
        split(s, sep) == seq![s.take(p)] + split(s.skip(p + sep.len()), sep),
{
    lemma_first_occurrence_bounds(s, sep, 0);
    match first_occurrence(s, sep, 0) {
        Some(q) => {
            if q < p {
                assert(!occurs_at(s, sep, q));
            }
            if p < q {
                assert(!occurs_at(s, sep, p));
            }
            assert(q == p);
            lemma_split_from_shift(s, sep, p + sep.len(), 0);
            assert(s.subrange(0, p) =~= s.take(p));
        },
        None => {
            assert(!occurs_at(s, sep, p));
        },
    }
}

/// Text without the separator splits into itself alone.
pub proof fn lemma_split_whole(s: Seq<char>, sep: Seq<char>)
    requires
        sep.len() > 0,
        forall|q: int| !occurs_at(s, sep, q),
    ensures
        split(s, sep) == seq![s],
{
    lemma_first_occurrence_bounds(s, sep, 0);
    if first_occurrence(s, sep, 0) is Some {
        let q = first_occurrence(s, sep, 0)->Some_0;
        assert(occurs_at(s, sep, q));
    }
    assert(s.subrange(0, s.len() as int) =~= s);
}

/// The pieces joined with `sep` between neighbours.
pub open spec fn join(pieces: Seq<Seq<char>>, sep: Seq<char>) -> Seq<char>
    decreases pieces.len(),
{
    if pieces.len() == 0 {
        seq![]
    } else if pieces.len() == 1 {
        pieces[0]
    } else {
        pieces[0] + sep + join(pieces.drop_first(), sep)
    }
}

proof fn lemma_split_from_join(s: Seq<char>, sep: Seq<char>, start: int)
    requires
        sep.len() > 0,
        0 <= start <= s.len(),
    ensures
        split_from(s, sep, start).len() >= 1,
        join(split_from(s, sep, start), sep) == s.subrange(start, s.len() as int),
    decreases s.len() + 1 - start,
{
    lemma_first_occurrence_bounds(s, sep, start);
    match first_occurrence(s, sep, start) {
        Some(p) => {
            lemma_split_from_join(s, sep, p + sep.len());
            let rest = split_from(s, sep, p + sep.len());
            let pieces = split_from(s, sep, start);
            assert(pieces =~= seq![s.subrange(start, p)] + rest);
            assert(pieces.drop_first() =~= rest);
            assert(s.subrange(p, p + sep.len()) == sep);
            assert(s.subrange(start, s.len() as int) =~= s.subrange(start, p) + s.subrange(
                p,
                p + sep.len(),
            ) + s.subrange(p + sep.len(), s.len() as int));
        },
        None => {},
    }
}

proof fn lemma_join_singles(s: Seq<char>)
    ensures
        join(Seq::new(s.len(), |i: int| seq![s[i]]) + seq![Seq::<char>::empty()], Seq::empty())
            == s,
    decreases s.len(),
{
    let pieces = Seq::new(s.len(), |i: int| seq![s[i]]) + seq![Seq::<char>::empty()];
    if s.len() > 0 {
        let t = s.drop_first();
        lemma_join_singles(t);
        assert(pieces.drop_first() =~= Seq::new(t.len(), |i: int| seq![t[i]]) + seq![
            Seq::<char>::empty(),
        ]);
        assert(s =~= seq![s[0]] + Seq::<char>::empty() + t);
    } else {
        assert(pieces =~= seq![Seq::<char>::empty()]);
    }
}

/// Splitting loses nothing: joining the pieces with the separator between
/// neighbours gives back the text.
pub proof fn lemma_split_join(s: Seq<char>, sep: Seq<char>)
    ensures
        join(split(s, sep), sep) == s,
{
    if sep.len() > 0 {
        lemma_split_from_join(s, sep, 0);
        assert(s.subrange(0, s.len() as int) =~= s);
    } else {
        let singles = Seq::new(s.len(), |i: int| seq![s[i]]) + seq![Seq::<char>::empty()];
        let pieces = split(s, sep);
        lemma_join_singles(s);
        assert(pieces.drop_first() =~= singles);
        assert(sep =~= Seq::<char>::empty());
        assert(Seq::<char>::empty() + sep + join(singles, sep) =~= s);
    }
}

proof fn lemma_split_from_pieces(s: Seq<char>, sep: Seq<char>, start: int, k: int, q: int)
    requires
        sep.len() > 0,
        0 <= start <= s.len(),
        0 <= k < split_from(s, sep, start).len(),
    ensures
        !occurs_at(split_from(s, sep, start)[k], sep, q),
    decreases s.len() + 1 - start,
{
    lemma_first_occurrence_bounds(s, sep, start);
    match first_occurrence(s, sep, start) {
        Some(p) => {
            if k == 0 {
                let piece = s.subrange(start, p);
                if occurs_at(piece, sep, q) {
                    assert(s.subrange(start + q, start + q + sep.len()) =~= piece.subrange(
                        q,
                        q + sep.len(),
                    ));
                    assert(occurs_at(s, sep, start + q));
                }
            } else {
                lemma_split_from_pieces(s, sep, p + sep.len(), k - 1, q);
            }
        },
        None => {
            let piece = s.subrange(start, s.len() as int);
            if occurs_at(piece, sep, q) {
                assert(s.subrange(start + q, start + q + sep.len()) =~= piece.subrange(
                    q,
                    q + sep.len(),
                ));
                assert(occurs_at(s, sep, start + q));
            }
        },
    }
}

/// No piece of a split on a non-empty separator holds the separator.
pub proof fn lemma_split_pieces_free(s: Seq<char>, sep: Seq<char>, k: int, q: int)
    requires
        sep.len() > 0,
        0 <= k < split(s, sep).len(),
    ensures
        !occurs_at(split(s, sep)[k], sep, q),
{
    lemma_split_from_pieces(s, sep, 0, k, q);
}

proof fn lemma_trim_start_shape(s: Seq<char>)
    ensures
        trim_start(s).len() > 0 ==> !is_white(trim_start(s)[0]),
        s.subrange(s.len() - trim_start(s).len(), s.len() as int) == trim_start(s),
        trim_start(s).len() <= s.len(),
        forall|i: int| 0 <= i < s.len() - trim_start(s).len() ==> is_white(#[trigger] s[i]),
    decreases s.len(),
{
    if s.len() > 0 && is_white(s[0]) {
        let t = s.drop_first();
        lemma_trim_start_shape(t);
        assert(s.subrange(s.len() - trim_start(s).len(), s.len() as int) =~= t.subrange(
            t.len() - trim_start(t).len(),
            t.len() as int,
        ));
        assert forall|i: int| 0 <= i < s.len() - trim_start(s).len() implies is_white(
            #[trigger] s[i],
        ) by {
            if i > 0 {
                assert(s[i] == t[i - 1]);
            }
        }
    } else {
        assert(s.subrange(0, s.len() as int) =~= s);
    }
}

proof fn lemma_trim_end_shape(s: Seq<char>)
    ensures
        trim_end(s).len() > 0 ==> !is_white(trim_end(s).last()),
        s.subrange(0, trim_end(s).len() as int) == trim_end(s),
        trim_end(s).len() <= s.len(),
        forall|i: int| trim_end(s).len() <= i < s.len() ==> is_white(#[trigger] s[i]),
        trim_end(s).len() > 0 && s.len() > 0 ==> !is_white(s[0]) ==> !is_white(trim_end(s)[0]),
    decreases s.len(),
{
    if s.len() > 0 && is_white(s.last()) {
        let t = s.drop_last();
        lemma_trim_end_shape(t);
        assert(s.subrange(0, trim_end(s).len() as int) =~= t.subrange(
            0,
            trim_end(t).len() as int,
        ));
        assert forall|i: int| trim_end(s).len() <= i < s.len() implies is_white(
            #[trigger] s[i],
        ) by {
            if i < s.len() - 1 {
                assert(s[i] == t[i]);
            }
        }
    } else {
        assert(s.subrange(0, s.len() as int) =~= s);
    }
}

/// Trimming takes a contiguous piece of the text that neither starts nor
/// ends with whitespace, and drops only whitespace around it.
pub proof fn lemma_trim_shape(s: Seq<char>)
    ensures
        trim(s).len() > 0 ==> !is_white(trim(s)[0]) && !is_white(trim(s).last()),
        ({
            let a = s.len() - trim_start(s).len();
            &&& 0 <= a
            &&& a + trim(s).len() <= s.len()
            &&& s.subrange(a, a + trim(s).len()) == trim(s)
            &&& forall|i: int| 0 <= i < a ==> is_white(#[trigger] s[i])
            &&& forall|i: int| a + trim(s).len() <= i < s.len() ==> is_white(#[trigger] s[i])
        }),
{
    let t = trim_start(s);
    lemma_trim_start_shape(s);
    lemma_trim_end_shape(t);
    let a = s.len() - t.len();
    let n = trim(s).len() as int;
    assert(s.subrange(a, a + n) =~= t.subrange(0, n));
    assert forall|i: int| a + n <= i < s.len() implies is_white(#[trigger] s[i]) by {
        assert(s[i] == t[i - a]);
    }
}

/// Trimming twice is trimming once.
pub proof fn lemma_trim_idempotent(s: Seq<char>)
    ensures
        trim(trim(s)) == trim(s),
{
    lemma_trim_shape(s);
    let t = trim(s);
    if t.len() > 0 {
        assert(trim_start(t) == t);
        assert(trim_end(t) == t);
    } else {
        assert(trim_start(t) == t);
    }
}

} // verus!
