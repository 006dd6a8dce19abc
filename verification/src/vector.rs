//! Fixed-width vectors of samples.
use vstd::prelude::*;

verus! {

/// `N` samples handled as one value.
#[derive(PartialEq, Eq, Copy, Clone, Hash, Debug)]
pub struct Vector<T, const N: usize> {
    /// The samples.
    pub data: [T; N],
}

impl<T: Copy, const N: usize> Vector<T, N> {
    /// The vector holding `a`.
    pub fn new(a: [T; N]) -> (r: Self)
        ensures
            r.data == a,
    {
        Vector { data: a }
    }

    /// The vector with every entry equal to `a`.
    pub fn splat(a: T) -> (r: Self)
        ensures
            forall|i: int| 0 <= i < N ==> #[trigger] r.data@[i] == a,
    {
        Vector { data: [a; N] }
    }

    /// Overwrite the entries with those of `a`.
    pub fn fill(&mut self, a: &[T; N])
        ensures
            final(self).data == *a,
    {
        self.data = *a;
    }
}

/// Why a vector could not be parsed from text.
#[derive(Debug, PartialEq)]
pub enum VectorErrorKind<E> {
    /// An entry failed to parse.
    ParseError(E),
    /// The number of entries differs from the vector width.
    InconsistentLength,
}

/// Error of parsing a vector from text.
#[derive(Debug, PartialEq)]
pub struct ParseVectorError<E> {
    /// What went wrong.
    pub kind: VectorErrorKind<E>,
}

impl<E> ParseVectorError<E> {
    /// The entry count differs from the vector width.
    pub fn inconsistent_length() -> (r: Self)
        ensures
            r.kind is InconsistentLength,
    {
        ParseVectorError { kind: VectorErrorKind::InconsistentLength }
    }

    /// An entry failed to parse with `error`.
    pub fn from_error(error: E) -> (r: Self)
        ensures
            r.kind == VectorErrorKind::ParseError(error),
    {
        ParseVectorError { kind: VectorErrorKind::ParseError(error) }
    }
}

// ---------------------------------------------------------------------------------------
// Reading a vector from text
// ---------------------------------------------------------------------------------------
/// Whether `c` has the Unicode `White_Space` property (what `char::is_whitespace` accepts).
pub open spec fn is_space(c: char) -> bool {
    ||| '\u{9}' <= c <= '\u{d}'
    ||| c == ' '
    ||| c == '\u{85}'
    ||| c == '\u{a0}'
    ||| c == '\u{1680}'
    ||| '\u{2000}' <= c <= '\u{200a}'
    ||| c == '\u{2028}'
    ||| c == '\u{2029}'
    ||| c == '\u{202f}'
    ||| c == '\u{205f}'
    ||| c == '\u{3000}'
}

/// Whether `c` is white space (see [`is_space`]).
pub fn is_space_exec(c: char) -> (r: bool)
    ensures
        r == is_space(c),
{
    ('\u{9}' <= c && c <= '\u{d}') || c == ' ' || c == '\u{85}' || c == '\u{a0}' || c == '\u{1680}'
        || ('\u{2000}' <= c && c <= '\u{200a}') || c == '\u{2028}' || c == '\u{2029}' || c
        == '\u{202f}' || c == '\u{205f}' || c == '\u{3000}'
}

/// Number of leading characters of `t` that satisfy `p`.
pub open spec fn lead_count(t: Seq<char>, p: spec_fn(char) -> bool) -> nat
    decreases t.len(),
{
    if t.len() == 0 || !p(t[0]) {
        0
    } else {
        1 + lead_count(t.drop_first(), p)
    }
}

/// Number of trailing characters of `t` that satisfy `p`.
pub open spec fn trail_count(t: Seq<char>, p: spec_fn(char) -> bool) -> nat
    decreases t.len(),
{
    if t.len() == 0 || !p(t.last()) {
        0
    } else {
        1 + trail_count(t.drop_last(), p)
    }
}

/// `t` without its leading characters that satisfy `p`.
pub open spec fn strip_lead(t: Seq<char>, p: spec_fn(char) -> bool) -> Seq<char> {
    t.subrange(lead_count(t, p) as int, t.len() as int)
}

/// `t` without its trailing characters that satisfy `p`.
pub open spec fn strip_trail(t: Seq<char>, p: spec_fn(char) -> bool) -> Seq<char> {
    t.subrange(0, t.len() - trail_count(t, p))
}

/// `t` without leading and trailing white space.
pub open spec fn trimmed(t: Seq<char>) -> Seq<char> {
    strip_trail(strip_lead(t, |c: char| is_space(c)), |c: char| is_space(c))
}

/// The pieces of `t` between commas, in order (an empty text is one empty piece).
pub open spec fn comma_pieces(t: Seq<char>) -> Seq<Seq<char>>
    decreases t.len(),
{
    if t.len() == 0 {
        seq![Seq::empty()]
    } else {
        let prev = comma_pieces(t.drop_last());
        if t.last() == ',' {
            prev.push(Seq::empty())
        } else {
            prev.update(prev.len() - 1, prev.last().push(t.last()))
        }
    }
}

/// The entry texts of a vector written as `1, 2, 3` or `[1, 2, 3]`: the text is trimmed,
/// stripped of leading `[` and trailing `]`, split at commas, and each piece trimmed.
pub open spec fn vector_fields(text: Seq<char>) -> Seq<Seq<char>> {
    let inner = strip_trail(
        strip_lead(trimmed(text), |c: char| c == '['),
        |c: char| c == ']',
    );
    comma_pieces(inner).map_values(|piece: Seq<char>| trimmed(piece))
}

proof fn lemma_lead_count_bound(t: Seq<char>, p: spec_fn(char) -> bool)
    ensures
        lead_count(t, p) <= t.len(),
        forall|i: int| 0 <= i < lead_count(t, p) ==> p(#[trigger] t[i]),
        lead_count(t, p) < t.len() ==> !p(t[lead_count(t, p) as int]),
    decreases t.len(),
{
    if t.len() > 0 && p(t[0]) {
        lemma_lead_count_bound(t.drop_first(), p);
        assert forall|i: int| 0 <= i < lead_count(t, p) implies p(#[trigger] t[i]) by {
            if i > 0 {
                assert(t[i] == t.drop_first()[i - 1]);
            }
        }
    }
}

proof fn lemma_trail_count_bound(t: Seq<char>, p: spec_fn(char) -> bool)
    ensures
        trail_count(t, p) <= t.len(),
        forall|i: int| t.len() - trail_count(t, p) <= i < t.len() ==> p(#[trigger] t[i]),
        trail_count(t, p) < t.len() ==> !p(t[t.len() - trail_count(t, p) - 1]),
    decreases t.len(),
{
    if t.len() > 0 && p(t.last()) {
        lemma_trail_count_bound(t.drop_last(), p);
        assert forall|i: int| t.len() - trail_count(t, p) <= i < t.len() implies p(
            #[trigger] t[i],
        ) by {
            if i < t.len() - 1 {
                assert(t[i] == t.drop_last()[i]);
            }
        }
    }
}

/// A leading run is counted exactly: `k` leading characters satisfy `p` and the next one
/// does not (or there is none).
proof fn lemma_lead_count_is(t: Seq<char>, p: spec_fn(char) -> bool, k: int)
    requires
        0 <= k <= t.len(),
        forall|i: int| 0 <= i < k ==> p(#[trigger] t[i]),
        k < t.len() ==> !p(t[k]),
    ensures
        lead_count(t, p) == k,
    decreases t.len(),
{
    if t.len() > 0 && p(t[0]) {
        assert(k > 0);
        assert forall|i: int| 0 <= i < k - 1 implies p(#[trigger] t.drop_first()[i]) by {
            assert(t.drop_first()[i] == t[i + 1]);
        }
        lemma_lead_count_is(t.drop_first(), p, k - 1);
    }
}

/// A trailing run is counted exactly.
proof fn lemma_trail_count_is(t: Seq<char>, p: spec_fn(char) -> bool, k: int)
    requires
        0 <= k <= t.len(),
        forall|i: int| t.len() - k <= i < t.len() ==> p(#[trigger] t[i]),
        k < t.len() ==> !p(t[t.len() - k - 1]),
    ensures
        trail_count(t, p) == k,
    decreases t.len(),
{
    if t.len() > 0 && p(t.last()) {
        assert(k > 0);
        let u = t.drop_last();
        assert forall|i: int| u.len() - (k - 1) <= i < u.len() implies p(#[trigger] u[i]) by {
            assert(u[i] == t[i]);
        }
        lemma_trail_count_is(u, p, k - 1);
    }
}

/// Whether `c` is stripped: white space, or `mark`.
fn strippable(c: char, strip_spaces: bool, mark: char) -> (r: bool)
    ensures
        r == (if strip_spaces {
            is_space(c)
        } else {
            c == mark
        }),
{
    if strip_spaces {
        is_space_exec(c)
    } else {
        c == mark
    }
}

/// Start within `t` of `t[lo..hi]` without its leading white space (or, without
/// `strip_spaces`, its leading `mark`s).
fn skip_lead(t: &[char], lo: usize, hi: usize, strip_spaces: bool, mark: char) -> (r: usize)
    requires
        lo <= hi <= t@.len(),
    ensures
        lo <= r <= hi,
        t@.subrange(r as int, hi as int) == strip_lead(
            t@.subrange(lo as int, hi as int),
            if strip_spaces {
                |c: char| is_space(c)
            } else {
                |c: char| c == mark
            },
        ),
{
    let ghost u = t@.subrange(lo as int, hi as int);
    let ghost p = if strip_spaces {
        |c: char| is_space(c)
    } else {
        |c: char| c == mark
    };
    let mut a = lo;
    while a < hi && strippable(t[a], strip_spaces, mark)
        invariant
            lo <= a <= hi <= t@.len(),
            forall|i: int| lo <= i < a ==> p(#[trigger] t@[i]),
            p == (if strip_spaces {
                |c: char| is_space(c)
            } else {
                |c: char| c == mark
            }),
        decreases hi - a,
    {
        a += 1;
    }
    proof {
        assert forall|i: int| 0 <= i < a - lo implies p(#[trigger] u[i]) by {
            assert(u[i] == t@[lo + i]);
        }
        if a < hi {
            assert(u[a - lo] == t@[a as int]);
        }
        lemma_lead_count_is(u, p, a - lo);
        assert(t@.subrange(a as int, hi as int) =~= strip_lead(u, p));
    }
    a
}

/// End within `t` of `t[lo..hi]` without its trailing white space (or, without
/// `strip_spaces`, its trailing `mark`s).
fn skip_trail(t: &[char], lo: usize, hi: usize, strip_spaces: bool, mark: char) -> (r: usize)
    requires
        lo <= hi <= t@.len(),
    ensures
        lo <= r <= hi,
        t@.subrange(lo as int, r as int) == strip_trail(
            t@.subrange(lo as int, hi as int),
            if strip_spaces {
                |c: char| is_space(c)
            } else {
                |c: char| c == mark
            },
        ),
{
    let ghost v = t@.subrange(lo as int, hi as int);
    let ghost p = if strip_spaces {
        |c: char| is_space(c)
    } else {
        |c: char| c == mark
    };
    let mut b = hi;
    while b > lo && strippable(t[b - 1], strip_spaces, mark)
        invariant
            lo <= b <= hi <= t@.len(),
            forall|i: int| b <= i < hi ==> p(#[trigger] t@[i]),
            p == (if strip_spaces {
                |c: char| is_space(c)
            } else {
                |c: char| c == mark
            }),
        decreases b - lo,
    {
        b -= 1;
    }
    proof {
        assert forall|i: int| v.len() - (hi - b) <= i < v.len() implies p(#[trigger] v[i]) by {
            assert(v[i] == t@[lo + i]);
        }
        if b > lo {
            assert(v[v.len() - (hi - b) - 1] == t@[b - 1]);
        }
        lemma_trail_count_is(v, p, hi - b);
        assert(t@.subrange(lo as int, b as int) =~= strip_trail(v, p));
    }
    b
}

/// The characters `t[lo..hi]`.
fn copy_chars(t: &[char], lo: usize, hi: usize) -> (r: Vec<char>)
    requires
        lo <= hi <= t@.len(),
    ensures
        r@ == t@.subrange(lo as int, hi as int),
{
    let mut r: Vec<char> = Vec::new();
    let mut k = lo;
    while k < hi
        invariant
            lo <= k <= hi <= t@.len(),
            r@ == t@.subrange(lo as int, k as int),
        decreases hi - k,
    {
        r.push(t[k]);
        proof {
            assert(r@ =~= t@.subrange(lo as int, k + 1));
        }
        k += 1;
    }
    r
}

/// `t[lo..hi]` trimmed of white space.
fn trimmed_chars(t: &[char], lo: usize, hi: usize) -> (r: Vec<char>)
    requires
        lo <= hi <= t@.len(),
    ensures
        r@ == trimmed(t@.subrange(lo as int, hi as int)),
{
    let a = skip_lead(t, lo, hi, true, ' ');
    let b = skip_trail(t, a, hi, true, ' ');
    copy_chars(t, a, b)
}

/// The entry texts of a vector written as `1, 2, 3` or `[1, 2, 3]` (see
/// [`vector_fields`]).
pub fn split_vector_fields(text: &[char]) -> (r: Vec<Vec<char>>)
    ensures
        r@.map_values(|f: Vec<char>| f@) == vector_fields(text@),
{
    let n = text.len();
    let a = skip_lead(text, 0, n, true, ' ');
    let b = skip_trail(text, a, n, true, ' ');
    proof {
        assert(text@.subrange(0, n as int) =~= text@);
    }
    let c = skip_lead(text, a, b, false, '[');
    let d = skip_trail(text, c, b, false, ']');
    let ghost inner = text@.subrange(c as int, d as int);
    let mut out: Vec<Vec<char>> = Vec::new();
    let ghost mut raw: Seq<Seq<char>> = Seq::empty();
    let mut start = c;
    let mut k = c;
    proof {
        assert(inner.subrange(0, 0) =~= Seq::<char>::empty());
        assert(text@.subrange(start as int, k as int) =~= Seq::<char>::empty());
        assert(comma_pieces(inner.subrange(0, 0)) == seq![Seq::<char>::empty()]);
        assert(raw.push(text@.subrange(start as int, k as int)) =~= seq![Seq::<char>::empty()]);
    }
    while k < d
        invariant
            c <= start <= k <= d <= text@.len(),
            inner == text@.subrange(c as int, d as int),
            comma_pieces(inner.subrange(0, k - c)) == raw.push(
                text@.subrange(start as int, k as int),
            ),
            out@.map_values(|f: Vec<char>| f@) == raw.map_values(|piece: Seq<char>| trimmed(piece)),
        decreases d - k,
    {
        let ghost prefix = inner.subrange(0, k + 1 - c);
        proof {
            assert(prefix.drop_last() =~= inner.subrange(0, k - c));
            assert(prefix.last() == text@[k as int]);
        }
        if text[k] == ',' {
            let piece = trimmed_chars(text, start, k);
            let ghost old_out = out@;
            out.push(piece);
            proof {
                let cur = text@.subrange(start as int, k as int);
                assert(out@.map_values(|f: Vec<char>| f@) =~= old_out.map_values(|f: Vec<char>| f@).push(
                    trimmed(cur),
                ));
                assert(raw.push(cur).map_values(|piece: Seq<char>| trimmed(piece)) =~= raw.map_values(
                    |piece: Seq<char>| trimmed(piece),
                ).push(trimmed(cur)));
                raw = raw.push(cur);
                assert(text@.subrange(k + 1, k + 1) =~= Seq::<char>::empty());
            }
            start = k + 1;
        } else {
            proof {
                let cur = text@.subrange(start as int, k as int);
                assert(cur.push(text@[k as int]) =~= text@.subrange(start as int, k + 1));
                assert(raw.push(cur).update(raw.len() as int, cur.push(text@[k as int])) =~= raw.push(
                    text@.subrange(start as int, k + 1),
                ));
            }
        }
        k += 1;
    }
    let last = trimmed_chars(text, start, d);
    let ghost old_out = out@;
    out.push(last);
    proof {
        let cur = text@.subrange(start as int, d as int);
        assert(inner.subrange(0, d - c) =~= inner);
        assert(out@.map_values(|f: Vec<char>| f@) =~= old_out.map_values(|f: Vec<char>| f@).push(
            trimmed(cur),
        ));
        assert(raw.push(cur).map_values(|piece: Seq<char>| trimmed(piece)) =~= raw.map_values(
            |piece: Seq<char>| trimmed(piece),
        ).push(trimmed(cur)));
        assert(text@.subrange(a as int, b as int) == trimmed(text@));
    }
    out
}

/// Index of the first failure among `rs`, if any.
pub open spec fn first_error<T, E>(rs: Seq<Result<T, E>>) -> Option<int>
    decreases rs.len(),
{
    if rs.len() == 0 {
        None
    } else if rs[0] is Err {
        Some(0)
    } else {
        match first_error(rs.drop_first()) {
            Some(k) => Some(k + 1),
            None => None,
        }
    }
}

/// `<[T; N]>::try_from(Vec<T>)`: std documents that the conversion succeeds exactly when
/// the vector holds `N` elements, which the array then holds in order.
#[verifier::external_body]
fn vec_to_array<T, const N: usize>(v: Vec<T>) -> (r: Option<[T; N]>)
    ensures
        r is Some <==> v@.len() == N,
        r matches Some(a) ==> a@ == v@,
{
    v.try_into().ok()
}

/// The vector whose entries were parsed into `parsed`, in order: the first failure, in
/// order, is the error; otherwise there must be exactly `N` entries.
pub fn vector_from_fields<T, E, const N: usize>(parsed: Vec<Result<T, E>>) -> (r: Result<
    Vector<T, N>,
    ParseVectorError<E>,
>)
    ensures
        match first_error(parsed@) {
            Some(k) => r matches Err(e) && parsed@[k] matches Err(pe) && e.kind
                == VectorErrorKind::ParseError(pe),
            None => if parsed@.len() == N {
                r matches Ok(v) && forall|i: int|
                    0 <= i < N ==> parsed@[i] == Ok::<T, E>(#[trigger] v.data@[i])
            } else {
                r matches Err(e) && e.kind is InconsistentLength
            },
        },
{
    let mut rest = parsed;
    let mut values: Vec<T> = Vec::new();
    let ghost all = rest@;
    let mut k: usize = 0;
    while rest.len() > 0
        invariant
            all == parsed@,
            k + rest@.len() == all.len(),
            rest@ == all.subrange(k as int, all.len() as int),
            values@.len() == k,
            forall|i: int| 0 <= i < k ==> all[i] == Ok::<T, E>(#[trigger] values@[i]),
            first_error(all) == match first_error(rest@) {
                Some(j) => Some(j + k),
                None => None::<int>,
            },
        decreases rest@.len(),
    {
        let ghost before = rest@;
        let item = rest.remove(0);
        proof {
            assert(rest@ =~= before.drop_first());
            assert(rest@ =~= all.subrange(k + 1, all.len() as int));
            assert(all[k as int] == item);
        }
        match item {
            Ok(v) => {
                values.push(v);
                k = values.len();
            },
            Err(e) => {
                proof {
                    assert(first_error(before) == Some(0int));
                }
                return Err(ParseVectorError::from_error(e));
            },
        }
    }
    proof {
        assert(first_error(rest@) is None);
    }
    match vec_to_array::<T, N>(values) {
        Some(data) => Ok(Vector { data }),
        None => Err(ParseVectorError::inconsistent_length()),
    }
}

} // verus!
