//! Text handling for the header's free-form fields: bytes-to-string
//! conversion and whitespace token splitting.
//!
//! All decisions of the reader are made on bytes; strings are built only at
//! the edge, when a decoded field is handed to the caller.

use vstd::prelude::*;
use crate::ascii::is_space;

verus! {

/// What `String::from_utf8_lossy` returns for the given bytes: a pure
/// function of the bytes alone.
pub uninterp spec fn lossy_of(b: Seq<u8>) -> Seq<char>;

/// Relies on String::from_utf8_lossy: the result depends on the bytes alone.
#[verifier::external_body]
pub fn bytes_to_string(b: &[u8]) -> (r: String)
    ensures
        r@ == lossy_of(b@),
{
    String::from_utf8_lossy(b).into_owned()
}

/// Index of the first whitespace byte at or after `i`, or the length.
pub open spec fn token_end(s: Seq<u8>, i: int) -> int
    decreases s.len() - i when 0 <= i <= s.len()
{
    if i >= s.len() {
        i
    } else if is_space(s[i]) {
        i
    } else {
        token_end(s, i + 1)
    }
}

pub proof fn lemma_token_end_bounds(s: Seq<u8>, i: int)
    requires
        0 <= i <= s.len(),
    ensures
        i <= token_end(s, i) <= s.len(),
        i < s.len() && !is_space(s[i]) ==> i < token_end(s, i),
    decreases s.len() - i,
{
    if i < s.len() && !is_space(s[i]) {
        lemma_token_end_bounds(s, i + 1);
    }
}

/// If bytes `i..j` are not whitespace and byte `j` is (or is the end), the
/// token that starts at `i` ends exactly at `j`.
pub proof fn lemma_token_end_is(s: Seq<u8>, i: int, j: int)
    requires
        0 <= i <= j <= s.len(),
        forall|k: int| i <= k < j ==> !is_space(#[trigger] s[k]),
        j == s.len() || is_space(s[j]),
    ensures
        token_end(s, i) == j,
    decreases j - i,
{
    if i < j {
        lemma_token_end_is(s, i + 1, j);
    }
}

/// The whitespace-separated tokens of `s`, from position `i` on.
pub open spec fn tokens_from(s: Seq<u8>, i: int) -> Seq<Seq<u8>>
    decreases s.len() - i when 0 <= i <= s.len() via tokens_from_dec
{
    if i >= s.len() {
        Seq::empty()
    } else if is_space(s[i]) {
        tokens_from(s, i + 1)
    } else {
        seq![s.subrange(i, token_end(s, i))] + tokens_from(s, token_end(s, i))
    }
}

#[via_fn]
proof fn tokens_from_dec(s: Seq<u8>, i: int) {
    if 0 <= i < s.len() && !is_space(s[i]) {
        lemma_token_end_bounds(s, i);
    }
}

/// The whitespace-separated tokens of `s`.
pub open spec fn tokens_of(s: Seq<u8>) -> Seq<Seq<u8>> {
    tokens_from(s, 0)
}

/// Token number `k`, or the empty sequence when there are fewer tokens.
pub open spec fn nth_token(s: Seq<u8>, k: int) -> Seq<u8> {
    if 0 <= k < tokens_of(s).len() {
        tokens_of(s)[k]
    } else {
        Seq::empty()
    }
}

/// The tokens joined with single spaces.
pub open spec fn join_tokens(ts: Seq<Seq<u8>>) -> Seq<u8>
    decreases ts.len(),
{
    if ts.len() == 0 {
        Seq::empty()
    } else if ts.len() == 1 {
        ts[0]
    } else {
        join_tokens(ts.drop_last()) + seq![32u8] + ts.last()
    }
}

/// Tokens `k..` of `s`, joined with single spaces (the normalized remainder
/// of a split field).
pub open spec fn rest_of_tokens(s: Seq<u8>, k: int) -> Seq<u8> {
    if k <= tokens_of(s).len() {
        join_tokens(tokens_of(s).skip(k))
    } else {
        Seq::empty()
    }
}

/// Spec view of a vector of token ranges.
pub open spec fn ranges_tokens(s: Seq<u8>, v: Seq<(usize, usize)>) -> Seq<Seq<u8>> {
    v.map(|k: int, r: (usize, usize)| s.subrange(r.0 as int, r.1 as int))
}

/// Finds the whitespace-separated tokens of `s`, as index ranges.
pub fn field_tokens(s: &[u8]) -> (v: Vec<(usize, usize)>)
    ensures
        ranges_tokens(s@, v@) == tokens_of(s@),
        forall|k: int| 0 <= k < v@.len() ==> 0 <= #[trigger] v@[k].0 <= v@[k].1 <= s@.len(),
{
    let n = s.len();
    let mut v: Vec<(usize, usize)> = Vec::new();
    let mut i: usize = 0;
    proof {
        assert(ranges_tokens(s@, v@) =~= Seq::<Seq<u8>>::empty());
    }
    while i < n
        invariant
            0 <= i <= n == s@.len(),
            tokens_of(s@) == ranges_tokens(s@, v@) + tokens_from(s@, i as int),
            forall|k: int| 0 <= k < v@.len() ==> 0 <= #[trigger] v@[k].0 <= v@[k].1 <= s@.len(),
        decreases n - i,
    {
        if space_exec(s, i) {
            i = i + 1;
        } else {
            let mut j = i + 1;
            while j < n && !space_exec(s, j)
                invariant
                    i < j <= n == s@.len(),
                    !is_space(s@[i as int]),
                    forall|k: int| i <= k < j ==> !is_space(#[trigger] s@[k]),
                decreases n - j,
            {
                j = j + 1;
            }
            proof {
                lemma_token_end_is(s@, i as int, j as int);
            }
            let ghost old_v = v@;
            v.push((i, j));
            proof {
                assert(ranges_tokens(s@, v@) =~= ranges_tokens(s@, old_v) + seq![
                    s@.subrange(i as int, j as int),
                ]);
                assert(tokens_from(s@, i as int) == seq![s@.subrange(i as int, j as int)]
                    + tokens_from(s@, j as int));
                assert(ranges_tokens(s@, old_v) + tokens_from(s@, i as int) =~= ranges_tokens(
                    s@,
                    v@,
                ) + tokens_from(s@, j as int));
            }
            i = j;
        }
    }
    proof {
        assert(tokens_of(s@) =~= ranges_tokens(s@, v@));
    }
    v
}

/// Whether byte `i` of `s` is whitespace.
fn space_exec(s: &[u8], i: usize) -> (r: bool)
    requires
        i < s@.len(),
    ensures
        r == is_space(s@[i as int]),
{
    let b = s[i];
    b == 32 || b == 9 || b == 10 || b == 11 || b == 12 || b == 13
}

/// Builds the bytes of tokens `from..` joined with single spaces.
pub fn join_token_bytes(s: &[u8], v: &Vec<(usize, usize)>, from: usize) -> (out: Vec<u8>)
    requires
        ranges_tokens(s@, v@) == tokens_of(s@),
        forall|k: int| 0 <= k < v@.len() ==> 0 <= #[trigger] v@[k].0 <= v@[k].1 <= s@.len(),
    ensures
        out@ == rest_of_tokens(s@, from as int),
{
    let mut out: Vec<u8> = Vec::new();
    let n = v.len();
    if from >= n {
        proof {
            if from as int <= tokens_of(s@).len() {
                assert(tokens_of(s@).skip(from as int) =~= Seq::<Seq<u8>>::empty());
            }
            assert(out@ =~= Seq::<u8>::empty());
        }
        return out;
    }
    let mut m = from;
    proof {
        assert(tokens_of(s@).skip(from as int).take(0) =~= Seq::<Seq<u8>>::empty());
    }
    while m < n
        invariant
            from <= m <= n == v@.len(),
            ranges_tokens(s@, v@) == tokens_of(s@),
            forall|k: int| 0 <= k < v@.len() ==> 0 <= #[trigger] v@[k].0 <= v@[k].1 <= s@.len(),
            out@ == join_tokens(tokens_of(s@).skip(from as int).take(m - from)),
        decreases n - m,
    {
        let (lo, hi) = (v[m].0, v[m].1);
        let ghost before = out@;
        if m > from {
            out.push(32);
        }
        let mut p = lo;
        while p < hi
            invariant
                lo <= p <= hi <= s@.len(),
                out@ == (if m > from {
                    before + seq![32u8]
                } else {
                    before
                }) + s@.subrange(lo as int, p as int),
            decreases hi - p,
        {
            let ghost mid = out@;
            out.push(s[p]);
            proof {
                assert(s@.subrange(lo as int, p + 1) =~= s@.subrange(lo as int, p as int).push(
                    s@[p as int],
                ));
                assert(out@ =~= mid.push(s@[p as int]));
            }
            p = p + 1;
        }
        proof {
            let ts = tokens_of(s@).skip(from as int);
            assert(ts.take(m + 1 - from).drop_last() =~= ts.take(m - from));
            assert(ts.take(m + 1 - from).last() == ts[m - from]);
            assert(ts[m - from] == ranges_tokens(s@, v@)[m as int]);
            assert(ranges_tokens(s@, v@)[m as int] == s@.subrange(
                v@[m as int].0 as int,
                v@[m as int].1 as int,
            ));
            if m > from {
                assert(out@ =~= join_tokens(ts.take(m - from)) + seq![32u8] + ts[m - from]);
            } else {
                assert(out@ =~= ts[0]);
                assert(join_tokens(ts.take(1)) == ts.take(1)[0]);
                assert(ts.take(1)[0] == ts[0]);
            }
        }
        m = m + 1;
    }
    proof {
        assert(tokens_of(s@).skip(from as int).take(n - from) =~= tokens_of(s@).skip(from as int));
    }
    out
}

} // verus!
