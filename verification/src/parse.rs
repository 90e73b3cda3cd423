//! Parsing of the textual problem format: decimal weights separated by
//! ASCII whitespace, with a zero weight ending the list.

use vstd::prelude::*;

verus! {

/// ASCII whitespace, as the input format uses it.
pub open spec fn is_ws(c: u8) -> bool {
    c == 32 || c == 9 || c == 10 || c == 12 || c == 13
}

/// An ASCII decimal digit.
pub open spec fn is_digit(c: u8) -> bool {
    48 <= c <= 57
}

/// The number a digit string denotes.
pub open spec fn digits_value(s: Seq<u8>) -> int
    decreases s.len(),
{
    if s.len() == 0 {
        0
    } else {
        digits_value(s.drop_last()) * 10 + (s.last() - 48)
    }
}

/// The digits of a number token, after an optional leading plus sign.
pub open spec fn digits_of(s: Seq<u8>) -> Seq<u8> {
    if s.len() > 0 && s[0] == 43 {
        s.drop_first()
    } else {
        s
    }
}

/// Whether the bytes are a decimal `u32`: an optional plus sign, then
/// one or more digits, denoting a value that fits.
pub open spec fn u32_token(s: Seq<u8>) -> bool {
    &&& digits_of(s).len() > 0
    &&& forall|i: int| 0 <= i < digits_of(s).len() ==> is_digit(#[trigger] digits_of(s)[i])
    &&& digits_value(digits_of(s)) <= u32::MAX
}

/// The value a number token denotes.
pub open spec fn token_value(s: Seq<u8>) -> int {
    digits_value(digits_of(s))
}

proof fn lemma_digits_value_step(s: Seq<u8>, i: int)
    requires
        0 <= i < s.len(),
    ensures
        digits_value(s.take(i + 1)) == digits_value(s.take(i)) * 10 + (s[i] - 48),
{
    assert(s.take(i + 1).drop_last() =~= s.take(i));
    assert(s.take(i + 1).last() == s[i]);
}

proof fn lemma_digits_value_nonneg(s: Seq<u8>)
    requires
        forall|i: int| 0 <= i < s.len() ==> is_digit(#[trigger] s[i]),
    ensures
        0 <= digits_value(s),
    decreases s.len(),
{
    if s.len() > 0 {
        assert forall|i: int| 0 <= i < s.drop_last().len() implies is_digit(
            #[trigger] s.drop_last()[i],
        ) by {
            assert(s.drop_last()[i] == s[i]);
        }
        lemma_digits_value_nonneg(s.drop_last());
        assert(digits_value(s.drop_last()) * 10 >= 0) by (nonlinear_arith)
            requires
                digits_value(s.drop_last()) >= 0,
        ;
    }
}

/// A digit string's value only grows as digits are appended.
proof fn lemma_digits_value_prefix(s: Seq<u8>, i: int)
    requires
        0 <= i <= s.len(),
        forall|k: int| 0 <= k < s.len() ==> is_digit(#[trigger] s[k]),
    ensures
        digits_value(s.take(i)) <= digits_value(s),
    decreases s.len() - i,
{
    if i == s.len() {
        assert(s.take(i) =~= s);
    } else {
        lemma_digits_value_step(s, i);
        assert forall|k: int| 0 <= k < s.take(i).len() implies is_digit(
            #[trigger] s.take(i)[k],
        ) by {
            assert(s.take(i)[k] == s[k]);
        }
        lemma_digits_value_nonneg(s.take(i));
        assert(digits_value(s.take(i)) * 10 >= digits_value(s.take(i))) by (nonlinear_arith)
            requires
                digits_value(s.take(i)) >= 0,
        ;
        lemma_digits_value_prefix(s, i + 1);
    }
}

/// Parses a decimal `u32` as the input format writes one: an optional
/// leading plus sign, then one or more digits. Anything else, or a
/// value that does not fit, is rejected.
pub fn parse_u32(s: &[u8]) -> (r: Option<u32>)
    ensures
        u32_token(s@) ==> r == Some(token_value(s@) as u32),
        !u32_token(s@) ==> r is None,
{
    let n = s.len();
    let start: usize = if n > 0 && s[0] == 43 {
        1
    } else {
        0
    };
    let ghost d = digits_of(s@);
    proof {
        assert(d =~= s@.skip(start as int));
    }
    if start >= n {
        return None;
    }
    let mut i: usize = start;
    let mut acc: u64 = 0;
    proof {
        assert(d.take(0) =~= Seq::<u8>::empty());
    }
    loop
        invariant
            start <= i <= n,
            n == s@.len(),
            start <= 1,
            d == digits_of(s@),
            d =~= s@.skip(start as int),
            forall|k: int| start <= k < i ==> is_digit(#[trigger] s@[k]),
            acc == digits_value(d.take(i - start)),
            acc <= u32::MAX,
        ensures
            i == n,
            forall|k: int| start <= k < i ==> is_digit(#[trigger] s@[k]),
            acc == digits_value(d.take(i - start)),
            acc <= u32::MAX,
        decreases n - i,
    {
        if i >= n {
            break;
        }
        let c = s[i];
        if c < 48 || c > 57 {
            proof {
                assert(d[i - start] == s@[i as int]);
                assert(!is_digit(d[i - start]));
            }
            return None;
        }
        proof {
            lemma_digits_value_step(d, i - start);
        }
        acc = acc * 10 + ((c - 48) as u64);
        i = i + 1;
        if acc > 0xffff_ffff {
            proof {
                if u32_token(s@) {
                    lemma_digits_value_prefix(d, i - start);
                }
            }
            return None;
        }
    }
    proof {
        assert(d.take(i - start) =~= d);
        assert forall|k: int| 0 <= k < d.len() implies is_digit(#[trigger] d[k]) by {
            assert(d[k] == s@[k + start]);
        }
    }
    Some(acc as u32)
}

/// The length of the leading run of non-whitespace bytes.
pub open spec fn token_len(s: Seq<u8>) -> nat
    decreases s.len(),
{
    if s.len() == 0 || is_ws(s.first()) {
        0
    } else {
        1 + token_len(s.drop_first())
    }
}

/// The whitespace-separated tokens of a byte string, in order.
pub open spec fn tokens_of(s: Seq<u8>) -> Seq<Seq<u8>>
    decreases s.len(),
    via tokens_of_decreases
{
    if s.len() == 0 {
        Seq::empty()
    } else if is_ws(s.first()) {
        tokens_of(s.drop_first())
    } else {
        seq![s.take(token_len(s) as int)] + tokens_of(s.skip(token_len(s) as int))
    }
}

proof fn lemma_token_len_le(s: Seq<u8>)
    ensures
        token_len(s) <= s.len(),
    decreases s.len(),
{
    if s.len() > 0 && !is_ws(s.first()) {
        lemma_token_len_le(s.drop_first());
    }
}

#[via_fn]
proof fn tokens_of_decreases(s: Seq<u8>) {
    if s.len() > 0 && !is_ws(s.first()) {
        assert(token_len(s) >= 1);
        lemma_token_len_le(s);
    }
}

/// The views of a vector of tokens.
pub open spec fn views_of(ts: Seq<Vec<u8>>) -> Seq<Seq<u8>> {
    Seq::new(ts.len(), |i: int| ts[i]@)
}

fn ws_byte(c: u8) -> (r: bool)
    ensures
        r == is_ws(c),
{
    c == 32 || c == 9 || c == 10 || c == 12 || c == 13
}

proof fn lemma_tokens_skip_ws(s: Seq<u8>, i: int)
    requires
        0 <= i < s.len(),
        is_ws(s[i]),
    ensures
        tokens_of(s.skip(i)) == tokens_of(s.skip(i + 1)),
{
    assert(s.skip(i).first() == s[i]);
    assert(s.skip(i).drop_first() =~= s.skip(i + 1));
}

proof fn lemma_token_run(s: Seq<u8>, i: int, j: int)
    requires
        0 <= i <= j <= s.len(),
        forall|k: int| i <= k < j ==> !is_ws(#[trigger] s[k]),
        j == s.len() || is_ws(s[j]),
    ensures
        token_len(s.skip(i)) == j - i,
    decreases j - i,
{
    if i == j {
        if i < s.len() {
            assert(s.skip(i).first() == s[i]);
        }
    } else {
        assert(s.skip(i).first() == s[i]);
        assert(s.skip(i).drop_first() =~= s.skip(i + 1));
        lemma_token_run(s, i + 1, j);
    }
}

/// Splits a byte string into its whitespace-separated tokens.
pub fn split_tokens(line: &[u8]) -> (r: Vec<Vec<u8>>)
    ensures
        views_of(r@) == tokens_of(line@),
{
    let n = line.len();
    let mut out: Vec<Vec<u8>> = Vec::new();
    let mut i: usize = 0;
    proof {
        assert(line@.skip(0) =~= line@);
        assert(views_of(out@) =~= Seq::<Seq<u8>>::empty());
        assert(views_of(out@) + tokens_of(line@) =~= tokens_of(line@));
    }
    loop
        invariant
            i <= n,
            n == line@.len(),
            tokens_of(line@) == views_of(out@) + tokens_of(line@.skip(i as int)),
        ensures
            i == n,
            tokens_of(line@) == views_of(out@) + tokens_of(line@.skip(i as int)),
        decreases n - i,
    {
        if i >= n {
            break;
        }
        if ws_byte(line[i]) {
            proof {
                lemma_tokens_skip_ws(line@, i as int);
            }
            i = i + 1;
            continue;
        }
        let mut j: usize = i;
        while j < n && !ws_byte(line[j])
            invariant
                i <= j <= n,
                n == line@.len(),
                forall|k: int| i <= k < j ==> !is_ws(#[trigger] line@[k]),
            decreases n - j,
        {
            j = j + 1;
        }
        let mut tok: Vec<u8> = Vec::new();
        let mut k: usize = i;
        proof {
            assert(tok@ =~= line@.subrange(i as int, i as int));
        }
        while k < j
            invariant
                i <= k <= j <= n,
                n == line@.len(),
                tok@ == line@.subrange(i as int, k as int),
            decreases j - k,
        {
            tok.push(line[k]);
            proof {
                assert(line@.subrange(i as int, k as int).push(line@[k as int]) =~= line@.subrange(
                    i as int,
                    k + 1,
                ));
            }
            k = k + 1;
        }
        let ghost pre_out = out@;
        out.push(tok);
        proof {
            lemma_token_run(line@, i as int, j as int);
            assert(line@.skip(i as int).take(token_len(line@.skip(i as int)) as int)
                =~= line@.subrange(i as int, j as int));
            assert(line@.skip(i as int).skip(token_len(line@.skip(i as int)) as int) =~= line@.skip(
                j as int,
            ));
            assert(line@.skip(i as int).first() == line@[i as int]);
            assert(tokens_of(line@.skip(i as int)) == seq![tok@] + tokens_of(line@.skip(j as int)));
            assert(views_of(out@) =~= pre_out.map_values(|t: Vec<u8>| t@).push(tok@));
            assert(views_of(out@) =~= views_of(pre_out).push(tok@));
            assert((views_of(pre_out).push(tok@)) + tokens_of(line@.skip(j as int)) =~= views_of(
                pre_out,
            ) + (seq![tok@] + tokens_of(line@.skip(j as int))));
        }
        i = j;
    }
    proof {
        assert(line@.skip(i as int).len() == 0);
        assert(tokens_of(line@.skip(i as int)) =~= Seq::<Seq<u8>>::empty());
        assert(views_of(out@) + tokens_of(line@.skip(i as int)) =~= views_of(out@));
    }
    out
}

/// The outcome of reading a token sequence as weights: the weights seen
/// before any zero, whether every token read was a number, and whether
/// a zero terminator was reached.
pub open spec fn scan_tokens(tokens: Seq<Seq<u8>>) -> (Seq<u32>, bool, bool)
    decreases tokens.len(),
{
    if tokens.len() == 0 {
        (Seq::empty(), true, false)
    } else if !u32_token(tokens.first()) {
        (Seq::empty(), false, false)
    } else if token_value(tokens.first()) == 0 {
        (Seq::empty(), true, true)
    } else {
        let rest = scan_tokens(tokens.drop_first());
        (seq![token_value(tokens.first()) as u32] + rest.0, rest.1, rest.2)
    }
}

/// Reads one line of weights: each token is appended as a weight until a
/// zero token ends the list. `Ok(true)` when the zero terminator was
/// seen, `Ok(false)` when the line ended first; the first token that is
/// not a decimal `u32` stops the reading with `Err`.
pub fn parse_weight_line(line: &[u8], weights: &mut Vec<u32>) -> (r: Result<bool, ()>)
    ensures
        final(weights)@ == old(weights)@ + scan_tokens(tokens_of(line@)).0,
        r matches Ok(found) ==> scan_tokens(tokens_of(line@)).1 && found == scan_tokens(
            tokens_of(line@),
        ).2,
        r is Err ==> !scan_tokens(tokens_of(line@)).1,
{
    let tokens = split_tokens(line);
    let ghost full = tokens_of(line@);
    let n = tokens.len();
    let mut idx: usize = 0;
    let ghost mut acc: Seq<u32> = Seq::empty();
    proof {
        assert(full.skip(0) =~= full);
        assert(acc + scan_tokens(full).0 =~= scan_tokens(full).0);
        assert(old(weights)@ + acc =~= old(weights)@);
    }
    loop
        invariant
            idx <= n,
            n == tokens@.len(),
            full == tokens_of(line@),
            views_of(tokens@) == full,
            weights@ == old(weights)@ + acc,
            scan_tokens(full).0 == acc + scan_tokens(full.skip(idx as int)).0,
            scan_tokens(full).1 == scan_tokens(full.skip(idx as int)).1,
            scan_tokens(full).2 == scan_tokens(full.skip(idx as int)).2,
        ensures
            idx == n,
            weights@ == old(weights)@ + acc,
            scan_tokens(full).0 == acc + scan_tokens(full.skip(idx as int)).0,
            scan_tokens(full).1 == scan_tokens(full.skip(idx as int)).1,
            scan_tokens(full).2 == scan_tokens(full.skip(idx as int)).2,
        decreases n - idx,
    {
        if idx >= n {
            break;
        }
        let ghost rem = full.skip(idx as int);
        proof {
            assert(rem.first() == tokens@[idx as int]@);
            assert(rem.drop_first() =~= full.skip(idx as int + 1));
        }
        let parsed = parse_u32(tokens[idx].as_slice());
        match parsed {
            None => {
                proof {
                    assert(scan_tokens(full).0 =~= acc);
                }
                return Err(());
            },
            Some(v) => {
                proof {
                    lemma_digits_value_nonneg(digits_of(rem.first()));
                }
                if v == 0 {
                    proof {
                        assert(token_value(rem.first()) == 0);
                        assert(scan_tokens(full).0 =~= acc);
                    }
                    return Ok(true);
                }
                weights.push(v);
                proof {
                    assert(token_value(rem.first()) != 0);
                    assert(scan_tokens(rem).0 == seq![v] + scan_tokens(rem.drop_first()).0);
                    acc = acc + seq![v];
                    assert(weights@ =~= old(weights)@ + acc);
                    assert(scan_tokens(full).0 =~= acc + scan_tokens(full.skip(idx as int + 1)).0);
                }
                idx = idx + 1;
            },
        }
    }
    proof {
        assert(full.skip(idx as int).len() == 0);
        assert(scan_tokens(full).0 =~= acc);
    }
    Ok(false)
}

/// Reads the capacity line: a line of only whitespace yields `Ok(None)`
/// and is skipped by the caller; otherwise the line must hold exactly
/// one decimal `u32`.
pub fn parse_capacity_line(line: &[u8]) -> (r: Result<Option<u32>, ()>)
    ensures
        tokens_of(line@).len() == 0 ==> r == Ok::<Option<u32>, ()>(None),
        tokens_of(line@).len() == 1 && u32_token(tokens_of(line@)[0]) ==> r == Ok::<
            Option<u32>,
            (),
        >(Some(token_value(tokens_of(line@)[0]) as u32)),
        tokens_of(line@).len() == 1 && !u32_token(tokens_of(line@)[0]) ==> r is Err,
        tokens_of(line@).len() > 1 ==> r is Err,
{
    let tokens = split_tokens(line);
    if tokens.len() == 0 {
        return Ok(None);
    }
    if tokens.len() > 1 {
        return Err(());
    }
    proof {
        assert(tokens@[0]@ == tokens_of(line@)[0]);
    }
    match parse_u32(tokens[0].as_slice()) {
        Some(v) => Ok(Some(v)),
        None => Err(()),
    }
}

} // verus!
