//! The expression parser: whitespace normalization and the translation of
//! a crontab expression into a validated [`crate::Crontab`].

use vstd::prelude::*;
use vstd::string::StrSliceExecFns;
use vstd::string::StringExecFns;

use crate::Error;

verus! {

/// The ASCII whitespace characters collapsed by [`normalize_crontab`]:
/// space, tab, line feed, form feed, carriage return.
pub open spec fn is_ascii_ws(c: char) -> bool {
    c == ' ' || c == '\t' || c == '\n' || c == '\x0c' || c == '\r'
}

/// The normal form of an expression: what [`normalize_crontab`] returns.
/// Leading and trailing whitespace is gone and every maximal whitespace run
/// between tokens became a single space.
pub open spec fn spec_normalize(s: Seq<char>) -> Seq<char> {
    norm_scan(s)
}

/// Normalization outside a token: leading whitespace is dropped; a
/// non-whitespace character opens a token.
pub open spec fn norm_scan(s: Seq<char>) -> Seq<char>
    decreases s.len(),
{
    if s.len() == 0 {
        Seq::empty()
    } else if is_ascii_ws(s[0]) {
        norm_scan(s.drop_first())
    } else {
        seq![s[0]] + norm_tok(s.drop_first())
    }
}

/// Normalization inside a token: a whitespace run ends the token and is
/// replaced by a single separating space, unless nothing follows.
pub open spec fn norm_tok(s: Seq<char>) -> Seq<char>
    decreases s.len(),
{
    if s.len() == 0 {
        Seq::empty()
    } else if is_ascii_ws(s[0]) {
        let rest = norm_scan(s.drop_first());
        if rest.len() == 0 {
            Seq::empty()
        } else {
            seq![' '] + rest
        }
    } else {
        seq![s[0]] + norm_tok(s.drop_first())
    }
}

/// A string already in normal form: every whitespace character is a single
/// space standing strictly between two non-whitespace characters.
pub open spec fn is_normal(s: Seq<char>) -> bool {
    forall|i: int|
        0 <= i < s.len() && is_ascii_ws(#[trigger] s[i]) ==> {
            &&& s[i] == ' '
            &&& 0 < i
            &&& i + 1 < s.len()
            &&& !is_ascii_ws(s[i - 1])
            &&& !is_ascii_ws(s[i + 1])
        }
}

/// The inside-a-token variant: a space may stand first, but never last,
/// never doubled, and no other whitespace appears.
spec fn is_normal_tail(s: Seq<char>) -> bool {
    forall|i: int|
        0 <= i < s.len() && is_ascii_ws(#[trigger] s[i]) ==> {
            &&& s[i] == ' '
            &&& i + 1 < s.len()
            &&& !is_ascii_ws(s[i + 1])
            &&& (0 < i ==> !is_ascii_ws(s[i - 1]))
        }
}

proof fn lemma_norm_scan_normal(s: Seq<char>)
    ensures
        is_normal(norm_scan(s)),
    decreases s.len(),
{
    if s.len() == 0 {
    } else if is_ascii_ws(s[0]) {
        lemma_norm_scan_normal(s.drop_first());
    } else {
        lemma_norm_tok_normal_tail(s.drop_first());
        let r = norm_tok(s.drop_first());
        let whole = seq![s[0]] + r;
        assert forall|i: int|
            0 <= i < whole.len() && is_ascii_ws(#[trigger] whole[i]) implies {
            &&& whole[i] == ' '
            &&& 0 < i
            &&& i + 1 < whole.len()
            &&& !is_ascii_ws(whole[i - 1])
            &&& !is_ascii_ws(whole[i + 1])
        } by {
            assert(i >= 1);
            assert(whole[i] == r[i - 1]);
            if i >= 2 {
                assert(whole[i - 1] == r[i - 2]);
            }
            assert(whole[i + 1] == r[i]);
        }
    }
}

proof fn lemma_norm_tok_normal_tail(s: Seq<char>)
    ensures
        is_normal_tail(norm_tok(s)),
    decreases s.len(),
{
    if s.len() == 0 {
    } else if is_ascii_ws(s[0]) {
        lemma_norm_scan_normal(s.drop_first());
        let rest = norm_scan(s.drop_first());
        if rest.len() > 0 {
            let whole = seq![' '] + rest;
            assert(!is_ascii_ws(rest[0]));
            assert forall|i: int|
                0 <= i < whole.len() && is_ascii_ws(#[trigger] whole[i]) implies {
                &&& whole[i] == ' '
                &&& i + 1 < whole.len()
                &&& !is_ascii_ws(whole[i + 1])
                &&& (0 < i ==> !is_ascii_ws(whole[i - 1]))
            } by {
                if i == 0 {
                    assert(whole[1] == rest[0]);
                } else {
                    assert(whole[i] == rest[i - 1]);
                    assert(whole[i + 1] == rest[i]);
                    if i >= 2 {
                        assert(whole[i - 1] == rest[i - 2]);
                    } else {
                        assert(whole[i - 1] == ' ');
                        assert(is_ascii_ws(rest[i - 1]));
                    }
                }
            }
        }
    } else {
        lemma_norm_tok_normal_tail(s.drop_first());
        let r = norm_tok(s.drop_first());
        let whole = seq![s[0]] + r;
        assert forall|i: int|
            0 <= i < whole.len() && is_ascii_ws(#[trigger] whole[i]) implies {
            &&& whole[i] == ' '
            &&& i + 1 < whole.len()
            &&& !is_ascii_ws(whole[i + 1])
            &&& (0 < i ==> !is_ascii_ws(whole[i - 1]))
        } by {
            assert(i >= 1);
            assert(whole[i] == r[i - 1]);
            if i >= 2 {
                assert(whole[i - 1] == r[i - 2]);
            }
            assert(whole[i + 1] == r[i]);
        }
    }
}

proof fn lemma_norm_scan_fixed(s: Seq<char>)
    requires
        is_normal(s),
    ensures
        norm_scan(s) == s,
    decreases s.len(),
{
    if s.len() == 0 {
    } else {
        assert(!is_ascii_ws(s[0]));
        let d = s.drop_first();
        assert forall|i: int|
            0 <= i < d.len() && is_ascii_ws(#[trigger] d[i]) implies {
            &&& d[i] == ' '
            &&& i + 1 < d.len()
            &&& !is_ascii_ws(d[i + 1])
            &&& (0 < i ==> !is_ascii_ws(d[i - 1]))
        } by {
            assert(d[i] == s[i + 1]);
            assert(d[i + 1] == s[i + 2]);
            if 0 < i {
                assert(d[i - 1] == s[i]);
            }
        }
        lemma_norm_tok_fixed(d);
        assert(seq![s[0]] + d =~= s);
    }
}

proof fn lemma_norm_tok_fixed(s: Seq<char>)
    requires
        is_normal_tail(s),
    ensures
        norm_tok(s) == s,
    decreases s.len(),
{
    if s.len() == 0 {
    } else if is_ascii_ws(s[0]) {
        let d = s.drop_first();
        assert(s[0] == ' ');
        assert(1 < s.len());
        assert(!is_ascii_ws(s[1]));
        assert forall|i: int|
            0 <= i < d.len() && is_ascii_ws(#[trigger] d[i]) implies {
            &&& d[i] == ' '
            &&& 0 < i
            &&& i + 1 < d.len()
            &&& !is_ascii_ws(d[i - 1])
            &&& !is_ascii_ws(d[i + 1])
        } by {
            assert(d[i] == s[i + 1]);
            assert(d[i + 1] == s[i + 2]);
            if 0 < i {
                assert(d[i - 1] == s[i]);
            } else {
                assert(d[0] == s[1]);
            }
        }
        lemma_norm_scan_fixed(d);
        assert(d.len() > 0);
        assert(d[0] == s[1]);
        assert(norm_scan(d).len() > 0);
        assert(seq![' '] + d =~= s);
    } else {
        let d = s.drop_first();
        assert forall|i: int|
            0 <= i < d.len() && is_ascii_ws(#[trigger] d[i]) implies {
            &&& d[i] == ' '
            &&& i + 1 < d.len()
            &&& !is_ascii_ws(d[i + 1])
            &&& (0 < i ==> !is_ascii_ws(d[i - 1]))
        } by {
            assert(d[i] == s[i + 1]);
            assert(d[i + 1] == s[i + 2]);
            if 0 < i {
                assert(d[i - 1] == s[i]);
            }
        }
        lemma_norm_tok_fixed(d);
        assert(seq![s[0]] + d =~= s);
    }
}

/// The result of normalization is in normal form.
pub proof fn lemma_normalize_normal(s: Seq<char>)
    ensures
        is_normal(spec_normalize(s)),
{
    lemma_norm_scan_normal(s);
}

/// Normalization is the identity on strings already in normal form.
pub proof fn lemma_normalize_of_normal(s: Seq<char>)
    requires
        is_normal(s),
    ensures
        spec_normalize(s) == s,
{
    lemma_norm_scan_fixed(s);
}

/// Normalization is idempotent: a second pass changes nothing.
pub proof fn lemma_normalize_idempotent(s: Seq<char>)
    ensures
        spec_normalize(spec_normalize(s)) == spec_normalize(s),
{
    lemma_normalize_normal(s);
    lemma_normalize_of_normal(spec_normalize(s));
}

/// How much of the normal form is still to come from position `i` on.
spec fn norm_rest(s: Seq<char>, i: int) -> Seq<char> {
    norm_scan(s.skip(i))
}

/// Joining the emitted part with what is still to come.
spec fn norm_join(done: Seq<char>, rest: Seq<char>) -> Seq<char> {
    if done.len() == 0 {
        rest
    } else if rest.len() == 0 {
        done
    } else {
        done + seq![' '] + rest
    }
}

proof fn lemma_skip_ws(s: Seq<char>, i: int)
    requires
        0 <= i < s.len(),
        is_ascii_ws(s[i]),
    ensures
        norm_rest(s, i) == norm_rest(s, i + 1),
{
    assert(s.skip(i).drop_first() =~= s.skip(i + 1));
}

proof fn lemma_token_run(s: Seq<char>, i: int, j: int)
    requires
        0 <= i <= j <= s.len(),
        forall|k: int| i <= k < j ==> !is_ascii_ws(#[trigger] s[k]),
        j == s.len() || is_ascii_ws(s[j]),
    ensures
        norm_tok(s.skip(i)) == s.subrange(i, j) + (if norm_rest(s, j).len() == 0 {
            Seq::<char>::empty()
        } else {
            seq![' '] + norm_rest(s, j)
        }),
    decreases j - i,
{
    if i == j {
        if j == s.len() {
            assert(s.skip(j).len() == 0);
            assert(norm_tok(s.skip(j)) =~= s.subrange(j, j));
        } else {
            assert(s.skip(j)[0] == s[j]);
            assert(s.skip(j).drop_first() =~= s.skip(j + 1));
            assert(s.subrange(j, j) =~= Seq::<char>::empty());
            if norm_rest(s, j + 1).len() == 0 {
                assert(norm_tok(s.skip(j)) =~= s.subrange(j, j) + Seq::<char>::empty());
            } else {
                assert(norm_tok(s.skip(j)) =~= s.subrange(j, j) + (seq![' '] + norm_rest(s, j)))
                by {
                    lemma_skip_ws(s, j);
                }
            }
            lemma_skip_ws(s, j);
        }
    } else {
        assert(s.skip(i)[0] == s[i]);
        assert(!is_ascii_ws(s[i]));
        assert(s.skip(i).drop_first() =~= s.skip(i + 1));
        lemma_token_run(s, i + 1, j);
        assert(seq![s[i]] + s.subrange(i + 1, j) =~= s.subrange(i, j));
        if norm_rest(s, j).len() == 0 {
            assert(norm_tok(s.skip(i)) =~= s.subrange(i, j) + Seq::<char>::empty());
        } else {
            assert(norm_tok(s.skip(i)) =~= s.subrange(i, j) + (seq![' '] + norm_rest(s, j)));
        }
    }
}

proof fn lemma_token_step(s: Seq<char>, i: int, j: int)
    requires
        0 <= i < j <= s.len(),
        forall|k: int| i <= k < j ==> !is_ascii_ws(#[trigger] s[k]),
        j == s.len() || is_ascii_ws(s[j]),
    ensures
        norm_rest(s, i) == s.subrange(i, j) + (if norm_rest(s, j).len() == 0 {
            Seq::<char>::empty()
        } else {
            seq![' '] + norm_rest(s, j)
        }),
{
    assert(s.skip(i)[0] == s[i]);
    assert(s.skip(i).drop_first() =~= s.skip(i + 1));
    lemma_token_run(s, i + 1, j);
    assert(seq![s[i]] + s.subrange(i + 1, j) =~= s.subrange(i, j));
    if norm_rest(s, j).len() == 0 {
        assert(norm_rest(s, i) =~= s.subrange(i, j) + Seq::<char>::empty());
    } else {
        assert(norm_rest(s, i) =~= s.subrange(i, j) + (seq![' '] + norm_rest(s, j)));
    }
}

/// Collapse every run of ASCII whitespace to a single space and trim the
/// ends. The result is the canonical text the parser reads and the text
/// quoted in parse error messages.
pub fn normalize_crontab(input: &str) -> (r: String)
    ensures
        r@ == spec_normalize(input@),
{
    let ghost s = input@;
    let n = input.unicode_len();
    let mut out = String::new();
    let mut first: bool = true;
    let mut i: usize = 0;
    proof {
        assert(s.skip(0) =~= s);
    }
    loop
        invariant
            n == s.len(),
            0 <= i <= n,
            input@ == s,
            first ==> out@.len() == 0,
            !first ==> out@.len() > 0,
            spec_normalize(s) == norm_join(out@, norm_rest(s, i as int)),
        decreases n - i,
    {
        let ghost i0 = i;
        // skip a whitespace run
        while i < n && is_ws_at(input, i)
            invariant
                n == s.len(),
                0 <= i <= n,
                i0 <= i,
                input@ == s,
                spec_normalize(s) == norm_join(out@, norm_rest(s, i as int)),
            decreases n - i,
        {
            proof {
                lemma_skip_ws(s, i as int);
            }
            i = i + 1;
        }
        if i == n {
            proof {
                assert(s.skip(n as int) =~= Seq::<char>::empty());
                assert(norm_rest(s, n as int) =~= Seq::<char>::empty());
                assert(norm_join(out@, norm_rest(s, i as int)) =~= out@);
            }
            return out;
        }
        // collect the token
        let start = i;
        while i < n && !is_ws_at(input, i)
            invariant
                n == s.len(),
                0 <= start <= i <= n,
                input@ == s,
                forall|k: int| start <= k < i ==> !is_ascii_ws(#[trigger] s[k]),
                i == start ==> i < n && !is_ascii_ws(s[i as int]),
            decreases n - i,
        {
            i = i + 1;
        }
        let token = input.substring_char(start, i);
        proof {
            lemma_token_step(s, start as int, i as int);
        }
        if first {
            out.append(token);
            first = false;
            proof {
                if norm_rest(s, i as int).len() == 0 {
                    assert(norm_join(Seq::<char>::empty(), norm_rest(s, start as int))
                        =~= out@ + Seq::<char>::empty());
                    assert(out@ + Seq::<char>::empty() =~= out@);
                } else {
                    assert(norm_join(Seq::<char>::empty(), norm_rest(s, start as int)) =~= out@
                        + seq![' '] + norm_rest(s, i as int));
                }
                assert(out@.len() > 0);
            }
        } else {
            let ghost before = out@;
            out.append(" ");
            out.append(token);
            proof {
                reveal_strlit(" ");
                assert(" "@ =~= seq![' ']);
                assert(out@ =~= before + seq![' '] + s.subrange(start as int, i as int));
                if norm_rest(s, i as int).len() == 0 {
                    assert(norm_join(before, norm_rest(s, start as int)) =~= before + seq![' ']
                        + (s.subrange(start as int, i as int) + Seq::<char>::empty()));
                    assert(norm_join(before, norm_rest(s, start as int)) =~= out@);
                } else {
                    assert(norm_join(before, norm_rest(s, start as int)) =~= before + seq![' ']
                        + (s.subrange(start as int, i as int) + (seq![' '] + norm_rest(
                        s,
                        i as int,
                    ))));
                    assert(norm_join(before, norm_rest(s, start as int)) =~= out@ + seq![' ']
                        + norm_rest(s, i as int));
                }
                assert(out@.len() > 0);
            }
        }
    }
}

/// Whether the character at `i` is ASCII whitespace.
fn is_ws_at(input: &str, i: usize) -> (r: bool)
    requires
        i < input@.len(),
    ensures
        r == is_ascii_ws(input@[i as int]),
{
    let c = input.get_char(i);
    c == ' ' || c == '\t' || c == '\n' || c == '\x0c' || c == '\r'
}

/// The characters of `input`, as an indexable vector.
fn to_chars(input: &str) -> (r: Vec<char>)
    ensures
        r@ == input@,
{
    let n = input.unicode_len();
    let mut r: Vec<char> = Vec::new();
    let mut i: usize = 0;
    while i < n
        invariant
            n == input@.len(),
            0 <= i <= n,
            r@ == input@.subrange(0, i as int),
        decreases n - i,
    {
        r.push(input.get_char(i));
        proof {
            assert(r@ =~= input@.subrange(0, i + 1 as int));
        }
        i = i + 1;
    }
    proof {
        assert(r@ =~= input@);
    }
    r
}

/// An ASCII decimal digit.
pub open spec fn is_digit(c: char) -> bool {
    '0' <= c && c <= '9'
}

/// The numeric value of an ASCII decimal digit.
pub open spec fn digit_of(c: char) -> int {
    c as u32 - '0' as u32
}

/// The value of a sequence of decimal digits, most significant first.
pub open spec fn digits_val(s: Seq<char>) -> int
    decreases s.len(),
{
    if s.len() == 0 {
        0
    } else {
        digits_val(s.drop_last()) * 10 + digit_of(s.last())
    }
}

/// Where the maximal run of digits beginning at `pos` ends.
pub open spec fn digit_run_end(s: Seq<char>, pos: int, end: int) -> int
    decreases end - pos,
{
    if pos < end && is_digit(s[pos]) {
        digit_run_end(s, pos + 1, end)
    } else {
        pos
    }
}

proof fn lemma_digit_run_end_bounds(s: Seq<char>, pos: int, end: int)
    requires
        0 <= pos <= end <= s.len(),
    ensures
        pos <= digit_run_end(s, pos, end) <= end,
        forall|k: int| pos <= k < digit_run_end(s, pos, end) ==> is_digit(#[trigger] s[k]),
        digit_run_end(s, pos, end) < end ==> !is_digit(s[digit_run_end(s, pos, end)]),
    decreases end - pos,
{
    if pos < end && is_digit(s[pos]) {
        lemma_digit_run_end_bounds(s, pos + 1, end);
    }
}

/// Parse the maximal run of decimal digits starting at `pos`. Returns the
/// value and the position after the run, or `None` where no digit stands at
/// `pos` or the value exceeds `u64::MAX`.
fn parse_uint(chars: &Vec<char>, pos: usize, end: usize) -> (r: Option<(u64, usize)>)
    requires
        pos <= end <= chars@.len(),
    ensures
        match r {
            Some(vp) => {
                &&& pos < vp.1 <= end
                &&& vp.1 == digit_run_end(chars@, pos as int, end as int)
                &&& vp.0 == digits_val(chars@.subrange(pos as int, vp.1 as int))
            },
            None => pos == end || !is_digit(chars@[pos as int]) || digits_val(
                chars@.subrange(pos as int, digit_run_end(chars@, pos as int, end as int)),
            ) > u64::MAX,
        },
{
    proof {
        lemma_digit_run_end_bounds(chars@, pos as int, end as int);
    }
    if pos == end || !digit_at(chars, pos) {
        return None;
    }
    let ghost run_end = digit_run_end(chars@, pos as int, end as int);
    let mut p = pos;
    let mut v: u64 = 0;
    let mut overflow = false;
    proof {
        assert(chars@.subrange(pos as int, pos as int) =~= Seq::<char>::empty());
    }
    while p < end && digit_at(chars, p)
        invariant
            pos <= p <= end <= chars@.len(),
            run_end == digit_run_end(chars@, pos as int, end as int),
            run_end == digit_run_end(chars@, p as int, end as int),
            !overflow ==> v == digits_val(chars@.subrange(pos as int, p as int)),
            overflow ==> digits_val(chars@.subrange(pos as int, p as int)) > u64::MAX,
        decreases end - p,
    {
        proof {
            assert(digit_run_end(chars@, p as int, end as int) == digit_run_end(
                chars@,
                p + 1 as int,
                end as int,
            ));
        }
        let d = digit_value_at(chars, p);
        let ghost prefix = chars@.subrange(pos as int, p as int);
        let ghost prefix2 = chars@.subrange(pos as int, p + 1 as int);
        proof {
            assert(prefix2.drop_last() =~= prefix);
            assert(prefix2.last() == chars@[p as int]);
            assert(digits_val(prefix2) == digits_val(prefix) * 10 + digit_of(chars@[p as int]));
        }
        if overflow {
            proof {
                assert(digits_val(prefix) >= 0 || digits_val(prefix) > u64::MAX);
                assert(digits_val(prefix) > u64::MAX);
                assert(digits_val(prefix) * 10 + d >= digits_val(prefix)) by (nonlinear_arith)
                    requires digits_val(prefix) > 0 && d >= 0;
                assert(digits_val(prefix2) > u64::MAX);
            }
        } else if v > u64::MAX / 10 || (v == u64::MAX / 10 && d > u64::MAX % 10) {
            overflow = true;
            proof {
                assert(digits_val(prefix) * 10 + d > u64::MAX) by (nonlinear_arith)
                    requires
                        digits_val(prefix) == v,
                        0 <= d <= 9,
                        v > u64::MAX / 10 || (v == u64::MAX / 10 && d > u64::MAX % 10);
                assert(digits_val(prefix2) > u64::MAX);
            }
        } else {
            proof {
                assert(v * 10 + d <= u64::MAX) by (nonlinear_arith)
                    requires
                        0 <= v,
                        0 <= d <= 9,
                        !(v > u64::MAX / 10 || (v == u64::MAX / 10 && d > u64::MAX % 10));
            }
            v = v * 10 + d;
        }
        p = p + 1;
    }
    proof {
        assert(digit_run_end(chars@, p as int, end as int) == p as int);
        assert(p == run_end);
    }
    if overflow {
        None
    } else {
        Some((v, p))
    }
}

/// Whether the character at `pos` is a decimal digit.
fn digit_at(chars: &Vec<char>, pos: usize) -> (r: bool)
    requires
        pos < chars@.len(),
    ensures
        r == is_digit(chars@[pos as int]),
{
    let c = chars[pos];
    '0' <= c && c <= '9'
}

/// The numeric value of the digit at `pos`.
fn digit_value_at(chars: &Vec<char>, pos: usize) -> (r: u64)
    requires
        pos < chars@.len(),
        is_digit(chars@[pos as int]),
    ensures
        r == digit_of(chars@[pos as int]),
        r <= 9,
{
    let c = chars[pos];
    (c as u32 - 48) as u64
}

/// Strictly ascending, hence duplicate-free.
pub open spec fn strictly_sorted(s: Seq<u8>) -> bool {
    forall|i: int, j: int| 0 <= i < j < s.len() ==> s[i] < s[j]
}

/// Insert `x` into the strictly sorted vector `v`, keeping it strictly
/// sorted; inserting a member again changes nothing.
fn insert_sorted(v: &mut Vec<u8>, x: u8)
    requires
        strictly_sorted(old(v)@),
    ensures
        strictly_sorted(final(v)@),
        forall|y: u8| #[trigger] final(v)@.contains(y) <==> (old(v)@.contains(y) || y == x),
{
    let mut i: usize = 0;
    while i < v.len() && v[i] < x
        invariant
            0 <= i <= v@.len(),
            strictly_sorted(v@),
            v@ == old(v)@,
            forall|k: int| 0 <= k < i ==> v@[k] < x,
        decreases v@.len() - i,
    {
        i = i + 1;
    }
    if i < v.len() && v[i] == x {
        proof {
            assert(v@.contains(x)) by {
                assert(v@[i as int] == x);
            }
            assert forall|y: u8| #[trigger] v@.contains(y) <==> (old(v)@.contains(y) || y == x) by {
                if y == x {
                    assert(v@[i as int] == x);
                }
            }
        }
        return ;
    }
    proof {
        // x is not a member
        assert forall|k: int| 0 <= k < v@.len() implies v@[k] != x by {
            if k < i {
            } else {
                if i < v@.len() {
                    assert(v@[i as int] > x || v@[i as int] == x);
                    assert(v@[i as int] != x);
                    if k > i {
                        assert(v@[i as int] < v@[k]);
                    }
                } else {
                }
            }
        }
    }
    let ghost before = v@;
    v.insert(i, x);
    proof {
        assert(v@ == before.insert(i as int, x));
        assert(v@.len() == before.len() + 1);
        assert forall|k: int| 0 <= k < v@.len() implies {
            &&& (k < i ==> v@[k] == before[k])
            &&& (k == i ==> v@[k] == x)
            &&& (k > i ==> v@[k] == before[k - 1])
        } by {}
        assert forall|a: int, b: int| 0 <= a < b < v@.len() implies v@[a] < v@[b] by {
            if b < i {
            } else if a < i && b == i {
                assert(v@[a] == before[a] && before[a] < x);
            } else if a < i && b > i {
                assert(v@[b] == before[b - 1]);
                if b - 1 == a {
                    assert(before[a] < x);
                    assert(i <= b - 1);
                    assert(false);
                } else {
                    assert(before[a] < before[b - 1] || a == b - 1);
                }
            } else if a == i {
                assert(v@[b] == before[b - 1]);
                assert(b - 1 >= i);
                if i < before.len() {
                    assert(before[i as int] > x);
                    if b - 1 == i {
                    } else {
                        assert(before[i as int] < before[b - 1]);
                    }
                } else {
                    assert(b - 1 < before.len());
                    assert(false);
                }
            } else {
                assert(v@[a] == before[a - 1] && v@[b] == before[b - 1]);
            }
        }
        assert forall|y: u8| #[trigger] v@.contains(y) <==> (before.contains(y) || y == x) by {
            if v@.contains(y) {
                let k = choose|k: int| 0 <= k < v@.len() && v@[k] == y;
                if k < i {
                    assert(before[k] == y);
                } else if k == i {
                } else {
                    assert(before[k - 1] == y);
                }
            }
            if before.contains(y) {
                let k = choose|k: int| 0 <= k < before.len() && before[k] == y;
                if k < i {
                    assert(v@[k] == y);
                } else {
                    assert(v@[k + 1] == y);
                }
            }
            if y == x {
                assert(v@[i as int] == y);
            }
        }
    }
}

/// Day-of-week input values `0` and `7` both mean Sunday; the canonical
/// internal form is `7`.
pub open spec fn norm_sunday_spec(v: int) -> int {
    if v == 0 {
        7
    } else {
        v
    }
}

fn norm_sunday(v: u8) -> (r: u8)
    requires
        v <= 7,
    ensures
        r as int == norm_sunday_spec(v as int),
        1 <= r <= 7,
{
    if v == 0 {
        7
    } else {
        v
    }
}

proof fn lemma_next_multiple(dy: int, dv: int, s: int)
    requires
        s >= 1,
        dy >= 0,
        dv >= 0,
        dy % s == 0,
        dv % s == 0,
        dy < dv + s,
    ensures
        dy <= dv,
{
    let k1 = dy / s;
    let k2 = dv / s;
    vstd::arithmetic::div_mod::lemma_fundamental_div_mod(dy, s);
    vstd::arithmetic::div_mod::lemma_fundamental_div_mod(dv, s);
    assert(dy == s * k1);
    assert(dv == s * k2);
    assert(k1 >= 0) by (nonlinear_arith)
        requires dy == s * k1 && s >= 1 && dy >= 0;
    assert(k2 >= 0) by (nonlinear_arith)
        requires dv == s * k2 && s >= 1 && dv >= 0;
    assert(k1 <= k2) by (nonlinear_arith)
        requires s * k1 < s * k2 + s && s >= 1;
    assert(s * k1 <= s * k2) by (nonlinear_arith)
        requires k1 <= k2 && s >= 1;
}

/// Insert every `s`-th value from `a` up to `b` into the sorted vector:
/// exactly the members of `[a, b]` congruent to `a` modulo `s`.
fn expand_stepped(values: &mut Vec<u8>, a: u8, b: u8, s: u8)
    requires
        strictly_sorted(old(values)@),
        a <= b,
        s >= 1,
    ensures
        strictly_sorted(final(values)@),
        forall|y: u8| #[trigger]
            final(values)@.contains(y) <==> (old(values)@.contains(y) || (a <= y <= b && (
            y as int - a as int) % (s as int) == 0)),
        final(values)@.len() > 0,
{
    let mut v: u16 = a as u16;
    proof {
        vstd::arithmetic::div_mod::lemma_small_mod(0nat, s as nat);
    }
    while v <= b as u16
        invariant
            a <= b,
            s >= 1,
            a as int <= v as int <= b as int + s as int,
            (v as int - a as int) % (s as int) == 0,
            strictly_sorted(values@),
            forall|y: u8| #[trigger]
                values@.contains(y) <==> (old(values)@.contains(y) || (a <= y <= b && (
                y as int) < v as int && (y as int - a as int) % (s as int) == 0)),
        decreases b as int + s as int - v as int,
    {
        let ghost prev = values@;
        insert_sorted(values, v as u8);
        proof {
            assert forall|y: u8| #[trigger]
                values@.contains(y) <==> (old(values)@.contains(y) || (a <= y <= b && (
                y as int) < v as int + s as int && (y as int - a as int) % (s as int)
                == 0)) by {
                if values@.contains(y) {
                    if !prev.contains(y) {
                        assert(y == v as u8);
                    }
                }
                if a <= y <= b && (y as int) < v as int + s as int && (y as int - a as int) % (
                s as int) == 0 {
                    if (y as int) >= v as int {
                        lemma_next_multiple(y as int - a as int, v as int - a as int, s as int);
                        assert(y as int <= v as int);
                        assert(y == v as u8);
                        assert(values@.contains(y));
                    }
                }
            }
        }
        proof {
            vstd::arithmetic::div_mod::lemma_mod_multiples_vanish(
                1,
                v as int - a as int,
                s as int,
            );
        }
        v = v + s as u16;
    }
    proof {
        assert forall|y: u8| #[trigger]
            values@.contains(y) <==> (old(values)@.contains(y) || (a <= y <= b && (y as int
            - a as int) % (s as int) == 0)) by {
            if a <= y <= b && (y as int - a as int) % (s as int) == 0 {
                assert((y as int) < v as int);
            }
        }
        assert((a as int - a as int) % (s as int) == 0) by (nonlinear_arith)
            requires s >= 1;
        assert(values@.contains(a));
    }
}

/// The day-of-week form of [`expand_stepped`]: the raw values `a` through
/// `b` step `s` are inserted after Sunday normalization.
fn expand_stepped_dow(values: &mut Vec<u8>, a: u8, b: u8, s: u8)
    requires
        strictly_sorted(old(values)@),
        a <= b,
        b <= 7,
        s >= 1,
    ensures
        strictly_sorted(final(values)@),
        forall|y: u8| #[trigger]
            final(values)@.contains(y) <==> (old(values)@.contains(y) || exists|v: int|
                a <= v <= b && (v - a as int) % (s as int) == 0 && y as int == norm_sunday_spec(
                v,
            )),
        final(values)@.len() > 0,
{
    let mut v: u16 = a as u16;
    proof {
        vstd::arithmetic::div_mod::lemma_small_mod(0nat, s as nat);
    }
    while v <= b as u16
        invariant
            a <= b <= 7,
            s >= 1,
            a as int <= v as int <= b as int + s as int,
            (v as int - a as int) % (s as int) == 0,
            strictly_sorted(values@),
            forall|y: u8| #[trigger]
                values@.contains(y) <==> (old(values)@.contains(y) || exists|w: int|
                    a <= w <= b && w < v as int && (w - a as int) % (s as int) == 0 && y as int
                        == norm_sunday_spec(w)),
        decreases b as int + s as int - v as int,
    {
        let ghost prev = values@;
        let nv = norm_sunday(v as u8);
        insert_sorted(values, nv);
        proof {
            assert forall|y: u8| #[trigger]
                values@.contains(y) <==> (old(values)@.contains(y) || exists|w: int|
                    a <= w <= b && w < v as int + s as int && (w - a as int) % (s as int) == 0
                        && y as int == norm_sunday_spec(w)) by {
                if values@.contains(y) {
                    if !prev.contains(y) {
                        assert(y == nv);
                        assert((a as int) <= (v as int) && (v as int) <= (b as int) && (
                        v as int) < (v as int) + (s as int) && ((v as int) - (a as int)) % (
                        s as int) == 0 && y as int == norm_sunday_spec(v as int));
                    } else {
                    }
                }
                if exists|w: int|
                    a <= w <= b && w < v as int + s as int && (w - a as int) % (s as int) == 0
                        && y as int == norm_sunday_spec(w) {
                    let w = choose|w: int|
                        a <= w <= b && w < v as int + s as int && (w - a as int) % (s as int)
                            == 0 && y as int == norm_sunday_spec(w);
                    if w >= v as int {
                        lemma_next_multiple(w - a as int, v as int - a as int, s as int);
                        assert(w == v as int);
                        assert(y == nv);
                        assert(values@.contains(y));
                    } else {
                        assert(prev.contains(y));
                        assert(values@.contains(y));
                    }
                }
            }
        }
        proof {
            vstd::arithmetic::div_mod::lemma_mod_multiples_vanish(
                1,
                v as int - a as int,
                s as int,
            );
        }
        v = v + s as u16;
    }
    proof {
        assert forall|y: u8| #[trigger]
            values@.contains(y) <==> (old(values)@.contains(y) || exists|w: int|
                a <= w <= b && (w - a as int) % (s as int) == 0 && y as int == norm_sunday_spec(
                    w,
                )) by {
            if exists|w: int|
                a <= w <= b && (w - a as int) % (s as int) == 0 && y as int == norm_sunday_spec(
                    w,
                ) {
                let w = choose|w: int|
                    a <= w <= b && (w - a as int) % (s as int) == 0 && y as int
                        == norm_sunday_spec(w);
                assert(w < v as int);
            }
        }
        assert((a as int - a as int) % (s as int) == 0) by (nonlinear_arith)
            requires s >= 1;
        let nva = norm_sunday_spec(a as int);
        assert(1 <= nva <= 7);
        assert(values@.contains(nva as u8));
    }
}

/// A parse failure: the column of the normalized input it points at, and
/// the human phrase describing it.
struct PErr {
    offset: usize,
    message: String,
}

/// The character of a decimal digit value.
pub open spec fn dec_digit(d: int) -> char {
    if d == 0 {
        '0'
    } else if d == 1 {
        '1'
    } else if d == 2 {
        '2'
    } else if d == 3 {
        '3'
    } else if d == 4 {
        '4'
    } else if d == 5 {
        '5'
    } else if d == 6 {
        '6'
    } else if d == 7 {
        '7'
    } else if d == 8 {
        '8'
    } else {
        '9'
    }
}

/// The decimal digits of `n`, most significant first.
pub open spec fn dec_str(n: int) -> Seq<char>
    decreases n,
{
    if n < 10 {
        seq![dec_digit(n)]
    } else {
        dec_str(n / 10) + seq![dec_digit(n % 10)]
    }
}

fn digit_str(d: u64) -> (r: &'static str)
    requires
        d <= 9,
    ensures
        r@ == seq![dec_digit(d as int)],
{
    if d == 0 {
        proof {
            reveal_strlit("0");
            assert("0"@ =~= seq!['0']);
        }
        "0"
    } else if d == 1 {
        proof {
            reveal_strlit("1");
            assert("1"@ =~= seq!['1']);
        }
        "1"
    } else if d == 2 {
        proof {
            reveal_strlit("2");
            assert("2"@ =~= seq!['2']);
        }
        "2"
    } else if d == 3 {
        proof {
            reveal_strlit("3");
            assert("3"@ =~= seq!['3']);
        }
        "3"
    } else if d == 4 {
        proof {
            reveal_strlit("4");
            assert("4"@ =~= seq!['4']);
        }
        "4"
    } else if d == 5 {
        proof {
            reveal_strlit("5");
            assert("5"@ =~= seq!['5']);
        }
        "5"
    } else if d == 6 {
        proof {
            reveal_strlit("6");
            assert("6"@ =~= seq!['6']);
        }
        "6"
    } else if d == 7 {
        proof {
            reveal_strlit("7");
            assert("7"@ =~= seq!['7']);
        }
        "7"
    } else if d == 8 {
        proof {
            reveal_strlit("8");
            assert("8"@ =~= seq!['8']);
        }
        "8"
    } else {
        proof {
            reveal_strlit("9");
            assert("9"@ =~= seq!['9']);
        }
        "9"
    }
}

/// Append the decimal digits of `n`.
fn append_u64(out: &mut String, n: u64)
    ensures
        final(out)@ == old(out)@ + dec_str(n as int),
    decreases n,
{
    let ghost base = out@;
    if n >= 10 {
        append_u64(out, n / 10);
    }
    let ghost mid = out@;
    let d: u64 = n % 10;
    out.append(digit_str(d));
    proof {
        if n >= 10 {
            assert(mid =~= base + dec_str(n as int / 10));
            assert(dec_str(n as int) =~= dec_str(n as int / 10) + seq![dec_digit(n as int % 10)]);
            assert(out@ =~= base + dec_str(n as int));
        } else {
            assert(out@ =~= base + dec_str(n as int));
        }
    }
}

/// The phrase of an out-of-range value: the field's domain and the value
/// found.
pub open spec fn value_range_message(lo: int, hi: int, found: int) -> Seq<char> {
    "value must be in range "@ + dec_str(lo) + "..="@ + dec_str(hi) + "; found "@ + dec_str(
        found,
    )
}

/// The phrase of a descending range.
pub open spec fn range_order_message(lo: int, hi: int) -> Seq<char> {
    "range must be in ascending order; found "@ + dec_str(lo) + "-"@ + dec_str(hi)
}

/// The phrase of an out-of-range step.
pub open spec fn step_range_message(lo: int, hi: int, found: int) -> Seq<char> {
    "step must be in range "@ + dec_str(lo) + "..="@ + dec_str(hi) + "; found "@ + dec_str(
        found,
    )
}

/// The phrase of an unresolvable zone name.
pub open spec fn timezone_message(zone: Seq<char>) -> Seq<char> {
    "failed to find timezone "@ + zone
        + "; for a list of time zones, see the list of tz database time zones on Wikipedia: https://en.wikipedia.org/wiki/List_of_tz_database_time_zones#List"@
}

fn msg_value_range(lo: u8, hi: u8, found: u64) -> (r: String)
    ensures
        r@ == value_range_message(lo as int, hi as int, found as int),
{
    let mut m = String::from_str("value must be in range ");
    append_u64(&mut m, lo as u64);
    m.append("..=");
    append_u64(&mut m, hi as u64);
    m.append("; found ");
    append_u64(&mut m, found);
    proof {
        assert(m@ =~= value_range_message(lo as int, hi as int, found as int));
    }
    m
}

fn msg_range_order(lo: u8, hi: u8) -> (r: String)
    ensures
        r@ == range_order_message(lo as int, hi as int),
{
    let mut m = String::from_str("range must be in ascending order; found ");
    append_u64(&mut m, lo as u64);
    m.append("-");
    append_u64(&mut m, hi as u64);
    proof {
        assert(m@ =~= range_order_message(lo as int, hi as int));
    }
    m
}

fn msg_step_zero() -> (r: String)
    ensures
        r@ == "step must be greater than 0"@,
{
    String::from_str("step must be greater than 0")
}

fn msg_step_range(lo: u8, hi: u8, found: u64) -> (r: String)
    ensures
        r@ == step_range_message(lo as int, hi as int, found as int),
{
    let mut m = String::from_str("step must be in range ");
    append_u64(&mut m, lo as u64);
    m.append("..=");
    append_u64(&mut m, hi as u64);
    m.append("; found ");
    append_u64(&mut m, found);
    proof {
        assert(m@ =~= step_range_message(lo as int, hi as int, found as int));
    }
    m
}

fn msg_malformed() -> (r: String)
    ensures
        r@ == "malformed expression"@,
{
    String::from_str("malformed expression")
}

fn msg_timezone(zone: &str) -> (r: String)
    ensures
        r@ == timezone_message(zone@),
{
    let mut m = String::from_str("failed to find timezone ");
    m.append(zone);
    m.append(
        "; for a list of time zones, see the list of tz database time zones on Wikipedia: https://en.wikipedia.org/wiki/List_of_tz_database_time_zones#List",
    );
    proof {
        assert(m@ =~= timezone_message(zone@));
    }
    m
}

/// A run of `n` spaces: the indentation that places the caret under the
/// offending column.
pub open spec fn spaces(n: int) -> Seq<char> {
    Seq::new(n as nat, |i: int| ' ')
}

/// The full text of a parse error: a fixed context line, the normalized
/// input, and a caret line placing `^` under column `off`, followed by the
/// phrase.
pub open spec fn parse_error_text(input: Seq<char>, off: int, msg: Seq<char>) -> Seq<char> {
    "failed to parse crontab expression:\n"@ + input + "\n"@ + spaces(off) + "^ "@ + msg
}

/// Render a parse failure: a fixed context line, the normalized input, and
/// a caret line pointing at the offending column.
fn format_parse_error(normalized: &str, offset: usize, message: String) -> (r: Error)
    ensures
        r@ == parse_error_text(normalized@, offset as int, message@),
{
    let mut out = String::from_str("failed to parse crontab expression:\n");
    out.append(normalized);
    out.append("\n");
    let ghost base = out@;
    proof {
        assert(spaces(0) =~= Seq::<char>::empty());
        assert(base + spaces(0) =~= base);
    }
    let mut i: usize = 0;
    while i < offset
        invariant
            0 <= i <= offset,
            out@ == base + spaces(i as int),
        decreases offset - i,
    {
        out.append(" ");
        proof {
            reveal_strlit(" ");
            assert(" "@ =~= seq![' ']);
            assert(spaces(i as int) + seq![' '] =~= spaces(i + 1 as int));
            assert(base + spaces(i as int) + seq![' '] =~= base + spaces(i + 1 as int));
        }
        i = i + 1;
    }
    out.append("^ ");
    out.append(message.as_str());
    Error::new(out)
}

proof fn lemma_range_from_contains(s: Seq<u8>, lo: u8, hi: u8)
    requires
        forall|y: u8| #[trigger] s.contains(y) ==> lo <= y <= hi,
    ensures
        forall|i: int| 0 <= i < s.len() ==> lo <= #[trigger] s[i] <= hi,
{
    assert forall|i: int| 0 <= i < s.len() implies lo <= #[trigger] s[i] <= hi by {
        assert(s.contains(s[i]));
    }
}

/// The month value of the three-letter month name standing at `pos`:
/// `JAN` is `1` through `DEC` is `12`.
pub open spec fn spec_month_alias(s: Seq<char>, pos: int, end: int) -> Option<u8> {
    if pos + 3 <= end {
        let a = s[pos];
        let b = s[pos + 1];
        let c = s[pos + 2];
        if a == 'J' && b == 'A' && c == 'N' {
            Some(1u8)
        } else if a == 'F' && b == 'E' && c == 'B' {
            Some(2u8)
        } else if a == 'M' && b == 'A' && c == 'R' {
            Some(3u8)
        } else if a == 'A' && b == 'P' && c == 'R' {
            Some(4u8)
        } else if a == 'M' && b == 'A' && c == 'Y' {
            Some(5u8)
        } else if a == 'J' && b == 'U' && c == 'N' {
            Some(6u8)
        } else if a == 'J' && b == 'U' && c == 'L' {
            Some(7u8)
        } else if a == 'A' && b == 'U' && c == 'G' {
            Some(8u8)
        } else if a == 'S' && b == 'E' && c == 'P' {
            Some(9u8)
        } else if a == 'O' && b == 'C' && c == 'T' {
            Some(10u8)
        } else if a == 'N' && b == 'O' && c == 'V' {
            Some(11u8)
        } else if a == 'D' && b == 'E' && c == 'C' {
            Some(12u8)
        } else {
            None
        }
    } else {
        None
    }
}

/// The raw day-of-week value of the three-letter weekday name at `pos`:
/// `SUN` is `0` through `SAT` is `6`.
pub open spec fn spec_dow_alias(s: Seq<char>, pos: int, end: int) -> Option<u8> {
    if pos + 3 <= end {
        let a = s[pos];
        let b = s[pos + 1];
        let c = s[pos + 2];
        if a == 'S' && b == 'U' && c == 'N' {
            Some(0u8)
        } else if a == 'M' && b == 'O' && c == 'N' {
            Some(1u8)
        } else if a == 'T' && b == 'U' && c == 'E' {
            Some(2u8)
        } else if a == 'W' && b == 'E' && c == 'D' {
            Some(3u8)
        } else if a == 'T' && b == 'H' && c == 'U' {
            Some(4u8)
        } else if a == 'F' && b == 'R' && c == 'I' {
            Some(5u8)
        } else if a == 'S' && b == 'A' && c == 'T' {
            Some(6u8)
        } else {
            None
        }
    } else {
        None
    }
}

/// The value of the maximal digit run at `pos`, unbounded.
pub open spec fn run_val(s: Seq<char>, pos: int, end: int) -> int {
    digits_val(s.subrange(pos, digit_run_end(s, pos, end)))
}

/// The month value of a three-letter month name standing at `pos`.
fn month_alias_at(chars: &Vec<char>, pos: usize, end: usize) -> (r: Option<u8>)
    requires
        pos <= end <= chars@.len(),
    ensures
        r == spec_month_alias(chars@, pos as int, end as int),
        r is Some ==> 1 <= r->0 <= 12 && pos + 3 <= end,
{
    if end - pos < 3 {
        return None;
    }
    let a = chars[pos];
    let b = chars[pos + 1];
    let c = chars[pos + 2];
    if a == 'J' && b == 'A' && c == 'N' {
        Some(1)
    } else if a == 'F' && b == 'E' && c == 'B' {
        Some(2)
    } else if a == 'M' && b == 'A' && c == 'R' {
        Some(3)
    } else if a == 'A' && b == 'P' && c == 'R' {
        Some(4)
    } else if a == 'M' && b == 'A' && c == 'Y' {
        Some(5)
    } else if a == 'J' && b == 'U' && c == 'N' {
        Some(6)
    } else if a == 'J' && b == 'U' && c == 'L' {
        Some(7)
    } else if a == 'A' && b == 'U' && c == 'G' {
        Some(8)
    } else if a == 'S' && b == 'E' && c == 'P' {
        Some(9)
    } else if a == 'O' && b == 'C' && c == 'T' {
        Some(10)
    } else if a == 'N' && b == 'O' && c == 'V' {
        Some(11)
    } else if a == 'D' && b == 'E' && c == 'C' {
        Some(12)
    } else {
        None
    }
}

/// The raw day-of-week value of a three-letter weekday name at `pos`,
/// `SUN` being `0`.
fn dow_alias_at(chars: &Vec<char>, pos: usize, end: usize) -> (r: Option<u8>)
    requires
        pos <= end <= chars@.len(),
    ensures
        r == spec_dow_alias(chars@, pos as int, end as int),
        r is Some ==> r->0 <= 6 && pos + 3 <= end,
{
    if end - pos < 3 {
        return None;
    }
    let a = chars[pos];
    let b = chars[pos + 1];
    let c = chars[pos + 2];
    if a == 'S' && b == 'U' && c == 'N' {
        Some(0)
    } else if a == 'M' && b == 'O' && c == 'N' {
        Some(1)
    } else if a == 'T' && b == 'U' && c == 'E' {
        Some(2)
    } else if a == 'W' && b == 'E' && c == 'D' {
        Some(3)
    } else if a == 'T' && b == 'H' && c == 'U' {
        Some(4)
    } else if a == 'F' && b == 'R' && c == 'I' {
        Some(5)
    } else if a == 'S' && b == 'A' && c == 'T' {
        Some(6)
    } else {
        None
    }
}

/// The committed phrase of a failing value at `pos`: where digits stand
/// and their value is representable, the out-of-range phrase with the
/// value found; otherwise the generic phrase.
pub open spec fn spec_value_err_message(s: Seq<char>, pos: int, end: int, lo: int, hi: int) -> Seq<char> {
    if pos < end && is_digit(s[pos]) && run_val(s, pos, end) <= u64::MAX {
        value_range_message(lo, hi, run_val(s, pos, end))
    } else {
        "malformed expression"@
    }
}

/// The committed error of a failing step at `pos`: a zero or out-of-range
/// step points at the whole term; anything else is the generic phrase at
/// the step position.
pub open spec fn spec_step_err(
    s: Seq<char>,
    pos: int,
    end: int,
    lo: int,
    hi: int,
    term_start: int,
) -> (int, Seq<char>) {
    if pos < end && is_digit(s[pos]) && run_val(s, pos, end) <= u64::MAX {
        if run_val(s, pos, end) == 0 {
            (term_start, "step must be greater than 0"@)
        } else {
            (term_start, step_range_message(lo, hi, run_val(s, pos, end)))
        }
    } else {
        (pos, "malformed expression"@)
    }
}

/// Parse one value of a numeric field: a decimal number within
/// `[lo, hi]`, or a month name where the field admits one. A number that
/// parses but falls outside the range is a committed error: the term is
/// not re-read under another shape.
fn parse_plain_value(
    chars: &Vec<char>,
    pos: usize,
    end: usize,
    lo: u8,
    hi: u8,
    month_aliases: bool,
) -> (r: Result<(u8, usize), PErr>)
    requires
        pos <= end <= chars@.len(),
        lo <= hi,
        month_aliases ==> lo == 1 && hi == 12,
    ensures
        match r {
            Ok(vp) => {
                &&& lo <= vp.0 <= hi
                &&& pos < vp.1 <= end
                &&& if month_aliases && spec_month_alias(chars@, pos as int, end as int)
                    is Some {
                    vp.0 == spec_month_alias(chars@, pos as int, end as int)->0 && vp.1 == pos
                        + 3
                } else {
                    vp.1 == digit_run_end(chars@, pos as int, end as int) && vp.0 == run_val(
                        chars@,
                        pos as int,
                        end as int,
                    )
                }
            },
            Err(e) => {
                &&& e.offset == pos
                &&& e.message@ == spec_value_err_message(
                    chars@,
                    pos as int,
                    end as int,
                    lo as int,
                    hi as int,
                )
                &&& !(month_aliases && spec_month_alias(chars@, pos as int, end as int)
                    is Some)
                &&& (pos == end || !is_digit(chars@[pos as int]) || run_val(
                    chars@,
                    pos as int,
                    end as int,
                ) < lo || run_val(chars@, pos as int, end as int) > hi)
            },
        },
{
    if month_aliases {
        match month_alias_at(chars, pos, end) {
            Some(v) => {
                return Ok((v, pos + 3));
            },
            None => {},
        }
    }
    match parse_uint(chars, pos, end) {
        None => Err(PErr { offset: pos, message: msg_malformed() }),
        Some((n, p)) => {
            if n < lo as u64 || n > hi as u64 {
                Err(PErr { offset: pos, message: msg_value_range(lo, hi, n) })
            } else {
                Ok((n as u8, p))
            }
        },
    }
}

/// Parse one raw day-of-week value: a weekday name or a number `0..=7`.
fn parse_dow_value(chars: &Vec<char>, pos: usize, end: usize) -> (r: Result<(u8, usize), PErr>)
    requires
        pos <= end <= chars@.len(),
    ensures
        match r {
            Ok(vp) => {
                &&& vp.0 <= 7
                &&& pos < vp.1 <= end
                &&& if spec_dow_alias(chars@, pos as int, end as int) is Some {
                    vp.0 == spec_dow_alias(chars@, pos as int, end as int)->0 && vp.1 == pos + 3
                } else {
                    vp.1 == digit_run_end(chars@, pos as int, end as int) && vp.0 == run_val(
                        chars@,
                        pos as int,
                        end as int,
                    )
                }
            },
            Err(e) => {
                &&& e.offset == pos
                &&& e.message@ == spec_value_err_message(chars@, pos as int, end as int, 0, 7)
                &&& spec_dow_alias(chars@, pos as int, end as int) is None
                &&& (pos == end || !is_digit(chars@[pos as int]) || run_val(
                    chars@,
                    pos as int,
                    end as int,
                ) > 7)
            },
        },
{
    match dow_alias_at(chars, pos, end) {
        Some(v) => {
            return Ok((v, pos + 3));
        },
        None => {},
    }
    match parse_uint(chars, pos, end) {
        None => Err(PErr { offset: pos, message: msg_malformed() }),
        Some((n, p)) => {
            if n > 7 {
                Err(PErr { offset: pos, message: msg_value_range(0, 7, n) })
            } else {
                Ok((n as u8, p))
            }
        },
    }
}

/// Parse the step value after a `/`. A zero step and a step beyond the
/// field's upper bound are committed errors pointing at the whole term.
fn parse_step_value(
    chars: &Vec<char>,
    pos: usize,
    end: usize,
    lo: u8,
    hi: u8,
    term_start: usize,
) -> (r: Result<(u8, usize), PErr>)
    requires
        term_start <= pos <= end <= chars@.len(),
        1 <= hi,
    ensures
        match r {
            Ok(sp) => {
                &&& 1 <= sp.0 <= hi
                &&& pos < sp.1 <= end
                &&& sp.1 == digit_run_end(chars@, pos as int, end as int)
                &&& sp.0 == run_val(chars@, pos as int, end as int)
            },
            Err(e) => {
                &&& (pos == end || !is_digit(chars@[pos as int]) || run_val(
                    chars@,
                    pos as int,
                    end as int,
                ) == 0 || run_val(chars@, pos as int, end as int) > hi)
                &&& e.offset as int == spec_step_err(
                    chars@,
                    pos as int,
                    end as int,
                    lo as int,
                    hi as int,
                    term_start as int,
                ).0
                &&& e.message@ == spec_step_err(
                    chars@,
                    pos as int,
                    end as int,
                    lo as int,
                    hi as int,
                    term_start as int,
                ).1
                &&& term_start <= e.offset <= end
            },
        },
{
    match parse_uint(chars, pos, end) {
        None => Err(PErr { offset: pos, message: msg_malformed() }),
        Some((s64, p)) => {
            if s64 == 0 {
                Err(PErr { offset: term_start, message: msg_step_zero() })
            } else if s64 > hi as u64 {
                Err(PErr { offset: term_start, message: msg_step_range(lo, hi, s64) })
            } else {
                Ok((s64 as u8, p))
            }
        },
    }
}

/// The value denoted at `pos` by a number or month name, with the
/// position after it; `None` where neither stands there within `[lo, hi]`.
pub open spec fn spec_value(s: Seq<char>, pos: int, end: int, lo: u8, hi: u8, aliases: bool) -> Option<(u8, int)> {
    if aliases && spec_month_alias(s, pos, end) is Some {
        Some((spec_month_alias(s, pos, end)->0, pos + 3))
    } else if pos < end && is_digit(s[pos]) && lo <= run_val(s, pos, end) <= hi {
        Some((run_val(s, pos, end) as u8, digit_run_end(s, pos, end)))
    } else {
        None
    }
}

/// The step denoted at `pos`: a positive number within the field's upper
/// bound, with the position after it.
pub open spec fn spec_step(s: Seq<char>, pos: int, end: int, hi: u8) -> Option<(u8, int)> {
    if pos < end && is_digit(s[pos]) && 1 <= run_val(s, pos, end) <= hi {
        Some((run_val(s, pos, end) as u8, digit_run_end(s, pos, end)))
    } else {
        None
    }
}

/// What may follow the first value `a` of a numeric term ending at `p1`:
/// the arithmetic progression `(first, last, step)` the whole term
/// denotes, with the position after the term.
pub open spec fn spec_plain_term_tail(
    s: Seq<char>,
    a: u8,
    p1: int,
    end: int,
    lo: u8,
    hi: u8,
    aliases: bool,
) -> Option<(u8, u8, u8, int)> {
    if p1 < end && s[p1] == '-' {
        match spec_value(s, p1 + 1, end, lo, hi, aliases) {
            None => None,
            Some(bp) => {
                if a > bp.0 {
                    None
                } else if bp.1 < end && s[bp.1] == '/' {
                    match spec_step(s, bp.1 + 1, end, hi) {
                        None => None,
                        Some(sp) => Some((a, bp.0, sp.0, sp.1)),
                    }
                } else {
                    Some((a, bp.0, 1u8, bp.1))
                }
            },
        }
    } else if p1 < end && s[p1] == '/' {
        match spec_step(s, p1 + 1, end, hi) {
            None => None,
            Some(sp) => Some((a, hi, sp.0, sp.1)),
        }
    } else {
        Some((a, a, 1u8, p1))
    }
}

/// The arithmetic progression denoted by the whole numeric term at `pos`:
/// `*` and `*/s` span the field's domain; a value opens a range, a step,
/// or stands alone.
pub open spec fn spec_plain_term(
    s: Seq<char>,
    pos: int,
    end: int,
    lo: u8,
    hi: u8,
    aliases: bool,
) -> Option<(u8, u8, u8, int)> {
    if pos >= end {
        None
    } else if s[pos] == '*' {
        if pos + 1 < end && s[pos + 1] == '/' {
            match spec_step(s, pos + 2, end, hi) {
                None => None,
                Some(sp) => Some((lo, hi, sp.0, sp.1)),
            }
        } else {
            Some((lo, hi, 1u8, pos + 1))
        }
    } else {
        match spec_value(s, pos, end, lo, hi, aliases) {
            None => None,
            Some(ap) => spec_plain_term_tail(s, ap.0, ap.1, end, lo, hi, aliases),
        }
    }
}

/// Membership in the arithmetic progression `(first, last, step)`.
pub open spec fn in_term(t: (u8, u8, u8, int), y: u8) -> bool {
    t.0 <= y <= t.1 && (y as int - t.0 as int) % (t.2 as int) == 0
}

/// The committed error of a failing term tail: a bad second range bound,
/// a descending range, or a bad step.
pub open spec fn spec_tail_err(
    s: Seq<char>,
    term_start: int,
    a: u8,
    p1: int,
    end: int,
    lo: u8,
    hi: u8,
    aliases: bool,
) -> (int, Seq<char>) {
    if p1 < end && s[p1] == '-' {
        match spec_value(s, p1 + 1, end, lo, hi, aliases) {
            None => (p1 + 1, spec_value_err_message(s, p1 + 1, end, lo as int, hi as int)),
            Some(bp) => {
                if a > bp.0 {
                    (term_start, range_order_message(a as int, bp.0 as int))
                } else if bp.1 < end && s[bp.1] == '/' {
                    spec_step_err(s, bp.1 + 1, end, lo as int, hi as int, term_start)
                } else {
                    (term_start, "malformed expression"@)
                }
            },
        }
    } else if p1 < end && s[p1] == '/' {
        spec_step_err(s, p1 + 1, end, lo as int, hi as int, term_start)
    } else {
        (term_start, "malformed expression"@)
    }
}

/// The committed error of a failing numeric term at `pos`.
pub open spec fn spec_term_err(
    s: Seq<char>,
    pos: int,
    end: int,
    lo: u8,
    hi: u8,
    aliases: bool,
) -> (int, Seq<char>) {
    if pos >= end {
        (pos, "malformed expression"@)
    } else if s[pos] == '*' {
        if pos + 1 < end && s[pos + 1] == '/' {
            spec_step_err(s, pos + 2, end, lo as int, hi as int, pos)
        } else {
            (pos, "malformed expression"@)
        }
    } else {
        match spec_value(s, pos, end, lo, hi, aliases) {
            None => (pos, spec_value_err_message(s, pos, end, lo as int, hi as int)),
            Some(ap) => spec_tail_err(s, pos, ap.0, ap.1, end, lo, hi, aliases),
        }
    }
}

/// Parse what may follow the first value of a numeric term: a range, a
/// range with a step, a step from the value to the field's upper bound,
/// or nothing (a single literal).
fn parse_plain_term_tail(
    chars: &Vec<char>,
    term_start: usize,
    a: u8,
    p1: usize,
    end: usize,
    lo: u8,
    hi: u8,
    month_aliases: bool,
    values: &mut Vec<u8>,
) -> (r: Result<usize, PErr>)
    requires
        term_start <= p1 <= end <= chars@.len(),
        1 <= hi,
        lo <= a <= hi,
        month_aliases ==> lo == 1 && hi == 12,
        strictly_sorted(old(values)@),
        forall|y: u8| #[trigger] old(values)@.contains(y) ==> lo <= y <= hi,
    ensures
        match r {
            Ok(p) => {
                &&& p1 <= p <= end
                &&& strictly_sorted(final(values)@)
                &&& (forall|y: u8| #[trigger] final(values)@.contains(y) ==> lo <= y <= hi)
                &&& final(values)@.len() > 0
                &&& match spec_plain_term_tail(
                    chars@,
                    a,
                    p1 as int,
                    end as int,
                    lo,
                    hi,
                    month_aliases,
                ) {
                    Some(t) => t.3 == p && (forall|y: u8| #[trigger]
                        final(values)@.contains(y) <==> (old(values)@.contains(y) || in_term(
                            t,
                            y,
                        ))),
                    None => false,
                }
            },
            Err(e) => {
                &&& spec_plain_term_tail(
                    chars@,
                    a,
                    p1 as int,
                    end as int,
                    lo,
                    hi,
                    month_aliases,
                ) is None
                &&& e.offset as int == spec_tail_err(
                    chars@,
                    term_start as int,
                    a,
                    p1 as int,
                    end as int,
                    lo,
                    hi,
                    month_aliases,
                ).0
                &&& e.message@ == spec_tail_err(
                    chars@,
                    term_start as int,
                    a,
                    p1 as int,
                    end as int,
                    lo,
                    hi,
                    month_aliases,
                ).1
                &&& term_start <= e.offset <= end
            },
        },
{
    if p1 < end && chars[p1] == '-' {
        let (b, p2) = match parse_plain_value(chars, p1 + 1, end, lo, hi, month_aliases) {
            Ok(vp) => vp,
            Err(e) => {
                return Err(e);
            },
        };
        proof {
            assert(spec_value(chars@, p1 + 1 as int, end as int, lo, hi, month_aliases) == Some(
                (b, p2 as int),
            ));
        }
        if a > b {
            return Err(PErr { offset: term_start, message: msg_range_order(a, b) });
        }
        if p2 < end && chars[p2] == '/' {
            let (s, p3) = match parse_step_value(chars, p2 + 1, end, lo, hi, term_start) {
                Ok(sp) => sp,
                Err(e) => {
                    return Err(e);
                },
            };
            expand_stepped(values, a, b, s);
            Ok(p3)
        } else {
            expand_stepped(values, a, b, 1);
            Ok(p2)
        }
    } else if p1 < end && chars[p1] == '/' {
        let (s, p2) = match parse_step_value(chars, p1 + 1, end, lo, hi, term_start) {
            Ok(sp) => sp,
            Err(e) => {
                return Err(e);
            },
        };
        expand_stepped(values, a, hi, s);
        Ok(p2)
    } else {
        insert_sorted(values, a);
        proof {
            assert(values@.contains(a));
        }
        Ok(p1)
    }
}

/// Parse one comma-separated term of a numeric field into `values`.
fn parse_plain_term(
    chars: &Vec<char>,
    pos: usize,
    end: usize,
    lo: u8,
    hi: u8,
    month_aliases: bool,
    values: &mut Vec<u8>,
) -> (r: Result<usize, PErr>)
    requires
        pos <= end <= chars@.len(),
        lo <= hi,
        1 <= hi,
        month_aliases ==> lo == 1 && hi == 12,
        strictly_sorted(old(values)@),
        forall|y: u8| #[trigger] old(values)@.contains(y) ==> lo <= y <= hi,
    ensures
        match r {
            Ok(p) => {
                &&& pos < p <= end
                &&& strictly_sorted(final(values)@)
                &&& (forall|y: u8| #[trigger] final(values)@.contains(y) ==> lo <= y <= hi)
                &&& final(values)@.len() > 0
                &&& match spec_plain_term(
                    chars@,
                    pos as int,
                    end as int,
                    lo,
                    hi,
                    month_aliases,
                ) {
                    Some(t) => t.3 == p && (forall|y: u8| #[trigger]
                        final(values)@.contains(y) <==> (old(values)@.contains(y) || in_term(
                            t,
                            y,
                        ))),
                    None => false,
                }
            },
            Err(e) => {
                &&& spec_plain_term(
                    chars@,
                    pos as int,
                    end as int,
                    lo,
                    hi,
                    month_aliases,
                ) is None
                &&& e.offset as int == spec_term_err(
                    chars@,
                    pos as int,
                    end as int,
                    lo,
                    hi,
                    month_aliases,
                ).0
                &&& e.message@ == spec_term_err(
                    chars@,
                    pos as int,
                    end as int,
                    lo,
                    hi,
                    month_aliases,
                ).1
                &&& pos <= e.offset <= end
            },
        },
{
    if pos >= end {
        return Err(PErr { offset: pos, message: msg_malformed() });
    }
    if chars[pos] == '*' {
        if pos + 1 < end && chars[pos + 1] == '/' {
            let (s, p) = match parse_step_value(chars, pos + 2, end, lo, hi, pos) {
                Ok(sp) => sp,
                Err(e) => {
                    return Err(e);
                },
            };
            expand_stepped(values, lo, hi, s);
            Ok(p)
        } else {
            expand_stepped(values, lo, hi, 1);
            Ok(pos + 1)
        }
    } else {
        let (a, p1) = match parse_plain_value(chars, pos, end, lo, hi, month_aliases) {
            Ok(vp) => vp,
            Err(e) => {
                return Err(e);
            },
        };
        proof {
            assert(spec_value(chars@, pos as int, end as int, lo, hi, month_aliases) == Some(
                (a, p1 as int),
            ));
        }
        parse_plain_term_tail(chars, pos, a, p1, end, lo, hi, month_aliases, values)
    }
}

/// The progressions denoted by the comma-separated terms of a numeric
/// field; `None` where the text `[pos, end)` is not a well-formed field.
pub open spec fn spec_plain_field(
    s: Seq<char>,
    pos: int,
    end: int,
    lo: u8,
    hi: u8,
    aliases: bool,
) -> Option<Seq<(u8, u8, u8, int)>>
    decreases end - pos,
{
    match spec_plain_term(s, pos, end, lo, hi, aliases) {
        None => None,
        Some(t) => {
            if t.3 == end {
                Some(seq![t])
            } else if pos < t.3 < end && s[t.3] == ',' {
                match spec_plain_field(s, t.3 + 1, end, lo, hi, aliases) {
                    None => None,
                    Some(ts) => Some(seq![t] + ts),
                }
            } else {
                None
            }
        },
    }
}

/// Membership in the union of a list of progressions.
pub open spec fn in_terms(ts: Seq<(u8, u8, u8, int)>, y: u8) -> bool {
    exists|k: int| 0 <= k < ts.len() && in_term(#[trigger] ts[k], y)
}

proof fn lemma_in_terms_cons(t: (u8, u8, u8, int), ts: Seq<(u8, u8, u8, int)>, y: u8)
    ensures
        in_terms(seq![t] + ts, y) <==> (in_term(t, y) || in_terms(ts, y)),
{
    let all = seq![t] + ts;
    if in_terms(all, y) {
        let k = choose|k: int| 0 <= k < all.len() && in_term(all[k], y);
        if k == 0 {
            assert(all[0] == t);
        } else {
            assert(all[k] == ts[k - 1]);
            assert(in_term(ts[k - 1], y));
        }
    }
    if in_term(t, y) {
        assert(all[0] == t);
        assert(in_terms(all, y));
    }
    if in_terms(ts, y) {
        let k = choose|k: int| 0 <= k < ts.len() && in_term(ts[k], y);
        assert(all[k + 1] == ts[k]);
        assert(in_terms(all, y));
    }
}

proof fn lemma_in_terms_single(t: (u8, u8, u8, int), y: u8)
    ensures
        in_terms(seq![t], y) <==> in_term(t, y),
{
    if in_terms(seq![t], y) {
        let k = choose|k: int| 0 <= k < seq![t].len() && in_term(seq![t][k], y);
        assert(k == 0);
        assert(seq![t][0] == t);
    }
    if in_term(t, y) {
        assert(seq![t][0] == t);
        assert(in_terms(seq![t], y));
    }
}

/// The committed error of a failing numeric field: the first failing
/// term's error, or the generic phrase at a bad delimiter.
pub open spec fn spec_field_err(
    s: Seq<char>,
    pos: int,
    end: int,
    lo: u8,
    hi: u8,
    aliases: bool,
) -> (int, Seq<char>)
    decreases end - pos,
{
    match spec_plain_term(s, pos, end, lo, hi, aliases) {
        None => spec_term_err(s, pos, end, lo, hi, aliases),
        Some(t) => {
            if pos < t.3 < end && s[t.3] == ',' {
                spec_field_err(s, t.3 + 1, end, lo, hi, aliases)
            } else {
                (t.3, "malformed expression"@)
            }
        },
    }
}

/// Parse a minutes, hours, or months field: a comma-separated list of
/// terms whose union is the field's value set.
fn parse_literals_field(
    chars: &Vec<char>,
    start: usize,
    end: usize,
    lo: u8,
    hi: u8,
    month_aliases: bool,
) -> (r: Result<Vec<u8>, PErr>)
    requires
        start <= end <= chars@.len(),
        lo <= hi,
        1 <= hi,
        month_aliases ==> lo == 1 && hi == 12,
    ensures
        match r {
            Ok(v) => {
                &&& crate::sorted_in_range(v@, lo, hi)
                &&& v@.len() > 0
                &&& match spec_plain_field(chars@, start as int, end as int, lo, hi, month_aliases) {
                    Some(ts) => forall|y: u8| #[trigger] v@.contains(y) <==> in_terms(ts, y),
                    None => false,
                }
            },
            Err(e) => {
                &&& spec_plain_field(
                    chars@,
                    start as int,
                    end as int,
                    lo,
                    hi,
                    month_aliases,
                ) is None
                &&& e.offset as int == spec_field_err(
                    chars@,
                    start as int,
                    end as int,
                    lo,
                    hi,
                    month_aliases,
                ).0
                &&& e.message@ == spec_field_err(
                    chars@,
                    start as int,
                    end as int,
                    lo,
                    hi,
                    month_aliases,
                ).1
                &&& start <= e.offset <= end
            },
        },
{
    let ghost whole = spec_plain_field(chars@, start as int, end as int, lo, hi, month_aliases);
    let mut values: Vec<u8> = Vec::new();
    let mut pos = start;
    loop
        invariant_except_break
            spec_plain_field(chars@, pos as int, end as int, lo, hi, month_aliases) is None
                ==> whole is None && spec_field_err(
                chars@,
                start as int,
                end as int,
                lo,
                hi,
                month_aliases,
            ) == spec_field_err(chars@, pos as int, end as int, lo, hi, month_aliases),
            match spec_plain_field(chars@, pos as int, end as int, lo, hi, month_aliases) {
                Some(rest) => match whole {
                    Some(all) => forall|y: u8|
                        #![trigger in_terms(all, y)]
                        #![trigger in_terms(rest, y)]
                        in_terms(all, y) <==> (values@.contains(y) || in_terms(rest, y)),
                    None => false,
                },
                None => true,
            },
        invariant
            start <= pos <= end <= chars@.len(),
            lo <= hi,
            1 <= hi,
            month_aliases ==> lo == 1 && hi == 12,
            strictly_sorted(values@),
            forall|y: u8| #[trigger] values@.contains(y) ==> lo <= y <= hi,
            pos > start ==> values@.len() > 0,
            whole == spec_plain_field(chars@, start as int, end as int, lo, hi, month_aliases),
        ensures
            values@.len() > 0,
            match whole {
                Some(all) => forall|y: u8| #[trigger] values@.contains(y) <==> in_terms(all, y),
                None => false,
            },
        decreases end - pos,
    {
        let ghost before = values@;
        let ghost oldpos = pos as int;
        pos = match parse_plain_term(chars, pos, end, lo, hi, month_aliases, &mut values) {
            Ok(p) => p,
            Err(e) => {
                proof {
                    assert(spec_plain_term(chars@, oldpos, end as int, lo, hi, month_aliases)
                        is None);
                    assert(spec_field_err(chars@, oldpos, end as int, lo, hi, month_aliases)
                        == spec_term_err(chars@, oldpos, end as int, lo, hi, month_aliases));
                }
                return Err(e);
            },
        };
        let ghost t = spec_plain_term(chars@, oldpos, end as int, lo, hi, month_aliases)->0;
        if pos == end {
            proof {
                assert(spec_plain_field(chars@, oldpos, end as int, lo, hi, month_aliases)
                    =~= Some(seq![t]));
                let all = whole->0;
                assert forall|y: u8| #[trigger] values@.contains(y) <==> in_terms(all, y) by {
                    lemma_in_terms_single(t, y);
                    assert(in_terms(all, y) <==> (before.contains(y) || in_terms(seq![t], y)));
                }
            }
            break ;
        }
        if chars[pos] == ',' {
            proof {
                let rest = spec_plain_field(
                    chars@,
                    pos + 1 as int,
                    end as int,
                    lo,
                    hi,
                    month_aliases,
                );
                if rest is None {
                    assert(spec_plain_field(chars@, oldpos, end as int, lo, hi, month_aliases)
                        is None);
                } else {
                    assert(spec_plain_field(chars@, oldpos, end as int, lo, hi, month_aliases)
                        =~= Some(seq![t] + rest->0));
                    let all = whole->0;
                    assert forall|y: u8|
                        #![trigger in_terms(all, y)]
                        #![trigger in_terms(rest->0, y)]
                        in_terms(all, y) <==> (values@.contains(y) || in_terms(rest->0, y)) by {
                        lemma_in_terms_cons(t, rest->0, y);
                        assert(in_terms(all, y) <==> (before.contains(y) || in_terms(
                            seq![t] + rest->0,
                            y,
                        )));
                    }
                }
            }
            pos = pos + 1;
        } else {
            proof {
                assert(spec_plain_field(chars@, oldpos, end as int, lo, hi, month_aliases)
                    is None);
                assert(spec_field_err(chars@, oldpos, end as int, lo, hi, month_aliases) == (
                    pos as int,
                    "malformed expression"@,
                ));
            }
            return Err(PErr { offset: pos, message: msg_malformed() });
        }
    }
    proof {
        lemma_range_from_contains(values@, lo, hi);
    }
    Ok(values)
}

/// One term of a day-of-month field: a progression of literal days, the
/// last-day marker `L`, or the day of a nearest-weekday form `<d>W`.
pub enum DomTerm {
    Days(u8, u8, u8),
    LastDay,
    Nearest(u8),
}

/// Whether day `y` lies in the progression of a `Days` term.
pub open spec fn dom_term_day(t: DomTerm, y: u8) -> bool {
    match t {
        DomTerm::Days(a, b, st) => a <= y <= b && (y as int - a as int) % (st as int) == 0,
        _ => false,
    }
}

/// The term denoted at `pos` of a day-of-month field, with the position
/// after it.
pub open spec fn spec_dom_term(s: Seq<char>, pos: int, end: int) -> Option<(DomTerm, int)> {
    if pos >= end {
        None
    } else if s[pos] == 'L' {
        Some((DomTerm::LastDay, pos + 1))
    } else if s[pos] == '*' {
        match spec_plain_term(s, pos, end, 1, 31, false) {
            None => None,
            Some(t) => Some((DomTerm::Days(t.0, t.1, t.2), t.3)),
        }
    } else {
        match spec_value(s, pos, end, 1, 31, false) {
            None => None,
            Some(ap) => {
                if ap.1 < end && s[ap.1] == 'W' {
                    Some((DomTerm::Nearest(ap.0), ap.1 + 1))
                } else {
                    match spec_plain_term_tail(s, ap.0, ap.1, end, 1, 31, false) {
                        None => None,
                        Some(t) => Some((DomTerm::Days(t.0, t.1, t.2), t.3)),
                    }
                }
            },
        }
    }
}

/// The terms denoted by a whole day-of-month field; `None` where the text
/// is not a well-formed field.
pub open spec fn spec_dom_field(s: Seq<char>, pos: int, end: int) -> Option<Seq<DomTerm>>
    decreases end - pos,
{
    match spec_dom_term(s, pos, end) {
        None => None,
        Some(tp) => {
            if tp.1 == end {
                Some(seq![tp.0])
            } else if pos < tp.1 < end && s[tp.1] == ',' {
                match spec_dom_field(s, tp.1 + 1, end) {
                    None => None,
                    Some(ts) => Some(seq![tp.0] + ts),
                }
            } else {
                None
            }
        },
    }
}

/// Whether some `Days` term of the list admits day `y`.
pub open spec fn dom_day_in_terms(ts: Seq<DomTerm>, y: u8) -> bool {
    exists|k: int| 0 <= k < ts.len() && dom_term_day(#[trigger] ts[k], y)
}

/// Whether the list holds the last-day marker.
pub open spec fn dom_has_last(ts: Seq<DomTerm>) -> bool {
    exists|k: int| 0 <= k < ts.len() && (#[trigger] ts[k]) is LastDay
}

/// Whether the list names `y` as a nearest-weekday day.
pub open spec fn dom_nearest_in_terms(ts: Seq<DomTerm>, y: u8) -> bool {
    exists|k: int| 0 <= k < ts.len() && #[trigger] ts[k] == DomTerm::Nearest(y)
}

proof fn lemma_dom_terms_cons(t: DomTerm, ts: Seq<DomTerm>, y: u8)
    ensures
        dom_day_in_terms(seq![t] + ts, y) <==> (dom_term_day(t, y) || dom_day_in_terms(ts, y)),
        dom_has_last(seq![t] + ts) <==> (t is LastDay || dom_has_last(ts)),
        dom_nearest_in_terms(seq![t] + ts, y) <==> (t == DomTerm::Nearest(y)
            || dom_nearest_in_terms(ts, y)),
{
    let all = seq![t] + ts;
    assert(all[0] == t);
    assert forall|k: int| 0 <= k < ts.len() implies all[k + 1] == ts[k] by {}
    if dom_day_in_terms(all, y) {
        let k = choose|k: int| 0 <= k < all.len() && dom_term_day(all[k], y);
        if k > 0 {
            assert(dom_term_day(ts[k - 1], y));
        }
    }
    if dom_day_in_terms(ts, y) {
        let k = choose|k: int| 0 <= k < ts.len() && dom_term_day(ts[k], y);
        assert(dom_term_day(all[k + 1], y));
    }
    if dom_has_last(all) {
        let k = choose|k: int| 0 <= k < all.len() && all[k] is LastDay;
        if k > 0 {
            assert(ts[k - 1] is LastDay);
        }
    }
    if dom_has_last(ts) {
        let k = choose|k: int| 0 <= k < ts.len() && ts[k] is LastDay;
        assert(all[k + 1] is LastDay);
    }
    if dom_nearest_in_terms(all, y) {
        let k = choose|k: int| 0 <= k < all.len() && all[k] == DomTerm::Nearest(y);
        if k > 0 {
            assert(ts[k - 1] == DomTerm::Nearest(y));
        }
    }
    if dom_nearest_in_terms(ts, y) {
        let k = choose|k: int| 0 <= k < ts.len() && ts[k] == DomTerm::Nearest(y);
        assert(all[k + 1] == DomTerm::Nearest(y));
    }
}

proof fn lemma_dom_terms_single(t: DomTerm, y: u8)
    ensures
        dom_day_in_terms(seq![t], y) <==> dom_term_day(t, y),
        dom_has_last(seq![t]) <==> t is LastDay,
        dom_nearest_in_terms(seq![t], y) <==> t == DomTerm::Nearest(y),
{
    assert(seq![t][0] == t);
    if dom_day_in_terms(seq![t], y) {
        let k = choose|k: int| 0 <= k < seq![t].len() && dom_term_day(seq![t][k], y);
        assert(k == 0);
    }
    if dom_has_last(seq![t]) {
        let k = choose|k: int| 0 <= k < seq![t].len() && seq![t][k] is LastDay;
        assert(k == 0);
    }
    if dom_nearest_in_terms(seq![t], y) {
        let k = choose|k: int| 0 <= k < seq![t].len() && seq![t][k] == DomTerm::Nearest(y);
        assert(k == 0);
    }
}

/// The committed error of a failing day-of-month field. A failing term of
/// this field errs exactly as a numeric term does: the `L` and `<d>W`
/// forms themselves never fail once their leading character or value has
/// been read.
pub open spec fn spec_dom_field_err(s: Seq<char>, pos: int, end: int) -> (int, Seq<char>)
    decreases end - pos,
{
    match spec_dom_term(s, pos, end) {
        None => spec_term_err(s, pos, end, 1, 31, false),
        Some(tp) => {
            if pos < tp.1 < end && s[tp.1] == ',' {
                spec_dom_field_err(s, tp.1 + 1, end)
            } else {
                (tp.1, "malformed expression"@)
            }
        },
    }
}

/// Parse a day-of-month field: numeric terms plus the `L` and `<d>W`
/// forms, each a term of its own.
fn parse_dom_field(chars: &Vec<char>, start: usize, end: usize) -> (r: Result<
    crate::ParsedDaysOfMonth,
    PErr,
>)
    requires
        start <= end <= chars@.len(),
    ensures
        match r {
            Ok(d) => {
                &&& d@.wf()
                &&& (d.start_with_asterisk <==> (start + 1 == end && chars@[start as int]
                    == '*'))
                &&& match spec_dom_field(chars@, start as int, end as int) {
                    Some(ts) => {
                        &&& forall|y: u8| #[trigger]
                            d.literals@.contains(y) <==> dom_day_in_terms(ts, y)
                        &&& (d.last_day_of_month <==> dom_has_last(ts))
                        &&& forall|y: u8| #[trigger]
                            d.nearest_weekdays@.contains(y) <==> dom_nearest_in_terms(ts, y)
                    },
                    None => false,
                }
            },
            Err(e) => {
                &&& spec_dom_field(chars@, start as int, end as int) is None
                &&& e.offset as int == spec_dom_field_err(chars@, start as int, end as int).0
                &&& e.message@ == spec_dom_field_err(chars@, start as int, end as int).1
                &&& start <= e.offset <= end
            },
        },
{
    let ghost whole = spec_dom_field(chars@, start as int, end as int);
    let mut literals: Vec<u8> = Vec::new();
    let mut nearest: Vec<u8> = Vec::new();
    let mut last: bool = false;
    let mut pos = start;
    loop
        invariant_except_break
            spec_dom_field(chars@, pos as int, end as int) is None ==> whole is None
                && spec_dom_field_err(chars@, start as int, end as int) == spec_dom_field_err(
                chars@,
                pos as int,
                end as int,
            ),
            match spec_dom_field(chars@, pos as int, end as int) {
                Some(rest) => match whole {
                    Some(all) => {
                        &&& forall|y: u8|
                            #![trigger dom_day_in_terms(all, y)]
                            #![trigger dom_day_in_terms(rest, y)]
                            dom_day_in_terms(all, y) <==> (literals@.contains(y)
                                || dom_day_in_terms(rest, y))
                        &&& (dom_has_last(all) <==> (last || dom_has_last(rest)))
                        &&& forall|y: u8|
                            #![trigger dom_nearest_in_terms(all, y)]
                            #![trigger dom_nearest_in_terms(rest, y)]
                            dom_nearest_in_terms(all, y) <==> (nearest@.contains(y)
                                || dom_nearest_in_terms(rest, y))
                    },
                    None => false,
                },
                None => true,
            },
        invariant
            start <= pos <= end <= chars@.len(),
            strictly_sorted(literals@),
            forall|y: u8| #[trigger] literals@.contains(y) ==> 1 <= y <= 31,
            strictly_sorted(nearest@),
            forall|y: u8| #[trigger] nearest@.contains(y) ==> 1 <= y <= 31,
            pos > start ==> (literals@.len() > 0 || last || nearest@.len() > 0),
            whole == spec_dom_field(chars@, start as int, end as int),
        ensures
            literals@.len() > 0 || last || nearest@.len() > 0,
            match whole {
                Some(ts) => {
                    &&& forall|y: u8| #[trigger]
                        literals@.contains(y) <==> dom_day_in_terms(ts, y)
                    &&& (last <==> dom_has_last(ts))
                    &&& forall|y: u8| #[trigger]
                        nearest@.contains(y) <==> dom_nearest_in_terms(ts, y)
                },
                None => false,
            },
        decreases end - pos,
    {
        let ghost oldpos = pos as int;
        let ghost lits0 = literals@;
        let ghost near0 = nearest@;
        let ghost last0 = last;
        if pos >= end {
            proof {
                assert(spec_dom_field_err(chars@, oldpos, end as int) == (
                    pos as int,
                    "malformed expression"@,
                ));
            }
            return Err(PErr { offset: pos, message: msg_malformed() });
        }
        let c = chars[pos];
        if c == 'L' {
            last = true;
            pos = pos + 1;
        } else if c == '*' {
            pos = match parse_plain_term(chars, pos, end, 1, 31, false, &mut literals) {
                Ok(p) => p,
                Err(e) => {
                    proof {
                        assert(spec_dom_term(chars@, oldpos, end as int) is None);
                        assert(spec_dom_field_err(chars@, oldpos, end as int) == spec_term_err(
                            chars@,
                            oldpos,
                            end as int,
                            1,
                            31,
                            false,
                        ));
                    }
                    return Err(e);
                },
            };
        } else {
            let (a, p1) = match parse_plain_value(chars, pos, end, 1, 31, false) {
                Ok(vp) => vp,
                Err(e) => {
                    proof {
                        assert(spec_value(chars@, oldpos, end as int, 1, 31, false) is None);
                        assert(spec_dom_term(chars@, oldpos, end as int) is None);
                        assert(spec_dom_field_err(chars@, oldpos, end as int) == spec_term_err(
                            chars@,
                            oldpos,
                            end as int,
                            1,
                            31,
                            false,
                        ));
                    }
                    return Err(e);
                },
            };
            proof {
                assert(spec_value(chars@, oldpos, end as int, 1, 31, false) == Some(
                    (a, p1 as int),
                ));
            }
            if p1 < end && chars[p1] == 'W' {
                insert_sorted(&mut nearest, a);
                proof {
                    assert(nearest@.contains(a));
                }
                pos = p1 + 1;
            } else {
                pos = match parse_plain_term_tail(
                    chars,
                    pos,
                    a,
                    p1,
                    end,
                    1,
                    31,
                    false,
                    &mut literals,
                ) {
                    Ok(p) => p,
                    Err(e) => {
                        proof {
                            assert(spec_dom_term(chars@, oldpos, end as int) is None);
                            assert(spec_term_err(chars@, oldpos, end as int, 1, 31, false)
                                == spec_tail_err(
                                chars@,
                                oldpos,
                                a,
                                p1 as int,
                                end as int,
                                1,
                                31,
                                false,
                            ));
                            assert(spec_dom_field_err(chars@, oldpos, end as int)
                                == spec_term_err(chars@, oldpos, end as int, 1, 31, false));
                        }
                        return Err(e);
                    },
                };
            }
        }
        // the term just consumed, as the denotation sees it
        let ghost tp = spec_dom_term(chars@, oldpos, end as int)->0;
        let ghost t = tp.0;
        proof {
            assert(spec_dom_term(chars@, oldpos, end as int) == Some((t, pos as int)));
            assert forall|y: u8|
                #![trigger literals@.contains(y)]
                #![trigger dom_term_day(t, y)]
                literals@.contains(y) <==> (lits0.contains(y) || dom_term_day(t, y)) by {}
            assert forall|y: u8|
                #![trigger nearest@.contains(y)]
                nearest@.contains(y) <==> (near0.contains(y) || t == DomTerm::Nearest(y)) by {}
            assert(last <==> (last0 || t is LastDay));
        }
        if pos == end {
            proof {
                assert(spec_dom_field(chars@, oldpos, end as int) =~= Some(seq![t]));
                let all = whole->0;
                assert forall|y: u8| #[trigger]
                    literals@.contains(y) <==> dom_day_in_terms(all, y) by {
                    lemma_dom_terms_single(t, y);
                }
                assert forall|y: u8| #[trigger]
                    nearest@.contains(y) <==> dom_nearest_in_terms(all, y) by {
                    lemma_dom_terms_single(t, y);
                }
                lemma_dom_terms_single(t, 1u8);
            }
            break ;
        }
        if chars[pos] == ',' {
            proof {
                let rest = spec_dom_field(chars@, pos + 1 as int, end as int);
                if rest is None {
                    assert(spec_dom_field(chars@, oldpos, end as int) is None);
                    assert(spec_dom_field_err(chars@, oldpos, end as int) == spec_dom_field_err(
                        chars@,
                        pos + 1 as int,
                        end as int,
                    ));
                } else {
                    assert(spec_dom_field(chars@, oldpos, end as int) =~= Some(
                        seq![t] + rest->0,
                    ));
                    let all = whole->0;
                    assert forall|y: u8|
                        #![trigger dom_day_in_terms(all, y)]
                        #![trigger dom_day_in_terms(rest->0, y)]
                        dom_day_in_terms(all, y) <==> (literals@.contains(y)
                            || dom_day_in_terms(rest->0, y)) by {
                        lemma_dom_terms_cons(t, rest->0, y);
                    }
                    assert forall|y: u8|
                        #![trigger dom_nearest_in_terms(all, y)]
                        #![trigger dom_nearest_in_terms(rest->0, y)]
                        dom_nearest_in_terms(all, y) <==> (nearest@.contains(y)
                            || dom_nearest_in_terms(rest->0, y)) by {
                        lemma_dom_terms_cons(t, rest->0, y);
                    }
                    lemma_dom_terms_cons(t, rest->0, 1u8);
                }
            }
            pos = pos + 1;
        } else {
            proof {
                assert(spec_dom_field(chars@, oldpos, end as int) is None);
                assert(spec_dom_field_err(chars@, oldpos, end as int) == (
                    pos as int,
                    "malformed expression"@,
                ));
            }
            return Err(PErr { offset: pos, message: msg_malformed() });
        }
    }
    let star = start < end && end - start == 1 && chars[start] == '*';
    proof {
        lemma_range_from_contains(literals@, 1, 31);
        lemma_range_from_contains(nearest@, 1, 31);
    }
    Ok(
        crate::ParsedDaysOfMonth {
            literals,
            last_day_of_month: last,
            nearest_weekdays: nearest,
            start_with_asterisk: star,
        },
    )
}

/// One term of a day-of-week field: a progression of raw weekday values
/// (normalized on expansion), the last occurrence `<w>L`, or the n-th
/// occurrence `<w>#<n>` of a weekday; the stored weekday is normalized.
pub enum DowTerm {
    Days(u8, u8, u8),
    LastOf(u8),
    NthOf(u8, u8),
}

/// Whether the normalized weekday `y` lies in the expansion of a `Days`
/// term: some raw value of the progression normalizes to it.
pub open spec fn dow_term_day(t: DowTerm, y: u8) -> bool {
    match t {
        DowTerm::Days(a, b, st) => exists|v: int|
            a <= v <= b && (v - a as int) % (st as int) == 0 && y as int == norm_sunday_spec(v),
        _ => false,
    }
}

/// The raw day-of-week value denoted at `pos`, with the position after it.
pub open spec fn spec_dow_value(s: Seq<char>, pos: int, end: int) -> Option<(u8, int)> {
    if spec_dow_alias(s, pos, end) is Some {
        Some((spec_dow_alias(s, pos, end)->0, pos + 3))
    } else if pos < end && is_digit(s[pos]) && run_val(s, pos, end) <= 7 {
        Some((run_val(s, pos, end) as u8, digit_run_end(s, pos, end)))
    } else {
        None
    }
}

/// The term denoted at `pos` of a day-of-week field, with the position
/// after it.
pub open spec fn spec_dow_term(s: Seq<char>, pos: int, end: int) -> Option<(DowTerm, int)> {
    if pos >= end {
        None
    } else if s[pos] == '*' {
        if pos + 1 < end && s[pos + 1] == '/' {
            match spec_step(s, pos + 2, end, 7) {
                None => None,
                Some(sp) => Some((DowTerm::Days(0, 7, sp.0), sp.1)),
            }
        } else {
            Some((DowTerm::Days(0, 7, 1u8), pos + 1))
        }
    } else {
        match spec_dow_value(s, pos, end) {
            None => None,
            Some(ap) => {
                if ap.1 < end && s[ap.1] == 'L' {
                    Some((DowTerm::LastOf(norm_sunday_spec(ap.0 as int) as u8), ap.1 + 1))
                } else if ap.1 < end && s[ap.1] == '#' {
                    if ap.1 + 1 < end && is_digit(s[ap.1 + 1]) && 1 <= run_val(
                        s,
                        ap.1 + 1,
                        end,
                    ) <= 5 {
                        Some(
                            (
                                DowTerm::NthOf(
                                    run_val(s, ap.1 + 1, end) as u8,
                                    norm_sunday_spec(ap.0 as int) as u8,
                                ),
                                digit_run_end(s, ap.1 + 1, end),
                            ),
                        )
                    } else {
                        None
                    }
                } else if ap.1 < end && s[ap.1] == '-' {
                    match spec_dow_value(s, ap.1 + 1, end) {
                        None => None,
                        Some(bp) => {
                            if ap.0 > bp.0 {
                                None
                            } else if bp.1 < end && s[bp.1] == '/' {
                                match spec_step(s, bp.1 + 1, end, 7) {
                                    None => None,
                                    Some(sp) => Some((DowTerm::Days(ap.0, bp.0, sp.0), sp.1)),
                                }
                            } else {
                                Some((DowTerm::Days(ap.0, bp.0, 1u8), bp.1))
                            }
                        },
                    }
                } else if ap.1 < end && s[ap.1] == '/' {
                    match spec_step(s, ap.1 + 1, end, 7) {
                        None => None,
                        Some(sp) => Some((DowTerm::Days(ap.0, 7, sp.0), sp.1)),
                    }
                } else {
                    Some((DowTerm::Days(ap.0, ap.0, 1u8), ap.1))
                }
            },
        }
    }
}

/// The terms denoted by a whole day-of-week field; `None` where the text
/// is not a well-formed field.
pub open spec fn spec_dow_field(s: Seq<char>, pos: int, end: int) -> Option<Seq<DowTerm>>
    decreases end - pos,
{
    match spec_dow_term(s, pos, end) {
        None => None,
        Some(tp) => {
            if tp.1 == end {
                Some(seq![tp.0])
            } else if pos < tp.1 < end && s[tp.1] == ',' {
                match spec_dow_field(s, tp.1 + 1, end) {
                    None => None,
                    Some(ts) => Some(seq![tp.0] + ts),
                }
            } else {
                None
            }
        },
    }
}

/// Whether some `Days` term of the list admits the normalized weekday `y`.
pub open spec fn dow_day_in_terms(ts: Seq<DowTerm>, y: u8) -> bool {
    exists|k: int| 0 <= k < ts.len() && dow_term_day(#[trigger] ts[k], y)
}

/// Whether the list asks for the last occurrence of weekday `w`.
pub open spec fn dow_last_in_terms(ts: Seq<DowTerm>, w: u8) -> bool {
    exists|k: int| 0 <= k < ts.len() && #[trigger] ts[k] == DowTerm::LastOf(w)
}

/// Whether the list asks for the `n`-th occurrence of weekday `w`.
pub open spec fn dow_nth_in_terms(ts: Seq<DowTerm>, n: u8, w: u8) -> bool {
    exists|k: int| 0 <= k < ts.len() && #[trigger] ts[k] == DowTerm::NthOf(n, w)
}

/// Whether the pair list holds `(n, w)`.
pub open spec fn pairs_has(ps: Seq<(u8, u8)>, n: u8, w: u8) -> bool {
    exists|k: int| 0 <= k < ps.len() && #[trigger] ps[k] == (n, w)
}

proof fn lemma_pairs_push(ps: Seq<(u8, u8)>, p: (u8, u8))
    ensures
        forall|n: u8, w: u8| #[trigger]
            pairs_has(ps.push(p), n, w) <==> (pairs_has(ps, n, w) || (n, w) == p),
{
    assert forall|n: u8, w: u8| #[trigger]
        pairs_has(ps.push(p), n, w) <==> (pairs_has(ps, n, w) || (n, w) == p) by {
        let all = ps.push(p);
        assert(all[ps.len() as int] == p);
        if pairs_has(all, n, w) {
            let k = choose|k: int| 0 <= k < all.len() && all[k] == (n, w);
            if k < ps.len() {
                assert(ps[k] == (n, w));
            }
        }
        if pairs_has(ps, n, w) {
            let k = choose|k: int| 0 <= k < ps.len() && ps[k] == (n, w);
            assert(all[k] == (n, w));
        }
    }
}

proof fn lemma_dow_terms_cons(t: DowTerm, ts: Seq<DowTerm>)
    ensures
        forall|y: u8| #[trigger]
            dow_day_in_terms(seq![t] + ts, y) <==> (dow_term_day(t, y) || dow_day_in_terms(
                ts,
                y,
            )),
        forall|w: u8| #[trigger]
            dow_last_in_terms(seq![t] + ts, w) <==> (t == DowTerm::LastOf(w)
                || dow_last_in_terms(ts, w)),
        forall|n: u8, w: u8| #[trigger]
            dow_nth_in_terms(seq![t] + ts, n, w) <==> (t == DowTerm::NthOf(n, w)
                || dow_nth_in_terms(ts, n, w)),
{
    let all = seq![t] + ts;
    assert(all[0] == t);
    assert forall|k: int| 0 <= k < ts.len() implies all[k + 1] == ts[k] by {}
    assert forall|y: u8| #[trigger]
        dow_day_in_terms(all, y) <==> (dow_term_day(t, y) || dow_day_in_terms(ts, y)) by {
        if dow_day_in_terms(all, y) {
            let k = choose|k: int| 0 <= k < all.len() && dow_term_day(all[k], y);
            if k > 0 {
                assert(dow_term_day(ts[k - 1], y));
            }
        }
        if dow_day_in_terms(ts, y) {
            let k = choose|k: int| 0 <= k < ts.len() && dow_term_day(ts[k], y);
            assert(dow_term_day(all[k + 1], y));
        }
    }
    assert forall|w: u8| #[trigger]
        dow_last_in_terms(all, w) <==> (t == DowTerm::LastOf(w) || dow_last_in_terms(ts, w)) by {
        if dow_last_in_terms(all, w) {
            let k = choose|k: int| 0 <= k < all.len() && all[k] == DowTerm::LastOf(w);
            if k > 0 {
                assert(ts[k - 1] == DowTerm::LastOf(w));
            }
        }
        if dow_last_in_terms(ts, w) {
            let k = choose|k: int| 0 <= k < ts.len() && ts[k] == DowTerm::LastOf(w);
            assert(all[k + 1] == DowTerm::LastOf(w));
        }
    }
    assert forall|n: u8, w: u8| #[trigger]
        dow_nth_in_terms(all, n, w) <==> (t == DowTerm::NthOf(n, w) || dow_nth_in_terms(
            ts,
            n,
            w,
        )) by {
        if dow_nth_in_terms(all, n, w) {
            let k = choose|k: int| 0 <= k < all.len() && all[k] == DowTerm::NthOf(n, w);
            if k > 0 {
                assert(ts[k - 1] == DowTerm::NthOf(n, w));
            }
        }
        if dow_nth_in_terms(ts, n, w) {
            let k = choose|k: int| 0 <= k < ts.len() && ts[k] == DowTerm::NthOf(n, w);
            assert(all[k + 1] == DowTerm::NthOf(n, w));
        }
    }
}

proof fn lemma_dow_terms_single(t: DowTerm)
    ensures
        forall|y: u8| #[trigger] dow_day_in_terms(seq![t], y) <==> dow_term_day(t, y),
        forall|w: u8| #[trigger] dow_last_in_terms(seq![t], w) <==> t == DowTerm::LastOf(w),
        forall|n: u8, w: u8| #[trigger]
            dow_nth_in_terms(seq![t], n, w) <==> t == DowTerm::NthOf(n, w),
{
    assert(seq![t][0] == t);
    assert forall|y: u8| #[trigger] dow_day_in_terms(seq![t], y) <==> dow_term_day(t, y) by {
        if dow_day_in_terms(seq![t], y) {
            let k = choose|k: int| 0 <= k < seq![t].len() && dow_term_day(seq![t][k], y);
            assert(k == 0);
        }
    }
    assert forall|w: u8| #[trigger]
        dow_last_in_terms(seq![t], w) <==> t == DowTerm::LastOf(w) by {
        if dow_last_in_terms(seq![t], w) {
            let k = choose|k: int| 0 <= k < seq![t].len() && seq![t][k] == DowTerm::LastOf(w);
            assert(k == 0);
        }
    }
    assert forall|n: u8, w: u8| #[trigger]
        dow_nth_in_terms(seq![t], n, w) <==> t == DowTerm::NthOf(n, w) by {
        if dow_nth_in_terms(seq![t], n, w) {
            let k = choose|k: int| 0 <= k < seq![t].len() && seq![t][k] == DowTerm::NthOf(n, w);
            assert(k == 0);
        }
    }
}

/// Parse a day-of-week field: numeric and named weekday terms plus the
/// `<w>L` and `<w>#<n>` forms; `0` and `7` both mean Sunday.
/// The committed error of a failing day-of-week term at `pos`: a bad raw
/// value, a bad occurrence count after `#`, a descending range, or a bad
/// step.
pub open spec fn spec_dow_term_err(s: Seq<char>, pos: int, end: int) -> (int, Seq<char>) {
    if pos >= end {
        (pos, "malformed expression"@)
    } else if s[pos] == '*' {
        if pos + 1 < end && s[pos + 1] == '/' {
            spec_step_err(s, pos + 2, end, 0, 7, pos)
        } else {
            (pos, "malformed expression"@)
        }
    } else {
        match spec_dow_value(s, pos, end) {
            None => (pos, spec_value_err_message(s, pos, end, 0, 7)),
            Some(ap) => {
                if ap.1 < end && s[ap.1] == '#' {
                    if ap.1 + 1 < end && is_digit(s[ap.1 + 1]) && run_val(s, ap.1 + 1, end)
                        <= u64::MAX {
                        (ap.1 + 1, value_range_message(1, 5, run_val(s, ap.1 + 1, end)))
                    } else {
                        (ap.1 + 1, "malformed expression"@)
                    }
                } else if ap.1 < end && s[ap.1] == '-' {
                    match spec_dow_value(s, ap.1 + 1, end) {
                        None => (ap.1 + 1, spec_value_err_message(s, ap.1 + 1, end, 0, 7)),
                        Some(bp) => {
                            if ap.0 > bp.0 {
                                (pos, range_order_message(ap.0 as int, bp.0 as int))
                            } else if bp.1 < end && s[bp.1] == '/' {
                                spec_step_err(s, bp.1 + 1, end, 0, 7, pos)
                            } else {
                                (pos, "malformed expression"@)
                            }
                        },
                    }
                } else if ap.1 < end && s[ap.1] == '/' {
                    spec_step_err(s, ap.1 + 1, end, 0, 7, pos)
                } else {
                    (pos, "malformed expression"@)
                }
            },
        }
    }
}

/// The committed error of a failing day-of-week field.
pub open spec fn spec_dow_field_err(s: Seq<char>, pos: int, end: int) -> (int, Seq<char>)
    decreases end - pos,
{
    match spec_dow_term(s, pos, end) {
        None => spec_dow_term_err(s, pos, end),
        Some(tp) => {
            if pos < tp.1 < end && s[tp.1] == ',' {
                spec_dow_field_err(s, tp.1 + 1, end)
            } else {
                (tp.1, "malformed expression"@)
            }
        },
    }
}

fn parse_dow_field(chars: &Vec<char>, start: usize, end: usize) -> (r: Result<
    crate::ParsedDaysOfWeek,
    PErr,
>)
    requires
        start <= end <= chars@.len(),
    ensures
        match r {
            Ok(d) => {
                &&& d@.wf()
                &&& (d.start_with_asterisk <==> (start + 1 == end && chars@[start as int]
                    == '*'))
                &&& match spec_dow_field(chars@, start as int, end as int) {
                    Some(ts) => {
                        &&& forall|y: u8| #[trigger]
                            d.literals@.contains(y) <==> dow_day_in_terms(ts, y)
                        &&& forall|w: u8| #[trigger]
                            d.last_days_of_week@.contains(w) <==> dow_last_in_terms(ts, w)
                        &&& forall|n: u8, w: u8| #[trigger]
                            pairs_has(d.nth_days_of_week@, n, w) <==> dow_nth_in_terms(
                                ts,
                                n,
                                w,
                            )
                    },
                    None => false,
                }
            },
            Err(e) => {
                &&& spec_dow_field(chars@, start as int, end as int) is None
                &&& e.offset as int == spec_dow_field_err(chars@, start as int, end as int).0
                &&& e.message@ == spec_dow_field_err(chars@, start as int, end as int).1
                &&& start <= e.offset <= end
            },
        },
{
    let ghost whole = spec_dow_field(chars@, start as int, end as int);
    let mut literals: Vec<u8> = Vec::new();
    let mut last_days: Vec<u8> = Vec::new();
    let mut nth: Vec<(u8, u8)> = Vec::new();
    let mut pos = start;
    loop
        invariant_except_break
            spec_dow_field(chars@, pos as int, end as int) is None ==> whole is None
                && spec_dow_field_err(chars@, start as int, end as int) == spec_dow_field_err(
                chars@,
                pos as int,
                end as int,
            ),
            match spec_dow_field(chars@, pos as int, end as int) {
                Some(rest) => match whole {
                    Some(all) => {
                        &&& forall|y: u8|
                            #![trigger dow_day_in_terms(all, y)]
                            #![trigger dow_day_in_terms(rest, y)]
                            dow_day_in_terms(all, y) <==> (literals@.contains(y)
                                || dow_day_in_terms(rest, y))
                        &&& forall|w: u8|
                            #![trigger dow_last_in_terms(all, w)]
                            #![trigger dow_last_in_terms(rest, w)]
                            dow_last_in_terms(all, w) <==> (last_days@.contains(w)
                                || dow_last_in_terms(rest, w))
                        &&& forall|n: u8, w: u8|
                            #![trigger dow_nth_in_terms(all, n, w)]
                            #![trigger dow_nth_in_terms(rest, n, w)]
                            dow_nth_in_terms(all, n, w) <==> (pairs_has(nth@, n, w)
                                || dow_nth_in_terms(rest, n, w))
                    },
                    None => false,
                },
                None => true,
            },
        invariant
            start <= pos <= end <= chars@.len(),
            whole == spec_dow_field(chars@, start as int, end as int),
            strictly_sorted(literals@),
            forall|y: u8| #[trigger] literals@.contains(y) ==> 1 <= y <= 7,
            strictly_sorted(last_days@),
            forall|y: u8| #[trigger] last_days@.contains(y) ==> 1 <= y <= 7,
            forall|k: int|
                0 <= k < nth@.len() ==> {
                    &&& 1 <= (#[trigger] nth@[k]).0 <= 5
                    &&& 1 <= nth@[k].1 <= 7
                },
            pos > start ==> (literals@.len() > 0 || last_days@.len() > 0 || nth@.len() > 0),
        ensures
            literals@.len() > 0 || last_days@.len() > 0 || nth@.len() > 0,
            match whole {
                Some(ts) => {
                    &&& forall|y: u8| #[trigger]
                        literals@.contains(y) <==> dow_day_in_terms(ts, y)
                    &&& forall|w: u8| #[trigger]
                        last_days@.contains(w) <==> dow_last_in_terms(ts, w)
                    &&& forall|n: u8, w: u8| #[trigger]
                        pairs_has(nth@, n, w) <==> dow_nth_in_terms(ts, n, w)
                },
                None => false,
            },
        decreases end - pos,
    {
        let ghost oldpos = pos as int;
        let ghost lits0 = literals@;
        let ghost lasts0 = last_days@;
        let ghost nth0 = nth@;
        if pos >= end {
            proof {
                assert(spec_dow_field_err(chars@, oldpos, end as int) == (
                    pos as int,
                    "malformed expression"@,
                ));
            }
            return Err(PErr { offset: pos, message: msg_malformed() });
        }
        if chars[pos] == '*' {
            if pos + 1 < end && chars[pos + 1] == '/' {
                let (s, p) = match parse_step_value(chars, pos + 2, end, 0, 7, pos) {
                    Ok(sp) => sp,
                    Err(e) => {
                        proof {
                            assert(spec_dow_term(chars@, oldpos, end as int) is None);
                            assert(spec_dow_field_err(chars@, oldpos, end as int)
                                == spec_dow_term_err(chars@, oldpos, end as int));
                        }
                        return Err(e);
                    },
                };
                expand_stepped_dow(&mut literals, 0, 7, s);
                pos = p;
            } else {
                expand_stepped_dow(&mut literals, 0, 7, 1);
                pos = pos + 1;
            }
        } else {
            let (a, p1) = match parse_dow_value(chars, pos, end) {
                Ok(vp) => vp,
                Err(e) => {
                    proof {
                        assert(spec_dow_value(chars@, oldpos, end as int) is None);
                        assert(spec_dow_term(chars@, oldpos, end as int) is None);
                        assert(spec_dow_field_err(chars@, oldpos, end as int)
                            == spec_dow_term_err(chars@, oldpos, end as int));
                    }
                    return Err(e);
                },
            };
            proof {
                assert(spec_dow_value(chars@, oldpos, end as int) == Some((a, p1 as int)));
            }
            if p1 < end && chars[p1] == 'L' {
                let nv = norm_sunday(a);
                insert_sorted(&mut last_days, nv);
                proof {
                    assert(last_days@.contains(nv));
                }
                pos = p1 + 1;
            } else if p1 < end && chars[p1] == '#' {
                let (n, p2) = match parse_uint(chars, p1 + 1, end) {
                    None => {
                        proof {
                            assert(spec_dow_term(chars@, oldpos, end as int) is None);
                            assert(spec_dow_field_err(chars@, oldpos, end as int)
                                == spec_dow_term_err(chars@, oldpos, end as int));
                            assert(spec_dow_term_err(chars@, oldpos, end as int) == (
                                p1 + 1 as int,
                                "malformed expression"@,
                            ));
                        }
                        return Err(PErr { offset: p1 + 1, message: msg_malformed() });
                    },
                    Some(np) => np,
                };
                if n < 1 || n > 5 {
                    proof {
                        lemma_digit_run_end_bounds(chars@, p1 + 1 as int, end as int);
                        assert(p1 + 1 < end && is_digit(chars@[p1 + 1 as int]));
                        assert(spec_dow_term(chars@, oldpos, end as int) is None);
                        assert(spec_dow_field_err(chars@, oldpos, end as int)
                            == spec_dow_term_err(chars@, oldpos, end as int));
                        assert(spec_dow_term_err(chars@, oldpos, end as int) == (
                            p1 + 1 as int,
                            value_range_message(1, 5, n as int),
                        ));
                    }
                    return Err(PErr { offset: p1 + 1, message: msg_value_range(1, 5, n) });
                }
                proof {
                    assert(p1 + 1 < end && is_digit(chars@[p1 + 1 as int])) by {
                        lemma_digit_run_end_bounds(chars@, p1 + 1 as int, end as int);
                    }
                }
                let ghost before = nth@;
                let nv = norm_sunday(a);
                nth.push((n as u8, nv));
                proof {
                    assert forall|k: int| 0 <= k < nth@.len() implies {
                        &&& 1 <= (#[trigger] nth@[k]).0 <= 5
                        &&& 1 <= nth@[k].1 <= 7
                    } by {
                        if k < before.len() {
                            assert(nth@[k] == before[k]);
                        }
                    }
                    assert(nth@ == before.push((n as u8, nv)));
                    lemma_pairs_push(before, (n as u8, nv));
                }
                pos = p2;
            } else if p1 < end && chars[p1] == '-' {
                let (b, p2) = match parse_dow_value(chars, p1 + 1, end) {
                    Ok(vp) => vp,
                    Err(e) => {
                        proof {
                            assert(spec_dow_value(chars@, p1 + 1 as int, end as int) is None);
                            assert(spec_dow_term(chars@, oldpos, end as int) is None);
                            assert(spec_dow_field_err(chars@, oldpos, end as int)
                                == spec_dow_term_err(chars@, oldpos, end as int));
                        }
                        return Err(e);
                    },
                };
                proof {
                    assert(spec_dow_value(chars@, p1 + 1 as int, end as int) == Some(
                        (b, p2 as int),
                    ));
                }
                if a > b {
                    proof {
                        assert(spec_dow_term(chars@, oldpos, end as int) is None);
                        assert(spec_dow_field_err(chars@, oldpos, end as int)
                            == spec_dow_term_err(chars@, oldpos, end as int));
                        assert(spec_dow_term_err(chars@, oldpos, end as int) == (
                            oldpos,
                            range_order_message(a as int, b as int),
                        ));
                    }
                    return Err(PErr { offset: pos, message: msg_range_order(a, b) });
                }
                if p2 < end && chars[p2] == '/' {
                    let (s, p3) = match parse_step_value(chars, p2 + 1, end, 0, 7, pos) {
                        Ok(sp) => sp,
                        Err(e) => {
                            proof {
                                assert(spec_dow_term(chars@, oldpos, end as int) is None);
                                assert(spec_dow_field_err(chars@, oldpos, end as int)
                                    == spec_dow_term_err(chars@, oldpos, end as int));
                            }
                            return Err(e);
                        },
                    };
                    expand_stepped_dow(&mut literals, a, b, s);
                    pos = p3;
                } else {
                    expand_stepped_dow(&mut literals, a, b, 1);
                    pos = p2;
                }
            } else if p1 < end && chars[p1] == '/' {
                let (s, p2) = match parse_step_value(chars, p1 + 1, end, 0, 7, pos) {
                    Ok(sp) => sp,
                    Err(e) => {
                        proof {
                            assert(spec_dow_term(chars@, oldpos, end as int) is None);
                            assert(spec_dow_field_err(chars@, oldpos, end as int)
                                == spec_dow_term_err(chars@, oldpos, end as int));
                        }
                        return Err(e);
                    },
                };
                expand_stepped_dow(&mut literals, a, 7, s);
                pos = p2;
            } else {
                let nv = norm_sunday(a);
                insert_sorted(&mut literals, nv);
                proof {
                    assert(literals@.contains(nv));
                    assert forall|y: u8| #[trigger]
                        dow_term_day(DowTerm::Days(a, a, 1u8), y) <==> y == nv by {
                        if y == nv {
                            assert((a as int - a as int) % (1int) == 0);
                            assert(dow_term_day(DowTerm::Days(a, a, 1u8), y));
                        }
                    }
                }
                pos = p1;
            }
        }
        // the term just consumed, as the denotation sees it
        let ghost tp = spec_dow_term(chars@, oldpos, end as int)->0;
        let ghost t = tp.0;
        proof {
            assert(spec_dow_term(chars@, oldpos, end as int) == Some((t, pos as int)));
            assert forall|y: u8| #[trigger]
                literals@.contains(y) <==> (lits0.contains(y) || dow_term_day(t, y)) by {}
            assert forall|w: u8| #[trigger]
                last_days@.contains(w) <==> (lasts0.contains(w) || t == DowTerm::LastOf(w)) by {}
            assert forall|n: u8, w: u8| #[trigger]
                pairs_has(nth@, n, w) <==> (pairs_has(nth0, n, w) || t == DowTerm::NthOf(
                    n,
                    w,
                )) by {}
        }
        if pos == end {
            proof {
                assert(spec_dow_field(chars@, oldpos, end as int) =~= Some(seq![t]));
                let all = whole->0;
                lemma_dow_terms_single(t);
            }
            break ;
        }
        if chars[pos] == ',' {
            proof {
                let rest = spec_dow_field(chars@, pos + 1 as int, end as int);
                if rest is None {
                    assert(spec_dow_field(chars@, oldpos, end as int) is None);
                    assert(spec_dow_field_err(chars@, oldpos, end as int) == spec_dow_field_err(
                        chars@,
                        pos + 1 as int,
                        end as int,
                    ));
                } else {
                    assert(spec_dow_field(chars@, oldpos, end as int) =~= Some(
                        seq![t] + rest->0,
                    ));
                    lemma_dow_terms_cons(t, rest->0);
                }
            }
            pos = pos + 1;
        } else {
            proof {
                assert(spec_dow_field(chars@, oldpos, end as int) is None);
                assert(spec_dow_field_err(chars@, oldpos, end as int) == (
                    pos as int,
                    "malformed expression"@,
                ));
            }
            return Err(PErr { offset: pos, message: msg_malformed() });
        }
    }
    let star = start < end && end - start == 1 && chars[start] == '*';
    proof {
        lemma_range_from_contains(literals@, 1, 7);
        lemma_range_from_contains(last_days@, 1, 7);
    }
    Ok(
        crate::ParsedDaysOfWeek {
            literals,
            last_days_of_week: last_days,
            nth_days_of_week: nth,
            start_with_asterisk: star,
        },
    )
}

/// Where the field that begins at `from` ends: the first space at or
/// after `from`, or the end of the input where none follows.
pub open spec fn space_or_end(s: Seq<char>, from: int) -> int
    decreases s.len() - from,
{
    if from >= s.len() || from < 0 {
        s.len() as int
    } else if s[from] == ' ' {
        from
    } else {
        space_or_end(s, from + 1)
    }
}

fn find_space(chars: &Vec<char>, from: usize) -> (r: usize)
    requires
        from <= chars@.len(),
    ensures
        r == space_or_end(chars@, from as int),
        from <= r <= chars@.len(),
{
    let n = chars.len();
    let mut i = from;
    while i < n && chars[i] != ' '
        invariant
            from <= i <= n,
            n == chars@.len(),
            space_or_end(chars@, from as int) == space_or_end(chars@, i as int),
        decreases n - i,
    {
        proof {
            assert(space_or_end(chars@, i as int) == space_or_end(chars@, i + 1 as int));
        }
        i = i + 1;
    }
    proof {
        assert(space_or_end(chars@, i as int) == i as int);
    }
    i
}

/// Parse a crontab expression into a [`Crontab`].
///
/// The normalized input holds six space-separated parts, in order:
/// minutes, hours, day-of-month, month, day-of-week, and an IANA
/// time-zone name. On success every field of the schedule is validated:
/// non-empty and within its domain.
pub fn parse_crontab(input: &str) -> (r: Result<crate::Crontab, Error>)
    ensures
        r is Ok ==> ({
            let s = spec_normalize(input@);
            let n = s.len() as int;
            let e1 = space_or_end(s, 0);
            let s2 = if e1 < n { e1 + 1 } else { n };
            let e2 = space_or_end(s, s2);
            let s3 = if e2 < n { e2 + 1 } else { n };
            let e3 = space_or_end(s, s3);
            let s4 = if e3 < n { e3 + 1 } else { n };
            let e4 = space_or_end(s, s4);
            let s5 = if e4 < n { e4 + 1 } else { n };
            let e5 = space_or_end(s, s5);
            let s6 = if e5 < n { e5 + 1 } else { n };
            let c = r->Ok_0;
            &&& c@.wf()
            &&& match spec_plain_field(s, 0, e1, 0, 59, false) {
                Some(ts) => forall|y: u8| #[trigger]
                    c@.minutes.contains(y) <==> in_terms(ts, y),
                None => false,
            }
            &&& match spec_plain_field(s, s2, e2, 0, 23, false) {
                Some(ts) => forall|y: u8| #[trigger] c@.hours.contains(y) <==> in_terms(ts, y),
                None => false,
            }
            &&& match spec_plain_field(s, s4, e4, 1, 12, true) {
                Some(ts) => forall|y: u8| #[trigger] c@.months.contains(y) <==> in_terms(ts, y),
                None => false,
            }
            &&& match spec_dom_field(s, s3, e3) {
                Some(ts) => {
                    &&& forall|y: u8| #[trigger]
                        c@.days_of_month.literals.contains(y) <==> dom_day_in_terms(ts, y)
                    &&& (c@.days_of_month.last_day_of_month <==> dom_has_last(ts))
                    &&& forall|y: u8| #[trigger]
                        c@.days_of_month.nearest_weekdays.contains(y) <==> dom_nearest_in_terms(
                            ts,
                            y,
                        )
                },
                None => false,
            }
            &&& match spec_dow_field(s, s5, e5) {
                Some(ts) => {
                    &&& forall|y: u8| #[trigger]
                        c@.days_of_week.literals.contains(y) <==> dow_day_in_terms(ts, y)
                    &&& forall|w: u8| #[trigger]
                        c@.days_of_week.last_days_of_week.contains(w) <==> dow_last_in_terms(
                            ts,
                            w,
                        )
                    &&& forall|n2: u8, w: u8| #[trigger]
                        pairs_has(c@.days_of_week.nth_days_of_week, n2, w) <==> dow_nth_in_terms(
                            ts,
                            n2,
                            w,
                        )
                },
                None => false,
            }
            &&& (c@.days_of_month.start_with_asterisk <==> (s3 + 1 == e3 && s[s3] == '*'))
            &&& (c@.days_of_week.start_with_asterisk <==> (s5 + 1 == e5 && s[s5] == '*'))
            &&& c@.timezone == s.subrange(s6, n)
        }),
        r is Err ==> ({
            let s = spec_normalize(input@);
            let n = s.len() as int;
            let e1 = space_or_end(s, 0);
            let s2 = if e1 < n { e1 + 1 } else { n };
            let e2 = space_or_end(s, s2);
            let s3 = if e2 < n { e2 + 1 } else { n };
            let e3 = space_or_end(s, s3);
            let s4 = if e3 < n { e3 + 1 } else { n };
            let e4 = space_or_end(s, s4);
            let s5 = if e4 < n { e4 + 1 } else { n };
            let e5 = space_or_end(s, s5);
            let s6 = if e5 < n { e5 + 1 } else { n };
            let e = r->Err_0;
            let m_ok = spec_plain_field(s, 0, e1, 0, 59, false) is Some;
            let h_ok = spec_plain_field(s, s2, e2, 0, 23, false) is Some;
            let dm_ok = spec_dom_field(s, s3, e3) is Some;
            let mo_ok = spec_plain_field(s, s4, e4, 1, 12, true) is Some;
            let dw_ok = spec_dow_field(s, s5, e5) is Some;
            // every parse error quotes the normalized input with a caret
            &&& (exists|off: int, msg: Seq<char>|
                0 <= off <= n && e@ == parse_error_text(s, off, msg))
            // the first field without a denotation names the error exactly
            &&& (!m_ok ==> e@ == parse_error_text(
                s,
                spec_field_err(s, 0, e1, 0, 59, false).0,
                spec_field_err(s, 0, e1, 0, 59, false).1,
            ))
            &&& (m_ok && !h_ok ==> e@ == parse_error_text(
                s,
                spec_field_err(s, s2, e2, 0, 23, false).0,
                spec_field_err(s, s2, e2, 0, 23, false).1,
            ))
            &&& (m_ok && h_ok && !dm_ok ==> e@ == parse_error_text(
                s,
                spec_dom_field_err(s, s3, e3).0,
                spec_dom_field_err(s, s3, e3).1,
            ))
            &&& (m_ok && h_ok && dm_ok && !mo_ok ==> e@ == parse_error_text(
                s,
                spec_field_err(s, s4, e4, 1, 12, true).0,
                spec_field_err(s, s4, e4, 1, 12, true).1,
            ))
            &&& (m_ok && h_ok && dm_ok && mo_ok && !dw_ok ==> e@ == parse_error_text(
                s,
                spec_dow_field_err(s, s5, e5).0,
                spec_dow_field_err(s, s5, e5).1,
            ))
            // where every field has a denotation, only the zone can refuse
            &&& (m_ok && h_ok && dm_ok && mo_ok && dw_ok ==> e@ == parse_error_text(
                s,
                s6,
                timezone_message(s.subrange(s6, n)),
            ))
        }),
{
    let normalized = normalize_crontab(input);
    let chars = to_chars(normalized.as_str());
    let n = chars.len();

    let minutes_end = find_space(&chars, 0);
    let minutes = match parse_literals_field(&chars, 0, minutes_end, 0, 59, false) {
        Ok(v) => v,
        Err(e) => {
            return Err(format_parse_error(normalized.as_str(), e.offset, e.message));
        },
    };

    let hours_start = if minutes_end < n {
        minutes_end + 1
    } else {
        n
    };
    let hours_end = find_space(&chars, hours_start);
    let hours = match parse_literals_field(&chars, hours_start, hours_end, 0, 23, false) {
        Ok(v) => v,
        Err(e) => {
            return Err(format_parse_error(normalized.as_str(), e.offset, e.message));
        },
    };

    let dom_start = if hours_end < n {
        hours_end + 1
    } else {
        n
    };
    let dom_end = find_space(&chars, dom_start);
    let days_of_month = match parse_dom_field(&chars, dom_start, dom_end) {
        Ok(v) => v,
        Err(e) => {
            return Err(format_parse_error(normalized.as_str(), e.offset, e.message));
        },
    };

    let months_start = if dom_end < n {
        dom_end + 1
    } else {
        n
    };
    let months_end = find_space(&chars, months_start);
    let months = match parse_literals_field(&chars, months_start, months_end, 1, 12, true) {
        Ok(v) => v,
        Err(e) => {
            return Err(format_parse_error(normalized.as_str(), e.offset, e.message));
        },
    };

    let dow_start = if months_end < n {
        months_end + 1
    } else {
        n
    };
    let dow_end = find_space(&chars, dow_start);
    let days_of_week = match parse_dow_field(&chars, dow_start, dow_end) {
        Ok(v) => v,
        Err(e) => {
            return Err(format_parse_error(normalized.as_str(), e.offset, e.message));
        },
    };

    let tz_start = if dow_end < n {
        dow_end + 1
    } else {
        n
    };
    let timezone_str = normalized.as_str().substring_char(tz_start, n);
    if !crate::calendar::timezone_available(timezone_str) {
        let message = msg_timezone(timezone_str);
        return Err(format_parse_error(normalized.as_str(), tz_start, message));
    }
    let timezone = String::from_str(timezone_str);

    Ok(
        crate::Crontab {
            minutes: crate::PossibleLiterals { values: minutes },
            hours: crate::PossibleLiterals { values: hours },
            months: crate::PossibleLiterals { values: months },
            days_of_month,
            days_of_week,
            timezone,
        },
    )
}

} // verus!
