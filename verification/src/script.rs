//! Decoding of the line-oriented replay script: a batch header line that
//! declares its operation count, followed by one line per operation, each
//! carrying an index, the operation's shape, and its key (or prefix) as a
//! comma-separated decimal byte list.

use vstd::prelude::*;
use crate::ops::WriteOperation;

verus! {

/// A line of the script does not have the shape it must have; every such
/// error is fatal for the replay.
#[derive(Debug, PartialEq, Eq)]
pub struct ScriptFormatError;

/// ASCII decimal digit.
pub open spec fn is_digit(b: u8) -> bool {
    48 <= b && b <= 57
}

/// Value of a string of decimal digits, most significant first.
pub open spec fn digits_val(s: Seq<u8>) -> nat
    decreases s.len(),
{
    if s.len() == 0 {
        0
    } else {
        digits_val(s.drop_last()) * 10 + (if is_digit(s.last()) {
            (s.last() - 48) as nat
        } else {
            0
        })
    }
}

/// A non-empty string of decimal digits.
pub open spec fn all_digits(s: Seq<u8>) -> bool {
    s.len() > 0 && forall|i: int| 0 <= i < s.len() ==> is_digit(#[trigger] s[i])
}

/// The string with leading and trailing spaces removed.
pub open spec fn token_core(s: Seq<u8>) -> Seq<u8>
    decreases s.len(),
{
    if s.len() > 0 && s[0] == 32 {
        token_core(s.skip(1))
    } else if s.len() > 0 && s.last() == 32 {
        token_core(s.drop_last())
    } else {
        s
    }
}

/// A space-padded decimal that fits in a byte.
pub open spec fn valid_byte_token(s: Seq<u8>) -> bool {
    all_digits(token_core(s)) && digits_val(token_core(s)) <= 255
}

/// The byte that a token stands for.
pub open spec fn token_val(s: Seq<u8>) -> nat {
    digits_val(token_core(s))
}

/// First index at or after `start` holding `b`, or `-1`.
pub open spec fn find_from(s: Seq<u8>, start: int, b: u8) -> int
    decreases s.len() - start
        when 0 <= start
{
    if start >= s.len() {
        -1
    } else if s[start] == b {
        start
    } else {
        find_from(s, start + 1, b)
    }
}

/// Where `find_from` lands: at the first occurrence, or nowhere.
pub proof fn lemma_find_from(s: Seq<u8>, start: int, b: u8)
    requires
        0 <= start <= s.len(),
    ensures
        find_from(s, start, b) == -1 ==> forall|j: int| start <= j < s.len() ==> s[j] != b,
        find_from(s, start, b) != -1 ==> start <= find_from(s, start, b) < s.len() && s[find_from(
            s,
            start,
            b,
        )] == b && forall|j: int| start <= j < find_from(s, start, b) ==> s[j] != b,
    decreases s.len() - start,
{
    if start < s.len() && s[start] != b {
        lemma_find_from(s, start + 1, b);
    }
}

/// First index at or after `start` where `pat` matches, or `-1`.
pub open spec fn find_pat(s: Seq<u8>, pat: Seq<u8>, start: int) -> int
    decreases s.len() - start
        when 0 <= start && pat.len() >= 1
{
    if start + pat.len() > s.len() {
        -1
    } else if s.subrange(start, start + pat.len()) == pat {
        start
    } else {
        find_pat(s, pat, start + 1)
    }
}

/// Where `find_pat` lands: at the first match, or nowhere.
pub proof fn lemma_find_pat(s: Seq<u8>, pat: Seq<u8>, start: int)
    requires
        0 <= start,
        pat.len() >= 1,
    ensures
        find_pat(s, pat, start) == -1 ==> forall|j: int|
            start <= j && j + pat.len() <= s.len() ==> #[trigger] s.subrange(j, j + pat.len())
                != pat,
        find_pat(s, pat, start) != -1 ==> start <= find_pat(s, pat, start) && find_pat(s, pat, start)
            + pat.len() <= s.len() && s.subrange(
            find_pat(s, pat, start),
            find_pat(s, pat, start) + pat.len(),
        ) == pat && forall|j: int|
            start <= j < find_pat(s, pat, start) ==> #[trigger] s.subrange(j, j + pat.len())
                != pat,
    decreases s.len() - start,
{
    if start + pat.len() <= s.len() && s.subrange(start, start + pat.len()) != pat {
        lemma_find_pat(s, pat, start + 1);
    }
}

/// `find_from` lands at `i` when `i` holds `b` and nothing before it does.
proof fn lemma_find_from_at(s: Seq<u8>, start: int, i: int, b: u8)
    requires
        0 <= start <= i < s.len(),
        s[i] == b,
        forall|j: int| start <= j < i ==> s[j] != b,
    ensures
        find_from(s, start, b) == i,
    decreases i - start,
{
    if start < i {
        lemma_find_from_at(s, start + 1, i, b);
    }
}

/// `find_from` finds nothing when nothing is there.
proof fn lemma_find_from_none(s: Seq<u8>, start: int, b: u8)
    requires
        0 <= start <= s.len(),
        forall|j: int| start <= j < s.len() ==> s[j] != b,
    ensures
        find_from(s, start, b) == -1,
    decreases s.len() - start,
{
    if start < s.len() {
        lemma_find_from_none(s, start + 1, b);
    }
}

/// `find_pat` lands at `i` when the pattern stands there and nowhere
/// earlier.
proof fn lemma_find_pat_at(s: Seq<u8>, pat: Seq<u8>, start: int, i: int)
    requires
        pat.len() >= 1,
        0 <= start <= i,
        i + pat.len() <= s.len(),
        s.subrange(i, i + pat.len()) == pat,
        forall|j: int| start <= j < i ==> #[trigger] s.subrange(j, j + pat.len()) != pat,
    ensures
        find_pat(s, pat, start) == i,
    decreases i - start,
{
    if start < i {
        lemma_find_pat_at(s, pat, start + 1, i);
    }
}

/// `find_pat` finds nothing when the pattern stands nowhere at or after
/// `start`.
proof fn lemma_find_pat_none(s: Seq<u8>, pat: Seq<u8>, start: int)
    requires
        0 <= start,
        pat.len() >= 1,
        forall|j: int|
            start <= j && j + pat.len() <= s.len() ==> #[trigger] s.subrange(j, j + pat.len())
                != pat,
    ensures
        find_pat(s, pat, start) == -1,
    decreases s.len() - start,
{
    if start + pat.len() <= s.len() {
        lemma_find_pat_none(s, pat, start + 1);
    }
}

/// The pattern occurs exactly once when split from the left.
pub open spec fn has_one(s: Seq<u8>, pat: Seq<u8>) -> bool {
    find_pat(s, pat, 0) >= 0 && find_pat(s, pat, find_pat(s, pat, 0) + pat.len()) == -1
}

/// A comma-separated list of byte tokens, read from `start` on.
pub open spec fn valid_byte_list_from(s: Seq<u8>, start: int) -> bool
    decreases s.len() - start
        when 0 <= start <= s.len()
        via valid_byte_list_from_decreases
{
    let c = find_from(s, start, 44);
    if c < 0 {
        valid_byte_token(s.subrange(start, s.len() as int))
    } else {
        valid_byte_token(s.subrange(start, c)) && valid_byte_list_from(s, c + 1)
    }
}

#[via_fn]
proof fn valid_byte_list_from_decreases(s: Seq<u8>, start: int) {
    lemma_find_from(s, start, 44);
}

/// The bytes that the list stands for, read from `start` on.
pub open spec fn byte_list_from(s: Seq<u8>, start: int) -> Seq<u8>
    decreases s.len() - start
        when 0 <= start <= s.len()
        via byte_list_from_decreases
{
    let c = find_from(s, start, 44);
    if c < 0 {
        seq![token_val(s.subrange(start, s.len() as int)) as u8]
    } else {
        seq![token_val(s.subrange(start, c)) as u8] + byte_list_from(s, c + 1)
    }
}

#[via_fn]
proof fn byte_list_from_decreases(s: Seq<u8>, start: int) {
    lemma_find_from(s, start, 44);
}

/// Valid header line: exactly one `=`, followed by the declared operation
/// count as a bare decimal that fits the machine's word.
pub open spec fn valid_count_line(s: Seq<u8>) -> bool {
    let c = find_from(s, 0, 61);
    c >= 0 && find_from(s, c + 1, 61) == -1 && all_digits(s.subrange(c + 1, s.len() as int))
        && digits_val(s.subrange(c + 1, s.len() as int)) <= usize::MAX as nat
}

/// The count that a valid header line declares.
pub open spec fn count_of_line(s: Seq<u8>) -> nat {
    let c = find_from(s, 0, 61);
    digits_val(s.subrange(c + 1, s.len() as int))
}

/// First index at or after `start` holding `b`, or `None`.
fn find_from_exec(s: &Vec<u8>, start: usize, b: u8) -> (r: Option<usize>)
    requires
        start <= s@.len(),
    ensures
        match r {
            Option::Some(i) => find_from(s@, start as int, b) == i,
            Option::None => find_from(s@, start as int, b) == -1,
        },
{
    let n = s.len();
    let mut i: usize = start;
    while i < n
        invariant
            start <= i <= n,
            n == s@.len(),
            forall|j: int| start <= j < i ==> s@[j] != b,
        decreases n - i,
    {
        if s[i] == b {
            proof {
                lemma_find_from_at(s@, start as int, i as int, b);
            }
            return Option::Some(i);
        }
        i = i + 1;
    }
    proof {
        lemma_find_from_none(s@, start as int, b);
    }
    Option::None
}

/// Whether `pat` stands in `s` at position `i`.
fn match_at_exec(s: &Vec<u8>, pat: &Vec<u8>, i: usize) -> (r: bool)
    requires
        i + pat@.len() <= s@.len(),
    ensures
        r == (s@.subrange(i as int, i + pat@.len()) == pat@),
{
    let n = s.len();
    let m = pat.len();
    let mut k: usize = 0;
    while k < m
        invariant
            0 <= k <= m,
            m == pat@.len(),
            n == s@.len(),
            i + m <= n,
            forall|t: int| 0 <= t < k ==> s@[i + t] == pat@[t],
        decreases m - k,
    {
        if s[i + k] != pat[k] {
            proof {
                assert(s@.subrange(i as int, i + pat@.len())[k as int] == s@[i + k]);
            }
            return false;
        }
        k = k + 1;
    }
    proof {
        assert(s@.subrange(i as int, i + pat@.len()) =~= pat@);
    }
    true
}

/// First index at or after `start` where `pat` matches, or `None`.
fn find_pat_exec(s: &Vec<u8>, start: usize, pat: &Vec<u8>) -> (r: Option<usize>)
    requires
        start <= s@.len(),
        pat@.len() >= 1,
    ensures
        match r {
            Option::Some(i) => find_pat(s@, pat@, start as int) == i,
            Option::None => find_pat(s@, pat@, start as int) == -1,
        },
{
    let n = s.len();
    let m = pat.len();
    if m > n || start > n - m {
        proof {
            assert forall|j: int|
                start <= j && j + pat@.len() <= s@.len() implies #[trigger] s@.subrange(
                j,
                j + pat@.len(),
            ) != pat@ by {
                assert(j + pat@.len() > s@.len());
            }
            lemma_find_pat_none(s@, pat@, start as int);
        }
        return Option::None;
    }
    let mut i: usize = start;
    while i <= n - m
        invariant
            start <= i,
            i <= n - m + 1,
            1 <= m <= n,
            m == pat@.len(),
            n == s@.len(),
            forall|j: int| start <= j < i ==> #[trigger] s@.subrange(j, j + pat@.len()) != pat@,
        decreases n - i,
    {
        if match_at_exec(s, pat, i) {
            proof {
                lemma_find_pat_at(s@, pat@, start as int, i as int);
            }
            return Option::Some(i);
        }
        i = i + 1;
    }
    proof {
        assert forall|j: int|
            start <= j && j + pat@.len() <= s@.len() implies #[trigger] s@.subrange(
            j,
            j + pat@.len(),
        ) != pat@ by {
            assert(j < i);
        }
        lemma_find_pat_none(s@, pat@, start as int);
    }
    Option::None
}

/// Copy the byte range `[from, to)` of `s` into an owned vector.
fn copy_range(s: &Vec<u8>, from: usize, to: usize) -> (r: Vec<u8>)
    requires
        from <= to <= s@.len(),
    ensures
        r@ == s@.subrange(from as int, to as int),
{
    let mut r: Vec<u8> = Vec::new();
    let mut i: usize = from;
    while i < to
        invariant
            from <= i <= to,
            to <= s@.len(),
            r@ == s@.subrange(from as int, i as int),
        decreases to - i,
    {
        r.push(s[i]);
        proof {
            assert(r@ =~= s@.subrange(from as int, i + 1));
        }
        i = i + 1;
    }
    r
}

/// The trimmed core of `s` is exactly `s.subrange(a, b)` when everything
/// outside `[a, b)` is spaces and the borders of `[a, b)` are not.
proof fn lemma_token_core(s: Seq<u8>, a: int, b: int)
    requires
        0 <= a <= b <= s.len(),
        forall|i: int| 0 <= i < a ==> s[i] == 32,
        forall|i: int| b <= i < s.len() ==> s[i] == 32,
        a < b ==> s[a] != 32 && s[b - 1] != 32,
    ensures
        token_core(s) == s.subrange(a, b),
    decreases s.len(),
{
    if s.len() == 0 {
        assert(token_core(s) =~= s.subrange(a, b));
    } else if s[0] == 32 {
        if a > 0 {
            lemma_token_core(s.skip(1), a - 1, b - 1);
            assert(s.skip(1).subrange(a - 1, b - 1) =~= s.subrange(a, b));
        } else {
            assert(a == b);
            lemma_token_core(s.skip(1), 0, 0);
            assert(s.skip(1).subrange(0, 0) =~= s.subrange(a, b));
        }
    } else if s.last() == 32 {
        assert(a == 0);
        assert(b < s.len());
        lemma_token_core(s.drop_last(), a, b);
        assert(s.drop_last().subrange(a, b) =~= s.subrange(a, b));
    } else {
        assert(a == 0);
        assert(b == s.len());
        assert(s.subrange(0, s.len() as int) =~= s);
    }
}

/// Parse the digits in `[from, to)` of `s` as a machine word, with no
/// padding and no sign; `None` when a byte is not a digit or the value
/// does not fit.
fn parse_usize(s: &Vec<u8>, from: usize, to: usize) -> (r: Option<usize>)
    requires
        from <= to <= s@.len(),
    ensures
        match r {
            Option::Some(v) => all_digits(s@.subrange(from as int, to as int)) && digits_val(
                s@.subrange(from as int, to as int),
            ) <= usize::MAX as nat && v == digits_val(s@.subrange(from as int, to as int)),
            Option::None => !(all_digits(s@.subrange(from as int, to as int)) && digits_val(
                s@.subrange(from as int, to as int),
            ) <= usize::MAX as nat),
        },
{
    let ghost t = s@.subrange(from as int, to as int);
    if from == to {
        proof {
            assert(!all_digits(t));
        }
        return Option::None;
    }
    let mut val: usize = 0;
    let mut sat = false;
    let mut i: usize = from;
    while i < to
        invariant
            from <= i <= to,
            to <= s@.len(),
            t == s@.subrange(from as int, to as int),
            forall|j: int| from <= j < i ==> is_digit(#[trigger] s@[j]),
            !sat ==> val == digits_val(t.take(i - from)) && digits_val(t.take(i - from))
                <= usize::MAX as nat,
            sat ==> digits_val(t.take(i - from)) > usize::MAX as nat,
        decreases to - i,
    {
        let c = s[i];
        if c < 48 || c > 57 {
            proof {
                assert(t[i - from] == s@[i as int]);
                assert(!all_digits(t));
            }
            return Option::None;
        }
        let d = (c - 48) as usize;
        proof {
            assert(t.take(i - from + 1).drop_last() =~= t.take(i - from));
            assert(t.take(i - from + 1).last() == s@[i as int]);
        }
        let ghost dv = digits_val(t.take(i - from));
        if !sat {
            let limit = (usize::MAX - d) / 10;
            if val > limit {
                proof {
                    assert(val * 10 + d > usize::MAX) by (nonlinear_arith)
                        requires
                            val > (usize::MAX - d) / 10,
                            0 <= d <= 9,
                    ;
                }
                sat = true;
            } else {
                proof {
                    assert(val * 10 + d <= usize::MAX) by (nonlinear_arith)
                        requires
                            val <= (usize::MAX - d) / 10,
                            0 <= val,
                            0 <= d <= 9,
                    ;
                }
                val = val * 10 + d;
            }
        } else {
            proof {
                assert(dv * 10 + d > usize::MAX as nat) by (nonlinear_arith)
                    requires
                        dv > usize::MAX as nat,
                        0 <= d,
                ;
            }
        }
        i = i + 1;
    }
    proof {
        assert(t.take(to - from) =~= t);
        assert(all_digits(t));
    }
    if sat {
        Option::None
    } else {
        Option::Some(val)
    }
}

/// Parse the token in `[from, to)` of `s` as a space-padded decimal byte;
/// `None` when its core is not all digits or its value does not fit a byte.
/// First non-space position in `[from, to)`, or `to`.
fn scan_spaces(s: &Vec<u8>, from: usize, to: usize) -> (a: usize)
    requires
        from <= to <= s@.len(),
    ensures
        from <= a <= to,
        forall|j: int| from <= j < a ==> s@[j] == 32,
        a < to ==> s@[a as int] != 32,
    decreases to - from,
{
    let mut a: usize = from;
    while a < to
        invariant
            from <= a <= to,
            to <= s@.len(),
            forall|j: int| from <= j < a ==> s@[j] == 32,
        decreases to - a,
    {
        if s[a] != 32 {
            return a;
        }
        a = a + 1;
    }
    a
}

/// One past the last non-space position of `[a, to)`, where the byte at
/// `a` is known not to be a space.
fn scan_spaces_back(s: &Vec<u8>, a: usize, to: usize) -> (b: usize)
    requires
        a < to <= s@.len(),
        s@[a as int] != 32,
    ensures
        a < b <= to,
        forall|j: int| b <= j < to ==> s@[j] == 32,
        s@[b - 1] != 32,
{
    let mut b: usize = to;
    while b > a
        invariant
            a <= b <= to,
            to <= s@.len(),
            s@[a as int] != 32,
            forall|j: int| b <= j < to ==> s@[j] == 32,
        decreases b,
    {
        if s[b - 1] != 32 {
            return b;
        }
        b = b - 1;
    }
    proof {
        assert(s@[a as int] == 32);
    }
    b
}

fn parse_byte_token(s: &Vec<u8>, from: usize, to: usize) -> (r: Option<u8>)
    requires
        from <= to <= s@.len(),
    ensures
        match r {
            Option::Some(v) => valid_byte_token(s@.subrange(from as int, to as int)) && v
                == token_val(s@.subrange(from as int, to as int)),
            Option::None => !valid_byte_token(s@.subrange(from as int, to as int)),
        },
{
    let ghost t = s@.subrange(from as int, to as int);
    let a = scan_spaces(s, from, to);
    if a == to {
        proof {
            assert forall|i: int| 0 <= i < t.len() implies t[i] == 32 by {
                assert(t[i] == s@[from + i]);
            }
            lemma_token_core(t, 0, 0);
            assert(t.subrange(0, 0) =~= Seq::<u8>::empty());
            assert(!all_digits(token_core(t)));
        }
        return Option::None;
    }
    let b = scan_spaces_back(s, a, to);
    proof {
        assert forall|i: int| 0 <= i < (a - from) implies t[i] == 32 by {
            assert(t[i] == s@[from + i]);
        }
        assert forall|i: int| (b - from) <= i < t.len() implies t[i] == 32 by {
            assert(t[i] == s@[from + i]);
        }
        assert(t[a - from] == s@[a as int]);
        assert(t[b - from - 1] == s@[b - 1]);
        lemma_token_core(t, a - from, b - from);
    }
    let ghost core = token_core(t);
    let mut val: u32 = 0;
    let mut i: usize = a;
    while i < b
        invariant
            a <= i <= b,
            b <= to <= s@.len(),
            core == token_core(t),
            core == s@.subrange(a as int, b as int),
            t == s@.subrange(from as int, to as int),
            from <= a < b,
            forall|j: int| a <= j < i ==> is_digit(#[trigger] s@[j]),
            digits_val(core.take(i - a)) <= 255 ==> val == digits_val(core.take(i - a)),
            digits_val(core.take(i - a)) > 255 ==> val == 256,
            val <= 256,
        decreases b - i,
    {
        let c = s[i];
        proof {
            assert(core[i - a] == s@[i as int]);
        }
        if c < 48 || c > 57 {
            proof {
                assert(!is_digit(core[i - a]));
                assert(!all_digits(core));
            }
            return Option::None;
        }
        proof {
            assert(core.take(i - a + 1).drop_last() =~= core.take(i - a));
            assert(core.take(i - a + 1).last() == s@[i as int]);
            if digits_val(core.take(i - a)) > 255 {
                assert(digits_val(core.take(i - a + 1)) > 255);
            }
        }
        let d = (c - 48) as u32;
        let tnew = val * 10 + d;
        if tnew > 255 {
            val = 256;
        } else {
            val = tnew;
        }
        i = i + 1;
    }
    proof {
        assert(core.take(b - a) =~= core);
        assert(all_digits(core));
    }
    if val > 255 {
        return Option::None;
    }
    proof {
        assert(val == digits_val(core));
    }
    Option::Some(val as u8)
}

/// Parse a comma-separated decimal byte list; the whole input must be the
/// list, as the reader hands it over.
pub fn read_vec(input: &Vec<u8>) -> (r: Result<Vec<u8>, ScriptFormatError>)
    ensures
        match r {
            Result::Ok(v) => valid_byte_list_from(input@, 0) && v@ == byte_list_from(input@, 0),
            Result::Err(_) => !valid_byte_list_from(input@, 0),
        },
{
    parse_list(input, 0)
}

/// Parse the byte list standing in `input` from `start` on.
fn parse_list(input: &Vec<u8>, start: usize) -> (r: Result<Vec<u8>, ScriptFormatError>)
    requires
        start <= input@.len(),
    ensures
        match r {
            Result::Ok(v) => valid_byte_list_from(input@, start as int) && v@ == byte_list_from(
                input@,
                start as int,
            ),
            Result::Err(_) => !valid_byte_list_from(input@, start as int),
        },
    decreases input@.len() - start,
{
    proof {
        lemma_find_from(input@, start as int, 44);
    }
    match find_from_exec(input, start, 44) {
        Option::None => {
            match parse_byte_token(input, start, input.len()) {
                Option::None => Result::Err(ScriptFormatError),
                Option::Some(v) => {
                    let mut out: Vec<u8> = Vec::new();
                    out.push(v);
                    proof {
                        assert(out@ =~= byte_list_from(input@, start as int));
                    }
                    Result::Ok(out)
                },
            }
        },
        Option::Some(c) => {
            let n = input.len();
            proof {
                assert(0 <= c < n);
            }
            match parse_byte_token(input, start, c) {
                Option::None => Result::Err(ScriptFormatError),
                Option::Some(v) => {
                    match parse_list(input, c + 1) {
                        Result::Err(e) => Result::Err(e),
                        Result::Ok(rest) => {
                            let ghost grest = rest@;
                            let mut out = rest;
                            out.insert(0, v);
                            proof {
                                grest.insert_ensures(0, v);
                                assert(out@ =~= byte_list_from(input@, start as int));
                            }
                            Result::Ok(out)
                        },
                    }
                },
            }
        },
    }
}

/// Parse a batch header line `...=N`: the declared operation count.
pub fn get_n_operation(line: &Vec<u8>) -> (r: Result<usize, ScriptFormatError>)
    ensures
        match r {
            Result::Ok(n) => valid_count_line(line@) && n == count_of_line(line@),
            Result::Err(_) => !valid_count_line(line@),
        },
{
    let c = match find_from_exec(line, 0, 61) {
        Option::None => {
            return Result::Err(ScriptFormatError);
        },
        Option::Some(c) => c,
    };
    let n = line.len();
    proof {
        lemma_find_from(line@, 0, 61);
        assert(0 <= c < n);
    }
    match find_from_exec(line, c + 1, 61) {
        Option::Some(_) => Result::Err(ScriptFormatError),
        Option::None => {
            match parse_usize(line, c + 1, line.len()) {
                Option::None => Result::Err(ScriptFormatError),
                Option::Some(n) => Result::Ok(n),
            }
        },
    }
}

/// What a parsed operation line stands for, at the level of byte strings.
pub enum OpShape {
    Put { key: Seq<u8>, value: Seq<u8> },
    Delete { key: Seq<u8> },
    DeletePrefix { key_prefix: Seq<u8> },
}

/// The shape of an executable operation.
pub open spec fn op_view(op: WriteOperation) -> OpShape {
    match op {
        WriteOperation::Put { key, value } => OpShape::Put { key: key@, value: value@ },
        WriteOperation::Delete { key } => OpShape::Delete { key: key@ },
        WriteOperation::DeletePrefix { key_prefix } => OpShape::DeletePrefix {
            key_prefix: key_prefix@,
        },
    }
}

/// The text before the first `:` parses as a bare decimal equal to `i`.
pub open spec fn index_ok(s: Seq<u8>, i: nat) -> bool {
    let c = find_from(s, 0, 58);
    let pre = if c < 0 {
        s
    } else {
        s.subrange(0, c)
    };
    all_digits(pre) && digits_val(pre) <= usize::MAX as nat && digits_val(pre) == i
}

/// The tail of `s` after its single occurrence of `pat`.
pub open spec fn tail_after(s: Seq<u8>, pat: Seq<u8>) -> Seq<u8> {
    s.subrange(find_pat(s, pat, 0) + pat.len(), s.len() as int)
}

/// A put line's tail: exactly one value marker, and the text before it is
/// the key's byte list.
pub open spec fn put_tail_ok(t: Seq<u8>) -> bool {
    has_one(t, val_pat()) && valid_byte_list_from(t.subrange(0, find_pat(t, val_pat(), 0)), 0)
}

/// A delete line's tail: everything but the final closing byte is the
/// key's byte list.
pub open spec fn del_tail_ok(t: Seq<u8>) -> bool {
    t.len() >= 1 && valid_byte_list_from(t.subrange(0, t.len() - 1), 0)
}

pub open spec fn put_pat() -> Seq<u8> {
    seq![32u8, 80u8, 117u8, 116u8, 32u8, 107u8, 101u8, 121u8, 61u8, 91u8]
}

pub open spec fn val_pat() -> Seq<u8> {
    seq![93u8, 32u8, 124u8, 118u8, 97u8, 108u8, 117u8, 101u8, 124u8, 61u8]
}

pub open spec fn del_pat() -> Seq<u8> {
    seq![32u8, 68u8, 101u8, 108u8, 101u8, 116u8, 101u8, 32u8, 107u8, 101u8, 121u8, 61u8, 91u8]
}

pub open spec fn dp_pat() -> Seq<u8> {
    seq![32u8, 68u8, 101u8, 108u8, 101u8, 116u8, 101u8, 80u8, 114u8, 101u8, 102u8, 105u8, 120u8, 32u8, 107u8, 101u8, 121u8, 95u8, 112u8, 114u8, 101u8, 102u8, 105u8, 120u8, 61u8, 91u8]
}

/// The pattern bytes of [`put_pat`], for the executable scanner.
fn put_pat_exec() -> (r: Vec<u8>)
    ensures
        r@ == put_pat(),
{
    let mut v: Vec<u8> = Vec::new();
    v.push(32);
    v.push(80);
    v.push(117);
    v.push(116);
    v.push(32);
    v.push(107);
    v.push(101);
    v.push(121);
    v.push(61);
    v.push(91);
    proof {
        assert(v@ =~= put_pat());
    }
    v
}

/// The pattern bytes of [`val_pat`], for the executable scanner.
fn val_pat_exec() -> (r: Vec<u8>)
    ensures
        r@ == val_pat(),
{
    let mut v: Vec<u8> = Vec::new();
    v.push(93);
    v.push(32);
    v.push(124);
    v.push(118);
    v.push(97);
    v.push(108);
    v.push(117);
    v.push(101);
    v.push(124);
    v.push(61);
    proof {
        assert(v@ =~= val_pat());
    }
    v
}

/// The pattern bytes of [`del_pat`], for the executable scanner.
fn del_pat_exec() -> (r: Vec<u8>)
    ensures
        r@ == del_pat(),
{
    let mut v: Vec<u8> = Vec::new();
    v.push(32);
    v.push(68);
    v.push(101);
    v.push(108);
    v.push(101);
    v.push(116);
    v.push(101);
    v.push(32);
    v.push(107);
    v.push(101);
    v.push(121);
    v.push(61);
    v.push(91);
    proof {
        assert(v@ =~= del_pat());
    }
    v
}

/// The pattern bytes of [`dp_pat`], for the executable scanner.
fn dp_pat_exec() -> (r: Vec<u8>)
    ensures
        r@ == dp_pat(),
{
    let mut v: Vec<u8> = Vec::new();
    v.push(32);
    v.push(68);
    v.push(101);
    v.push(108);
    v.push(101);
    v.push(116);
    v.push(101);
    v.push(80);
    v.push(114);
    v.push(101);
    v.push(102);
    v.push(105);
    v.push(120);
    v.push(32);
    v.push(107);
    v.push(101);
    v.push(121);
    v.push(95);
    v.push(112);
    v.push(114);
    v.push(101);
    v.push(102);
    v.push(105);
    v.push(120);
    v.push(61);
    v.push(91);
    proof {
        assert(v@ =~= dp_pat());
    }
    v
}

/// Whether the line after its index is a well-formed operation, trying the
/// three shapes in order.
pub open spec fn line_shape_ok(s: Seq<u8>) -> bool {
    if has_one(s, put_pat()) {
        put_tail_ok(tail_after(s, put_pat()))
    } else if has_one(s, del_pat()) {
        del_tail_ok(tail_after(s, del_pat()))
    } else if has_one(s, dp_pat()) {
        del_tail_ok(tail_after(s, dp_pat()))
    } else {
        false
    }
}

/// The operation a well-formed line stands for; a put's value is not
/// recorded in the script, and the reader substitutes a single zero byte.
pub open spec fn line_op(s: Seq<u8>) -> OpShape {
    if has_one(s, put_pat()) {
        let t = tail_after(s, put_pat());
        OpShape::Put {
            key: byte_list_from(t.subrange(0, find_pat(t, val_pat(), 0)), 0),
            value: seq![0u8],
        }
    } else if has_one(s, del_pat()) {
        let t = tail_after(s, del_pat());
        OpShape::Delete { key: byte_list_from(t.subrange(0, t.len() - 1), 0) }
    } else {
        let t = tail_after(s, dp_pat());
        OpShape::DeletePrefix { key_prefix: byte_list_from(t.subrange(0, t.len() - 1), 0) }
    }
}

/// A whole operation line is valid when its index matches its position and
/// its shape is one of the three operations.
pub open spec fn valid_op_line(s: Seq<u8>, i: nat) -> bool {
    index_ok(s, i) && line_shape_ok(s)
}

/// Check that the line carries exactly one occurrence of `pat` and hand
/// back its tail after the match.
fn split_tail(line: &Vec<u8>, pat: &Vec<u8>) -> (r: Option<Vec<u8>>)
    requires
        pat@.len() >= 1,
    ensures
        match r {
            Option::Some(t) => has_one(line@, pat@) && t@ == tail_after(line@, pat@),
            Option::None => !has_one(line@, pat@),
        },
{
    match find_pat_exec(line, 0, pat) {
        Option::None => Option::None,
        Option::Some(c) => {
            let n = line.len();
            proof {
                lemma_find_pat(line@, pat@, 0);
                assert(c + pat@.len() <= n);
            }
            match find_pat_exec(line, c + pat.len(), pat) {
                Option::Some(_) => Option::None,
                Option::None => {
                    let t = copy_range(line, c + pat.len(), line.len());
                    Option::Some(t)
                },
            }
        },
    }
}

/// Parse one operation line at position `i_operation`, in the shape the
/// batch printer writes: `i: Put key=[..] |value|=n`, `i: Delete key=[..]`
/// or `i: DeletePrefix key_prefix=[..]`.
pub fn read_operation(i_operation: usize, line: &Vec<u8>) -> (r: Result<
    WriteOperation,
    ScriptFormatError,
>)
    ensures
        match r {
            Result::Ok(op) => valid_op_line(line@, i_operation as nat) && op_view(op) == line_op(
                line@,
            ),
            Result::Err(_) => !valid_op_line(line@, i_operation as nat),
        },
{
    let pre_end = match find_from_exec(line, 0, 58) {
        Option::Some(c) => c,
        Option::None => line.len(),
    };
    proof {
        lemma_find_from(line@, 0, 58);
        if find_from(line@, 0, 58) < 0 {
            assert(line@.subrange(0, line@.len() as int) =~= line@);
        }
    }
    match parse_usize(line, 0, pre_end) {
        Option::None => {
            return Result::Err(ScriptFormatError);
        },
        Option::Some(j) => {
            if j != i_operation {
                return Result::Err(ScriptFormatError);
            }
        },
    }
    let ppat = put_pat_exec();
    let vpat = val_pat_exec();
    match split_tail(line, &ppat) {
        Option::Some(t) => {
            match find_pat_exec(&t, 0, &vpat) {
                Option::None => Result::Err(ScriptFormatError),
                Option::Some(d) => {
                    let tn = t.len();
                    proof {
                        lemma_find_pat(t@, val_pat(), 0);
                        assert(d + vpat@.len() <= tn);
                    }
                    match find_pat_exec(&t, d + vpat.len(), &vpat) {
                        Option::Some(_) => Result::Err(ScriptFormatError),
                        Option::None => {
                            let keypart = copy_range(&t, 0, d);
                            match read_vec(&keypart) {
                                Result::Err(e) => Result::Err(e),
                                Result::Ok(key) => {
                                    let mut value: Vec<u8> = Vec::new();
                                    value.push(0);
                                    proof {
                                        assert(value@ =~= seq![0u8]);
                                    }
                                    Result::Ok(WriteOperation::Put { key, value })
                                },
                            }
                        },
                    }
                },
            }
        },
        Option::None => {
            let dpat = del_pat_exec();
            match split_tail(line, &dpat) {
                Option::Some(t) => {
                    if t.len() < 1 {
                        return Result::Err(ScriptFormatError);
                    }
                    let keypart = copy_range(&t, 0, t.len() - 1);
                    match read_vec(&keypart) {
                        Result::Err(e) => Result::Err(e),
                        Result::Ok(key) => Result::Ok(WriteOperation::Delete { key }),
                    }
                },
                Option::None => {
                    let dppat = dp_pat_exec();
                    match split_tail(line, &dppat) {
                        Option::Some(t) => {
                            if t.len() < 1 {
                                return Result::Err(ScriptFormatError);
                            }
                            let keypart = copy_range(&t, 0, t.len() - 1);
                            match read_vec(&keypart) {
                                Result::Err(e) => Result::Err(e),
                                Result::Ok(key_prefix) => Result::Ok(
                                    WriteOperation::DeletePrefix { key_prefix },
                                ),
                            }
                        },
                        Option::None => Result::Err(ScriptFormatError),
                    }
                },
            }
        },
    }
}

} // verus!
