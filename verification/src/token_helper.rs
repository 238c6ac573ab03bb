//! Character- and literal-level predicates shared by the lexer, the shape
//! pre-processor, the keyword identifier and the contextual classifiers.
//!
//! All predicates are total functions of the literal alone; each executable
//! function is specified against a spec function over the literal's
//! character sequence.

use vstd::prelude::*;
use vstd::string::StrSliceExecFns;

verus! {

/// An ASCII decimal digit.
pub open spec fn spec_is_digit_char(c: char) -> bool {
    '0' <= c && c <= '9'
}

#[verifier::when_used_as_spec(spec_is_digit_char)]
pub fn is_digit_char(c: char) -> (r: bool)
    ensures
        r == spec_is_digit_char(c),
{
    c >= '0' && c <= '9'
}

/// An ASCII hexadecimal digit.
pub open spec fn spec_is_hex_digit_char(c: char) -> bool {
    spec_is_digit_char(c) || ('a' <= c && c <= 'f') || ('A' <= c && c <= 'F')
}

#[verifier::when_used_as_spec(spec_is_hex_digit_char)]
pub fn is_hex_digit_char(c: char) -> (r: bool)
    ensures
        r == spec_is_hex_digit_char(c),
{
    is_digit_char(c) || (c >= 'a' && c <= 'f') || (c >= 'A' && c <= 'F')
}

/// Numeric value of a hexadecimal digit.
pub open spec fn spec_hex_digit_value(c: char) -> int {
    if spec_is_digit_char(c) {
        c as int - '0' as int
    } else if 'a' <= c && c <= 'f' {
        c as int - 'a' as int + 10
    } else {
        c as int - 'A' as int + 10
    }
}

/// Uppercase letter for the 26 ASCII lowercase letters, identity otherwise.
pub open spec fn upper_char(c: char) -> char {
    if 'a' <= c && c <= 'z' {
        ((c as u8) - 32) as char
    } else {
        c
    }
}

pub fn upper_char_exec(c: char) -> (r: char)
    ensures
        r == upper_char(c),
{
    if c >= 'a' && c <= 'z' {
        ((c as u8) - 32) as char
    } else {
        c
    }
}

/// ASCII-uppercased copy of a character sequence; case folding for every
/// comparison the dictionary and the identifier make.
pub open spec fn upper(s: Seq<char>) -> Seq<char> {
    Seq::new(s.len(), |i: int| upper_char(s[i]))
}

/// Every character is an ASCII digit.
pub open spec fn all_digits(s: Seq<char>) -> bool {
    forall|i: int| 0 <= i < s.len() ==> spec_is_digit_char(#[trigger] s[i])
}

/// The literal is one or more ASCII digits.
pub open spec fn spec_is_digits(s: Seq<char>) -> bool {
    s.len() > 0 && all_digits(s)
}

pub fn is_digits(input: &str) -> (r: bool)
    ensures
        r == spec_is_digits(input@),
{
    let n = input.unicode_len();
    if n == 0 {
        return false;
    }
    let mut i: usize = 0;
    while i < n
        invariant
            0 <= i <= n,
            n == input@.len(),
            forall|j: int| 0 <= j < i ==> spec_is_digit_char(#[trigger] input@[j]),
        decreases n - i,
    {
        if !is_digit_char(input.get_char(i)) {
            return false;
        }
        i = i + 1;
    }
    true
}

/// `p` is a prefix of `s` once both are uppercased.
pub open spec fn is_prefix_upper(p: Seq<char>, s: Seq<char>) -> bool {
    p.len() <= s.len() && upper(p) == upper(s).subrange(0, p.len() as int)
}

pub fn starts_with_ignore_case(s: &str, p: &str) -> (r: bool)
    ensures
        r == is_prefix_upper(p@, s@),
{
    let np = p.unicode_len();
    let ns = s.unicode_len();
    if np > ns {
        assert(!is_prefix_upper(p@, s@));
        return false;
    }
    let mut i: usize = 0;
    while i < np
        invariant
            0 <= i <= np <= ns,
            np == p@.len(),
            ns == s@.len(),
            forall|j: int| 0 <= j < i ==> upper_char(#[trigger] p@[j]) == upper_char(s@[j]),
        decreases np - i,
    {
        if upper_char_exec(p.get_char(i)) != upper_char_exec(s.get_char(i)) {
            assert(upper(p@)[i as int] != upper(s@).subrange(0, p@.len() as int)[i as int]);
            return false;
        }
        i = i + 1;
    }
    assert(upper(p@) =~= upper(s@).subrange(0, p@.len() as int));
    true
}

/// The two literals are equal once both are uppercased.
pub open spec fn eq_upper(a: Seq<char>, b: Seq<char>) -> bool {
    upper(a) == upper(b)
}

pub fn eq_ignore_case(a: &str, b: &str) -> (r: bool)
    ensures
        r == eq_upper(a@, b@),
{
    let na = a.unicode_len();
    let nb = b.unicode_len();
    if na != nb {
        assert(upper(a@).len() != upper(b@).len());
        return false;
    }
    let mut i: usize = 0;
    while i < na
        invariant
            0 <= i <= na,
            na == a@.len(),
            na == b@.len(),
            forall|j: int| 0 <= j < i ==> upper_char(#[trigger] a@[j]) == upper_char(b@[j]),
        decreases na - i,
    {
        if upper_char_exec(a.get_char(i)) != upper_char_exec(b.get_char(i)) {
            assert(upper(a@)[i as int] != upper(b@)[i as int]);
            return false;
        }
        i = i + 1;
    }
    assert(upper(a@) =~= upper(b@));
    true
}

/// The literal ends, case-insensitively, with `th`, `st` or `rd`.
pub open spec fn spec_is_ordinal(s: Seq<char>) -> bool {
    s.len() >= 2 && {
        let t = upper(s).subrange(s.len() - 2, s.len() as int);
        t == seq!['T', 'H'] || t == seq!['S', 'T'] || t == seq!['R', 'D']
    }
}

pub fn is_ordinal_number(input: &str) -> (r: bool)
    ensures
        r == spec_is_ordinal(input@),
{
    let n = input.unicode_len();
    if n < 2 {
        return false;
    }
    let c1 = upper_char_exec(input.get_char(n - 2));
    let c2 = upper_char_exec(input.get_char(n - 1));
    let ghost t = upper(input@).subrange(input@.len() - 2, input@.len() as int);
    assert(t.len() == 2 && t[0] == upper_char(input@[input@.len() - 2]) && t[1] == upper_char(
        input@[input@.len() - 1],
    ));
    let r = (c1 == 'T' && c2 == 'H') || (c1 == 'S' && c2 == 'T') || (c1 == 'R' && c2 == 'D');
    proof {
        if r {
            if c1 == 'T' && c2 == 'H' {
                assert(t =~= seq!['T', 'H']);
            } else if c1 == 'S' && c2 == 'T' {
                assert(t =~= seq!['S', 'T']);
            } else {
                assert(t =~= seq!['R', 'D']);
            }
        } else {
            assert(t != seq!['T', 'H'] && t != seq!['S', 'T'] && t != seq!['R', 'D']);
        }
    }
    r
}

/// How many characters of the sequence are not ASCII digits.
pub open spec fn count_non_digits(s: Seq<char>) -> int
    decreases s.len(),
{
    if s.len() == 0 {
        0
    } else {
        count_non_digits(s.drop_last()) + if spec_is_digit_char(s.last()) {
            0int
        } else {
            1int
        }
    }
}

proof fn lemma_count_non_digits_push(s: Seq<char>, c: char)
    ensures
        count_non_digits(s.push(c)) == count_non_digits(s) + if spec_is_digit_char(c) {
            0int
        } else {
            1int
        },
{
    assert(s.push(c).drop_last() =~= s);
    assert(s.push(c).last() == c);
}

/// A number-like literal: digit-led, and either carrying an ordinal suffix,
/// or a single character, or ending in `'`, or ending in a digit with exactly
/// one non-digit interior character.
pub open spec fn spec_is_number_like(s: Seq<char>) -> bool {
    &&& s.len() > 0
    &&& spec_is_digit_char(s[0])
    &&& {
        ||| spec_is_ordinal(s)
        ||| s.len() == 1
        ||| s.last() == '\''
        ||| (spec_is_digit_char(s.last()) && count_non_digits(
            s.subrange(1, s.len() - 1),
        ) == 1)
    }
}

pub fn is_number_like(input: &str) -> (r: bool)
    ensures
        r == spec_is_number_like(input@),
{
    let n = input.unicode_len();
    if n == 0 {
        return false;
    }
    if !is_digit_char(input.get_char(0)) {
        return false;
    }
    if is_ordinal_number(input) {
        return true;
    }
    if n == 1 {
        return true;
    }
    let last = input.get_char(n - 1);
    if last == '\'' {
        return true;
    }
    if !is_digit_char(last) {
        return false;
    }
    // Count non-digit characters strictly between the first and last one.
    let mut i: usize = 1;
    let mut count: usize = 0;
    while i < n - 1
        invariant
            1 <= i <= n - 1,
            n == input@.len(),
            n >= 2,
            count <= i - 1,
            count == count_non_digits(input@.subrange(1, i as int)),
        decreases n - 1 - i,
    {
        proof {
            assert(input@.subrange(1, i + 1).drop_last() =~= input@.subrange(1, i as int));
        }
        if !is_digit_char(input.get_char(i)) {
            count = count + 1;
        }
        i = i + 1;
    }
    count == 1
}

/// Number or number-like.
pub open spec fn spec_is_number_or_like(s: Seq<char>) -> bool {
    spec_is_number_like(s) || spec_is_digits(s)
}

pub fn is_number_or_like(input: &str) -> (r: bool)
    ensures
        r == spec_is_number_or_like(input@),
{
    is_number_like(input) || is_digits(input)
}

/// A pure-digit literal whose first character is `0`.
pub open spec fn spec_is_zero_padded(s: Seq<char>) -> bool {
    spec_is_digits(s) && s[0] == '0'
}

pub fn number_is_zero_padded(input: &str) -> (r: bool)
    ensures
        r == spec_is_zero_padded(input@),
{
    if !is_digits(input) {
        return false;
    }
    input.get_char(0) == '0'
}

/// Value of a hexadecimal digit string (most significant digit first).
pub open spec fn hex_value(s: Seq<char>) -> int
    decreases s.len(),
{
    if s.len() == 0 {
        0
    } else {
        hex_value(s.drop_last()) * 16 + spec_hex_digit_value(s.last())
    }
}

/// The digit part of a hexadecimal literal: everything after an optional
/// leading `+`.
pub open spec fn hex_body(s: Seq<char>) -> Seq<char> {
    if s.len() > 0 && s[0] == '+' {
        s.drop_first()
    } else {
        s
    }
}

/// Every character is a hexadecimal digit.
pub open spec fn all_hex_digits(s: Seq<char>) -> bool {
    forall|i: int| 0 <= i < s.len() ==> spec_is_hex_digit_char(#[trigger] s[i])
}

/// The literal parses as a hexadecimal `u32`: an optional leading `+`, then
/// one or more hexadecimal digits, with a value that fits in 32 bits.
pub open spec fn spec_is_hexadecimal(s: Seq<char>) -> bool {
    &&& hex_body(s).len() > 0
    &&& all_hex_digits(hex_body(s))
    &&& hex_value(hex_body(s)) <= u32::MAX
}

pub fn is_hexadecimal_string(input: &str) -> (r: bool)
    ensures
        r == spec_is_hexadecimal(input@),
{
    let n = input.unicode_len();
    let start: usize = if n > 0 && input.get_char(0) == '+' {
        1
    } else {
        0
    };
    let ghost body = hex_body(input@);
    assert(body.len() == n - start);
    assert(forall|j: int| 0 <= j < body.len() ==> body[j] == input@[j + start]);
    if n == start {
        return false;
    }
    let mut i: usize = start;
    let mut value: u64 = 0;
    let mut too_big: bool = false;
    while i < n
        invariant
            start <= i <= n,
            n == input@.len(),
            body == hex_body(input@),
            body.len() == n - start,
            forall|j: int| 0 <= j < body.len() ==> body[j] == input@[j + start],
            forall|j: int|
                0 <= j < i - start ==> spec_is_hex_digit_char(#[trigger] body[j]),
            too_big == (hex_value(body.subrange(0, i - start)) > u32::MAX),
            !too_big ==> value == hex_value(body.subrange(0, i - start)),
            value <= u32::MAX,
        decreases n - i,
    {
        let c = input.get_char(i);
        proof {
            assert(body[i - start] == input@[i as int]);
        }
        if !is_hex_digit_char(c) {
            proof {
                assert(!spec_is_hex_digit_char(hex_body(input@)[i - start]));
            }
            return false;
        }
        let d: u64 = hex_digit_value_exec(c) as u64;
        proof {
            assert(body.subrange(0, i - start + 1).drop_last() =~= body.subrange(0, i - start));
            assert(body.subrange(0, i - start + 1).last() == body[i - start]);
        }
        proof {
            if hex_value(body.subrange(0, i - start)) > u32::MAX {
                vstd::arithmetic::mul::lemma_mul_inequality(
                    u32::MAX as int + 1,
                    hex_value(body.subrange(0, i - start)),
                    16,
                );
            }
        }
        if too_big {
            // value already exceeded the 32-bit range; it can only grow.
        } else if value * 16 + d > u32::MAX as u64 {
            too_big = true;
        } else {
            value = value * 16 + d;
        }
        i = i + 1;
    }
    proof {
        assert(body.subrange(0, body.len() as int) =~= body);
    }
    !too_big
}

fn hex_digit_value_exec(c: char) -> (r: u8)
    requires
        spec_is_hex_digit_char(c),
    ensures
        r as int == spec_hex_digit_value(c),
        r < 16,
{
    if c >= '0' && c <= '9' {
        (c as u8) - ('0' as u8)
    } else if c >= 'a' && c <= 'f' {
        (c as u8) - ('a' as u8) + 10
    } else {
        (c as u8) - ('A' as u8) + 10
    }
}

/// Index at which the run of ASCII digits starting at `from` ends.
pub open spec fn run_end(s: Seq<char>, from: int) -> int
    decreases s.len() - from,
{
    if from < s.len() && spec_is_digit_char(s[from]) {
        run_end(s, from + 1)
    } else {
        from
    }
}

pub proof fn lemma_run_end(s: Seq<char>, from: int)
    requires
        0 <= from <= s.len(),
    ensures
        from <= run_end(s, from) <= s.len(),
        forall|j: int| from <= j < run_end(s, from) ==> spec_is_digit_char(#[trigger] s[j]),
        run_end(s, from) == s.len() || !spec_is_digit_char(s[run_end(s, from)]),
    decreases s.len() - from,
{
    if from < s.len() && spec_is_digit_char(s[from]) {
        lemma_run_end(s, from + 1);
    }
}

/// Any index with the run-end characterisation is the run end.
pub proof fn lemma_run_end_unique(s: Seq<char>, from: int, r: int)
    requires
        0 <= from <= r <= s.len(),
        forall|j: int| from <= j < r ==> spec_is_digit_char(#[trigger] s[j]),
        r == s.len() || !spec_is_digit_char(s[r]),
    ensures
        r == run_end(s, from),
{
    lemma_run_end(s, from);
    let re = run_end(s, from);
    if r < re {
        assert(spec_is_digit_char(s[r]));
    } else if re < r {
        assert(spec_is_digit_char(s[re]));
    }
}

/// First index at or after `from` holding a character that is not an ASCII
/// digit, or the length of the literal if the digits run to its end.
fn digit_run_end(input: &str, from: usize) -> (r: usize)
    requires
        from <= input@.len(),
    ensures
        r == run_end(input@, from as int),
{
    let n = input.unicode_len();
    let mut i: usize = from;
    while i < n
        invariant
            from <= i <= n,
            n == input@.len(),
            forall|j: int| from <= j < i ==> spec_is_digit_char(#[trigger] input@[j]),
        decreases n - i,
    {
        if !is_digit_char(input.get_char(i)) {
            proof {
                lemma_run_end_unique(input@, from as int, i as int);
            }
            return i;
        }
        i = i + 1;
    }
    proof {
        lemma_run_end_unique(input@, from as int, n as int);
    }
    n
}

/// Resolution shape `⟨W⟩x⟨H⟩`: one or more digits, the letter `x`, one or
/// more digits.
pub open spec fn spec_std_resolution(s: Seq<char>) -> bool {
    exists|i: int|
        {
            &&& 1 <= i <= s.len() - 2
            &&& #[trigger] s[i] == 'x'
            &&& all_digits(s.subrange(0, i))
            &&& all_digits(s.subrange(i + 1, s.len() as int))
        }
}

/// Resolution shape `⟨H⟩p`: one or more digits and a final `p` or `P`.
pub open spec fn spec_hd_resolution(s: Seq<char>) -> bool {
    s.len() >= 2 && all_digits(s.subrange(0, s.len() - 1)) && (s.last() == 'p' || s.last() == 'P')
}

/// The exact literal `4K`, in any case.
pub open spec fn spec_4k_resolution(s: Seq<char>) -> bool {
    s.len() == 2 && s[0] == '4' && (s[1] == 'K' || s[1] == 'k')
}

/// A literal of video-resolution shape.
pub open spec fn spec_is_video_resolution(s: Seq<char>) -> bool {
    spec_std_resolution(s) || spec_hd_resolution(s) || spec_4k_resolution(s)
}

pub fn is_video_resolution(input: &str) -> (r: bool)
    ensures
        r == spec_is_video_resolution(input@),
{
    let n = input.unicode_len();
    // `4K`, any case.
    if n == 2 && input.get_char(0) == '4' {
        let c1 = input.get_char(1);
        if c1 == 'K' || c1 == 'k' {
            return true;
        }
    }
    // `⟨H⟩p`.
    if n >= 2 {
        let last = input.get_char(n - 1);
        if last == 'p' || last == 'P' {
            let r0 = digit_run_end(input, 0);
            proof {
                lemma_run_end(input@, 0);
            }
            if r0 >= n - 1 {
                assert(all_digits(input@.subrange(0, input@.len() - 1)));
                return true;
            }
            assert(!spec_hd_resolution(input@)) by {
                assert(!spec_is_digit_char(input@[r0 as int]));
                assert(input@.subrange(0, input@.len() - 1)[r0 as int] == input@[r0 as int]);
            }
        }
    }
    // `⟨W⟩x⟨H⟩`.
    let r0 = digit_run_end(input, 0);
    proof {
        lemma_run_end(input@, 0);
    }
    let std_ok: bool = if r0 >= 1 && r0 < n && input.get_char(r0) == 'x' {
        if r0 <= n - 2 {
            let r1 = digit_run_end(input, r0 + 1);
            proof {
                lemma_run_end(input@, r0 + 1);
            }
            if r1 == n {
                assert(spec_std_resolution(input@)) by {
                    assert(input@[r0 as int] == 'x');
                    assert(all_digits(input@.subrange(0, r0 as int)));
                    assert(all_digits(input@.subrange(r0 + 1, input@.len() as int)));
                }
                true
            } else {
                false
            }
        } else {
            false
        }
    } else {
        false
    };
    proof {
        if !std_ok && spec_std_resolution(input@) {
            let i = choose|i: int|
                {
                    &&& 1 <= i <= input@.len() - 2
                    &&& #[trigger] input@[i] == 'x'
                    &&& all_digits(input@.subrange(0, i))
                    &&& all_digits(input@.subrange(i + 1, input@.len() as int))
                };
            assert forall|j: int| 0 <= j < i implies spec_is_digit_char(#[trigger] input@[j]) by {
                assert(input@.subrange(0, i)[j] == input@[j]);
            }
            lemma_run_end_unique(input@, 0, i);
            assert(r0 == i);
            assert forall|j: int| i + 1 <= j < input@.len() implies spec_is_digit_char(
                #[trigger] input@[j],
            ) by {
                assert(input@.subrange(i + 1, input@.len() as int)[j - i - 1] == input@[j]);
            }
            lemma_run_end_unique(input@, i + 1, input@.len() as int);
            assert(false);
        }
    }
    std_ok
}

/// Value of a decimal digit string (most significant digit first).
pub open spec fn dec_value(s: Seq<char>) -> int
    decreases s.len(),
{
    if s.len() == 0 {
        0
    } else {
        dec_value(s.drop_last()) * 10 + (s.last() as int - '0' as int)
    }
}

/// The value of a pure-digit literal when it fits in 32 bits.
pub open spec fn spec_parse_u32(s: Seq<char>) -> Option<u32> {
    if spec_is_digits(s) && dec_value(s) <= u32::MAX {
        Some(dec_value(s) as u32)
    } else {
        None
    }
}

/// Parses a pure-digit literal as a `u32`; `None` when the literal is not
/// all digits or its value does not fit.
pub fn parse_decimal_u32(input: &str) -> (r: Option<u32>)
    ensures
        r == spec_parse_u32(input@),
{
    let n = input.unicode_len();
    if n == 0 {
        return None;
    }
    let mut i: usize = 0;
    let mut value: u64 = 0;
    let mut too_big: bool = false;
    while i < n
        invariant
            0 <= i <= n,
            n == input@.len(),
            forall|j: int| 0 <= j < i ==> spec_is_digit_char(#[trigger] input@[j]),
            too_big == (dec_value(input@.subrange(0, i as int)) > u32::MAX),
            !too_big ==> value == dec_value(input@.subrange(0, i as int)),
            value <= u32::MAX,
        decreases n - i,
    {
        let c = input.get_char(i);
        if !is_digit_char(c) {
            return None;
        }
        let d: u64 = ((c as u8) - ('0' as u8)) as u64;
        proof {
            assert(input@.subrange(0, i + 1).drop_last() =~= input@.subrange(0, i as int));
            assert(input@.subrange(0, i + 1).last() == input@[i as int]);
            if dec_value(input@.subrange(0, i as int)) > u32::MAX {
                vstd::arithmetic::mul::lemma_mul_inequality(
                    u32::MAX as int + 1,
                    dec_value(input@.subrange(0, i as int)),
                    10,
                );
            }
        }
        if too_big {
            // the value already exceeded the 32-bit range; it only grows.
        } else if value * 10 + d > u32::MAX as u64 {
            too_big = true;
        } else {
            value = value * 10 + d;
        }
        i = i + 1;
    }
    proof {
        assert(input@.subrange(0, input@.len() as int) =~= input@);
    }
    if too_big {
        None
    } else {
        Some(value as u32)
    }
}

/// The shape of the episode tail of the combined season-episode pattern: one
/// or more digits, optionally followed by a single non-digit and one to four
/// trailing digits.
pub open spec fn spec_episode_shape(t: Seq<char>) -> bool {
    let r = run_end(t, 0);
    &&& r > 0
    &&& {
        ||| r == t.len()
        ||| (r + 2 <= t.len() && t.len() <= r + 5 && all_digits(
            t.subrange(r + 1, t.len() as int),
        ))
    }
}

/// Result of matching the anchored combined pattern
/// `S⟨N⟩[E|e|x]⟨N⟩[non-digit⟨1-4 digits⟩]`: season digits, the separator
/// letter, and the episode tail.
pub open spec fn spec_extract_season_episode(s: Seq<char>) -> Option<
    (Seq<char>, Seq<char>, Seq<char>),
> {
    let b: int = if s.len() > 0 && (s[0] == 'S' || s[0] == 's') {
        1
    } else {
        0
    };
    let e1 = run_end(s, b);
    if e1 == b || e1 >= s.len() || !(s[e1] == 'E' || s[e1] == 'e' || s[e1] == 'x') {
        None
    } else {
        let ep = s.subrange(e1 + 1, s.len() as int);
        if spec_episode_shape(ep) {
            Some((s.subrange(b, e1), seq![s[e1]], ep))
        } else {
            None
        }
    }
}

/// Matches the anchored combined pattern `S⟨N⟩[E|e|x]⟨N⟩[v⟨N⟩]` and returns
/// the season digits, the separator letter and the episode tail.
pub fn extract_season_and_episode(input: &str) -> (r: Option<(String, String, String)>)
    ensures
        match r {
            Some(t) => spec_extract_season_episode(input@) == Some((t.0@, t.1@, t.2@)),
            None => spec_extract_season_episode(input@) is None,
        },
{
    let n = input.unicode_len();
    let b: usize = if n > 0 {
        let c0 = input.get_char(0);
        if c0 == 'S' || c0 == 's' {
            1
        } else {
            0
        }
    } else {
        0
    };
    let e1 = digit_run_end(input, b);
    if e1 == b || e1 >= n {
        return None;
    }
    let sep = input.get_char(e1);
    if !(sep == 'E' || sep == 'e' || sep == 'x') {
        return None;
    }
    let ep = input.substring_char(e1 + 1, n);
    let ghost eps = input@.subrange(e1 + 1, input@.len() as int);
    // Episode shape: digits, then optionally one non-digit and 1 to 4 digits.
    let en = ep.unicode_len();
    let r0 = digit_run_end(ep, 0);
    proof {
        lemma_run_end(ep@, 0);
    }
    if r0 == 0 {
        return None;
    }
    let shape_ok: bool = if r0 == en {
        true
    } else if en - r0 >= 2 && en - r0 <= 5 {
        let r1 = digit_run_end(ep, r0 + 1);
        proof {
            lemma_run_end(ep@, r0 + 1);
            if r1 == en {
                assert(all_digits(ep@.subrange(r0 + 1, ep@.len() as int)));
            } else {
                assert(!spec_is_digit_char(ep@[r1 as int]));
                assert(ep@.subrange(r0 + 1, ep@.len() as int)[r1 - r0 - 1] == ep@[r1 as int]);
            }
        }
        r1 == en
    } else {
        false
    };
    if !shape_ok {
        return None;
    }
    let season = input.substring_char(b, e1).to_owned();
    let sep_str = input.substring_char(e1, e1 + 1).to_owned();
    let episode = ep.to_owned();
    proof {
        assert(sep_str@ =~= seq![input@[e1 as int]]);
        assert(spec_episode_shape(eps));
    }
    Some((season, sep_str, episode))
}

/// Checksum shape: exactly eight characters of valid hexadecimal.
pub open spec fn spec_is_crc32(s: Seq<char>) -> bool {
    s.len() == 8 && spec_is_hexadecimal(s)
}

pub fn is_crc32(s: &str) -> (r: bool)
    ensures
        r == spec_is_crc32(s@),
{
    s.unicode_len() == 8 && is_hexadecimal_string(s)
}

} // verus!
