//! Character-level primitives shared by the template, JSON and assertion
//! engines: decimal rendering and parsing, substring search, trimming and
//! ASCII case folding, all specified over `Seq<char>`.
use vstd::prelude::*;
use vstd::string::StrSliceExecFns;

verus! {

/// Characters the template and JSON grammars treat as blank.
pub open spec fn is_blank(c: char) -> bool {
    c == ' ' || c == '\t' || c == '\n' || c == '\r'
}

pub open spec fn is_digit_c(c: char) -> bool {
    '0' <= c && c <= '9'
}

pub open spec fn digit_val(c: char) -> int {
    c as u32 as int - 48
}

pub open spec fn digit_char(d: int) -> char {
    if d == 0 { '0' }
    else if d == 1 { '1' }
    else if d == 2 { '2' }
    else if d == 3 { '3' }
    else if d == 4 { '4' }
    else if d == 5 { '5' }
    else if d == 6 { '6' }
    else if d == 7 { '7' }
    else if d == 8 { '8' }
    else { '9' }
}

/// Decimal digits of a non-negative integer, most significant first.
pub open spec fn spec_dec_u(n: nat) -> Seq<char>
    decreases n,
{
    if n < 10 {
        seq![digit_char(n as int)]
    } else {
        spec_dec_u(n / 10).push(digit_char((n % 10) as int))
    }
}

/// Decimal rendering of a signed integer, `-` prefix for negatives.
pub open spec fn spec_dec_i(n: int) -> Seq<char> {
    if n < 0 {
        seq!['-'] + spec_dec_u((-n) as nat)
    } else {
        spec_dec_u(n as nat)
    }
}

pub open spec fn all_digits(s: Seq<char>) -> bool {
    forall|i: int| 0 <= i < s.len() ==> is_digit_c(#[trigger] s[i])
}

/// Value of a non-empty digit string, most significant first.
pub open spec fn digits_val(s: Seq<char>) -> int
    decreases s.len(),
{
    if s.len() == 0 {
        0
    } else {
        digits_val(s.drop_last()) * 10 + digit_val(s.last())
    }
}

/// The integer denoted by `s` under Rust's integer grammar
/// (optional sign, then one or more decimal digits), if any.
pub open spec fn spec_parse_int_text(s: Seq<char>) -> Option<int> {
    if s.len() == 0 {
        None
    } else if s[0] == '+' || s[0] == '-' {
        if s.len() > 1 && all_digits(s.skip(1)) {
            if s[0] == '-' {
                Some(-digits_val(s.skip(1)))
            } else {
                Some(digits_val(s.skip(1)))
            }
        } else {
            None
        }
    } else if all_digits(s) {
        Some(digits_val(s))
    } else {
        None
    }
}

/// Rust-style `i64` parse: grammar failure and overflow both yield `None`.
pub open spec fn spec_parse_i64(s: Seq<char>) -> Option<int> {
    match spec_parse_int_text(s) {
        Some(v) => if i64::MIN <= v <= i64::MAX { Some(v) } else { None },
        None => None,
    }
}

/// Rust-style `i32` parse: grammar failure and overflow both yield `None`.
pub open spec fn spec_parse_i32(s: Seq<char>) -> Option<int> {
    match spec_parse_int_text(s) {
        Some(v) => if i32::MIN <= v <= i32::MAX { Some(v) } else { None },
        None => None,
    }
}

pub open spec fn contains_at(h: Seq<char>, i: int, n: Seq<char>) -> bool {
    0 <= i && i + n.len() <= h.len() && h.subrange(i, i + n.len()) == n
}

/// `n` occurs as a contiguous substring of `h`.
pub open spec fn contains_seq(h: Seq<char>, n: Seq<char>) -> bool {
    exists|i: int| contains_at(h, i, n)
}

/// First position at or after `i` holding a non-blank character.
pub open spec fn skip_blank(s: Seq<char>, i: int) -> int
    decreases s.len() - i,
{
    if i < s.len() && i >= 0 && is_blank(s[i]) {
        skip_blank(s, i + 1)
    } else {
        i
    }
}

/// Position after the last run of blanks ending at `i`.
pub open spec fn skip_blank_back(s: Seq<char>, i: int) -> int
    decreases i,
{
    if 0 < i <= s.len() && is_blank(s[i - 1]) {
        skip_blank_back(s, i - 1)
    } else {
        i
    }
}

/// Blanks stripped from both ends.
pub open spec fn spec_trim(s: Seq<char>) -> Seq<char> {
    let a = skip_blank(s, 0);
    let b = skip_blank_back(s, s.len() as int);
    if a < b {
        s.subrange(a, b)
    } else {
        Seq::empty()
    }
}

pub open spec fn lower_char(c: char) -> char {
    if c == 'A' { 'a' } else if c == 'B' { 'b' } else if c == 'C' { 'c' }
    else if c == 'D' { 'd' } else if c == 'E' { 'e' } else if c == 'F' { 'f' }
    else if c == 'G' { 'g' } else if c == 'H' { 'h' } else if c == 'I' { 'i' }
    else if c == 'J' { 'j' } else if c == 'K' { 'k' } else if c == 'L' { 'l' }
    else if c == 'M' { 'm' } else if c == 'N' { 'n' } else if c == 'O' { 'o' }
    else if c == 'P' { 'p' } else if c == 'Q' { 'q' } else if c == 'R' { 'r' }
    else if c == 'S' { 's' } else if c == 'T' { 't' } else if c == 'U' { 'u' }
    else if c == 'V' { 'v' } else if c == 'W' { 'w' } else if c == 'X' { 'x' }
    else if c == 'Y' { 'y' } else if c == 'Z' { 'z' } else { c }
}

/// ASCII-lowercased copy of a character sequence.
pub open spec fn lower_seq(s: Seq<char>) -> Seq<char> {
    s.map_values(|c: char| lower_char(c))
}

// ------------------------------------------------------------------
// Executable primitives
// ------------------------------------------------------------------

/// Relies on `String: FromIterator<char>`: collecting chars builds the
/// string of exactly those chars in order.
#[verifier::external_body]
pub fn chars_to_string(v: &Vec<char>) -> (s: String)
    ensures
        s@ == v@,
{
    v.iter().collect()
}

/// Relies on `char::from_u32`: `Some` exactly on Unicode scalar values,
/// and the returned char has the given code.
#[verifier::external_body]
pub fn char_from_code(n: u32) -> (r: Option<char>)
    ensures
        r is Some <==> (n < 0xD800 || (0xE000 <= n && n <= 0x10FFFF)),
        r is Some ==> ((r->0) as u32) == n,
{
    char::from_u32(n)
}

pub fn str_to_chars(s: &str) -> (v: Vec<char>)
    ensures
        v@ == s@,
{
    let n: usize = s.unicode_len();
    let mut v: Vec<char> = Vec::new();
    let mut i: usize = 0;
    while i < n
        invariant
            n == s@.len(),
            i <= n,
            v@ == s@.subrange(0, i as int),
        decreases n - i,
    {
        v.push(s.get_char(i));
        i = i + 1;
        assert(v@ =~= s@.subrange(0, i as int));
    }
    assert(v@ =~= s@);
    v
}

pub fn str_eq(a: &str, b: &str) -> (r: bool)
    ensures
        r == (a@ == b@),
{
    let na: usize = a.unicode_len();
    let nb: usize = b.unicode_len();
    if na != nb {
        return false;
    }
    let mut i: usize = 0;
    while i < na
        invariant
            na == a@.len(),
            na == b@.len(),
            i <= na,
            forall|k: int| 0 <= k < i ==> a@[k] == b@[k],
        decreases na - i,
    {
        if a.get_char(i) != b.get_char(i) {
            return false;
        }
        i = i + 1;
    }
    assert(a@ =~= b@);
    true
}

pub fn chars_eq(a: &Vec<char>, b: &Vec<char>) -> (r: bool)
    ensures
        r == (a@ == b@),
{
    let na: usize = a.len();
    if na != b.len() {
        return false;
    }
    let mut i: usize = 0;
    while i < na
        invariant
            na == a@.len(),
            na == b@.len(),
            i <= na,
            forall|k: int| 0 <= k < i ==> a@[k] == b@[k],
        decreases na - i,
    {
        if a[i] != b[i] {
            return false;
        }
        i = i + 1;
    }
    assert(a@ =~= b@);
    true
}

fn digit_of(d: u64) -> (c: char)
    requires
        d < 10,
    ensures
        c == digit_char(d as int),
{
    match d {
        0 => '0',
        1 => '1',
        2 => '2',
        3 => '3',
        4 => '4',
        5 => '5',
        6 => '6',
        7 => '7',
        8 => '8',
        _ => '9',
    }
}

pub fn push_dec_u64(out: &mut Vec<char>, n: u64)
    ensures
        final(out)@ == old(out)@ + spec_dec_u(n as nat),
    decreases n,
{
    if n < 10 {
        out.push(digit_of(n));
        assert(out@ =~= old(out)@ + spec_dec_u(n as nat));
    } else {
        push_dec_u64(out, n / 10);
        out.push(digit_of(n % 10));
        assert(out@ =~= old(out)@ + spec_dec_u(n as nat));
    }
}

pub fn push_dec_i64(out: &mut Vec<char>, n: i64)
    ensures
        final(out)@ == old(out)@ + spec_dec_i(n as int),
{
    if n >= 0 {
        push_dec_u64(out, n as u64);
    } else {
        out.push('-');
        let m: u64 = if n == i64::MIN {
            9223372036854775808u64
        } else {
            (-n) as u64
        };
        assert(m as int == -(n as int));
        push_dec_u64(out, m);
        assert(out@ =~= old(out)@ + spec_dec_i(n as int));
    }
}

pub proof fn lemma_digits_val_nonneg(s: Seq<char>)
    requires
        all_digits(s),
    ensures
        digits_val(s) >= 0,
    decreases s.len(),
{
    if s.len() > 0 {
        assert(all_digits(s.drop_last())) by {
            assert(forall|i: int| 0 <= i < s.len() - 1 ==> s.drop_last()[i] == s[i]);
        }
        lemma_digits_val_nonneg(s.drop_last());
    }
}

proof fn lemma_digits_val_step(s: Seq<char>, k: int)
    requires
        0 <= k < s.len(),
    ensures
        digits_val(s.subrange(0, k + 1)) == digits_val(s.subrange(0, k)) * 10 + digit_val(s[k]),
{
    let t = s.subrange(0, k + 1);
    assert(t.drop_last() =~= s.subrange(0, k));
    assert(t.last() == s[k]);
}

proof fn lemma_digits_val_prefix_le(s: Seq<char>, k: int)
    requires
        all_digits(s),
        0 <= k <= s.len(),
    ensures
        digits_val(s.subrange(0, k)) <= digits_val(s),
    decreases s.len() - k,
{
    if k == s.len() {
        assert(s.subrange(0, k) =~= s);
    } else {
        lemma_digits_val_step(s, k);
        let p = digits_val(s.subrange(0, k));
        assert(all_digits(s.subrange(0, k))) by {
            assert(forall|i: int| 0 <= i < k ==> s.subrange(0, k)[i] == s[i]);
        }
        lemma_digits_val_nonneg(s.subrange(0, k));
        assert(digit_val(s[k]) >= 0);
        assert(p * 10 >= p) by (nonlinear_arith)
            requires
                p >= 0;
        lemma_digits_val_prefix_le(s, k + 1);
    }
}

/// Parse the digit run `v[from..to]` as an unsigned magnitude, bounded by
/// `limit`; `None` exactly on a non-digit or a value above the bound.
pub fn parse_magnitude(v: &Vec<char>, from: usize, to: usize, limit: u64) -> (r: Option<u64>)
    requires
        from <= to <= v@.len(),
    ensures
        match r {
            Some(m) => all_digits(v@.subrange(from as int, to as int))
                && m as int == digits_val(v@.subrange(from as int, to as int))
                && m <= limit,
            None => !(all_digits(v@.subrange(from as int, to as int))
                && digits_val(v@.subrange(from as int, to as int)) <= limit),
        },
{
    let ghost s = v@.subrange(from as int, to as int);
    let mut acc: u64 = 0;
    let mut i: usize = from;
    while i < to
        invariant
            from <= i <= to <= v@.len(),
            s == v@.subrange(from as int, to as int),
            all_digits(s.subrange(0, i - from)),
            acc as int == digits_val(s.subrange(0, i - from)),
            acc <= limit,
        decreases to - i,
    {
        let c = v[i];
        assert(c == s[i - from]);
        if !(c >= '0' && c <= '9') {
            assert(!all_digits(s));
            return None;
        }
        let d: u64 = (c as u32 - 48) as u64;
        assert(d as int == digit_val(s[i - from]));
        assert(d < 10);
        proof {
            lemma_digits_val_step(s, i - from);
        }
        if d > limit || acc > (limit - d) / 10 {
            // any completion of this prefix exceeds the bound
            proof {
                lemma_digits_val_nonneg(s.subrange(0, i - from as int));
                if d <= limit {
                    assert(acc as int * 10 + d as int > limit as int) by (nonlinear_arith)
                        requires
                            (acc as int) > ((limit as int) - (d as int)) / 10,
                            0 <= (d as int),
                            (d as int) < 10,
                            (acc as int) >= 0;
                } else {
                    assert(acc as int * 10 + d as int > limit as int) by (nonlinear_arith)
                        requires
                            (d as int) > (limit as int),
                            (acc as int) >= 0;
                }
                if all_digits(s) && digits_val(s) <= limit {
                    lemma_digits_val_prefix_le(s, i - from + 1);
                }
            }
            return None;
        }
        proof {
            assert(acc as int * 10 + d as int <= limit as int) by (nonlinear_arith)
                requires
                    (acc as int) <= ((limit as int) - (d as int)) / 10,
                    0 <= (d as int),
                    (d as int) < 10,
                    (acc as int) >= 0;
        }
        acc = acc * 10 + d;
        i = i + 1;
        assert(all_digits(s.subrange(0, i - from))) by {
            assert(forall|k: int| 0 <= k < i - from ==> s.subrange(0, i - from as int)[k] == s[k]);
        }
    }
    assert(s.subrange(0, to - from) =~= s);
    Some(acc)
}

pub fn parse_i64_chars(v: &Vec<char>) -> (r: Option<i64>)
    ensures
        match r {
            Some(m) => spec_parse_i64(v@) == Some(m as int),
            None => spec_parse_i64(v@) is None,
        },
{
    let n: usize = v.len();
    if n == 0 {
        return None;
    }
    let c0 = v[0];
    let neg: bool = c0 == '-';
    let start: usize = if c0 == '-' || c0 == '+' { 1 } else { 0 };
    if n == start {
        return None;
    }
    let ghost digs = if start == 1 { v@.skip(1) } else { v@ };
    assert(digs =~= v@.subrange(start as int, n as int));
    let limit: u64 = if neg { 9223372036854775808u64 } else { 9223372036854775807u64 };
    match parse_magnitude(v, start, n, limit) {
        Some(m) => {
            proof {
                lemma_digits_val_nonneg(digs);
            }
            if neg {
                if m == 9223372036854775808u64 {
                    Some(i64::MIN)
                } else {
                    Some(-(m as i64))
                }
            } else {
                Some(m as i64)
            }
        },
        None => {
            proof {
                if all_digits(digs) {
                    lemma_digits_val_nonneg(digs);
                }
            }
            None
        },
    }
}

pub fn parse_i32_chars(v: &Vec<char>) -> (r: Option<i32>)
    ensures
        match r {
            Some(m) => spec_parse_i32(v@) == Some(m as int),
            None => spec_parse_i32(v@) is None,
        },
{
    let n: usize = v.len();
    if n == 0 {
        return None;
    }
    let c0 = v[0];
    let neg: bool = c0 == '-';
    let start: usize = if c0 == '-' || c0 == '+' { 1 } else { 0 };
    if n == start {
        return None;
    }
    let ghost digs = if start == 1 { v@.skip(1) } else { v@ };
    assert(digs =~= v@.subrange(start as int, n as int));
    let limit: u64 = if neg { 2147483648u64 } else { 2147483647u64 };
    match parse_magnitude(v, start, n, limit) {
        Some(m) => {
            proof {
                lemma_digits_val_nonneg(digs);
            }
            if neg {
                if m == 2147483648u64 {
                    Some(i32::MIN)
                } else {
                    Some(-(m as i32))
                }
            } else {
                Some(m as i32)
            }
        },
        None => {
            proof {
                if all_digits(digs) {
                    lemma_digits_val_nonneg(digs);
                }
            }
            None
        },
    }
}

/// Digit run to `usize`; `None` on a non-digit or overflow.
pub fn parse_usize_digits(v: &Vec<char>, from: usize, to: usize) -> (r: Option<usize>)
    requires
        from <= to <= v@.len(),
    ensures
        match r {
            Some(m) => all_digits(v@.subrange(from as int, to as int))
                && m as int == digits_val(v@.subrange(from as int, to as int)),
            None => !(all_digits(v@.subrange(from as int, to as int))
                && digits_val(v@.subrange(from as int, to as int)) <= usize::MAX),
        },
{
    match parse_magnitude(v, from, to, usize::MAX as u64) {
        Some(m) => Some(m as usize),
        None => None,
    }
}

pub fn chars_contain(h: &Vec<char>, n: &Vec<char>) -> (r: bool)
    ensures
        r == contains_seq(h@, n@),
{
    let hl: usize = h.len();
    let nl: usize = n.len();
    if nl > hl {
        assert(forall|i: int| !contains_at(h@, i, n@));
        return false;
    }
    if nl == 0 {
        assert(h@.subrange(0, 0) =~= n@);
        assert(contains_at(h@, 0, n@));
        return true;
    }
    let mut i: usize = 0;
    while i <= hl - nl
        invariant
            1 <= nl <= hl,
            hl == h@.len(),
            nl == n@.len(),
            i <= hl - nl + 1,
            forall|k: int| 0 <= k < i ==> !contains_at(h@, k, n@),
        decreases hl - i,
    {
        let mut j: usize = 0;
        let mut all: bool = true;
        while j < nl
            invariant
                nl <= hl,
                hl == h@.len(),
                nl == n@.len(),
                i <= hl - nl,
                j <= nl,
                all == (forall|l: int| 0 <= l < j ==> h@[i + l] == n@[l]),
            decreases nl - j,
        {
            if h[i + j] != n[j] {
                all = false;
                j = nl;
            } else {
                j = j + 1;
            }
        }
        if all {
            assert(h@.subrange(i as int, i + nl as int) =~= n@);
            assert(contains_at(h@, i as int, n@));
            return true;
        }
        assert(!contains_at(h@, i as int, n@)) by {
            if contains_at(h@, i as int, n@) {
                assert(forall|l: int| 0 <= l < nl ==> #[trigger] h@.subrange(
                    i as int, i + nl as int)[l] == h@[i + l]);
            }
        }
        i = i + 1;
    }
    assert(forall|k: int| contains_at(h@, k, n@) ==> 0 <= k < i);
    false
}

pub fn is_blank_x(c: char) -> (r: bool)
    ensures
        r == is_blank(c),
{
    c == ' ' || c == '\t' || c == '\n' || c == '\r'
}

/// Trimmed copy of `v[lo..hi]`.
pub fn trim_range(v: &Vec<char>, lo: usize, hi: usize) -> (r: Vec<char>)
    requires
        lo <= hi <= v@.len(),
    ensures
        r@ == spec_trim(v@.subrange(lo as int, hi as int)),
{
    let ghost s = v@.subrange(lo as int, hi as int);
    let mut a: usize = lo;
    while a < hi && is_blank_x(v[a])
        invariant
            lo <= a <= hi <= v@.len(),
            s == v@.subrange(lo as int, hi as int),
            skip_blank(s, 0) == skip_blank(s, a - lo),
        decreases hi - a,
    {
        assert(s[a - lo] == v@[a as int]);
        a = a + 1;
    }
    assert(skip_blank(s, a - lo) == a - lo) by {
        if a < hi {
            assert(s[a - lo] == v@[a as int]);
        }
    }
    let mut b: usize = hi;
    while b > a && is_blank_x(v[b - 1])
        invariant
            lo <= a <= b <= hi <= v@.len(),
            s == v@.subrange(lo as int, hi as int),
            skip_blank(s, 0) == a - lo,
            skip_blank_back(s, s.len() as int) == skip_blank_back(s, b - lo),
        decreases b,
    {
        assert(s[b - 1 - lo] == v@[b - 1]);
        b = b - 1;
    }
    proof {
        lemma_skip_blank_back_le(s, b - lo);
        if b > a {
            assert(s[b - 1 - lo] == v@[b - 1]);
            assert(skip_blank_back(s, b - lo) == b - lo);
        }
    }
    let mut out: Vec<char> = Vec::new();
    let mut i: usize = a;
    while i < b
        invariant
            lo <= a <= i <= b <= hi <= v@.len(),
            s == v@.subrange(lo as int, hi as int),
            out@ == s.subrange(a - lo, i - lo),
        decreases b - i,
    {
        out.push(v[i]);
        i = i + 1;
        assert(out@ =~= s.subrange(a - lo, i - lo));
    }
    proof {
        if a < b {
            assert(skip_blank_back(s, s.len() as int) == b - lo);
            assert(out@ =~= spec_trim(s));
        } else {
            // everything from the first non-blank on was consumed from the back
            assert(skip_blank_back(s, s.len() as int) <= a - lo);
            assert(out@ =~= Seq::<char>::empty());
            assert(out@ =~= spec_trim(s));
        }
    }
    out
}

/// The back scan never moves forward.
proof fn lemma_skip_blank_back_le(s: Seq<char>, i: int)
    requires
        0 <= i <= s.len(),
    ensures
        0 <= skip_blank_back(s, i) <= i,
    decreases i,
{
    if 0 < i <= s.len() && is_blank(s[i - 1]) {
        lemma_skip_blank_back_le(s, i - 1);
    }
}

pub fn lower_char_x(c: char) -> (r: char)
    ensures
        r == lower_char(c),
{
    match c {
        'A' => 'a', 'B' => 'b', 'C' => 'c', 'D' => 'd', 'E' => 'e', 'F' => 'f',
        'G' => 'g', 'H' => 'h', 'I' => 'i', 'J' => 'j', 'K' => 'k', 'L' => 'l',
        'M' => 'm', 'N' => 'n', 'O' => 'o', 'P' => 'p', 'Q' => 'q', 'R' => 'r',
        'S' => 's', 'T' => 't', 'U' => 'u', 'V' => 'v', 'W' => 'w', 'X' => 'x',
        'Y' => 'y', 'Z' => 'z',
        _ => c,
    }
}

/// ASCII-lowercased copy of a string's characters.
pub fn lower_chars_of(s: &str) -> (r: Vec<char>)
    ensures
        r@ == lower_seq(s@),
{
    let n: usize = s.unicode_len();
    let mut r: Vec<char> = Vec::new();
    let mut i: usize = 0;
    while i < n
        invariant
            n == s@.len(),
            i <= n,
            r@ == lower_seq(s@.subrange(0, i as int)),
        decreases n - i,
    {
        r.push(lower_char_x(s.get_char(i)));
        i = i + 1;
        assert(r@ =~= lower_seq(s@.subrange(0, i as int)));
    }
    assert(r@ =~= lower_seq(s@));
    r
}

} // verus!
