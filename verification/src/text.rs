//! Character and decimal-text utilities shared by the interpreter.
use vstd::prelude::*;
use crate::parser::unicode_whitespace;

verus! {

broadcast use vstd::string::group_string_axioms;

/// The decimal digit character for `d` (0..=9).
pub open spec fn digit_char(d: int) -> char {
    (('0' as int) + d) as char
}

/// Decimal representation of a natural number, most significant digit first.
pub open spec fn nat_to_decimal(n: nat) -> Seq<char>
    decreases n,
{
    if n < 10 {
        seq![digit_char(n as int)]
    } else {
        nat_to_decimal(n / 10).push(digit_char((n % 10) as int))
    }
}

/// Decimal representation of an integer, with a leading `-` when negative.
pub open spec fn int_to_decimal(i: int) -> Seq<char> {
    if i < 0 {
        seq!['-'] + nat_to_decimal((-i) as nat)
    } else {
        nat_to_decimal(i as nat)
    }
}

/// Appends one character to a string (`String::push`).
#[verifier::external_body]
pub fn string_push(s: &mut String, c: char)
    ensures
        final(s)@ == old(s)@.push(c),
{
    s.push(c);
}

/// Builds a `String` holding exactly the given characters.
pub fn chars_to_string(v: &Vec<char>) -> (s: String)
    ensures
        s@ == v@,
{
    let mut s = String::new();
    let mut i: usize = 0;
    while i < v.len()
        invariant
            i <= v.len(),
            s@ == v@.take(i as int),
        decreases v.len() - i,
    {
        string_push(&mut s, v[i]);
        i += 1;
        assert(s@ =~= v@.take(i as int));
    }
    assert(v@.take(v.len() as int) =~= v@);
    s
}

/// The characters of a string slice, in order.
pub fn str_to_chars(s: &str) -> (v: Vec<char>)
    ensures
        v@ == s@,
{
    let mut it = s.chars();
    let mut v: Vec<char> = Vec::new();
    loop
        invariant
            v@ + vstd::std_specs::iter::IteratorSpec::remaining(&it) == s@,
            vstd::std_specs::iter::IteratorSpec::obeys_prophetic_iter_laws(&it),
            vstd::std_specs::iter::IteratorSpec::decrease(&it) is Some,
        decreases vstd::std_specs::iter::IteratorSpec::decrease(&it)->0,
    {
        let ghost before = vstd::std_specs::iter::IteratorSpec::remaining(&it);
        match it.next() {
            Some(c) => {
                v.push(c);
                assert(v@ + vstd::std_specs::iter::IteratorSpec::remaining(&it) =~= s@);
            },
            None => {
                assert(v@ =~= s@);
                return v;
            },
        }
    }
}


/// The UTF-8 bytes of a string slice.
pub fn str_bytes(s: &str) -> (r: Vec<u8>)
    ensures
        r@ == vstd::string::StringSliceAdditionalSpecFns::spec_bytes(s),
{
    let b = s.as_bytes();
    let mut out: Vec<u8> = Vec::new();
    let mut i: usize = 0;
    while i < b.len()
        invariant
            i <= b@.len(),
            out@ == b@.take(i as int),
        decreases b.len() - i,
    {
        out.push(b[i]);
        i += 1;
        assert(out@ =~= b@.take(i as int));
    }
    assert(b@.take(b@.len() as int) =~= b@);
    out
}

/// String-slice equality (`<str as PartialEq>::eq`).
#[verifier::external_body]
pub fn str_eq(a: &str, b: &str) -> (r: bool)
    ensures
        r == (a@ == b@),
{
    a == b
}

/// Decimal digits of a natural number, most significant first.
pub fn nat_digits(m: u64) -> (v: Vec<char>)
    ensures
        v@ == nat_to_decimal(m as nat),
    decreases m,
{
    if m < 10 {
        let mut v = Vec::new();
        v.push(digit_of(m as u8));
        v
    } else {
        let mut v = nat_digits(m / 10);
        v.push(digit_of((m % 10) as u8));
        v
    }
}

/// Decimal digits of a `u128`, most significant first.
pub fn u128_digits(m: u128) -> (v: Vec<char>)
    ensures
        v@ == nat_to_decimal(m as nat),
    decreases m,
{
    if m < 10 {
        let mut v = Vec::new();
        v.push(digit_of(m as u8));
        v
    } else {
        let mut v = u128_digits(m / 10);
        v.push(digit_of((m % 10) as u8));
        v
    }
}

/// Decimal text of a `u128`, as `u128::to_string` writes it.
pub fn u128_to_string(m: u128) -> (s: String)
    ensures
        s@ == nat_to_decimal(m as nat),
{
    chars_to_string(&u128_digits(m))
}

/// Decimal text of an `i64`, as `i64::to_string` writes it.
pub fn i64_to_chars(n: i64) -> (v: Vec<char>)
    ensures
        v@ == int_to_decimal(n as int),
{
    if n < 0 {
        let mag: u64 = (0i128 - n as i128) as u64;
        let d = nat_digits(mag);
        let mut v: Vec<char> = Vec::new();
        v.push('-');
        let mut i: usize = 0;
        while i < d.len()
            invariant
                i <= d@.len(),
                v@ == seq!['-'] + d@.take(i as int),
            decreases d.len() - i,
        {
            v.push(d[i]);
            i += 1;
            assert(v@ =~= seq!['-'] + d@.take(i as int));
        }
        assert(d@.take(d@.len() as int) =~= d@);
        v
    } else {
        nat_digits(n as u64)
    }
}

/// Decimal text of an `i64`, as `i64::to_string` writes it.
pub fn i64_to_string(n: i64) -> (s: String)
    ensures
        s@ == int_to_decimal(n as int),
{
    let v = i64_to_chars(n);
    chars_to_string(&v)
}

/// The digit character for a value below ten.
pub fn digit_of(d: u8) -> (c: char)
    requires
        d < 10,
    ensures
        c == digit_char(d as int),
{
    if d == 0 { '0' } else if d == 1 { '1' } else if d == 2 { '2' } else if d == 3 { '3' }
    else if d == 4 { '4' } else if d == 5 { '5' } else if d == 6 { '6' } else if d == 7 { '7' }
    else if d == 8 { '8' } else { '9' }
}


pub open spec fn is_digit(c: char) -> bool {
    '0' <= c && c <= '9'
}

/// Value of a run of decimal digits.
pub open spec fn digits_value(s: Seq<char>) -> int
    decreases s.len(),
{
    if s.len() == 0 {
        0
    } else {
        digits_value(s.drop_last()) * 10 + (s.last() as int - '0' as int)
    }
}

pub open spec fn all_digits(s: Seq<char>) -> bool {
    s.len() > 0 && forall|i: int| 0 <= i < s.len() ==> is_digit(#[trigger] s[i])
}

/// The integer that Rust's `str::parse` reads from `s` for a signed type of
/// unbounded width: an optional sign followed by at least one digit.
pub open spec fn signed_text_value(s: Seq<char>) -> Option<int> {
    if s.len() > 0 && s[0] == '-' {
        if all_digits(s.skip(1)) { Some(-digits_value(s.skip(1))) } else { None }
    } else if s.len() > 0 && s[0] == '+' {
        if all_digits(s.skip(1)) { Some(digits_value(s.skip(1))) } else { None }
    } else if all_digits(s) {
        Some(digits_value(s))
    } else {
        None
    }
}

/// As `signed_text_value`, for an unsigned type: no minus sign.
pub open spec fn unsigned_text_value(s: Seq<char>) -> Option<int> {
    if s.len() > 0 && s[0] == '+' {
        if all_digits(s.skip(1)) { Some(digits_value(s.skip(1))) } else { None }
    } else if all_digits(s) {
        Some(digits_value(s))
    } else {
        None
    }
}

/// `str::parse::<i64>` as a function of the text.
pub open spec fn text_to_i64(s: Seq<char>) -> Option<i64> {
    match signed_text_value(s) {
        Some(y) => if i64::MIN <= y <= i64::MAX { Some(y as i64) } else { None },
        None => None,
    }
}

/// `str::parse::<u64>` as a function of the text.
pub open spec fn text_to_u64(s: Seq<char>) -> Option<u64> {
    match unsigned_text_value(s) {
        Some(y) => if 0 <= y <= u64::MAX { Some(y as u64) } else { None },
        None => None,
    }
}

/// `str::parse::<u128>` as a function of the text.
pub open spec fn text_to_u128(s: Seq<char>) -> Option<u128> {
    match unsigned_text_value(s) {
        Some(y) => if 0 <= y <= u128::MAX { Some(y as u128) } else { None },
        None => None,
    }
}

proof fn lemma_digits_value_nonneg(s: Seq<char>)
    requires
        forall|i: int| 0 <= i < s.len() ==> is_digit(#[trigger] s[i]),
    ensures
        digits_value(s) >= 0,
    decreases s.len(),
{
    if s.len() > 0 {
        lemma_digits_value_nonneg(s.drop_last());
    }
}

proof fn lemma_digits_value_grows(s: Seq<char>, k: int)
    requires
        forall|i: int| 0 <= i < s.len() ==> is_digit(#[trigger] s[i]),
        0 < k <= s.len(),
    ensures
        digits_value(s) >= digits_value(s.take(k)),
    decreases s.len(),
{
    if k < s.len() {
        assert(s.drop_last().take(k) =~= s.take(k));
        lemma_digits_value_grows(s.drop_last(), k);
        lemma_digits_value_nonneg(s.drop_last());
    } else {
        assert(s.take(k) =~= s);
    }
}

/// Reads `v[start..]` as a run of decimal digits.
fn parse_digits(v: &Vec<char>, start: usize) -> (r: Option<u128>)
    requires
        start <= v@.len(),
    ensures
        r matches Some(x) ==> all_digits(v@.skip(start as int)) && x == digits_value(v@.skip(start as int)),
        r is None ==> !all_digits(v@.skip(start as int)) || digits_value(v@.skip(start as int)) > u128::MAX,
{
    if start >= v.len() {
        return None;
    }
    let ghost s = v@.skip(start as int);
    let mut acc: u128 = 0;
    let mut i: usize = start;
    while i < v.len()
        invariant
            start <= i <= v@.len(),
            s == v@.skip(start as int),
            forall|j: int| 0 <= j < i - start ==> is_digit(#[trigger] s[j]),
            acc == digits_value(s.take(i - start)),
        decreases v.len() - i,
    {
        let c = v[i];
        if !('0' <= c && c <= '9') {
            assert(s[i - start] == c);
            return None;
        }
        let d = (c as u32 - '0' as u32) as u128;
        proof {
            assert(s.take(i - start + 1).drop_last() =~= s.take(i - start));
        }
        let next = match acc.checked_mul(10) {
            Some(m) => m.checked_add(d),
            None => None,
        };
        match next {
            Some(n) => {
                acc = n;
            },
            None => {
                proof {
                    assert forall|j: int| 0 <= j < i - start + 1 implies is_digit(#[trigger] s[j]) by {
                        if j == i - start { assert(s[j] == c); }
                    };
                    if all_digits(s) {
                        lemma_digits_value_grows(s, i - start + 1);
                    }
                }
                return None;
            },
        }
        i += 1;
    }
    assert(s.take(i - start) =~= s);
    Some(acc)
}

/// `str::parse::<i64>`: an optional sign and at least one digit, in range.
pub fn parse_i64(s: &str) -> (r: Option<i64>)
    ensures
        r == text_to_i64(s@),
{
    let v = str_to_chars(s);
    if v.len() == 0 {
        return None;
    }
    let neg = v[0] == '-';
    let start: usize = if v[0] == '-' || v[0] == '+' { 1 } else { 0 };
    proof {
        if start == 0 { assert(v@.skip(0) =~= v@); }
    }
    match parse_digits(&v, start) {
        Some(m) => {
            if neg {
                if m <= 9223372036854775808u128 {
                    Some((0i128 - m as i128) as i64)
                } else {
                    None
                }
            } else if m <= 9223372036854775807u128 {
                Some(m as i64)
            } else {
                None
            }
        },
        None => None,
    }
}

/// `str::parse::<u128>`: an optional `+` and at least one digit, in range.
pub fn parse_u128(s: &str) -> (r: Option<u128>)
    ensures
        r == text_to_u128(s@),
{
    let v = str_to_chars(s);
    if v.len() == 0 {
        return None;
    }
    let start: usize = if v[0] == '+' { 1 } else { 0 };
    proof {
        if start == 0 { assert(v@.skip(0) =~= v@); }
    }
    parse_digits(&v, start)
}

/// `str::parse::<u64>`: an optional `+` and at least one digit, in range.
pub fn parse_u64(s: &str) -> (r: Option<u64>)
    ensures
        r == text_to_u64(s@),
{
    match parse_u128(s) {
        Some(x) => if x <= 18446744073709551615u128 { Some(x as u64) } else { None },
        None => None,
    }
}


/// Whether `n` occurs in `h` as a contiguous run.
pub open spec fn seq_contains(h: Seq<char>, n: Seq<char>) -> bool {
    exists|i: int| 0 <= i && i + n.len() <= h.len() && #[trigger] h.subrange(i, i + n.len()) == n
}

/// `h` begins with `p`.
pub open spec fn seq_starts_with(h: Seq<char>, p: Seq<char>) -> bool {
    p.len() <= h.len() && h.take(p.len() as int) == p
}

/// `h` ends with `p`.
pub open spec fn seq_ends_with(h: Seq<char>, p: Seq<char>) -> bool {
    p.len() <= h.len() && h.skip(h.len() - p.len()) == p
}

/// Whether `n` occurs in `h` at position `i`.
fn occurs_at(h: &Vec<char>, n: &Vec<char>, i: usize) -> (r: bool)
    requires
        i + n@.len() <= h@.len(),
    ensures
        r == (h@.subrange(i as int, i + n@.len()) == n@),
{
    let mut j: usize = 0;
    let hn = h.len();
    while j < n.len()
        invariant
            j <= n@.len(),
            hn == h@.len(),
            i + n@.len() <= h@.len(),
            forall|k: int| 0 <= k < j ==> h@[i + k] == n@[k],
        decreases n.len() - j,
    {
        if h[i + j] != n[j] {
            assert(h@.subrange(i as int, i + n@.len())[j as int] != n@[j as int]);
            return false;
        }
        j += 1;
    }
    assert(h@.subrange(i as int, i + n@.len()) =~= n@);
    true
}

/// `str::contains` with a string pattern.
pub fn str_contains(h: &str, n: &str) -> (r: bool)
    ensures
        r == seq_contains(h@, n@),
{
    let hv = str_to_chars(h);
    let nv = str_to_chars(n);
    if nv.len() > hv.len() {
        return false;
    }
    let mut i: usize = 0;
    let last = hv.len() - nv.len();
    while i <= last
        invariant_except_break
            i <= last,
        invariant
            nv@.len() <= hv@.len(),
            last == hv@.len() - nv@.len(),
            hv@ == h@,
            nv@ == n@,
            forall|k: int| 0 <= k < i ==> #[trigger] hv@.subrange(k, k + nv@.len()) != nv@,
        ensures
            forall|k: int| 0 <= k <= last ==> #[trigger] hv@.subrange(k, k + nv@.len()) != nv@,
        decreases last + 1 - i,
    {
        if occurs_at(&hv, &nv, i) {
            return true;
        }
        if i == last {
            break;
        }
        i += 1;
    }
    assert forall|k: int| 0 <= k && k + n@.len() <= h@.len() implies #[trigger] h@.subrange(k, k + n@.len()) != n@ by {
        assert(k <= last);
    };
    false
}

/// `str::starts_with` with a string pattern.
pub fn str_starts_with(h: &str, p: &str) -> (r: bool)
    ensures
        r == seq_starts_with(h@, p@),
{
    let hv = str_to_chars(h);
    let pv = str_to_chars(p);
    if pv.len() > hv.len() {
        return false;
    }
    let r = occurs_at(&hv, &pv, 0);
    assert(hv@.subrange(0, pv@.len() as int) =~= hv@.take(pv@.len() as int));
    r
}

/// `str::ends_with` with a string pattern.
pub fn str_ends_with(h: &str, p: &str) -> (r: bool)
    ensures
        r == seq_ends_with(h@, p@),
{
    let hv = str_to_chars(h);
    let pv = str_to_chars(p);
    if pv.len() > hv.len() {
        return false;
    }
    let start = hv.len() - pv.len();
    let r = occurs_at(&hv, &pv, start);
    assert(hv@.subrange(start as int, hv@.len() as int) =~= hv@.skip(start as int));
    r
}

/// Upper-case mapping of a text, as `str::to_uppercase` computes it.
pub uninterp spec fn uppercase_of(s: Seq<char>) -> Seq<char>;

/// `str::to_uppercase`.
#[verifier::external_body]
pub fn str_to_uppercase(s: &str) -> (r: String)
    ensures
        r@ == uppercase_of(s@),
{
    s.to_uppercase()
}

/// Lower-case mapping of a text, as `str::to_lowercase` computes it.
pub uninterp spec fn lowercase_of(s: Seq<char>) -> Seq<char>;

/// `str::to_lowercase`.
#[verifier::external_body]
pub fn str_to_lowercase(s: &str) -> (r: String)
    ensures
        r@ == lowercase_of(s@),
{
    s.to_lowercase()
}

/// A text without its leading whitespace.
pub open spec fn trim_start_of(s: Seq<char>) -> Seq<char>
    decreases s.len(),
{
    if s.len() > 0 && unicode_whitespace(s[0]) { trim_start_of(s.drop_first()) } else { s }
}

/// A text without its trailing whitespace.
pub open spec fn trim_end_of(s: Seq<char>) -> Seq<char>
    decreases s.len(),
{
    if s.len() > 0 && unicode_whitespace(s.last()) { trim_end_of(s.drop_last()) } else { s }
}

/// A text with leading and trailing whitespace removed, as `str::trim` does.
pub open spec fn trimmed_of(s: Seq<char>) -> Seq<char> {
    trim_end_of(trim_start_of(s))
}

/// `str::trim`: the text without leading and trailing whitespace (see
/// `unicode_whitespace`).
#[verifier::external_body]
pub fn str_trim(s: &str) -> (r: String)
    ensures
        r@ == trimmed_of(s@),
{
    s.trim().to_string()
}

/// The pieces `str::split` cuts a text into at a separator.
pub uninterp spec fn split_of(s: Seq<char>, sep: Seq<char>) -> Seq<Seq<char>>;

/// `str::split` with a string separator.
#[verifier::external_body]
pub fn str_split(s: &str, sep: &str) -> (r: Vec<String>)
    ensures
        r@.len() == split_of(s@, sep@).len(),
        forall|i: int| 0 <= i < r@.len() ==> (#[trigger] r@[i])@ == split_of(s@, sep@)[i],
{
    s.split(sep).map(|p| p.to_string()).collect()
}

/// The first character position from `from` on where `n` occurs in `h`.
pub open spec fn first_occurrence(h: Seq<char>, n: Seq<char>, from: int) -> Option<int>
    decreases h.len() + 1 - from,
{
    if from < 0 || from + n.len() > h.len() {
        None
    } else if h.subrange(from, from + n.len()) == n {
        Some(from)
    } else {
        first_occurrence(h, n, from + 1)
    }
}

/// The byte offset, as `str::find` reports it, of the first occurrence of
/// `n` in `h`: the UTF-8 length of the text before it.
pub open spec fn find_of(h: Seq<char>, n: Seq<char>) -> Option<usize> {
    match first_occurrence(h, n, 0) {
        Some(j) => Some(vstd::utf8::encode_utf8(h.take(j)).len() as usize),
        None => None,
    }
}

/// `first_occurrence` from `from` finds an occurrence at or after `from`
/// with none between `from` and it, or there is none at or after `from`.
proof fn lemma_first_occurrence(h: Seq<char>, n: Seq<char>, from: int)
    requires
        0 <= from,
    ensures
        match first_occurrence(h, n, from) {
            Some(j) => from <= j && j + n.len() <= h.len() && h.subrange(j, j + n.len()) == n
                && forall|k: int| from <= k < j ==> #[trigger] h.subrange(k, k + n.len()) != n,
            None => forall|k: int| from <= k && k + n.len() <= h.len() ==> #[trigger] h.subrange(k, k + n.len()) != n,
        },
    decreases h.len() + 1 - from,
{
    if from + n.len() <= h.len() && h.subrange(from, from + n.len()) != n {
        lemma_first_occurrence(h, n, from + 1);
        match first_occurrence(h, n, from + 1) {
            Some(j) => {
                assert forall|k: int| from <= k < j implies #[trigger] h.subrange(k, k + n.len()) != n by {
                    if k > from {}
                };
            },
            None => {
                assert forall|k: int| from <= k && k + n.len() <= h.len() implies #[trigger] h.subrange(k, k + n.len()) != n by {
                    if k > from {}
                };
            },
        }
    }
}

/// `str-index-of` finds the first occurrence: when `find_of` answers a byte
/// offset `i`, the needle occurs at some character position `j` whose text
/// before it is `i` bytes long, and at no earlier position; it answers
/// nothing exactly when the needle does not occur.
pub proof fn lemma_find_first(h: Seq<char>, n: Seq<char>)
    ensures
        find_of(h, n) is Some <==> seq_contains(h, n),
        find_of(h, n) matches Some(i) ==> exists|j: int| 0 <= j && j + n.len() <= h.len()
            && #[trigger] h.subrange(j, j + n.len()) == n
            && i == vstd::utf8::encode_utf8(h.take(j)).len() as usize
            && forall|k: int| 0 <= k < j ==> #[trigger] h.subrange(k, k + n.len()) != n,
{
    lemma_first_occurrence(h, n, 0);
    match first_occurrence(h, n, 0) {
        Some(j) => {
            assert(h.subrange(j, j + n.len()) == n);
        },
        None => {},
    }
}

/// `str::find` with a string pattern: the byte offset of the first
/// occurrence, if there is one (see `lemma_find_first`).
pub fn str_find(h: &str, n: &str) -> (r: Option<usize>)
    ensures
        r == find_of(h@, n@),
        r is Some <==> seq_contains(h@, n@),
{
    proof { lemma_find_first(h@, n@); }
    let hv = str_to_chars(h);
    let nv = str_to_chars(n);
    if nv.len() > hv.len() {
        return None;
    }
    let last = hv.len() - nv.len();
    let mut j: usize = 0;
    while j <= last
        invariant
            hv@ == h@,
            nv@ == n@,
            nv@.len() <= hv@.len(),
            last == hv@.len() - nv@.len(),
            j <= last + 1,
            first_occurrence(h@, n@, 0) == first_occurrence(h@, n@, j as int),
        decreases last + 1 - j,
    {
        if occurs_at(&hv, &nv, j) {
            let mut prefix: Vec<char> = Vec::new();
            let mut q: usize = 0;
            while q < j
                invariant
                    q <= j,
                    j <= hv@.len(),
                    prefix@ == hv@.take(q as int),
                decreases j - q,
            {
                prefix.push(hv[q]);
                assert(hv@.take(q + 1) =~= hv@.take(q as int).push(hv@[q as int]));
                q += 1;
            }
            let text = chars_to_string(&prefix);
            let bytes = str_bytes(text.as_str());
            return Some(bytes.len());
        }
        if j == last {
            assert(first_occurrence(h@, n@, j + 1) is None);
            assert(find_of(h@, n@) is None);
            proof { lemma_find_first(h@, n@); }
            return None;
        }
        j += 1;
    }
    None
}

} // verus!
