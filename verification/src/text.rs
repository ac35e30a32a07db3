//! Character-level text model shared by the parsers: strings are viewed as
//! sequences of `char`, and the helpers here mirror the `str` operations that
//! the subtitle logic relies on (whitespace trimming, searching, prefixes).
use vstd::prelude::*;
use vstd::string::StrSliceExecFns;

verus! {

/// Unicode `White_Space`, the property behind `char::is_whitespace`.
pub open spec fn is_ws(c: char) -> bool {
    let u = c as u32;
    ||| (0x09 <= u && u <= 0x0D)
    ||| u == 0x20
    ||| u == 0x85
    ||| u == 0xA0
    ||| u == 0x1680
    ||| (0x2000 <= u && u <= 0x200A)
    ||| u == 0x2028
    ||| u == 0x2029
    ||| u == 0x202F
    ||| u == 0x205F
    ||| u == 0x3000
}

/// Every character is whitespace (the text trims to nothing).
pub open spec fn is_blank(s: Seq<char>) -> bool {
    forall|i: int| 0 <= i < s.len() ==> is_ws(#[trigger] s[i])
}

/// `str::trim_start`.
pub open spec fn trim_start(s: Seq<char>) -> Seq<char>
    decreases s.len(),
{
    if s.len() > 0 && is_ws(s[0]) {
        trim_start(s.drop_first())
    } else {
        s
    }
}

/// `str::trim_end`.
pub open spec fn trim_end(s: Seq<char>) -> Seq<char>
    decreases s.len(),
{
    if s.len() > 0 && is_ws(s.last()) {
        trim_end(s.drop_last())
    } else {
        s
    }
}

/// `str::trim`.
pub open spec fn trim(s: Seq<char>) -> Seq<char> {
    trim_end(trim_start(s))
}

pub open spec fn starts_with(s: Seq<char>, p: Seq<char>) -> bool {
    p.len() <= s.len() && s.subrange(0, p.len() as int) == p
}

pub open spec fn ends_with(s: Seq<char>, p: Seq<char>) -> bool {
    p.len() <= s.len() && s.subrange(s.len() - p.len(), s.len() as int) == p
}

/// `p` occurs in `s` starting at index `i`.
pub open spec fn occurs_at(s: Seq<char>, p: Seq<char>, i: int) -> bool {
    0 <= i && i + p.len() <= s.len() && s.subrange(i, i + p.len()) == p
}

pub open spec fn contains_seq(s: Seq<char>, p: Seq<char>) -> bool {
    exists|i: int| occurs_at(s, p, i)
}

/// Index of the first occurrence of `p` in `s` (`str::find` with a pattern).
#[verifier::opaque]
pub open spec fn find_seq(s: Seq<char>, p: Seq<char>) -> Option<int> {
    if contains_seq(s, p) {
        Some(choose|i: int| occurs_at(s, p, i) && forall|j: int| 0 <= j < i ==> !occurs_at(s, p, j))
    } else {
        None
    }
}

/// Index of the first occurrence of `c` in `s` (`str::find` with a char).
#[verifier::opaque]
pub open spec fn find_char(s: Seq<char>, c: char) -> Option<int> {
    if s.contains(c) {
        Some(choose|i: int| 0 <= i < s.len() && s[i] == c && forall|j: int| 0 <= j < i ==> s[j] != c)
    } else {
        None
    }
}

/// The part of `s` before the first `c` (all of `s` if there is none).
pub open spec fn before_char(s: Seq<char>, c: char) -> Seq<char> {
    match find_char(s, c) {
        Some(i) => s.subrange(0, i),
        None => s,
    }
}

/// The part of `s` after the first `c`, if there is one.
pub open spec fn after_char(s: Seq<char>, c: char) -> Option<Seq<char>> {
    match find_char(s, c) {
        Some(i) => Some(s.subrange(i + 1, s.len() as int)),
        None => None,
    }
}

pub open spec fn is_ascii_digit(c: char) -> bool {
    '0' <= c && c <= '9'
}

pub open spec fn digit_value(c: char) -> nat {
    (c as u32 - '0' as u32) as nat
}

/// Decimal value of a sequence of ASCII digits.
pub open spec fn decimal_value(s: Seq<char>) -> nat
    decreases s.len(),
{
    if s.len() == 0 {
        0
    } else {
        decimal_value(s.drop_last()) * 10 + digit_value(s.last())
    }
}

pub open spec fn all_digits(s: Seq<char>) -> bool {
    forall|i: int| 0 <= i < s.len() ==> is_ascii_digit(#[trigger] s[i])
}

/// What `str::parse` gives for an unsigned integer whose largest value is
/// `max`: an optional `+`, then one or more ASCII digits, within range.
pub open spec fn parse_unsigned(s: Seq<char>, max: nat) -> Option<nat> {
    let d = if s.len() > 0 && s[0] == '+' { s.drop_first() } else { s };
    if d.len() > 0 && all_digits(d) && decimal_value(d) <= max {
        Some(decimal_value(d))
    } else {
        None
    }
}

/// Whitespace test used throughout (`char::is_whitespace`).
pub fn is_whitespace_char(c: char) -> (res: bool)
    ensures
        res == is_ws(c),
{
    let u = c as u32;
    (0x09 <= u && u <= 0x0D) || u == 0x20 || u == 0x85 || u == 0xA0 || u == 0x1680 || (0x2000
        <= u && u <= 0x200A) || u == 0x2028 || u == 0x2029 || u == 0x202F || u == 0x205F || u
        == 0x3000
}

/// The characters of a string slice.
pub fn str_chars(s: &str) -> (res: Vec<char>)
    ensures
        res@ == s@,
{
    let mut res: Vec<char> = Vec::new();
    for c in it: s.chars()
        invariant
            res@ == it.seq().take(it.index() as int),
    {
        res.push(c);
    }
    res
}


/// The first index at which `c` occurs identifies `find_char`.
pub proof fn lemma_find_char_at(s: Seq<char>, c: char, i: int)
    requires
        0 <= i < s.len(),
        s[i] == c,
        forall|j: int| 0 <= j < i ==> s[j] != c,
    ensures
        find_char(s, c) == Some(i),
{
    reveal(find_char);
    assert(s.contains(c));
    let k = choose|k: int| 0 <= k < s.len() && s[k] == c && forall|j: int| 0 <= j < k ==> s[j] != c;
    assert(k == i) by {
        if k < i {
            assert(s[k] != c);
        } else if k > i {
            assert(s[i] != c);
        }
    }
}

/// Without any occurrence of `c`, `find_char` finds nothing.
pub proof fn lemma_find_char_none(s: Seq<char>, c: char)
    requires
        forall|j: int| 0 <= j < s.len() ==> s[j] != c,
    ensures
        find_char(s, c) == None::<int>,
{
    reveal(find_char);
    if s.contains(c) {
        let k = choose|k: int| 0 <= k < s.len() && s[k] == c;
        assert(s[k] != c);
    }
}

/// The first index at which `p` occurs identifies `find_seq`.
pub proof fn lemma_find_seq_at(s: Seq<char>, p: Seq<char>, i: int)
    requires
        occurs_at(s, p, i),
        forall|j: int| 0 <= j < i ==> !occurs_at(s, p, j),
    ensures
        find_seq(s, p) == Some(i),
{
    reveal(find_seq);
    assert(contains_seq(s, p));
    let k = choose|k: int| occurs_at(s, p, k) && forall|j: int| 0 <= j < k ==> !occurs_at(s, p, j);
    assert(k == i) by {
        if k < i {
            assert(!occurs_at(s, p, k));
        } else if k > i {
            assert(!occurs_at(s, p, i));
        }
    }
}

/// Without any occurrence of `p`, `find_seq` finds nothing.
pub proof fn lemma_find_seq_none(s: Seq<char>, p: Seq<char>)
    requires
        forall|j: int| 0 <= j ==> !occurs_at(s, p, j),
    ensures
        find_seq(s, p) == None::<int>,
{
    reveal(find_seq);
    if contains_seq(s, p) {
        let k = choose|k: int| occurs_at(s, p, k);
        assert(!occurs_at(s, p, k));
    }
}

/// The index of the first `c` in `s[from..to]`, as an index of `s`.
pub fn find_char_in(s: &[char], from: usize, to: usize, c: char) -> (res: Option<usize>)
    requires
        from <= to <= s@.len(),
    ensures
        match res {
            Some(i) => from <= i < to && find_char(s@.subrange(from as int, to as int), c) == Some(
                i - from,
            ),
            None => find_char(s@.subrange(from as int, to as int), c) == None::<int>,
        },
{
    let ghost sub = s@.subrange(from as int, to as int);
    let mut i = from;
    while i < to
        invariant
            from <= i <= to <= s@.len(),
            sub == s@.subrange(from as int, to as int),
            forall|j: int| from <= j < i ==> s@[j] != c,
        decreases to - i,
    {
        if s[i] == c {
            proof {
                assert forall|j: int| 0 <= j < i - from implies sub[j] != c by {
                    assert(sub[j] == s@[from + j]);
                }
                lemma_find_char_at(sub, c, i - from);
            }
            return Some(i);
        }
        i += 1;
    }
    proof {
        assert forall|j: int| 0 <= j < sub.len() implies sub[j] != c by {
            assert(sub[j] == s@[from + j]);
        }
        lemma_find_char_none(sub, c);
    }
    None
}

/// Whether `p` occurs in `s` at index `i`.
pub fn occurs_at_exec(s: &[char], p: &[char], i: usize) -> (res: bool)
    ensures
        res == occurs_at(s@, p@, i as int),
{
    if i > s.len() || p.len() > s.len() - i {
        return false;
    }
    let n = s.len();
    let mut k: usize = 0;
    while k < p.len()
        invariant
            n == s@.len(),
            i + p@.len() <= s@.len(),
            i <= s@.len(),
            k <= p@.len(),
            forall|j: int| 0 <= j < k ==> s@[i + j] == p@[j],
        decreases p@.len() - k,
    {
        if s[i + k] != p[k] {
            proof {
                assert(s@.subrange(i as int, i + p@.len())[k as int] != p@[k as int]);
            }
            return false;
        }
        k += 1;
    }
    assert(s@.subrange(i as int, i + p@.len()) =~= p@);
    true
}

/// The index of the first occurrence of `p` in `s[from..to]`, as an index of `s`.
pub fn find_seq_in(s: &[char], from: usize, to: usize, p: &[char]) -> (res: Option<usize>)
    requires
        from <= to <= s@.len(),
    ensures
        match res {
            Some(i) => from <= i && i + p@.len() <= to && find_seq(
                s@.subrange(from as int, to as int),
                p@,
            ) == Some(i - from),
            None => find_seq(s@.subrange(from as int, to as int), p@) == None::<int>,
        },
{
    let ghost sub = s@.subrange(from as int, to as int);
    let mut i = from;
    while p.len() <= to - i
        invariant
            from <= i <= to <= s@.len(),
            sub == s@.subrange(from as int, to as int),
            forall|j: int| 0 <= j < i - from ==> !occurs_at(sub, p@, j),
        decreases to + 1 - i,
    {
        if p.len() == 0 {
            assert(s@.subrange(i as int, i as int) =~= p@);
        }
        if occurs_at_exec(s, p, i) {
            proof {
                assert(sub.subrange(i - from, i - from + p@.len()) =~= s@.subrange(
                    i as int,
                    i + p@.len(),
                ));
                lemma_find_seq_at(sub, p@, i - from);
            }
            return Some(i);
        }
        proof {
            if occurs_at(sub, p@, i - from) {
                assert(sub.subrange(i - from, i - from + p@.len()) =~= s@.subrange(
                    i as int,
                    i + p@.len(),
                ));
            }
        }
        i += 1;
    }
    proof {
        assert forall|j: int| 0 <= j implies !occurs_at(sub, p@, j) by {
            if j >= i - from {
                assert(j + p@.len() > sub.len());
            }
        }
        lemma_find_seq_none(sub, p@);
    }
    None
}

/// A copy of `s[from..to]`.
pub fn sub_vec(s: &[char], from: usize, to: usize) -> (res: Vec<char>)
    requires
        from <= to <= s@.len(),
    ensures
        res@ == s@.subrange(from as int, to as int),
{
    let mut res: Vec<char> = Vec::new();
    let mut i = from;
    while i < to
        invariant
            from <= i <= to <= s@.len(),
            res@ == s@.subrange(from as int, i as int),
        decreases to - i,
    {
        res.push(s[i]);
        assert(res@ =~= s@.subrange(from as int, i + 1));
        i += 1;
    }
    res
}

/// Whether `s[from..to]` is entirely whitespace.
pub fn is_blank_in(s: &[char], from: usize, to: usize) -> (res: bool)
    requires
        from <= to <= s@.len(),
    ensures
        res == is_blank(s@.subrange(from as int, to as int)),
{
    let mut i = from;
    while i < to
        invariant
            from <= i <= to <= s@.len(),
            forall|j: int| from <= j < i ==> is_ws(s@[j]),
        decreases to - i,
    {
        if !is_whitespace_char(s[i]) {
            assert(!is_ws(s@.subrange(from as int, to as int)[i - from]));
            return false;
        }
        i += 1;
    }
    assert forall|j: int| 0 <= j < to - from implies is_ws(
        #[trigger] s@.subrange(from as int, to as int)[j],
    ) by {
        assert(s@.subrange(from as int, to as int)[j] == s@[from + j]);
    }
    true
}

/// Whether the character sequence `s` equals the text of `lit`.
pub fn chars_equal_str(s: &[char], lit: &str) -> (res: bool)
    ensures
        res == (s@ == lit@),
{
    let n = lit.unicode_len();
    if n != s.len() {
        return false;
    }
    let mut i: usize = 0;
    while i < n
        invariant
            n == lit@.len() == s@.len(),
            i <= n,
            forall|j: int| 0 <= j < i ==> s@[j] == lit@[j],
        decreases n - i,
    {
        if s[i] != lit.get_char(i) {
            return false;
        }
        i += 1;
    }
    assert(s@ =~= lit@);
    true
}


/// `Iterator::collect` of the characters into a `String` (std's
/// `FromIterator<&char>` for `String`). Claims: the string holds exactly
/// the given characters, in order.
#[verifier::external_body]
pub(crate) fn string_from_chars(v: &[char]) -> (res: String)
    ensures
        res@ == v@,
{
    v.iter().collect()
}

/// Decimal digits of `n`, most significant first, without leading zeros.
pub open spec fn decimal_digits(n: nat) -> Seq<char>
    decreases n,
{
    if n < 10 {
        seq![digit_char(n)]
    } else {
        decimal_digits(n / 10).push(digit_char(n % 10))
    }
}

pub open spec fn digit_char(d: nat) -> char {
    ('0' as u32 + d) as char
}

/// `n` in decimal, left-padded with zeros to at least `width` characters
/// (the `{:0width$}` format).
pub open spec fn padded_decimal(n: nat, width: nat) -> Seq<char> {
    let d = decimal_digits(n);
    Seq::new((if width > d.len() { width - d.len() } else { 0 }) as nat, |i: int| '0') + d
}

/// Appends the decimal digits of `n`.
pub fn push_decimal(n: u64, out: &mut Vec<char>)
    ensures
        final(out)@ == old(out)@ + decimal_digits(n as nat),
    decreases n,
{
    if n < 10 {
        out.push(char_of_digit(n));
    } else {
        push_decimal(n / 10, out);
        out.push(char_of_digit(n % 10));
    }
}

/// Appends the decimal digits of `n`.
pub fn push_decimal_u128(n: u128, out: &mut Vec<char>)
    ensures
        final(out)@ == old(out)@ + decimal_digits(n as nat),
    decreases n,
{
    if n < 10 {
        out.push(char_of_digit(n as u64));
    } else {
        push_decimal_u128(n / 10, out);
        out.push(char_of_digit((n % 10) as u64));
    }
}

pub fn char_of_digit(d: u64) -> (c: char)
    requires
        d < 10,
    ensures
        c == digit_char(d as nat),
{
    if d == 0 { '0' }
    else if d == 1 { '1' }
    else if d == 2 { '2' }
    else if d == 3 { '3' }
    else if d == 4 { '4' }
    else if d == 5 { '5' }
    else if d == 6 { '6' }
    else if d == 7 { '7' }
    else if d == 8 { '8' }
    else { '9' }
}

/// Appends `n` in decimal, zero-padded to at least `width` characters.
pub fn push_padded_decimal(n: u64, width: usize, out: &mut Vec<char>)
    ensures
        final(out)@ == old(out)@ + padded_decimal(n as nat, width as nat),
{
    let mut digits: Vec<char> = Vec::new();
    push_decimal(n, &mut digits);
    assert(digits@ =~= decimal_digits(n as nat));
    let ghost start = out@;
    let mut k: usize = digits.len();
    while k < width
        invariant
            digits.len() <= k,
            k <= width || k == digits.len(),
            out@ == start + Seq::new((k - digits.len()) as nat, |i: int| '0'),
        decreases width - k,
    {
        out.push('0');
        assert(out@ =~= start + Seq::new((k + 1 - digits.len()) as nat, |i: int| '0'));
        k += 1;
    }
    let ghost pad: nat = if width > digits.len() { (width - digits.len()) as nat } else { 0 };
    assert(k - digits.len() == pad);
    let mut i: usize = 0;
    let ghost mid = out@;
    while i < digits.len()
        invariant
            i <= digits.len(),
            out@ == mid + digits@.subrange(0, i as int),
        decreases digits.len() - i,
    {
        out.push(digits[i]);
        assert(out@ =~= mid + digits@.subrange(0, i + 1));
        i += 1;
    }
    assert(digits@.subrange(0, digits@.len() as int) =~= digits@);
    assert(out@ =~= old(out)@ + padded_decimal(n as nat, width as nat));
}


/// A prefix of a digit string is worth no more than the whole.
pub proof fn lemma_decimal_prefix_le(s: Seq<char>, k: int)
    requires
        0 <= k <= s.len(),
    ensures
        decimal_value(s.subrange(0, k)) <= decimal_value(s),
    decreases s.len(),
{
    if k < s.len() {
        lemma_decimal_prefix_le(s.drop_last(), k);
        assert(s.drop_last().subrange(0, k) =~= s.subrange(0, k));
    } else {
        assert(s.subrange(0, k) =~= s);
    }
}

/// `str::parse` of an unsigned integer no larger than `max`, applied to `s[from..to]`.
pub fn parse_unsigned_in(s: &[char], from: usize, to: usize, max: u64) -> (res: Option<u64>)
    requires
        from <= to <= s@.len(),
    ensures
        match res {
            Some(v) => parse_unsigned(s@.subrange(from as int, to as int), max as nat) == Some(
                v as nat,
            ),
            None => parse_unsigned(s@.subrange(from as int, to as int), max as nat) is None,
        },
{
    reveal(parse_unsigned);
    let ghost sub = s@.subrange(from as int, to as int);
    let mut start = from;
    if from < to && s[from] == '+' {
        start = from + 1;
    }
    let ghost d = s@.subrange(start as int, to as int);
    assert(d =~= (if sub.len() > 0 && sub[0] == '+' { sub.drop_first() } else { sub }));
    if start == to {
        return None;
    }
    let mut i = start;
    while i < to
        invariant
            start <= i <= to <= s@.len(),
            d == s@.subrange(start as int, to as int),
            sub == s@.subrange(from as int, to as int),
            d == (if sub.len() > 0 && sub[0] == '+' { sub.drop_first() } else { sub }),
            forall|j: int| start <= j < i ==> is_ascii_digit(s@[j]),
        decreases to - i,
    {
        if !('0' <= s[i] && s[i] <= '9') {
            assert(d[i - start] == s@[i as int]);
            assert(!is_ascii_digit(d[i - start]));
            return None;
        }
        i += 1;
    }
    assert(all_digits(d)) by {
        assert forall|j: int| 0 <= j < d.len() implies is_ascii_digit(#[trigger] d[j]) by {
            assert(d[j] == s@[start + j]);
        }
    }
    let mut acc: u64 = 0;
    let mut i = start;
    while i < to
        invariant
            start <= i <= to <= s@.len(),
            d == s@.subrange(start as int, to as int),
            sub == s@.subrange(from as int, to as int),
            d == (if sub.len() > 0 && sub[0] == '+' { sub.drop_first() } else { sub }),
            all_digits(d),
            acc as nat == decimal_value(d.subrange(0, i - start)),
            acc <= max,
        decreases to - i,
    {
        assert(d[i - start] == s@[i as int]);
        assert(is_ascii_digit(d[i - start]));
        let digit = (s[i] as u32 - '0' as u32) as u64;
        let ghost pre = d.subrange(0, i + 1 - start);
        assert(pre.drop_last() =~= d.subrange(0, i - start));
        if digit > max || acc > (max - digit) / 10 {
            proof {
                assert(decimal_value(pre) == acc * 10 + digit);
                if digit <= max {
                    assert(acc * 10 + digit > max) by (nonlinear_arith)
                        requires
                            acc > (max - digit) / 10,
                            digit <= max,
                    ;
                }
                lemma_decimal_prefix_le(d, i + 1 - start);
            }
            return None;
        }
        proof {
            assert(acc * 10 + digit <= max) by (nonlinear_arith)
                requires
                    acc <= (max - digit) / 10,
                    digit <= max,
            ;
        }
        acc = acc * 10 + digit;
        i += 1;
    }
    assert(d.subrange(0, d.len() as int) =~= d);
    Some(acc)
}


pub proof fn lemma_digit_char(k: nat)
    requires
        k < 10,
    ensures
        is_ascii_digit(digit_char(k)),
        digit_value(digit_char(k)) == k,
{
}

pub proof fn lemma_decimal_digits_props(n: nat)
    ensures
        decimal_digits(n).len() >= 1,
        all_digits(decimal_digits(n)),
        decimal_value(decimal_digits(n)) == n,
        n < 10 ==> decimal_digits(n).len() == 1,
        n < 100 ==> decimal_digits(n).len() <= 2,
        n < 1000 ==> decimal_digits(n).len() <= 3,
    decreases n,
{
    lemma_digit_char(n % 10);
    if n < 10 {
        assert(decimal_digits(n).drop_last() =~= Seq::<char>::empty());
        assert(decimal_value(Seq::<char>::empty()) == 0);
        assert(decimal_value(decimal_digits(n)) == decimal_value(decimal_digits(n).drop_last()) * 10
            + digit_value(decimal_digits(n).last()));
    }
    if n >= 10 {
        lemma_decimal_digits_props(n / 10);
        let d = decimal_digits(n);
        assert(d.drop_last() =~= decimal_digits(n / 10));
        assert(decimal_value(d) == decimal_value(d.drop_last()) * 10 + digit_value(d.last()));
        assert(n == (n / 10) * 10 + n % 10);
        assert forall|i: int| 0 <= i < d.len() implies is_ascii_digit(#[trigger] d[i]) by {
            if i < d.len() - 1 {
                assert(d[i] == decimal_digits(n / 10)[i]);
            }
        }
    }
}

/// Leading zeros do not change a decimal value.
pub proof fn lemma_decimal_leading_zeros(k: nat, x: Seq<char>)
    ensures
        decimal_value(Seq::new(k, |i: int| '0') + x) == decimal_value(x),
    decreases x.len() + k,
{
    let z = Seq::new(k, |i: int| '0');
    if x.len() == 0 {
        assert(z + x =~= z);
        if k > 0 {
            assert(z.drop_last() =~= Seq::new((k - 1) as nat, |i: int| '0'));
            lemma_decimal_leading_zeros((k - 1) as nat, x);
            assert(Seq::new((k - 1) as nat, |i: int| '0') + x =~= z.drop_last());
        }
    } else {
        assert((z + x).drop_last() =~= z + x.drop_last());
        lemma_decimal_leading_zeros(k, x.drop_last());
    }
}

pub proof fn lemma_padded_decimal_props(n: nat, w: nat)
    ensures
        all_digits(padded_decimal(n, w)),
        decimal_value(padded_decimal(n, w)) == n,
        padded_decimal(n, w).len() >= 1,
        padded_decimal(n, w).len() >= w,
        (w == 2 && n < 100) ==> padded_decimal(n, w).len() == 2,
        (w == 3 && n < 1000) ==> padded_decimal(n, w).len() == 3,
{
    lemma_decimal_digits_props(n);
    let d = decimal_digits(n);
    let k = (if w > d.len() { w - d.len() } else { 0 }) as nat;
    lemma_decimal_leading_zeros(k, d);
    let p = padded_decimal(n, w);
    assert forall|i: int| 0 <= i < p.len() implies is_ascii_digit(#[trigger] p[i]) by {
        if i >= k {
            assert(p[i] == d[i - k]);
        }
    }
}

/// A digit string parses to its decimal value when that fits.
pub proof fn lemma_parse_digits(s: Seq<char>, max: nat)
    requires
        s.len() > 0,
        all_digits(s),
        decimal_value(s) <= max,
    ensures
        parse_unsigned(s, max) == Some(decimal_value(s)),
{
    reveal(parse_unsigned);
    assert(is_ascii_digit(s[0]));
}

/// In `a + [c] + b` with `c` absent from `a`, the first `c` is at `a.len()`.
pub proof fn lemma_find_char_after_digits(a: Seq<char>, c: char, b: Seq<char>)
    requires
        all_digits(a),
        !is_ascii_digit(c),
    ensures
        find_char(a + seq![c] + b, c) == Some(a.len() as int),
        before_char(a + seq![c] + b, c) == a,
        after_char(a + seq![c] + b, c) == Some(b),
{
    let s = a + seq![c] + b;
    assert forall|j: int| 0 <= j < a.len() implies s[j] != c by {
        assert(s[j] == a[j]);
        assert(is_ascii_digit(a[j]));
    }
    lemma_find_char_at(s, c, a.len() as int);
    assert(s.subrange(0, a.len() as int) =~= a);
    assert(s.subrange(a.len() as int + 1, s.len() as int) =~= b);
}


/// What `find_char` returns is the first occurrence.
pub proof fn lemma_find_char_props(s: Seq<char>, c: char)
    ensures
        match find_char(s, c) {
            Some(i) => 0 <= i < s.len() && s[i] == c && forall|j: int| 0 <= j < i ==> s[j] != c,
            None => forall|j: int| 0 <= j < s.len() ==> s[j] != c,
        },
{
    reveal(find_char);
    if s.contains(c) {
        let k = choose|k: int| 0 <= k < s.len() && s[k] == c;
        lemma_first_index_exists(s, c, k);
    }
}

proof fn lemma_first_index_exists(s: Seq<char>, c: char, k: int)
    requires
        0 <= k < s.len(),
        s[k] == c,
    ensures
        exists|i: int| 0 <= i < s.len() && s[i] == c && forall|j: int| 0 <= j < i ==> s[j] != c,
    decreases k,
{
    if exists|j: int| 0 <= j < k && s[j] == c {
        let j = choose|j: int| 0 <= j < k && s[j] == c;
        lemma_first_index_exists(s, c, j);
    } else {
        assert(forall|j: int| 0 <= j < k ==> s[j] != c);
    }
}

/// What `find_seq` returns is the first occurrence.
pub proof fn lemma_find_seq_props(s: Seq<char>, p: Seq<char>)
    ensures
        match find_seq(s, p) {
            Some(i) => occurs_at(s, p, i) && forall|j: int| 0 <= j < i ==> !occurs_at(s, p, j),
            None => forall|j: int| !occurs_at(s, p, j),
        },
{
    reveal(find_seq);
    if contains_seq(s, p) {
        let k = choose|k: int| occurs_at(s, p, k);
        lemma_first_occurrence_exists(s, p, k);
    }
}

proof fn lemma_first_occurrence_exists(s: Seq<char>, p: Seq<char>, k: int)
    requires
        occurs_at(s, p, k),
    ensures
        exists|i: int| occurs_at(s, p, i) && forall|j: int| 0 <= j < i ==> !occurs_at(s, p, j),
    decreases k,
{
    if exists|j: int| 0 <= j < k && occurs_at(s, p, j) {
        let j = choose|j: int| 0 <= j < k && occurs_at(s, p, j);
        lemma_first_occurrence_exists(s, p, j);
    } else {
        assert(forall|j: int| 0 <= j < k ==> !occurs_at(s, p, j));
    }
}

/// A `String` holding `s[from..to]`.
pub fn string_of_range(s: &[char], from: usize, to: usize) -> (res: String)
    requires
        from <= to <= s@.len(),
    ensures
        res@ == s@.subrange(from as int, to as int),
{
    string_from_chars(vstd::slice::slice_subrange(s, from, to))
}


proof fn lemma_trim_start_skip(s: Seq<char>, i: int)
    requires
        0 <= i <= s.len(),
        forall|j: int| 0 <= j < i ==> is_ws(s[j]),
    ensures
        trim_start(s) == trim_start(s.subrange(i, s.len() as int)),
    decreases i,
{
    if i == 0 {
        assert(s.subrange(0, s.len() as int) =~= s);
    } else {
        assert(s.drop_first().subrange(i - 1, s.len() - 1) =~= s.subrange(i, s.len() as int));
        lemma_trim_start_skip(s.drop_first(), i - 1);
    }
}

proof fn lemma_trim_end_skip(s: Seq<char>, i: int)
    requires
        0 <= i <= s.len(),
        forall|j: int| i <= j < s.len() ==> is_ws(s[j]),
    ensures
        trim_end(s) == trim_end(s.subrange(0, i)),
    decreases s.len() - i,
{
    if i == s.len() {
        assert(s.subrange(0, i) =~= s);
    } else {
        assert(s.drop_last().subrange(0, i) =~= s.subrange(0, i));
        lemma_trim_end_skip(s.drop_last(), i);
    }
}

/// The first index of `s[from..to]` that is not whitespace (`to` if none).
pub fn skip_ws_forward(s: &[char], from: usize, to: usize) -> (res: usize)
    requires
        from <= to <= s@.len(),
    ensures
        from <= res <= to,
        trim_start(s@.subrange(from as int, to as int)) == s@.subrange(res as int, to as int),
{
    let mut i = from;
    while i < to && is_whitespace_char(s[i])
        invariant
            from <= i <= to <= s@.len(),
            forall|j: int| from <= j < i ==> is_ws(s@[j]),
        decreases to - i,
    {
        i += 1;
    }
    proof {
        let sub = s@.subrange(from as int, to as int);
        lemma_trim_start_skip(sub, i - from);
        assert(sub.subrange(i - from, sub.len() as int) =~= s@.subrange(i as int, to as int));
    }
    i
}

/// The end of `s[from..to]` once trailing whitespace is dropped.
pub fn skip_ws_backward(s: &[char], from: usize, to: usize) -> (res: usize)
    requires
        from <= to <= s@.len(),
    ensures
        from <= res <= to,
        trim_end(s@.subrange(from as int, to as int)) == s@.subrange(from as int, res as int),
{
    let mut i = to;
    while i > from && is_whitespace_char(s[i - 1])
        invariant
            from <= i <= to <= s@.len(),
            forall|j: int| i <= j < to ==> is_ws(s@[j]),
        decreases i - from,
    {
        i -= 1;
    }
    proof {
        let sub = s@.subrange(from as int, to as int);
        lemma_trim_end_skip(sub, i - from);
        assert(sub.subrange(0, i - from) =~= s@.subrange(from as int, i as int));
    }
    i
}

/// The bounds of `trim(s[from..to])`.
pub fn trim_bounds(s: &[char], from: usize, to: usize) -> (res: (usize, usize))
    requires
        from <= to <= s@.len(),
    ensures
        from <= res.0 <= res.1 <= to,
        trim(s@.subrange(from as int, to as int)) == s@.subrange(res.0 as int, res.1 as int),
{
    let a = skip_ws_forward(s, from, to);
    let b = skip_ws_backward(s, a, to);
    (a, b)
}

/// Whether `s[from..to]` equals `lit`.
pub fn range_equals(s: &[char], from: usize, to: usize, lit: &[char]) -> (res: bool)
    requires
        from <= to <= s@.len(),
    ensures
        res == (s@.subrange(from as int, to as int) == lit@),
{
    if to - from != lit.len() {
        return false;
    }
    let r = occurs_at_exec(s, lit, from);
    r
}

/// Whether `s[from..to]` starts with `lit`.
pub fn range_starts_with(s: &[char], from: usize, to: usize, lit: &[char]) -> (res: bool)
    requires
        from <= to <= s@.len(),
    ensures
        res == starts_with(s@.subrange(from as int, to as int), lit@),
{
    if lit.len() > to - from {
        return false;
    }
    let r = occurs_at_exec(s, lit, from);
    assert(s@.subrange(from as int, to as int).subrange(0, lit@.len() as int) =~= s@.subrange(
        from as int,
        from + lit@.len(),
    ));
    r
}

/// Whether `lit` occurs anywhere in `s`.
pub fn contains_chars(s: &[char], lit: &[char]) -> (res: bool)
    ensures
        res == contains_seq(s@, lit@),
{
    let r = find_seq_in(s, 0, s.len(), lit);
    proof {
        assert(s@.subrange(0, s@.len() as int) =~= s@);
        lemma_find_seq_props(s@, lit@);
    }
    r.is_some()
}


/// Whether two character slices hold the same characters.
pub fn slices_equal(s: &[char], lit: &[char]) -> (res: bool)
    ensures
        res == (s@ == lit@),
{
    if s.len() != lit.len() {
        return false;
    }
    let mut i: usize = 0;
    while i < s.len()
        invariant
            s@.len() == lit@.len(),
            i <= s@.len(),
            forall|j: int| 0 <= j < i ==> s@[j] == lit@[j],
        decreases s@.len() - i,
    {
        if s[i] != lit[i] {
            return false;
        }
        i += 1;
    }
    assert(s@ =~= lit@);
    true
}

/// Appends all of `src` to `out`.
pub fn push_all(out: &mut Vec<char>, src: &[char])
    ensures
        final(out)@ == old(out)@ + src@,
{
    let mut i: usize = 0;
    while i < src.len()
        invariant
            i <= src@.len(),
            out@ == old(out)@ + src@.subrange(0, i as int),
        decreases src@.len() - i,
    {
        out.push(src[i]);
        assert(out@ =~= old(out)@ + src@.subrange(0, i + 1));
        i += 1;
    }
    assert(src@.subrange(0, src@.len() as int) =~= src@);
}

/// The texts of a list of strings.
pub open spec fn strings_view(v: Seq<String>) -> Seq<Seq<char>> {
    v.map_values(|s: String| s@)
}

/// Text order: character by character by code point, a proper prefix
/// before the longer text.
pub open spec fn text_le(a: Seq<char>, b: Seq<char>) -> bool
    decreases a.len(),
{
    if a.len() == 0 {
        true
    } else if b.len() == 0 {
        false
    } else if a[0] != b[0] {
        (a[0] as int) < (b[0] as int)
    } else {
        text_le(a.drop_first(), b.drop_first())
    }
}

pub proof fn lemma_text_le_total(a: Seq<char>, b: Seq<char>)
    ensures
        text_le(a, b) || text_le(b, a),
    decreases a.len(),
{
    if a.len() > 0 && b.len() > 0 {
        if a[0] == b[0] {
            lemma_text_le_total(a.drop_first(), b.drop_first());
        } else {
            assert((a[0] as int) != (b[0] as int));
        }
    }
}

pub proof fn lemma_text_le_transitive(a: Seq<char>, b: Seq<char>, c: Seq<char>)
    requires
        text_le(a, b),
        text_le(b, c),
    ensures
        text_le(a, c),
    decreases a.len(),
{
    if a.len() > 0 && b.len() > 0 && c.len() > 0 && a[0] == b[0] && b[0] == c[0] {
        lemma_text_le_transitive(a.drop_first(), b.drop_first(), c.drop_first());
    }
}

/// Each text is at most every later one.
pub open spec fn sorted_texts(s: Seq<Seq<char>>) -> bool {
    forall|i: int, j: int| 0 <= i < j < s.len() ==> text_le(#[trigger] s[i], #[trigger] s[j])
}

/// Whether `a` comes no later than `b` in text order.
pub fn text_le_exec(a: &[char], b: &[char]) -> (res: bool)
    ensures
        res == text_le(a@, b@),
{
    let mut i: usize = 0;
    assert(a@.subrange(0, a@.len() as int) =~= a@);
    assert(b@.subrange(0, b@.len() as int) =~= b@);
    while i < a.len() && i < b.len()
        invariant
            i <= a@.len(),
            i <= b@.len(),
            text_le(a@, b@) == text_le(
                a@.subrange(i as int, a@.len() as int),
                b@.subrange(i as int, b@.len() as int),
            ),
        decreases a@.len() - i,
    {
        let ghost sa = a@.subrange(i as int, a@.len() as int);
        let ghost sb = b@.subrange(i as int, b@.len() as int);
        assert(sa[0] == a@[i as int] && sb[0] == b@[i as int]);
        if a[i] != b[i] {
            return a[i] < b[i];
        }
        assert(sa.drop_first() =~= a@.subrange(i + 1, a@.len() as int));
        assert(sb.drop_first() =~= b@.subrange(i + 1, b@.len() as int));
        i += 1;
    }
    i == a.len()
}

/// Sorts texts into text order, keeping each one as often as it occurs.
pub fn sort_texts(v: Vec<String>) -> (res: Vec<String>)
    ensures
        sorted_texts(strings_view(res@)),
        strings_view(res@).to_multiset() == strings_view(v@).to_multiset(),
{
    let mut res: Vec<String> = Vec::new();
    let mut k: usize = 0;
    assert(strings_view(v@.subrange(0, 0)) =~= strings_view(res@));
    while k < v.len()
        invariant
            k <= v@.len(),
            sorted_texts(strings_view(res@)),
            strings_view(res@).to_multiset() == strings_view(v@.subrange(0, k as int)).to_multiset(),
        decreases v@.len() - k,
    {
        let x = str_chars(v[k].as_str());
        let ghost r = strings_view(res@);
        let mut p: usize = 0;
        let mut scanning = true;
        while scanning && p < res.len()
            invariant
                k < v@.len(),
                p <= res@.len(),
                r == strings_view(res@),
                x@ == v@[k as int]@,
                forall|i: int| 0 <= i < p ==> text_le(#[trigger] r[i], x@),
                !scanning ==> p < r.len() && !text_le(r[p as int], x@),
            decreases res@.len() - p + if scanning { 1int } else { 0int },
        {
            let y = str_chars(res[p].as_str());
            if text_le_exec(y.as_slice(), x.as_slice()) {
                p += 1;
            } else {
                scanning = false;
            }
        }
        proof {
            if p < r.len() {
                lemma_text_le_total(r[p as int], x@);
            }
        }
        let ghost xv = x@;
        res.insert(p, v[k].clone());
        let ghost n = strings_view(res@);
        assert(n =~= r.insert(p as int, xv));
        assert forall|i: int, j: int| 0 <= i < j < n.len() implies text_le(#[trigger] n[i], #[trigger] n[j]) by {
            if j < p {
                assert(n[i] == r[i] && n[j] == r[j]);
            } else if j == p {
                assert(n[i] == r[i] && n[j] == xv);
            } else if i < p {
                assert(n[i] == r[i] && n[j] == r[j - 1]);
                if p < r.len() {
                    assert(text_le(xv, r[p as int]));
                    if j - 1 > p {
                        lemma_text_le_transitive(xv, r[p as int], r[j - 1]);
                    }
                    lemma_text_le_transitive(r[i], xv, r[j - 1]);
                }
            } else if i == p {
                assert(n[i] == xv && n[j] == r[j - 1]);
                if j - 1 > p {
                    lemma_text_le_transitive(xv, r[p as int], r[j - 1]);
                }
            } else {
                assert(n[i] == r[i - 1] && n[j] == r[j - 1]);
            }
        }
        proof {
            vstd::seq_lib::to_multiset_insert(r, p as int, xv);
            let before = strings_view(v@.subrange(0, k as int));
            let after = strings_view(v@.subrange(0, k + 1));
            assert(after =~= before.push(xv));
            vstd::seq_lib::to_multiset_build(before, xv);
        }
        k += 1;
    }
    assert(v@.subrange(0, v@.len() as int) =~= v@);
    res
}

} // verus!
