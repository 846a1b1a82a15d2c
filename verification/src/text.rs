//! Character-level specification helpers shared by both variants: digit
//! classification, decimal values, scanning for the first character that
//! satisfies a predicate, trimming spaces, and splitting on commas.

use vstd::prelude::*;

verus! {

/// `c` is a decimal digit `'0'..='9'`.
pub open spec fn is_digit(c: char) -> bool {
    48 <= c as u32 && c as u32 <= 57
}

/// Numeric value of a digit character.
pub open spec fn digit_val(c: char) -> int {
    c as u32 - 48
}

/// The digit character for a value in `0..=9`.
pub open spec fn digit_char(d: int) -> char {
    if d == 0 {
        '0'
    } else if d == 1 {
        '1'
    } else if d == 2 {
        '2'
    } else if d == 3 {
        '3'
    } else if d == 4 {
        '4'
    } else if d == 5 {
        '5'
    } else if d == 6 {
        '6'
    } else if d == 7 {
        '7'
    } else if d == 8 {
        '8'
    } else {
        '9'
    }
}

pub proof fn lemma_digit_char_val(d: int)
    requires
        0 <= d <= 9,
    ensures
        is_digit(digit_char(d)),
        digit_val(digit_char(d)) == d,
{
}

/// Index of the first character satisfying `f`, or `s.len()` if none does.
pub open spec fn first_where(s: Seq<char>, f: spec_fn(char) -> bool) -> int
    decreases s.len(),
{
    if s.len() == 0 {
        0
    } else if f(s[0]) {
        0
    } else {
        1 + first_where(s.skip(1), f)
    }
}

pub proof fn lemma_first_where(s: Seq<char>, f: spec_fn(char) -> bool)
    ensures
        0 <= first_where(s, f) <= s.len(),
        forall|j: int| 0 <= j < first_where(s, f) ==> !f(s[j]),
        first_where(s, f) < s.len() ==> f(s[first_where(s, f)]),
    decreases s.len(),
{
    if s.len() == 0 {
    } else if f(s[0]) {
    } else {
        lemma_first_where(s.skip(1), f);
        assert forall|j: int| 0 <= j < first_where(s, f) implies !f(s[j]) by {
            if j > 0 {
                assert(s.skip(1)[j - 1] == s[j]);
            }
        }
        if first_where(s, f) < s.len() {
            assert(s.skip(1)[first_where(s, f) - 1] == s[first_where(s, f)]);
        }
    }
}

/// `first_where` is pinned down by its characteristic properties.
pub proof fn lemma_first_where_is(s: Seq<char>, f: spec_fn(char) -> bool, i: int)
    requires
        0 <= i <= s.len(),
        forall|j: int| 0 <= j < i ==> !f(s[j]),
        i < s.len() ==> f(s[i]),
    ensures
        first_where(s, f) == i,
    decreases s.len(),
{
    if s.len() == 0 {
    } else if f(s[0]) {
        assert(i == 0);
    } else {
        assert(i > 0);
        assert forall|j: int| 0 <= j < i - 1 implies !f(s.skip(1)[j]) by {
            assert(s.skip(1)[j] == s[j + 1]);
        }
        if i - 1 < s.skip(1).len() {
            assert(s.skip(1)[i - 1] == s[i]);
        }
        lemma_first_where_is(s.skip(1), f, i - 1);
    }
}

/// Number of characters of `s` satisfying `f`.
pub open spec fn count_where(s: Seq<char>, f: spec_fn(char) -> bool) -> int
    decreases s.len(),
{
    if s.len() == 0 {
        0
    } else {
        count_where(s.drop_last(), f) + if f(s.last()) {
            1int
        } else {
            0int
        }
    }
}

pub proof fn lemma_count_where_concat(a: Seq<char>, b: Seq<char>, f: spec_fn(char) -> bool)
    ensures
        count_where(a + b, f) == count_where(a, f) + count_where(b, f),
    decreases b.len(),
{
    if b.len() == 0 {
        assert(a + b =~= a);
    } else {
        assert((a + b).drop_last() =~= a + b.drop_last());
        assert((a + b).last() == b.last());
        lemma_count_where_concat(a, b.drop_last(), f);
    }
}

pub proof fn lemma_count_where_zero(s: Seq<char>, f: spec_fn(char) -> bool)
    requires
        forall|j: int| 0 <= j < s.len() ==> !f(s[j]),
    ensures
        count_where(s, f) == 0,
    decreases s.len(),
{
    if s.len() > 0 {
        assert(forall|j: int| 0 <= j < s.len() - 1 ==> #[trigger] s.drop_last()[j] == s[j]);
        assert(!f(s[s.len() - 1]));
        lemma_count_where_zero(s.drop_last(), f);
    }
}

pub open spec fn comma_pred() -> spec_fn(char) -> bool {
    |c: char| c == ','
}

pub open spec fn dash_pred() -> spec_fn(char) -> bool {
    |c: char| c == '-'
}

pub open spec fn non_digit_pred() -> spec_fn(char) -> bool {
    |c: char| !is_digit(c)
}

pub open spec fn non_space_pred() -> spec_fn(char) -> bool {
    |c: char| c != ' '
}

/// One past the last non-space character of `s` (0 when `s` is all spaces).
pub open spec fn trim_end_idx(s: Seq<char>) -> int
    decreases s.len(),
{
    if s.len() == 0 {
        0
    } else if s.last() == ' ' {
        trim_end_idx(s.drop_last())
    } else {
        s.len() as int
    }
}

pub proof fn lemma_trim_end_idx(s: Seq<char>)
    ensures
        0 <= trim_end_idx(s) <= s.len(),
        forall|j: int| trim_end_idx(s) <= j < s.len() ==> s[j] == ' ',
        trim_end_idx(s) > 0 ==> s[trim_end_idx(s) - 1] != ' ',
    decreases s.len(),
{
    if s.len() > 0 && s.last() == ' ' {
        lemma_trim_end_idx(s.drop_last());
        assert forall|j: int| trim_end_idx(s) <= j < s.len() implies s[j] == ' ' by {
            if j < s.len() - 1 {
                assert(s.drop_last()[j] == s[j]);
            } else {
                assert(s[j] == s.last());
            }
        }
    }
}

pub proof fn lemma_trim_end_idx_is(s: Seq<char>, b: int)
    requires
        0 <= b <= s.len(),
        forall|j: int| b <= j < s.len() ==> s[j] == ' ',
        b > 0 ==> s[b - 1] != ' ',
    ensures
        trim_end_idx(s) == b,
    decreases s.len(),
{
    if s.len() > 0 {
        if s.last() == ' ' {
            assert(b < s.len());
            lemma_trim_end_idx_is(s.drop_last(), b);
        } else {
            assert(b == s.len());
        }
    }
}

/// `s` with leading and trailing spaces removed.
pub open spec fn spec_trim(s: Seq<char>) -> Seq<char> {
    let a = first_where(s, non_space_pred());
    let b = trim_end_idx(s);
    if a >= b {
        Seq::<char>::empty()
    } else {
        s.subrange(a, b)
    }
}

/// Trimming ignores a leading space.
pub proof fn lemma_trim_leading_space(t: Seq<char>)
    ensures
        spec_trim(seq![' '] + t) == spec_trim(t),
{
    let s = seq![' '] + t;
    assert(s[0] == ' ');
    assert(s.skip(1) =~= t);
    assert(first_where(s, non_space_pred()) == 1 + first_where(t, non_space_pred()));
    lemma_first_where(t, non_space_pred());
    lemma_trim_end_idx(t);
    let a = first_where(t, non_space_pred());
    let b = trim_end_idx(t);
    if b == 0 {
        assert forall|j: int| 0 <= j < s.len() implies s[j] == ' ' by {
            if j > 0 {
                assert(s[j] == t[j - 1]);
            }
        }
        lemma_trim_end_idx_is(s, 0);
        assert(a >= b);
        assert(spec_trim(s) == Seq::<char>::empty());
    } else {
        assert forall|j: int| b + 1 <= j < s.len() implies s[j] == ' ' by {
            assert(s[j] == t[j - 1]);
        }
        assert(s[b] == t[b - 1]);
        lemma_trim_end_idx_is(s, b + 1);
        if a >= b {
            assert(spec_trim(s) == Seq::<char>::empty());
        } else {
            assert(s.subrange(a + 1, b + 1) =~= t.subrange(a, b));
        }
    }
}

/// Decimal value of a digit string (most significant digit first).
pub open spec fn digits_val(s: Seq<char>) -> int
    decreases s.len(),
{
    if s.len() == 0 {
        0
    } else {
        10 * digits_val(s.drop_last()) + digit_val(s.last())
    }
}

pub open spec fn all_digits(s: Seq<char>) -> bool {
    forall|i: int| 0 <= i < s.len() ==> is_digit(#[trigger] s[i])
}

pub proof fn lemma_digits_val_nonneg(s: Seq<char>)
    requires
        all_digits(s),
    ensures
        digits_val(s) >= 0,
    decreases s.len(),
{
    if s.len() > 0 {
        assert(all_digits(s.drop_last())) by {
            assert(forall|i: int|
                0 <= i < s.len() - 1 ==> #[trigger] s.drop_last()[i] == s[i]);
        }
        lemma_digits_val_nonneg(s.drop_last());
        assert(is_digit(s.last()));
    }
}

// Error descriptions shared by the two variants.
pub open spec fn msg_wrong_format() -> Seq<char> {
    "Wrong format"@
}

pub open spec fn msg_bad_format() -> Seq<char> {
    "Bad range format"@
}

pub open spec fn msg_invalid_digit() -> Seq<char> {
    "invalid digit found in string"@
}

pub open spec fn msg_empty_number() -> Seq<char> {
    "cannot parse integer from empty string"@
}

pub open spec fn msg_too_large() -> Seq<char> {
    "number too large to fit in target type"@
}

pub open spec fn msg_too_small() -> Seq<char> {
    "number too small to fit in target type"@
}

/// The comma-separated pieces of `s`: one more piece than commas, each piece
/// without its surrounding commas. The empty text has one empty piece.
pub open spec fn split_at_commas(s: Seq<char>) -> Seq<Seq<char>>
    decreases s.len(),
{
    if s.len() == 0 {
        seq![Seq::<char>::empty()]
    } else if s[0] == ',' {
        seq![Seq::<char>::empty()] + split_at_commas(s.skip(1))
    } else {
        let rest = split_at_commas(s.skip(1));
        seq![seq![s[0]] + rest[0]] + rest.skip(1)
    }
}

pub proof fn lemma_split_len(s: Seq<char>)
    ensures
        split_at_commas(s).len() >= 1,
    decreases s.len(),
{
    if s.len() > 0 {
        lemma_split_len(s.skip(1));
    }
}

/// Splitting at the first comma: the head piece runs up to it, and the rest
/// of the pieces are the split of what follows it.
pub proof fn lemma_split_first(s: Seq<char>, i: int)
    requires
        0 <= i <= s.len(),
        forall|j: int| 0 <= j < i ==> s[j] != ',',
        i < s.len() ==> s[i] == ',',
    ensures
        i == s.len() ==> split_at_commas(s) =~~= seq![s],
        i < s.len() ==> split_at_commas(s) =~~= seq![s.take(i)] + split_at_commas(s.skip(i + 1)),
    decreases s.len(),
{
    lemma_split_len(s);
    if s.len() == 0 {
        assert(split_at_commas(s) == seq![Seq::<char>::empty()]);
        assert(seq![s] =~~= seq![Seq::<char>::empty()]);
    } else if i == 0 {
        if i < s.len() {
            assert(s.take(0) =~= Seq::<char>::empty());
            assert(s.skip(1) =~= s.skip(i + 1));
        }
    } else {
        assert(s[0] != ',');
        let r = s.skip(1);
        assert(forall|j: int| 0 <= j < i - 1 ==> #[trigger] r[j] == s[j + 1]);
        lemma_split_first(r, i - 1);
        lemma_split_len(r);
        let rest = split_at_commas(r);
        if i == s.len() {
            assert(rest =~~= seq![r]);
            assert(seq![s[0]] + rest[0] =~= s);
            assert(split_at_commas(s) =~~= seq![s]);
        } else {
            assert(r[i - 1] == s[i]);
            assert(rest =~~= seq![r.take(i - 1)] + split_at_commas(r.skip(i)));
            assert(r.skip(i) =~= s.skip(i + 1));
            assert(rest[0] == r.take(i - 1));
            assert(seq![s[0]] + r.take(i - 1) =~= s.take(i));
            assert(rest.skip(1) =~~= split_at_commas(s.skip(i + 1)));
            assert(split_at_commas(s) =~~= seq![s.take(i)] + split_at_commas(s.skip(i + 1)));
        }
    }
}

/// The value of a digit string is at least the value of any of its prefixes.
pub proof fn lemma_digits_val_prefix(s: Seq<char>, i: int)
    requires
        all_digits(s),
        0 <= i <= s.len(),
    ensures
        digits_val(s) >= digits_val(s.take(i)) >= 0,
    decreases s.len(),
{
    lemma_digits_val_nonneg(s);
    if i == s.len() {
        assert(s.take(i) == s);
    } else {
        assert(all_digits(s.drop_last())) by {
            assert(forall|i: int|
                0 <= i < s.len() - 1 ==> #[trigger] s.drop_last()[i] == s[i]);
        }
        assert(s.drop_last().take(i) == s.take(i));
        lemma_digits_val_prefix(s.drop_last(), i);
        assert(is_digit(s.last()));
        assert(digits_val(s) >= digits_val(s.drop_last()));
    }
}

/// Decimal rendering of a non-negative number, most significant digit first.
pub open spec fn fmt_nat(n: int) -> Seq<char>
    decreases n,
{
    if n < 10 {
        seq![digit_char(n)]
    } else {
        fmt_nat(n / 10).push(digit_char(n % 10))
    }
}

pub proof fn lemma_fmt_nat(n: int)
    requires
        n >= 0,
    ensures
        fmt_nat(n).len() >= 1,
        all_digits(fmt_nat(n)),
        digits_val(fmt_nat(n)) == n,
    decreases n,
{
    if n < 10 {
        lemma_digit_char_val(n);
        assert(fmt_nat(n) == seq![digit_char(n)]);
        assert(fmt_nat(n).drop_last() =~= Seq::<char>::empty());
        assert(fmt_nat(n).last() == digit_char(n));
        assert(fmt_nat(n)[0] == digit_char(n));
        assert(digits_val(fmt_nat(n).drop_last()) == 0);
        assert(digits_val(fmt_nat(n)) == 10 * digits_val(fmt_nat(n).drop_last()) + digit_val(
            fmt_nat(n).last(),
        ));
        assert(digits_val(fmt_nat(n)) == n);
    } else {
        vstd::arithmetic::div_mod::lemma_fundamental_div_mod(n, 10);
        vstd::arithmetic::div_mod::lemma_mod_bound(n, 10);
        lemma_fmt_nat(n / 10);
        lemma_digit_char_val(n % 10);
        let f = fmt_nat(n);
        assert(f == fmt_nat(n / 10).push(digit_char(n % 10)));
        assert(f.drop_last() =~= fmt_nat(n / 10));
        assert(f.last() == digit_char(n % 10));
        assert forall|i: int| 0 <= i < f.len() implies is_digit(#[trigger] f[i]) by {
            if i < f.len() - 1 {
                assert(f[i] == fmt_nat(n / 10)[i]);
            }
        }
        assert(digits_val(f) == 10 * digits_val(f.drop_last()) + digit_val(f.last()));
        assert(digits_val(f.drop_last()) == n / 10);
        assert(n == 10 * (n / 10) + (n % 10));
        assert(digits_val(f) == n);
    }
}

/// Remove leading and trailing spaces.
pub fn trim_str<'a>(s: &'a str) -> (r: &'a str)
    ensures
        r@ == spec_trim(s@),
{
    let n = s.unicode_len();
    let mut a: usize = 0;
    while a < n && s.get_char(a) == ' '
        invariant
            a <= n,
            n == s@.len(),
            forall|j: int| 0 <= j < a ==> s@[j] == ' ',
        decreases n - a,
    {
        a += 1;
    }
    proof {
        lemma_first_where_is(s@, non_space_pred(), a as int);
    }
    let mut b: usize = n;
    while b > 0 && s.get_char(b - 1) == ' '
        invariant
            b <= n,
            n == s@.len(),
            forall|j: int| b <= j < n ==> s@[j] == ' ',
        decreases b,
    {
        b -= 1;
    }
    proof {
        lemma_trim_end_idx_is(s@, b as int);
    }
    if a >= b {
        let r = s.substring_char(0, 0);
        proof {
            assert(r@ =~= Seq::<char>::empty());
        }
        r
    } else {
        s.substring_char(a, b)
    }
}

/// Decimal value of the digits `s[lo..hi]`, capped: `None` reports a value
/// beyond `u32::MAX`.
pub fn parse_mag(s: &str, lo: usize, hi: usize) -> (r: Option<u64>)
    requires
        lo <= hi <= s@.len(),
        forall|j: int| lo <= j < hi ==> is_digit(#[trigger] s@[j]),
    ensures
        (match r {
            Some(v) => v as int == digits_val(s@.subrange(lo as int, hi as int)) && v
                <= 0xFFFF_FFFFu64,
            None => digits_val(s@.subrange(lo as int, hi as int)) > 0xFFFF_FFFFu64,
        }),
{
    let ghost sub = s@.subrange(lo as int, hi as int);
    proof {
        assert(forall|j: int| 0 <= j < sub.len() ==> #[trigger] sub[j] == s@[lo + j]);
    }
    let mut acc: u64 = 0;
    let mut i: usize = lo;
    while i < hi
        invariant
            lo <= i <= hi <= s@.len(),
            sub == s@.subrange(lo as int, hi as int),
            forall|j: int| 0 <= j < sub.len() ==> #[trigger] sub[j] == s@[lo + j],
            forall|j: int| lo <= j < hi ==> is_digit(#[trigger] s@[j]),
            acc as int == digits_val(sub.take(i - lo)),
            acc <= 0xFFFF_FFFFu64,
        decreases hi - i,
    {
        let c = s.get_char(i);
        let u = c as u32;
        proof {
            assert(sub[i - lo] == s@[i as int]);
            assert(is_digit(c));
            assert(sub.take(i - lo + 1).drop_last() =~= sub.take(i - lo));
            assert(sub.take(i - lo + 1).last() == c);
        }
        let acc2: u64 = acc * 10 + (u - 48) as u64;
        proof {
            assert(acc2 as int == digits_val(sub.take(i - lo + 1)));
        }
        if acc2 > 0xFFFF_FFFF {
            proof {
                assert(all_digits(sub));
                lemma_digits_val_prefix(sub, i - lo + 1);
            }
            return None;
        }
        acc = acc2;
        i += 1;
    }
    proof {
        assert(sub.take(hi - lo) =~= sub);
    }
    Some(acc)
}

/// The single-character text of a digit value.
pub fn digit_str(d: u32) -> (r: &'static str)
    requires
        d < 10,
    ensures
        r@ =~= seq![digit_char(d as int)],
{
    if d == 0 {
        proof {
            reveal_strlit("0");
        }
        "0"
    } else if d == 1 {
        proof {
            reveal_strlit("1");
        }
        "1"
    } else if d == 2 {
        proof {
            reveal_strlit("2");
        }
        "2"
    } else if d == 3 {
        proof {
            reveal_strlit("3");
        }
        "3"
    } else if d == 4 {
        proof {
            reveal_strlit("4");
        }
        "4"
    } else if d == 5 {
        proof {
            reveal_strlit("5");
        }
        "5"
    } else if d == 6 {
        proof {
            reveal_strlit("6");
        }
        "6"
    } else if d == 7 {
        proof {
            reveal_strlit("7");
        }
        "7"
    } else if d == 8 {
        proof {
            reveal_strlit("8");
        }
        "8"
    } else {
        proof {
            reveal_strlit("9");
        }
        "9"
    }
}

/// Index of the first non-digit in `s[lo..hi]`, or `hi` when all are digits.
pub fn scan_non_digit(s: &str, lo: usize, hi: usize) -> (k: usize)
    requires
        lo <= hi <= s@.len(),
    ensures
        lo <= k <= hi,
        k - lo == first_where(s@.subrange(lo as int, hi as int), non_digit_pred()),
        forall|j: int| lo <= j < k ==> is_digit(#[trigger] s@[j]),
        k < hi ==> !is_digit(s@[k as int]),
{
    let ghost sub = s@.subrange(lo as int, hi as int);
    let mut k: usize = hi;
    let mut i: usize = lo;
    while i < hi
        invariant
            lo <= i <= hi <= s@.len(),
            lo <= k,
            k == hi || k < i,
            k == hi ==> forall|j: int| lo <= j < i ==> is_digit(#[trigger] s@[j]),
            k < hi ==> !is_digit(s@[k as int]) && forall|j: int|
                lo <= j < k ==> is_digit(#[trigger] s@[j]),
        decreases hi - i,
    {
        let c = s.get_char(i);
        let u = c as u32;
        if k == hi && (u < 48 || u > 57) {
            k = i;
        }
        i += 1;
    }
    proof {
        assert(forall|j: int| 0 <= j < sub.len() ==> #[trigger] sub[j] == s@[lo + j]);
        lemma_first_where_is(sub, non_digit_pred(), k - lo);
    }
    k
}

/// Index of the first comma of `s`, or its length when it has none.
pub fn scan_comma(s: &str) -> (k: usize)
    ensures
        k <= s@.len(),
        forall|j: int| 0 <= j < k ==> s@[j] != ',',
        k < s@.len() ==> s@[k as int] == ',',
{
    let n = s.unicode_len();
    let mut i: usize = 0;
    while i < n
        invariant
            i <= n,
            n == s@.len(),
            forall|j: int| 0 <= j < i ==> s@[j] != ',',
        decreases n - i,
    {
        let c = s.get_char(i);
        if c == ',' {
            return i;
        }
        i += 1;
    }
    n
}

/// Decimal text of `n`, most significant digit first.
pub fn nat_str(n: u32) -> (r: String)
    ensures
        r@ == fmt_nat(n as int),
    decreases n,
{
    if n < 10 {
        let d = digit_str(n);
        d.to_owned()
    } else {
        let mut head = nat_str(n / 10);
        let d = digit_str(n % 10);
        head.append(d);
        proof {
            assert(head@ =~= fmt_nat(n as int));
        }
        head
    }
}

} // verus!
