//! Character-sequence utilities shared by the configuration codecs:
//! whitespace tokenization, line splitting, trimming, and decimal numerals.

use vstd::prelude::*;

verus! {

// ---------------------------------------------------------------------------
// Character classes
// ---------------------------------------------------------------------------

/// Whitespace as understood by the tokenizer and by `trim`.
pub open spec fn is_space(c: char) -> bool {
    c == ' ' || c == '\t' || c == '\r' || c == '\n'
}

pub open spec fn is_digit(c: char) -> bool {
    48 <= (c as u32) && (c as u32) <= 57
}

pub open spec fn digit_val(c: char) -> nat {
    if is_digit(c) {
        ((c as u32) - 48) as nat
    } else {
        0
    }
}

pub open spec fn digit_char(v: int) -> char {
    if v == 0 {
        '0'
    } else if v == 1 {
        '1'
    } else if v == 2 {
        '2'
    } else if v == 3 {
        '3'
    } else if v == 4 {
        '4'
    } else if v == 5 {
        '5'
    } else if v == 6 {
        '6'
    } else if v == 7 {
        '7'
    } else if v == 8 {
        '8'
    } else {
        '9'
    }
}


pub proof fn lemma_digit_char_val(v: int)
    requires
        0 <= v < 10,
    ensures
        is_digit(digit_char(v)),
        digit_val(digit_char(v)) == v,
        v != 0 ==> digit_char(v) != '0',
{
}

pub fn space(c: char) -> (r: bool)
    ensures
        r == is_space(c),
{
    c == ' ' || c == '\t' || c == '\r' || c == '\n'
}

pub fn digit(c: char) -> (r: bool)
    ensures
        r == is_digit(c),
{
    let u: u32 = c as u32;
    48 <= u && u <= 57
}

// ---------------------------------------------------------------------------
// Decimal numerals
// ---------------------------------------------------------------------------

/// The canonical decimal numeral of `n` (no sign, no leading zeros).
pub open spec fn dec_chars(n: nat) -> Seq<char>
    decreases n,
{
    if n < 10 {
        seq![digit_char(n as int)]
    } else {
        dec_chars(n / 10).push(digit_char((n % 10) as int))
    }
}

/// The value of a digit string, reading left to right.
pub open spec fn dec_val(s: Seq<char>) -> nat
    decreases s.len(),
{
    if s.len() == 0 {
        0
    } else {
        dec_val(s.drop_last()) * 10 + digit_val(s.last())
    }
}

pub open spec fn all_digits(s: Seq<char>) -> bool {
    forall|i: int| 0 <= i < s.len() ==> is_digit(#[trigger] s[i])
}

/// A numeral is accepted in canonical form only: at least one digit, no
/// leading zero (except the numeral `0` itself), and a value of at most `max`.
pub open spec fn canon_dec_ok(s: Seq<char>, max: nat) -> bool {
    &&& s.len() >= 1
    &&& all_digits(s)
    &&& (s.len() == 1 || s[0] != '0')
    &&& dec_val(s) <= max
}

pub open spec fn spec_canon_dec(s: Seq<char>, max: nat) -> Option<u64> {
    if max <= u64::MAX && canon_dec_ok(s, max) {
        Some(dec_val(s) as u64)
    } else {
        None
    }
}

pub proof fn lemma_dec_val_singleton(c: char)
    ensures
        dec_val(seq![c]) == digit_val(c),
{
    assert(seq![c].drop_last() =~= Seq::<char>::empty());
    assert(dec_val(Seq::<char>::empty()) == 0);
    assert(seq![c].last() == c);
}

pub proof fn lemma_dec_chars_wf(n: nat)
    ensures
        dec_chars(n).len() >= 1,
        all_digits(dec_chars(n)),
        dec_chars(n)[0] == '0' ==> n == 0,
        dec_val(dec_chars(n)) == n,
    decreases n,
{
    if n < 10 {
        assert(dec_chars(n) =~= seq![digit_char(n as int)]);
        lemma_digit_char_val(n as int);
        lemma_dec_val_singleton(digit_char(n as int));
    } else {
        lemma_dec_chars_wf(n / 10);
        let pre = dec_chars(n / 10);
        let whole = pre.push(digit_char((n % 10) as int));
        assert(whole.drop_last() =~= pre);
        assert(whole.last() == digit_char((n % 10) as int));
        lemma_digit_char_val((n % 10) as int);
        assert(dec_val(whole) == dec_val(pre) * 10 + digit_val(digit_char((n % 10) as int)));
        assert(forall|i: int| 0 <= i < whole.len() ==> is_digit(#[trigger] whole[i])) by {
            assert(forall|i: int| 0 <= i < pre.len() ==> is_digit(#[trigger] pre[i]));
        }
    }
}

pub open spec fn pow10(k: nat) -> nat
    decreases k,
{
    if k == 0 {
        1
    } else {
        10 * pow10((k - 1) as nat)
    }
}

pub proof fn lemma_dec_chars_len(n: nat, k: nat)
    requires
        n < pow10(k),
        k >= 1,
    ensures
        dec_chars(n).len() <= k,
    decreases n,
{
    if n < 10 {
    } else {
        assert(k >= 2) by {
            if k == 1 {
                assert(pow10(0nat) == 1);
                assert(pow10(1nat) == 10);
            }
        }
        assert(n / 10 < pow10((k - 1) as nat)) by {
            assert(pow10(k) == 10 * pow10((k - 1) as nat));
        }
        lemma_dec_chars_len(n / 10, (k - 1) as nat);
    }
}

/// Values of prefixes of a string grow as the prefix grows.
pub proof fn lemma_dec_val_take_mono(s: Seq<char>, i: int, j: int)
    requires
        0 <= i <= j <= s.len(),
    ensures
        dec_val(s.take(i)) <= dec_val(s.take(j)),
    decreases j - i,
{
    if i < j {
        lemma_dec_val_take_mono(s, i, j - 1);
        assert(s.take(j).drop_last() =~= s.take(j - 1));
        assert(dec_val(s.take(j)) == dec_val(s.take(j - 1)) * 10 + digit_val(s.take(j).last()));
    }
}

pub fn digit_str(v: u8) -> (r: &'static str)
    requires
        v < 10,
    ensures
        r@ =~= seq![digit_char(v as int)],
{
    proof {
        reveal_strlit("0");
        reveal_strlit("1");
        reveal_strlit("2");
        reveal_strlit("3");
        reveal_strlit("4");
        reveal_strlit("5");
        reveal_strlit("6");
        reveal_strlit("7");
        reveal_strlit("8");
        reveal_strlit("9");
    }
    if v == 0 {
        "0"
    } else if v == 1 {
        "1"
    } else if v == 2 {
        "2"
    } else if v == 3 {
        "3"
    } else if v == 4 {
        "4"
    } else if v == 5 {
        "5"
    } else if v == 6 {
        "6"
    } else if v == 7 {
        "7"
    } else if v == 8 {
        "8"
    } else {
        "9"
    }
}

/// Renders `n` as its canonical decimal numeral.
pub fn render_u32(n: u32) -> (s: String)
    ensures
        s@ == dec_chars(n as nat),
    decreases n,
{
    if n < 10 {
        let s = digit_str(n as u8).to_owned();
        proof {
            assert(s@ =~= dec_chars(n as nat));
        }
        s
    } else {
        let mut s = render_u32(n / 10);
        s.append(digit_str((n % 10) as u8));
        proof {
            assert(s@ =~= dec_chars(n as nat));
        }
        s
    }
}

/// Parses the character range `[start, end)` of `s` as an unsigned decimal
/// value of at most `max`; leading zeros are accepted here (callers needing
/// the canonical form check it separately).
pub fn parse_digits(s: &str, start: usize, end: usize, max: u64) -> (r: Option<u64>)
    requires
        start <= end <= s@.len(),
        max <= 0xFFFF_FFFF_FFFFu64,
    ensures
        match r {
            Some(v) => {
                &&& end > start
                &&& all_digits(s@.subrange(start as int, end as int))
                &&& dec_val(s@.subrange(start as int, end as int)) == v
                &&& v <= max
            },
            None => !{
                &&& end > start
                &&& all_digits(s@.subrange(start as int, end as int))
                &&& dec_val(s@.subrange(start as int, end as int)) <= max
            },
        },
{
    let ghost sub = s@.subrange(start as int, end as int);
    if start == end {
        return None;
    }
    let mut acc: u64 = 0;
    let mut i: usize = start;
    while i < end
        invariant
            start <= i <= end <= s@.len(),
            sub == s@.subrange(start as int, end as int),
            max <= 0xFFFF_FFFF_FFFFu64,
            acc == dec_val(sub.take(i - start)),
            acc <= max,
            all_digits(sub.take(i - start)),
        decreases end - i,
    {
        let c = s.get_char(i);
        proof {
            assert(sub[i - start] == s@[i as int]);
        }
        if !digit(c) {
            proof {
                assert(!is_digit(sub[i - start]));
            }
            return None;
        }
        let d: u64 = (c as u32 - 48) as u64;
        let next: u64 = acc * 10 + d;
        proof {
            assert(sub.take(i + 1 - start).drop_last() =~= sub.take(i - start));
            assert(sub.take(i + 1 - start).last() == sub[i - start]);
            assert(all_digits(sub.take(i + 1 - start)));
        }
        if next > max {
            proof {
                lemma_dec_val_take_mono(sub, i + 1 - start, sub.len() as int);
                assert(sub.take(sub.len() as int) =~= sub);
            }
            return None;
        }
        acc = next;
        i = i + 1;
    }
    proof {
        assert(sub.take(sub.len() as int) =~= sub);
    }
    Some(acc)
}

/// Parses a whole token as a canonical decimal numeral of value at most `max`.
pub fn parse_canon_dec(s: &str, max: u64) -> (r: Option<u64>)
    requires
        max <= 0xFFFF_FFFF_FFFFu64,
    ensures
        r == spec_canon_dec(s@, max as nat),
{
    let n = s.unicode_len();
    if n == 0 {
        return None;
    }
    if n > 1 && s.get_char(0) == '0' {
        return None;
    }
    let r = parse_digits(s, 0, n, max);
    proof {
        assert(s@.subrange(0, n as int) =~= s@);
    }
    r
}

// ---------------------------------------------------------------------------
// Scanning
// ---------------------------------------------------------------------------

/// Index of the first occurrence of `sep`, or the length of `s`.
pub open spec fn scan_sep(s: Seq<char>, sep: char) -> nat
    decreases s.len(),
{
    if s.len() == 0 {
        0
    } else if s[0] == sep {
        0
    } else {
        1 + scan_sep(s.drop_first(), sep)
    }
}

pub proof fn lemma_scan_sep_props(s: Seq<char>, sep: char)
    ensures
        scan_sep(s, sep) <= s.len(),
        forall|i: int| 0 <= i < scan_sep(s, sep) ==> #[trigger] s[i] != sep,
        scan_sep(s, sep) < s.len() ==> s[scan_sep(s, sep) as int] == sep,
    decreases s.len(),
{
    if s.len() > 0 && s[0] != sep {
        let t = s.drop_first();
        lemma_scan_sep_props(t, sep);
        assert forall|i: int| 0 <= i < scan_sep(s, sep) implies #[trigger] s[i] != sep by {
            if i >= 1 {
                assert(s[i] == t[i - 1]);
            }
        }
        if scan_sep(s, sep) < s.len() {
            assert(s[scan_sep(s, sep) as int] == t[scan_sep(t, sep) as int]);
        }
    }
}

pub proof fn lemma_scan_sep_at(s: Seq<char>, sep: char, k: int)
    requires
        0 <= k <= s.len(),
        forall|i: int| 0 <= i < k ==> #[trigger] s[i] != sep,
        k < s.len() ==> s[k] == sep,
    ensures
        scan_sep(s, sep) == k,
    decreases k,
{
    if s.len() == 0 {
    } else if k == 0 {
    } else {
        assert(s[0] != sep);
        let t = s.drop_first();
        assert(forall|i: int| 0 <= i < k - 1 ==> #[trigger] t[i] == s[i + 1] && t[i] != sep);
        assert(k - 1 < t.len() ==> t[k - 1] == sep);
        lemma_scan_sep_at(t, sep, k - 1);
    }
}

/// Index of the first whitespace character, or the length of `s`.
pub open spec fn scan_space(s: Seq<char>) -> nat
    decreases s.len(),
{
    if s.len() == 0 {
        0
    } else if is_space(s[0]) {
        0
    } else {
        1 + scan_space(s.drop_first())
    }
}

pub proof fn lemma_scan_space_props(s: Seq<char>)
    ensures
        scan_space(s) <= s.len(),
        forall|i: int| 0 <= i < scan_space(s) ==> !is_space(#[trigger] s[i]),
        scan_space(s) < s.len() ==> is_space(s[scan_space(s) as int]),
    decreases s.len(),
{
    if s.len() > 0 && !is_space(s[0]) {
        let t = s.drop_first();
        lemma_scan_space_props(t);
        assert forall|i: int| 0 <= i < scan_space(s) implies !is_space(#[trigger] s[i]) by {
            if i >= 1 {
                assert(s[i] == t[i - 1]);
            }
        }
        if scan_space(s) < s.len() {
            assert(s[scan_space(s) as int] == t[scan_space(t) as int]);
        }
    }
}

pub proof fn lemma_scan_space_at(s: Seq<char>, k: int)
    requires
        0 <= k <= s.len(),
        forall|i: int| 0 <= i < k ==> !is_space(#[trigger] s[i]),
        k < s.len() ==> is_space(s[k]),
    ensures
        scan_space(s) == k,
    decreases k,
{
    if s.len() == 0 {
    } else if k == 0 {
    } else {
        assert(!is_space(s[0]));
        let t = s.drop_first();
        assert(forall|i: int| 0 <= i < k - 1 ==> #[trigger] t[i] == s[i + 1] && !is_space(t[i]));
        assert(k - 1 < t.len() ==> is_space(t[k - 1]));
        lemma_scan_space_at(t, k - 1);
    }
}

/// Index of the first non-whitespace character, or the length of `s`.
pub open spec fn scan_nonspace(s: Seq<char>) -> nat
    decreases s.len(),
{
    if s.len() == 0 {
        0
    } else if !is_space(s[0]) {
        0
    } else {
        1 + scan_nonspace(s.drop_first())
    }
}

pub proof fn lemma_scan_nonspace_at(s: Seq<char>, k: int)
    requires
        0 <= k <= s.len(),
        forall|i: int| 0 <= i < k ==> is_space(#[trigger] s[i]),
        k < s.len() ==> !is_space(s[k]),
    ensures
        scan_nonspace(s) == k,
    decreases k,
{
    if s.len() == 0 {
    } else if k == 0 {
    } else {
        assert(is_space(s[0]));
        let t = s.drop_first();
        assert(forall|i: int| 0 <= i < k - 1 ==> #[trigger] t[i] == s[i + 1] && is_space(t[i]));
        assert(k - 1 < t.len() ==> !is_space(t[k - 1]));
        lemma_scan_nonspace_at(t, k - 1);
    }
}

// ---------------------------------------------------------------------------
// Splitting and tokenizing: specifications
// ---------------------------------------------------------------------------

/// Splits on a separator character, keeping empty pieces; splitting the
/// empty string yields one empty piece.
pub open spec fn split_sep(s: Seq<char>, sep: char) -> Seq<Seq<char>>
    decreases s.len(),
    via split_sep_decreases
{
    let k = scan_sep(s, sep);
    if k == s.len() {
        seq![s]
    } else {
        seq![s.take(k as int)] + split_sep(s.skip(k as int + 1), sep)
    }
}

#[via_fn]
proof fn split_sep_decreases(s: Seq<char>, sep: char) {
    lemma_scan_sep_props(s, sep);
}

pub proof fn lemma_split_sep_whole(s: Seq<char>, sep: char)
    requires
        forall|i: int| 0 <= i < s.len() ==> #[trigger] s[i] != sep,
    ensures
        split_sep(s, sep) == seq![s],
{
    lemma_scan_sep_at(s, sep, s.len() as int);
}

pub proof fn lemma_split_sep_cons(a: Seq<char>, sep: char, rest: Seq<char>)
    requires
        forall|i: int| 0 <= i < a.len() ==> #[trigger] a[i] != sep,
    ensures
        split_sep(a + seq![sep] + rest, sep) == seq![a] + split_sep(rest, sep),
{
    let s = a + seq![sep] + rest;
    assert(s[a.len() as int] == sep);
    assert(forall|i: int| 0 <= i < a.len() ==> #[trigger] s[i] == a[i]);
    lemma_scan_sep_at(s, sep, a.len() as int);
    assert(s.take(a.len() as int) =~= a);
    assert(s.skip(a.len() as int + 1) =~= rest);
    assert(split_sep(s, sep) == seq![a] + split_sep(rest, sep));
}

/// Splits into lines on `'\n'`; a trailing newline does not produce an
/// empty final line, matching line-by-line file readers.
pub open spec fn spec_lines(s: Seq<char>) -> Seq<Seq<char>>
    decreases s.len(),
    via spec_lines_decreases
{
    if s.len() == 0 {
        Seq::empty()
    } else {
        let k = scan_sep(s, '\n');
        if k == s.len() {
            seq![s]
        } else {
            seq![s.take(k as int)] + spec_lines(s.skip(k as int + 1))
        }
    }
}

#[via_fn]
proof fn spec_lines_decreases(s: Seq<char>) {
    lemma_scan_sep_props(s, '\n');
}

pub proof fn lemma_lines_cons(a: Seq<char>, rest: Seq<char>)
    requires
        forall|i: int| 0 <= i < a.len() ==> #[trigger] a[i] != '\n',
    ensures
        spec_lines(a + seq!['\n'] + rest) == seq![a] + spec_lines(rest),
{
    let s = a + seq!['\n'] + rest;
    assert(s[a.len() as int] == '\n');
    assert(forall|i: int| 0 <= i < a.len() ==> #[trigger] s[i] == a[i]);
    lemma_scan_sep_at(s, '\n', a.len() as int);
    assert(s.take(a.len() as int) =~= a);
    assert(s.skip(a.len() as int + 1) =~= rest);
    assert(spec_lines(s) == seq![a] + spec_lines(rest));
}

/// The whitespace tokens of a line, in order, each a maximal nonempty run
/// of non-space characters.
pub open spec fn spec_tokens(s: Seq<char>) -> Seq<Seq<char>>
    decreases s.len(),
    via spec_tokens_decreases
{
    if s.len() == 0 {
        Seq::empty()
    } else if is_space(s[0]) {
        spec_tokens(s.drop_first())
    } else {
        let k = scan_space(s);
        seq![s.take(k as int)] + spec_tokens(s.skip(k as int))
    }
}

#[via_fn]
proof fn spec_tokens_decreases(s: Seq<char>) {
    if s.len() > 0 && !is_space(s[0]) {
        lemma_scan_space_props(s);
        assert(scan_space(s) == 1 + scan_space(s.drop_first()));
    }
}

pub proof fn lemma_tokens_skip_space(c: char, rest: Seq<char>)
    requires
        is_space(c),
    ensures
        spec_tokens(seq![c] + rest) == spec_tokens(rest),
{
    let s = seq![c] + rest;
    assert(s[0] == c);
    assert(s.drop_first() =~= rest);
}

pub proof fn lemma_tokens_single(t: Seq<char>)
    requires
        t.len() >= 1,
        forall|i: int| 0 <= i < t.len() ==> !is_space(#[trigger] t[i]),
    ensures
        spec_tokens(t) == seq![t],
{
    assert(!is_space(t[0]));
    lemma_scan_space_at(t, t.len() as int);
    assert(t.take(t.len() as int) =~= t);
    assert(t.skip(t.len() as int) =~= Seq::<char>::empty());
    assert(spec_tokens(Seq::<char>::empty()) =~= Seq::<Seq<char>>::empty());
    assert(spec_tokens(t) == seq![t.take(t.len() as int)] + spec_tokens(t.skip(t.len() as int)));
    assert(spec_tokens(t) =~= seq![t]);
}

pub proof fn lemma_tokens_word_space(a: Seq<char>, rest: Seq<char>)
    requires
        a.len() >= 1,
        forall|i: int| 0 <= i < a.len() ==> !is_space(#[trigger] a[i]),
    ensures
        spec_tokens(a + seq![' '] + rest) == seq![a] + spec_tokens(rest),
{
    let s = a + seq![' '] + rest;
    assert(is_space(s[a.len() as int]));
    assert(forall|i: int| 0 <= i < a.len() ==> #[trigger] s[i] == a[i]);
    lemma_scan_space_at(s, a.len() as int);
    assert(s.take(a.len() as int) =~= a);
    assert(s.skip(a.len() as int) =~= seq![' '] + rest);
    lemma_tokens_skip_space(' ', rest);
    assert(spec_tokens(s) == seq![a] + spec_tokens(rest));
}

/// Every token is nonempty.
pub proof fn lemma_tokens_nonempty(s: Seq<char>)
    ensures
        forall|i: int| 0 <= i < spec_tokens(s).len() ==> #[trigger] spec_tokens(s)[i].len() >= 1,
    decreases s.len(),
{
    if s.len() == 0 {
        assert(spec_tokens(s).len() == 0);
    } else if is_space(s[0]) {
        lemma_tokens_nonempty(s.drop_first());
        assert(spec_tokens(s) == spec_tokens(s.drop_first()));
    } else {
        lemma_scan_space_props(s);
        assert(scan_space(s) == 1 + scan_space(s.drop_first()));
        let k = scan_space(s) as int;
        lemma_tokens_nonempty(s.skip(k));
        assert(spec_tokens(s) == seq![s.take(k)] + spec_tokens(s.skip(k)));
        assert forall|i: int|
            0 <= i < spec_tokens(s).len() implies #[trigger] spec_tokens(s)[i].len() >= 1 by {
            if i == 0 {
                assert(spec_tokens(s)[0] == s.take(k));
                assert(s.take(k).len() == k);
            } else {
                assert(spec_tokens(s)[i] == spec_tokens(s.skip(k))[i - 1]);
                assert(spec_tokens(s.skip(k))[i - 1].len() >= 1);
            }
        }
    }
}

// ---------------------------------------------------------------------------
// Trimming
// ---------------------------------------------------------------------------

pub open spec fn trim_end_idx(s: Seq<char>) -> nat
    decreases s.len(),
{
    if s.len() == 0 {
        0
    } else if !is_space(s.last()) {
        s.len()
    } else {
        trim_end_idx(s.drop_last())
    }
}

pub open spec fn spec_trim(s: Seq<char>) -> Seq<char> {
    if scan_nonspace(s) >= trim_end_idx(s) {
        Seq::empty()
    } else {
        s.subrange(scan_nonspace(s) as int, trim_end_idx(s) as int)
    }
}

proof fn lemma_trim_end_at(s: Seq<char>, k: int)
    requires
        0 <= k <= s.len(),
        forall|i: int| k <= i < s.len() ==> is_space(#[trigger] s[i]),
        k >= 1 ==> !is_space(s[k - 1]),
    ensures
        trim_end_idx(s) == k,
    decreases s.len(),
{
    if s.len() == 0 {
    } else if !is_space(s.last()) {
        assert(k == s.len());
    } else {
        let t = s.drop_last();
        assert(k <= t.len());
        assert(forall|i: int| k <= i < t.len() ==> is_space(#[trigger] t[i]));
        assert(k >= 1 ==> !is_space(t[k - 1]));
        lemma_trim_end_at(t, k);
    }
}

/// Removes leading and trailing whitespace.
pub fn trim(s: &str) -> (r: String)
    ensures
        r@ == spec_trim(s@),
{
    let n = s.unicode_len();
    let mut start: usize = 0;
    while start < n && space(s.get_char(start))
        invariant
            start <= n == s@.len(),
            forall|i: int| 0 <= i < start ==> is_space(#[trigger] s@[i]),
        decreases n - start,
    {
        start = start + 1;
    }
    proof {
        lemma_scan_nonspace_at(s@, start as int);
    }
    let mut end: usize = n;
    while end > start && space(s.get_char(end - 1))
        invariant
            start <= end <= n == s@.len(),
            forall|i: int| end <= i < n ==> is_space(#[trigger] s@[i]),
            forall|i: int| 0 <= i < start ==> is_space(#[trigger] s@[i]),
        decreases end,
    {
        end = end - 1;
    }
    if end == start {
        proof {
            assert(forall|i: int| 0 <= i < s@.len() ==> is_space(#[trigger] s@[i]));
            lemma_trim_end_at(s@, 0);
        }
        String::new()
    } else {
        proof {
            lemma_trim_end_at(s@, end as int);
        }
        s.substring_char(start, end).to_owned()
    }
}

// ---------------------------------------------------------------------------
// Executable splitting and tokenizing
// ---------------------------------------------------------------------------

/// Verified equality of string slices, through their character views.
pub fn str_eq(a: &str, b: &str) -> (r: bool)
    ensures
        r == (a@ == b@),
{
    let sa = a.to_owned();
    let sb = b.to_owned();
    sa == sb
}

/// Splits on a separator character, keeping empty pieces.
pub fn split_char(s: &str, sep: char) -> (r: Vec<String>)
    ensures
        r.deep_view() == split_sep(s@, sep),
{
    let n = s.unicode_len();
    let mut r: Vec<String> = Vec::new();
    let mut start: usize = 0;
    let mut i: usize = 0;
    proof {
        assert(s@.skip(0int) =~= s@);
        assert(r.deep_view() =~= Seq::<Seq<char>>::empty());
        assert((r.deep_view() + split_sep(s@, sep)) =~= split_sep(s@, sep));
    }
    while i < n
        invariant
            start <= i <= n == s@.len(),
            forall|k: int| start <= k < i ==> #[trigger] s@[k] != sep,
            split_sep(s@, sep) == r.deep_view() + split_sep(s@.skip(start as int), sep),
        decreases n - i,
    {
        if s.get_char(i) == sep {
            let piece = s.substring_char(start, i).to_owned();
            proof {
                let suf = s@.skip(start as int);
                assert(forall|k: int|
                    0 <= k < i - start ==> #[trigger] suf[k] == s@[start + k] && suf[k] != sep);
                assert(suf[i - start] == s@[i as int]);
                lemma_scan_sep_at(suf, sep, i - start);
                assert(suf.take(i - start) =~= s@.subrange(start as int, i as int));
                assert(suf.skip(i - start + 1) =~= s@.skip(i as int + 1));
                let old_dv = r.deep_view();
                assert((old_dv + split_sep(suf, sep)) =~= (old_dv.push(piece@) + split_sep(
                    s@.skip(i as int + 1),
                    sep,
                )));
            }
            let ghost pre_dv = r.deep_view();
            r.push(piece);
            proof {
                assert(r.deep_view() =~= pre_dv.push(piece@));
            }
            start = i + 1;
        }
        i = i + 1;
    }
    let piece = s.substring_char(start, n).to_owned();
    proof {
        let suf = s@.skip(start as int);
        assert(forall|k: int|
            0 <= k < suf.len() ==> #[trigger] suf[k] == s@[start + k] && suf[k] != sep);
        lemma_split_sep_whole(suf, sep);
        assert(suf =~= s@.subrange(start as int, n as int));
        let old_dv = r.deep_view();
        assert((old_dv + split_sep(suf, sep)) =~= old_dv.push(piece@));
    }
    let ghost pre_dv = r.deep_view();
    r.push(piece);
    proof {
        assert(r.deep_view() =~= pre_dv.push(piece@));
    }
    r
}

/// Splits text into lines on `'\n'`.
pub fn split_lines(s: &str) -> (r: Vec<String>)
    ensures
        r.deep_view() == spec_lines(s@),
{
    let n = s.unicode_len();
    let mut r: Vec<String> = Vec::new();
    let mut start: usize = 0;
    let mut i: usize = 0;
    proof {
        assert(s@.skip(0int) =~= s@);
        assert(r.deep_view() =~= Seq::<Seq<char>>::empty());
        assert((r.deep_view() + spec_lines(s@)) =~= spec_lines(s@));
    }
    while i < n
        invariant
            start <= i <= n == s@.len(),
            forall|k: int| start <= k < i ==> #[trigger] s@[k] != '\n',
            spec_lines(s@) == r.deep_view() + spec_lines(s@.skip(start as int)),
        decreases n - i,
    {
        if s.get_char(i) == '\n' {
            let piece = s.substring_char(start, i).to_owned();
            proof {
                let suf = s@.skip(start as int);
                assert(suf.len() > 0);
                assert(forall|k: int|
                    0 <= k < i - start ==> #[trigger] suf[k] == s@[start + k] && suf[k] != '\n');
                assert(suf[i - start] == s@[i as int]);
                lemma_scan_sep_at(suf, '\n', i - start);
                assert(suf.take(i - start) =~= s@.subrange(start as int, i as int));
                assert(suf.skip(i - start + 1) =~= s@.skip(i as int + 1));
                let old_dv = r.deep_view();
                assert((old_dv + spec_lines(suf)) =~= (old_dv.push(piece@) + spec_lines(
                    s@.skip(i as int + 1),
                )));
            }
            let ghost pre_dv = r.deep_view();
            r.push(piece);
            proof {
                assert(r.deep_view() =~= pre_dv.push(piece@));
            }
            start = i + 1;
        }
        i = i + 1;
    }
    if start < n {
        let piece = s.substring_char(start, n).to_owned();
        proof {
            let suf = s@.skip(start as int);
            assert(suf.len() > 0);
            assert(forall|k: int|
                0 <= k < suf.len() ==> #[trigger] suf[k] == s@[start + k] && suf[k] != '\n');
            lemma_scan_sep_at(suf, '\n', suf.len() as int);
            assert(suf =~= s@.subrange(start as int, n as int));
            let old_dv = r.deep_view();
            assert((old_dv + spec_lines(suf)) =~= old_dv.push(piece@));
        }
        let ghost pre_dv = r.deep_view();
        r.push(piece);
        proof {
            assert(r.deep_view() =~= pre_dv.push(piece@));
        }
    } else {
        proof {
            let suf = s@.skip(start as int);
            assert(suf =~= Seq::<char>::empty());
            assert(r.deep_view() + spec_lines(suf) =~= r.deep_view());
        }
    }
    r
}

/// The whitespace tokens of a line.
pub fn tokens_of(s: &str) -> (r: Vec<String>)
    ensures
        r.deep_view() == spec_tokens(s@),
{
    let n = s.unicode_len();
    let mut r: Vec<String> = Vec::new();
    let mut i: usize = 0;
    proof {
        assert(s@.skip(0int) =~= s@);
        assert(r.deep_view() =~= Seq::<Seq<char>>::empty());
        assert((r.deep_view() + spec_tokens(s@)) =~= spec_tokens(s@));
    }
    while i < n
        invariant
            i <= n == s@.len(),
            spec_tokens(s@) == r.deep_view() + spec_tokens(s@.skip(i as int)),
        decreases n - i,
    {
        if space(s.get_char(i)) {
            proof {
                let suf = s@.skip(i as int);
                assert(suf[0] == s@[i as int]);
                assert(suf.drop_first() =~= s@.skip(i as int + 1));
            }
            i = i + 1;
        } else {
            let mut j: usize = i + 1;
            while j < n && !space(s.get_char(j))
                invariant
                    i < j <= n == s@.len(),
                    forall|k: int| i <= k < j ==> !is_space(#[trigger] s@[k]),
                decreases n - j,
            {
                j = j + 1;
            }
            let tok = s.substring_char(i, j).to_owned();
            proof {
                let suf = s@.skip(i as int);
                assert(suf.len() > 0);
                assert(forall|k: int|
                    0 <= k < j - i ==> #[trigger] suf[k] == s@[i + k] && !is_space(suf[k]));
                assert(!is_space(suf[0]));
                assert(j < n ==> is_space(suf[j - i]));
                lemma_scan_space_at(suf, j - i);
                assert(suf.take(j - i) =~= s@.subrange(i as int, j as int));
                assert(suf.skip(j - i) =~= s@.skip(j as int));
                let old_dv = r.deep_view();
                assert((old_dv + spec_tokens(suf)) =~= (old_dv.push(tok@) + spec_tokens(
                    s@.skip(j as int),
                )));
            }
            let ghost pre_dv = r.deep_view();
            r.push(tok);
            proof {
                assert(r.deep_view() =~= pre_dv.push(tok@));
            }
            i = j;
        }
    }
    proof {
        assert(s@.skip(n as int) =~= Seq::<char>::empty());
        assert(r.deep_view() + spec_tokens(s@.skip(n as int)) =~= r.deep_view());
    }
    r
}

} // verus!

