//! Decimal rendering of counts and money with thousands separators.
use vstd::prelude::*;

verus! {

/// The character of a decimal digit.
pub open spec fn digit_char(d: nat) -> char {
    (d + 48) as char
}

/// The decimal digits of `n`, most significant first, without leading zeros.
pub open spec fn decimal(n: nat) -> Seq<char>
    decreases n,
{
    if n < 10 {
        seq![digit_char(n)]
    } else {
        decimal(n / 10).push(digit_char(n % 10))
    }
}

/// `s` with a comma between each group of three characters, counted from the right.
pub open spec fn group_thousands(s: Seq<char>) -> Seq<char>
    decreases s.len(),
{
    if s.len() <= 3 {
        s
    } else {
        group_thousands(s.take(s.len() - 3)) + seq![','] + s.skip(s.len() - 3)
    }
}

/// `n` in decimal, grouped by thousands: `1234567` reads `1,234,567`.
pub open spec fn separated(n: nat) -> Seq<char> {
    group_thousands(decimal(n))
}

/// A whole currency amount: `-$1,234` or `$1,234`.
pub open spec fn currency(negative: bool, magnitude: nat) -> Seq<char> {
    (if negative {
        seq!['-', '$']
    } else {
        seq!['$']
    }) + separated(magnitude)
}

/// Appends one character to a string (`String::push`).
#[verifier::external_body]
fn push_char(s: &mut String, c: char)
    ensures
        final(s)@ == old(s)@.push(c),
{
    s.push(c);
}

fn digit_to_char(d: u64) -> (c: char)
    requires
        d < 10,
    ensures
        c == digit_char(d as nat),
{
    ((d as u8) + 48u8) as char
}

/// What the grouping loop has written after the first `i` of the `len` characters of `s`.
spec fn grouped_prefix(s: Seq<char>, len: nat, i: nat) -> Seq<char>
    decreases i,
{
    if i == 0 {
        seq![]
    } else {
        let j = (i - 1) as nat;
        let before = grouped_prefix(s, len, j);
        let with_sep = if j > 0 && (len - j) % 3 == 0 {
            before.push(',')
        } else {
            before
        };
        with_sep.push(s[j as int])
    }
}

proof fn lemma_grouped_prefix_shift(s: Seq<char>, len: nat, i: nat)
    requires
        len > 3,
        i <= len - 3,
        s.len() == len,
    ensures
        grouped_prefix(s, len, i) == grouped_prefix(s.take(len - 3), (len - 3) as nat, i),
    decreases i,
{
    if i > 0 {
        let j = (i - 1) as nat;
        lemma_grouped_prefix_shift(s, len, j);
        assert((len - j) % 3 == ((len - 3) as nat - j) % 3);
    }
}

proof fn lemma_grouped_prefix_short(s: Seq<char>, len: nat, i: nat)
    requires
        len <= 3,
        i <= len,
        s.len() == len,
    ensures
        grouped_prefix(s, len, i) == s.take(i as int),
    decreases i,
{
    if i > 0 {
        lemma_grouped_prefix_short(s, len, (i - 1) as nat);
        assert(s.take(i as int) == s.take(i - 1).push(s[i - 1]));
    }
}

proof fn lemma_grouped_prefix_full(s: Seq<char>)
    ensures
        grouped_prefix(s, s.len(), s.len()) == group_thousands(s),
    decreases s.len(),
{
    let len = s.len();
    if len <= 3 {
        lemma_grouped_prefix_short(s, len, len);
        assert(s.take(len as int) == s);
    } else {
        let m = (len - 3) as nat;
        let mi = m as int;
        let t = s.take(m as int);
        lemma_grouped_prefix_shift(s, len, m);
        lemma_grouped_prefix_full(t);
        assert(t.len() == m);
        let p = grouped_prefix(s, len, m);
        assert(grouped_prefix(s, len, m + 1) == p.push(',').push(s[m as int]));
        assert(grouped_prefix(s, len, m + 2) == p.push(',').push(s[m as int]).push(s[mi + 1]));
        assert(grouped_prefix(s, len, len) == p.push(',').push(s[m as int]).push(s[mi + 1]).push(
            s[mi + 2],
        ));
        assert(p.push(',').push(s[m as int]).push(s[mi + 1]).push(s[mi + 2]) == p + seq![',']
            + s.skip(m as int));
    }
}

/// Writes `n` in decimal with a comma between each group of three digits,
/// counted from the right.
pub fn format_with_separators(n: u64) -> (res: String)
    ensures
        res@ == separated(n as nat),
{
    // Digits, least significant first.
    let mut rev: Vec<char> = Vec::new();
    let mut m = n;
    while m >= 10
        invariant
            decimal(n as nat) == decimal(m as nat) + rev@.reverse(),
        decreases m,
    {
        let ghost before = rev@;
        let d = digit_to_char(m % 10);
        rev.push(d);
        assert(rev@.reverse() == seq![d] + before.reverse());
        assert(decimal(m as nat) == decimal((m / 10) as nat).push(d));
        m = m / 10;
        assert(decimal(n as nat) == decimal(m as nat) + rev@.reverse());
    }
    let ghost before = rev@;
    let d = digit_to_char(m);
    rev.push(d);
    assert(rev@.reverse() == seq![d] + before.reverse());
    let ghost digits = rev@.reverse();
    assert(digits == decimal(n as nat));
    let len = rev.len();
    let mut res = String::new();
    let mut i: usize = 0;
    while i < len
        invariant
            len == rev.len(),
            digits == rev@.reverse(),
            i <= len,
            res@ == grouped_prefix(digits, len as nat, i as nat),
        decreases len - i,
    {
        if i > 0 && (len - i) % 3 == 0 {
            push_char(&mut res, ',');
        }
        let c = rev[len - 1 - i];
        assert(c == digits[i as int]);
        push_char(&mut res, c);
        i = i + 1;
    }
    proof {
        lemma_grouped_prefix_full(digits);
    }
    res
}

/// Writes a whole currency amount with thousands separators: `$1,234`, or
/// `-$1,234` when `negative` is set. The caller has already rounded the
/// amount to whole units and passes its magnitude.
pub fn format_currency(negative: bool, magnitude: u64) -> (res: String)
    ensures
        res@ == currency(negative, magnitude as nat),
{
    let mut res = String::new();
    if negative {
        push_char(&mut res, '-');
    }
    push_char(&mut res, '$');
    let digits = format_with_separators(magnitude);
    res.append(digits.as_str());
    res
}


/// `s` without its commas.
pub open spec fn without_separators(s: Seq<char>) -> Seq<char> {
    s.filter(|c: char| c != ',')
}

proof fn lemma_no_commas_kept(s: Seq<char>)
    requires
        forall|i: int| 0 <= i < s.len() ==> s[i] != ',',
    ensures
        without_separators(s) == s,
    decreases s.len(),
{
    reveal(Seq::filter);
    if s.len() > 0 {
        lemma_no_commas_kept(s.drop_last());
        assert(s.drop_last().push(s.last()) == s);
    }
}

proof fn lemma_decimal_digits(n: nat)
    ensures
        forall|i: int| 0 <= i < decimal(n).len() ==> '0' <= #[trigger] decimal(n)[i] <= '9',
    decreases n,
{
    if n >= 10 {
        lemma_decimal_digits(n / 10);
        let d = decimal(n / 10);
        assert forall|i: int| 0 <= i < decimal(n).len() implies '0' <= #[trigger] decimal(n)[i] <= '9' by {
            if i < d.len() {
                assert(decimal(n)[i] == d[i]);
            }
        }
    }
}

proof fn lemma_strip_grouping(s: Seq<char>)
    requires
        forall|i: int| 0 <= i < s.len() ==> s[i] != ',',
    ensures
        without_separators(group_thousands(s)) == s,
    decreases s.len(),
{
    if s.len() <= 3 {
        lemma_no_commas_kept(s);
    } else {
        let m = s.len() - 3;
        let head = s.take(m);
        let tail = s.skip(m);
        lemma_strip_grouping(head);
        lemma_no_commas_kept(tail);
        let sep = seq![','];
        reveal_with_fuel(Seq::filter, 2);
        assert(sep.filter(|c: char| c != ',') == Seq::<char>::empty()) by {
            assert(sep.drop_last() == Seq::<char>::empty());
        }
        Seq::filter_distributes_over_add(group_thousands(head) + sep, tail, |c: char| c != ',');
        Seq::filter_distributes_over_add(group_thousands(head), sep, |c: char| c != ',');
        assert(head + tail == s);
    }
}

/// Stripping the separators from a grouped number gives back its plain
/// decimal digits (what a reader parses after removing the commas).
pub proof fn lemma_separators_strip(n: nat)
    ensures
        without_separators(separated(n)) == decimal(n),
{
    lemma_decimal_digits(n);
    lemma_strip_grouping(decimal(n));
}

} // verus!
