//! Character-level helpers shared by the naming and serialisation code.

use vstd::prelude::*;

verus! {

/// The characters of `s`, in order.
pub fn chars_of(s: &str) -> (v: Vec<char>)
    ensures
        v@ == s@,
{
    let mut v: Vec<char> = Vec::new();
    for c in it: s.chars()
        invariant
            it.seq() == s@,
            v@ == s@.take(it.index()),
    {
        v.push(c);
    }
    v
}

/// `String::push`: appends one character to a string.
#[verifier::external_body]
pub(crate) fn push_char(s: &mut String, c: char)
    ensures
        final(s)@ == old(s)@.push(c),
{
    s.push(c);
}

/// The decimal digit character for `d < 10`.
pub open spec fn digit_char(d: nat) -> char {
    ('0' as int + d) as char
}

/// Decimal rendering of a natural number, without sign or leading zeros.
pub open spec fn decimal(n: nat) -> Seq<char>
    decreases n,
{
    if n < 10 {
        seq![digit_char(n)]
    } else {
        decimal(n / 10).push(digit_char(n % 10))
    }
}

/// Appends the decimal rendering of `n` to `out`.
pub fn push_decimal(out: &mut String, n: usize)
    ensures
        final(out)@ == old(out)@ + decimal(n as nat),
    decreases n,
{
    if n >= 10 {
        push_decimal(out, n / 10);
    }
    let d: u8 = (n % 10) as u8;
    let c: char = (48u8 + d) as char;
    assert(c == digit_char((n % 10) as nat));
    push_char(out, c);
}

/// The number a string of decimal digits denotes.
pub open spec fn digits_value(s: Seq<char>) -> int
    decreases s.len(),
{
    if s.len() == 0 {
        0
    } else {
        digits_value(s.drop_last()) * 10 + (s.last() as int - '0' as int)
    }
}

/// The decimal rendering of `n` is a non-empty string of digits that
/// denotes `n`, with no leading zero unless `n` is zero.
pub proof fn decimal_reads_back(n: nat)
    ensures
        decimal(n).len() > 0,
        forall|i: int| 0 <= i < decimal(n).len() ==> '0' <= #[trigger] decimal(n)[i] <= '9',
        digits_value(decimal(n)) == n,
        decimal(n)[0] == '0' ==> n == 0,
    decreases n,
{
    if n >= 10 {
        decimal_reads_back(n / 10);
        let d = decimal(n);
        let h = decimal((n / 10) as nat);
        assert(d == h.push(digit_char((n % 10) as nat)));
        assert(d.drop_last() == h);
        assert(d.last() as int == '0' as int + n % 10);
        assert forall|i: int| 0 <= i < d.len() implies '0' <= #[trigger] d[i] <= '9' by {
            if i < h.len() {
                assert(d[i] == h[i]);
            }
        }
        assert(d[0] == h[0]);
        assert(digits_value(d) == digits_value(h) * 10 + (d.last() as int - '0' as int));
        assert(n == (n / 10) * 10 + n % 10);
    } else {
        let d = decimal(n);
        assert(d == seq![digit_char(n)]);
        assert(d.drop_last().len() == 0);
        assert(d.last() == digit_char(n));
        assert(digit_char(n) as int == '0' as int + n);
        assert(digits_value(d) == digits_value(d.drop_last()) * 10 + (d.last() as int - '0' as int));
    }
}

/// What `char::to_uppercase` yields for `c`.
pub uninterp spec fn char_upper(c: char) -> Seq<char>;

/// A lowercase ASCII letter.
pub open spec fn is_ascii_lower(c: char) -> bool {
    'a' <= c <= 'z'
}

/// ASCII uppercase of one character: `a..=z` become `A..=Z`, all else is kept.
pub open spec fn ascii_upper_char(c: char) -> char {
    if is_ascii_lower(c) {
        (c as int - 32) as char
    } else {
        c
    }
}

/// Every character is ASCII.
pub open spec fn all_ascii(s: Seq<char>) -> bool {
    forall|i: int| 0 <= i < s.len() ==> #[trigger] s[i] <= '\x7f'
}

/// The uppercase form of a string: the uppercase mappings of its characters, in order.
pub open spec fn upper(s: Seq<char>) -> Seq<char>
    decreases s.len(),
{
    if s.len() == 0 {
        Seq::empty()
    } else {
        upper(s.drop_last()) + char_upper(s.last())
    }
}

/// Uppercasing works character by character: a single character becomes
/// its uppercase mapping, and the uppercase of a concatenation is the
/// concatenation of the uppercases.
pub proof fn upper_is_per_character(s: Seq<char>, t: Seq<char>, c: char)
    ensures
        upper(seq![c]) == char_upper(c),
        upper(s + t) == upper(s) + upper(t),
    decreases t.len(),
{
    assert(seq![c].drop_last() == Seq::<char>::empty());
    assert(upper(Seq::<char>::empty()) == Seq::<char>::empty());
    assert(upper(seq![c]) == upper(Seq::<char>::empty()) + char_upper(c));
    if t.len() == 0 {
        assert(s + t == s);
    } else {
        upper_is_per_character(s, t.drop_last(), c);
        assert((s + t).drop_last() == s + t.drop_last());
        assert((s + t).last() == t.last());
    }
}

/// `char::to_uppercase`, collected into a string.
///
/// The contract names the full Unicode mapping `char_upper` and states the
/// part that the standard library documents for ASCII: `a..=z` map to
/// `A..=Z`, and every other ASCII character has no uppercase mapping and
/// is yielded unchanged.
#[verifier::external_body]
fn uppercase_of(c: char) -> (r: String)
    ensures
        r@ == char_upper(c),
        c <= '\x7f' ==> r@ == seq![ascii_upper_char(c)],
{
    c.to_uppercase().collect()
}

proof fn lemma_upper_ascii(s: Seq<char>)
    requires
        all_ascii(s),
        forall|j: int| 0 <= j < s.len() ==> char_upper(#[trigger] s[j]) == seq![ascii_upper_char(s[j])],
    ensures
        upper(s) == s.map_values(|c: char| ascii_upper_char(c)),
    decreases s.len(),
{
    if s.len() > 0 {
        let t = s.drop_last();
        assert forall|j: int| 0 <= j < t.len() implies char_upper(#[trigger] t[j]) == seq![ascii_upper_char(t[j])] by {
            assert(t[j] == s[j]);
        }
        lemma_upper_ascii(t);
        assert(s.last() == s[s.len() - 1]);
        assert(upper(s) =~= s.map_values(|c: char| ascii_upper_char(c)));
    } else {
        assert(upper(s) =~= s.map_values(|c: char| ascii_upper_char(c)));
    }
}

/// Appends the uppercase form of `s` to `out`.
pub fn push_upper(out: &mut String, s: &Vec<char>)
    ensures
        final(out)@ == old(out)@ + upper(s@),
        all_ascii(s@) ==> upper(s@) == s@.map_values(|c: char| ascii_upper_char(c)),
{
    let n = s.len();
    let mut i: usize = 0;
    while i < n
        invariant
            n == s.len(),
            i <= n,
            out@ == old(out)@ + upper(s@.take(i as int)),
            forall|j: int| 0 <= j < i && s@[j] <= '\x7f' ==> char_upper(#[trigger] s@[j]) == seq![ascii_upper_char(s@[j])],
        decreases n - i,
    {
        let u = uppercase_of(s[i]);
        out.append(u.as_str());
        assert(s@.take(i + 1).drop_last() == s@.take(i as int));
        i += 1;
    }
    assert(s@.take(n as int) == s@);
    proof {
        if all_ascii(s@) {
            lemma_upper_ascii(s@);
        }
    }
}

} // verus!
