//! Variable names for stored values.
//!
//! An array element gets `$PREFIX_ABBREV_N` (`N` counts from 1), any other
//! field gets `$PREFIX_FIELD` with the field name in uppercase.

use vstd::prelude::*;
use crate::text::{all_ascii, ascii_upper_char, chars_of, decimal, digit_char, push_char, push_decimal, push_upper, upper};

verus! {

/// Position `i` of `f` begins an underscore-separated word: it is not an
/// underscore and comes first or right after an underscore.
pub open spec fn starts_word(f: Seq<char>, i: int) -> bool {
    f[i] != '_' && (i == 0 || f[i - 1] == '_')
}

/// The first character of every non-empty underscore-separated word of `f`.
pub open spec fn initials(f: Seq<char>) -> Seq<char>
    decreases f.len(),
{
    if f.len() == 0 {
        Seq::empty()
    } else {
        initials(f.drop_last()) + if starts_word(f, f.len() - 1) {
            seq![f.last()]
        } else {
            Seq::empty()
        }
    }
}

/// At most the first three characters of `f`.
pub open spec fn first_three(f: Seq<char>) -> Seq<char> {
    if f.len() <= 3 {
        f
    } else {
        f.take(3)
    }
}

/// The letters an array field is abbreviated to, before uppercasing:
/// the word initials of a multi-word field, else its first three characters.
pub open spec fn abbreviation_letters(f: Seq<char>) -> Seq<char> {
    if f.contains('_') {
        initials(f)
    } else {
        first_three(f)
    }
}

/// The abbreviation of an array field name.
pub open spec fn abbreviation(f: Seq<char>) -> Seq<char> {
    upper(abbreviation_letters(f))
}

/// `$PREFIX_ABBREV_N` for element `index` (counted from 1) of array field `field`.
pub open spec fn array_name(prefix: Seq<char>, field: Seq<char>, index: nat) -> Seq<char> {
    seq!['$'] + prefix + seq!['_'] + abbreviation(field) + seq!['_'] + decimal(index)
}

/// `$PREFIX_FIELD` for the scalar field `field`.
pub open spec fn scalar_name(prefix: Seq<char>, field: Seq<char>) -> Seq<char> {
    seq!['$'] + prefix + seq!['_'] + upper(field)
}

proof fn lemma_initials_ascii(f: Seq<char>)
    requires
        all_ascii(f),
    ensures
        all_ascii(initials(f)),
    decreases f.len(),
{
    if f.len() > 0 {
        assert(all_ascii(f.drop_last())) by {
            assert forall|i: int| 0 <= i < f.drop_last().len() implies #[trigger] f.drop_last()[i] <= '\x7f' by {
                assert(f.drop_last()[i] == f[i]);
            }
        }
        lemma_initials_ascii(f.drop_last());
        assert(f.last() == f[f.len() - 1]);
    }
}

proof fn lemma_letters_ascii(f: Seq<char>)
    requires
        all_ascii(f),
    ensures
        all_ascii(abbreviation_letters(f)),
{
    if f.contains('_') {
        lemma_initials_ascii(f);
    } else {
        assert forall|i: int| 0 <= i < first_three(f).len() implies #[trigger] first_three(f)[i] <= '\x7f' by {
            assert(first_three(f)[i] == f[i]);
        }
    }
}

/// Abbreviates an array field name for use in variable names.
///
/// A multi-word field (one that holds `_`) gives the first letter of each
/// word, `acceptance_criteria` giving `AC`; a single word gives its first
/// three characters, `requirements` giving `REQ`. The result is uppercase.
pub fn abbreviate_array_field(field: &str) -> (r: String)
    ensures
        r@ == abbreviation(field@),
        all_ascii(field@) ==> r@ == abbreviation_letters(field@).map_values(
            |c: char| ascii_upper_char(c),
        ),
        all_ascii(field@) ==> !r@.contains('_'),
{
    let cs = chars_of(field);
    let n = cs.len();
    let mut has_underscore = false;
    let mut k: usize = 0;
    while k < n
        invariant
            n == cs@.len(),
            k <= n,
            has_underscore <==> cs@.take(k as int).contains('_'),
        decreases n - k,
    {
        if cs[k] == '_' {
            has_underscore = true;
        }
        proof {
            let t = cs@.take(k + 1);
            if cs@.take(k as int).contains('_') {
                let w = choose|w: int| 0 <= w < k && cs@.take(k as int)[w] == '_';
                assert(t[w] == '_');
            }
            if t.contains('_') {
                let w = choose|w: int| 0 <= w < t.len() && t[w] == '_';
                if w < k {
                    assert(cs@.take(k as int)[w] == '_');
                }
            }
            if cs@[k as int] == '_' {
                assert(t[k as int] == '_');
            }
        }
        k += 1;
    }
    assert(cs@.take(n as int) == cs@);
    let mut letters: Vec<char> = Vec::new();
    if has_underscore {
        let mut i: usize = 0;
        while i < n
            invariant
                n == cs@.len(),
                i <= n,
                letters@ == initials(cs@.take(i as int)),
            decreases n - i,
        {
            let c = cs[i];
            let starts = c != '_' && (i == 0 || cs[i - 1] == '_');
            proof {
                let t = cs@.take(i + 1);
                assert(t.drop_last() == cs@.take(i as int));
                assert(t.last() == c);
                assert(starts == starts_word(t, t.len() - 1));
            }
            if starts {
                letters.push(c);
            }
            i += 1;
        }
    } else {
        let m: usize = if n <= 3 {
            n
        } else {
            3
        };
        let mut i: usize = 0;
        while i < m
            invariant
                n == cs@.len(),
                m <= n,
                m == first_three(cs@).len(),
                i <= m,
                letters@ == cs@.take(i as int),
            decreases m - i,
        {
            letters.push(cs[i]);
            assert(cs@.take(i + 1) == cs@.take(i as int).push(cs@[i as int]));
            i += 1;
        }
        assert(letters@ == first_three(cs@));
    }
    assert(letters@ == abbreviation_letters(field@));
    let mut r = String::new();
    push_upper(&mut r, &letters);
    proof {
        if all_ascii(field@) {
            lemma_letters_ascii(field@);
            abbreviation_letters_have_no_underscore(field@);
            let l = abbreviation_letters(field@);
            let u = l.map_values(|c: char| ascii_upper_char(c));
            if u.contains('_') {
                let w = choose|w: int| 0 <= w < u.len() && u[w] == '_';
                assert(u[w] == ascii_upper_char(l[w]));
                assert(l[w] == '_');
            }
        }
    }
    r
}

proof fn lemma_initials_no_underscore(f: Seq<char>)
    ensures
        !initials(f).contains('_'),
    decreases f.len(),
{
    if f.len() > 0 {
        lemma_initials_no_underscore(f.drop_last());
        let a = initials(f.drop_last());
        let b: Seq<char> = if starts_word(f, f.len() - 1) {
            seq![f.last()]
        } else {
            Seq::empty()
        };
        if (a + b).contains('_') {
            let w = choose|w: int| 0 <= w < (a + b).len() && (a + b)[w] == '_';
            if w < a.len() {
                assert(a[w] == '_');
            } else {
                assert(b[w - a.len()] == '_');
            }
        }
    }
}

/// The letters an array field is abbreviated to never include `_`: a
/// multi-word field gives only word initials, and a single word has none.
pub proof fn abbreviation_letters_have_no_underscore(f: Seq<char>)
    ensures
        !abbreviation_letters(f).contains('_'),
{
    if f.contains('_') {
        lemma_initials_no_underscore(f);
    } else {
        let t = first_three(f);
        if t.contains('_') {
            let w = choose|w: int| 0 <= w < t.len() && t[w] == '_';
            assert(f[w] == '_');
        }
    }
}

/// The variable name of an array element, `$PREFIX_ABBREV_N`, where `index`
/// counts from 1.
pub fn array_var_name(prefix: &str, field: &str, index: usize) -> (r: String)
    ensures
        r@ == array_name(prefix@, field@, index as nat),
{
    let abbrev = abbreviate_array_field(field);
    let mut r = String::new();
    push_char(&mut r, '$');
    r.append(prefix);
    push_char(&mut r, '_');
    r.append(abbrev.as_str());
    push_char(&mut r, '_');
    push_decimal(&mut r, index);
    r
}

/// The variable name of a scalar field, `$PREFIX_FIELD`, with the field
/// name in uppercase.
pub fn scalar_var_name(prefix: &str, field: &str) -> (r: String)
    ensures
        r@ == scalar_name(prefix@, field@),
        all_ascii(field@) ==> r@ == seq!['$'] + prefix@ + seq!['_'] + field@.map_values(
            |c: char| ascii_upper_char(c),
        ),
{
    let cs = chars_of(field);
    let mut r = String::new();
    push_char(&mut r, '$');
    r.append(prefix);
    push_char(&mut r, '_');
    push_upper(&mut r, &cs);
    r
}


proof fn lemma_decimal_nonempty(n: nat)
    ensures
        decimal(n).len() >= 1,
    decreases n,
{
    if n >= 10 {
        lemma_decimal_nonempty(n / 10);
    }
}

proof fn lemma_digit_char_injective(a: nat, b: nat)
    requires
        a < 10,
        b < 10,
        digit_char(a) == digit_char(b),
    ensures
        a == b,
{
    assert(digit_char(a) as int == '0' as int + a);
    assert(digit_char(b) as int == '0' as int + b);
}

proof fn lemma_decimal_injective(n: nat, m: nat)
    requires
        decimal(n) == decimal(m),
    ensures
        n == m,
    decreases n,
{
    if n < 10 && m < 10 {
        assert(decimal(n) == seq![digit_char(n)]);
        assert(decimal(m) == seq![digit_char(m)]);
        assert(seq![digit_char(n)][0] == digit_char(n));
        assert(seq![digit_char(m)][0] == digit_char(m));
        lemma_digit_char_injective(n, m);
    } else if n < 10 {
        assert(decimal(n).len() == 1);
        lemma_decimal_nonempty(m / 10);
        assert(decimal(m) == decimal(m / 10).push(digit_char(m % 10)));
        assert(decimal(m).len() >= 2);
    } else if m < 10 {
        assert(decimal(m).len() == 1);
        lemma_decimal_nonempty(n / 10);
        assert(decimal(n) == decimal(n / 10).push(digit_char(n % 10)));
        assert(decimal(n).len() >= 2);
    } else {
        let dn = decimal(n);
        let dm = decimal(m);
        assert(dn == decimal(n / 10).push(digit_char(n % 10)));
        assert(dm == decimal(m / 10).push(digit_char(m % 10)));
        assert(dn.last() == dm.last());
        assert(dn.drop_last() == decimal(n / 10));
        assert(dm.drop_last() == decimal(m / 10));
        lemma_digit_char_injective(n % 10, m % 10);
        lemma_decimal_injective(n / 10, m / 10);
        assert(n == 10 * (n / 10) + n % 10);
        assert(m == 10 * (m / 10) + m % 10);
    }
}

/// Distinct elements of one array field get distinct variable names:
/// `$PREFIX_ABBREV_i` and `$PREFIX_ABBREV_j` differ whenever `i != j`.
pub proof fn array_names_distinct(prefix: Seq<char>, field: Seq<char>, i: nat, j: nat)
    requires
        i != j,
    ensures
        array_name(prefix, field, i) != array_name(prefix, field, j),
{
    let head = seq!['$'] + prefix + seq!['_'] + abbreviation(field) + seq!['_'];
    assert(array_name(prefix, field, i) == head + decimal(i));
    assert(array_name(prefix, field, j) == head + decimal(j));
    if array_name(prefix, field, i) == array_name(prefix, field, j) {
        assert((head + decimal(i)).skip(head.len() as int) == decimal(i));
        assert((head + decimal(j)).skip(head.len() as int) == decimal(j));
        lemma_decimal_injective(i, j);
    }
}


/// Words joined with a `_` between each two.
pub open spec fn join_words(words: Seq<Seq<char>>) -> Seq<char>
    decreases words.len(),
{
    if words.len() == 0 {
        Seq::empty()
    } else if words.len() == 1 {
        words[0]
    } else {
        join_words(words.drop_last()) + seq!['_'] + words.last()
    }
}

/// The first character of each non-empty word, in order.
pub open spec fn word_initials(words: Seq<Seq<char>>) -> Seq<char>
    decreases words.len(),
{
    if words.len() == 0 {
        Seq::empty()
    } else {
        word_initials(words.drop_last()) + if words.last().len() > 0 {
            seq![words.last()[0]]
        } else {
            Seq::empty()
        }
    }
}

proof fn lemma_initials_of_word(w: Seq<char>)
    requires
        !w.contains('_'),
    ensures
        initials(w) == if w.len() > 0 {
            seq![w[0]]
        } else {
            Seq::<char>::empty()
        },
    decreases w.len(),
{
    if w.len() > 0 {
        let t = w.drop_last();
        assert(!t.contains('_')) by {
            if t.contains('_') {
                let k = choose|k: int| 0 <= k < t.len() && t[k] == '_';
                assert(w[k] == '_');
            }
        }
        lemma_initials_of_word(t);
        assert(w[w.len() - 1] != '_');
        if w.len() > 1 {
            assert(w[w.len() - 2] != '_');
            assert(t[0] == w[0]);
        }
    }
}

proof fn lemma_initials_after_separator(s: Seq<char>, w: Seq<char>)
    requires
        !w.contains('_'),
    ensures
        initials(s + seq!['_'] + w) == initials(s) + if w.len() > 0 {
            seq![w[0]]
        } else {
            Seq::<char>::empty()
        },
    decreases w.len(),
{
    let t = s + seq!['_'] + w;
    if w.len() == 0 {
        assert(t == s + seq!['_']);
        assert(t.drop_last() == s);
        assert(t.last() == '_');
        assert(initials(t) == initials(s));
    } else {
        let v = w.drop_last();
        assert(!v.contains('_')) by {
            if v.contains('_') {
                let k = choose|k: int| 0 <= k < v.len() && v[k] == '_';
                assert(w[k] == '_');
            }
        }
        lemma_initials_after_separator(s, v);
        assert(t.drop_last() == s + seq!['_'] + v);
        assert(t.last() == w[w.len() - 1]);
        assert(w[w.len() - 1] != '_');
        if w.len() == 1 {
            assert(t[t.len() - 2] == '_');
        } else {
            assert(t[t.len() - 2] == w[w.len() - 2]);
            assert(w[w.len() - 2] != '_');
            assert(v[0] == w[0]);
        }
    }
}

proof fn lemma_initials_of_joined(words: Seq<Seq<char>>)
    requires
        words.len() >= 1,
        forall|i: int| 0 <= i < words.len() ==> !(#[trigger] words[i]).contains('_'),
    ensures
        initials(join_words(words)) == word_initials(words),
    decreases words.len(),
{
    if words.len() == 1 {
        lemma_initials_of_word(words[0]);
        assert(words.drop_last().len() == 0);
        assert(words.last() == words[0]);
        assert(word_initials(words.drop_last()) == Seq::<char>::empty());
        assert(word_initials(words) =~= initials(words[0]));
    } else {
        let init = words.drop_last();
        assert forall|i: int| 0 <= i < init.len() implies !(#[trigger] init[i]).contains('_') by {
            assert(init[i] == words[i]);
        }
        lemma_initials_of_joined(init);
        assert(!words[words.len() - 1].contains('_'));
        lemma_initials_after_separator(join_words(init), words.last());
        assert(join_words(words) == join_words(init) + seq!['_'] + words.last());
    }
}

/// A field made of two or more words joined by `_` is abbreviated to the
/// uppercase of the first character of every non-empty word, one
/// character per word, whatever the number of words.
pub proof fn multi_word_abbreviation(words: Seq<Seq<char>>)
    requires
        words.len() >= 2,
        forall|i: int| 0 <= i < words.len() ==> !(#[trigger] words[i]).contains('_'),
    ensures
        join_words(words).contains('_'),
        abbreviation_letters(join_words(words)) == word_initials(words),
        abbreviation(join_words(words)) == upper(word_initials(words)),
{
    let j = join_words(words);
    let head = join_words(words.drop_last());
    assert(j == head + seq!['_'] + words.last());
    assert(j[head.len() as int] == '_');
    lemma_initials_of_joined(words);
}

/// A field without `_` is abbreviated to the uppercase of its first three
/// characters, or of all of them when it has fewer.
pub proof fn single_word_abbreviation(f: Seq<char>)
    requires
        !f.contains('_'),
    ensures
        f.len() <= 3 ==> abbreviation(f) == upper(f),
        f.len() > 3 ==> abbreviation(f) == upper(f.subrange(0, 3)),
{
    assert(f.len() > 3 ==> f.take(3) == f.subrange(0, 3));
}

/// An array element's name is `$`, the prefix exactly as given, `_`, the
/// abbreviation, `_`, and the index in decimal.
pub proof fn array_name_parts(prefix: Seq<char>, field: Seq<char>, index: nat)
    ensures
        array_name(prefix, field, index).subrange(0, prefix.len() + 2int) == seq!['$'] + prefix + seq!['_'],
        array_name(prefix, field, index).subrange(
            prefix.len() + 2int,
            prefix.len() + 2int + abbreviation(field).len(),
        ) == abbreviation(field),
        array_name(prefix, field, index).skip(prefix.len() + 2int + abbreviation(field).len())
            == seq!['_'] + decimal(index),
{
    let head = seq!['$'] + prefix + seq!['_'];
    let a = abbreviation(field);
    let n = array_name(prefix, field, index);
    assert(n == head + a + (seq!['_'] + decimal(index)));
    assert(n.subrange(0, head.len() as int) == head);
    assert(n.subrange(head.len() as int, head.len() + a.len() as int) == a);
    assert(n.skip(head.len() + a.len() as int) == seq!['_'] + decimal(index));
}

/// A scalar field's name is `$`, the prefix exactly as given, `_`, and the
/// field name in uppercase.
pub proof fn scalar_name_parts(prefix: Seq<char>, field: Seq<char>)
    ensures
        scalar_name(prefix, field).subrange(0, prefix.len() + 2int) == seq!['$'] + prefix + seq!['_'],
        scalar_name(prefix, field).skip(prefix.len() + 2int) == upper(field),
{
    let head = seq!['$'] + prefix + seq!['_'];
    let n = scalar_name(prefix, field);
    assert(n == head + upper(field));
    assert(n.subrange(0, head.len() as int) == head);
    assert(n.skip(head.len() as int) == upper(field));
}

} // verus!
