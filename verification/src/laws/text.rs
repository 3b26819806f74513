//! Strings: cutting, joining, comparing and numbers.
use crate::text::{decimal, decimal_round_trip, decimal_value, digit_char, digits_value,
    first_index, is_digit, is_first_index, joined, lower, parsed_unsigned, split_all,
    split_at_first, text_lt, unsigned_body, without_leading, without_prefix, without_prefixes};
use vstd::prelude::*;

verus! {

/// A string is cut at the first separator: what stands before it holds none, and the two parts with
/// the separator between them are the string. Without a separator it is not cut.
pub proof fn cut_at_first(s: Seq<char>, c: char)
    ensures
        match split_at_first(s, c) {
            Some((a, b)) => s == a + seq![c] + b && !a.contains(c),
            None => !s.contains(c),
        },
{
    if s.contains(c) {
        lemma_first_index(s, c, 0);
        let i = first_index(s, c);
        assert(s =~= s.take(i) + seq![c] + s.skip(i + 1));
        assert forall|j: int| 0 <= j < s.take(i).len() implies s.take(i)[j] != c by {
            assert(s[j] != c);
        }
    }
}

proof fn lemma_first_index(s: Seq<char>, c: char, from: int)
    requires
        0 <= from <= s.len(),
        s.contains(c),
        forall|j: int| 0 <= j < from ==> s[j] != c,
    ensures
        is_first_index(s, c, first_index(s, c)),
    decreases s.len() - from,
{
    if from < s.len() && s[from] != c {
        lemma_first_index(s, c, from + 1);
    } else if from < s.len() {
        assert(is_first_index(s, c, from));
    } else {
        let i = choose|i: int| 0 <= i < s.len() && s[i] == c;
        assert(s[i] != c);
    }
}

/// Joining two lists of strings joins each of them, with the separator between.
pub proof fn join_of_two(a: Seq<Seq<char>>, b: Seq<Seq<char>>, sep: Seq<char>)
    requires
        a.len() > 0,
        b.len() > 0,
    ensures
        joined(a + b, sep) == joined(a, sep) + sep + joined(b, sep),
    decreases b.len(),
{
    let c = a + b;
    assert(c.last() == b.last());
    assert(c.drop_last() =~= a + b.drop_last());
    if b.len() == 1 {
        assert(c.drop_last() =~= a);
        assert(b[0] == b.last());
    } else {
        join_of_two(a, b.drop_last(), sep);
        assert(joined(a, sep) + sep + joined(b.drop_last(), sep) + sep + b.last() =~= joined(a, sep)
            + sep + (joined(b.drop_last(), sep) + sep + b.last()));
    }
}

/// Joining a single string gives it back, and joining none gives the empty string.
pub proof fn join_of_one(s: Seq<char>, sep: Seq<char>)
    ensures
        joined(seq![s], sep) == s,
        joined(Seq::empty(), sep) == Seq::<char>::empty(),
{
}

/// The pieces of a string hold no separator, and joined with it they are the string.
pub proof fn pieces_make_the_string(s: Seq<char>, sep: char)
    ensures
        split_all(s, sep).len() > 0,
        forall|i: int|
            0 <= i < split_all(s, sep).len() ==> !(#[trigger] split_all(s, sep)[i]).contains(sep),
        joined(split_all(s, sep), seq![sep]) == s,
    decreases s.len(),
{
    let all = split_all(s, sep);
    if s.len() == 0 {
        assert(all[0] =~= Seq::<char>::empty());
    } else {
        let init = s.drop_last();
        let parts = split_all(init, sep);
        pieces_make_the_string(init, sep);
        if s.last() == sep {
            assert(all =~= parts + seq![Seq::<char>::empty()]);
            join_of_two(parts, seq![Seq::<char>::empty()], seq![sep]);
            join_of_one(Seq::empty(), seq![sep]);
            assert(init + seq![sep] + Seq::<char>::empty() =~= s);
            assert forall|i: int| 0 <= i < all.len() implies !(#[trigger] all[i]).contains(sep) by {
                if i < parts.len() {
                    assert(all[i] == parts[i]);
                }
            }
        } else {
            let grown = parts.last().push(s.last());
            let head = parts.drop_last();
            assert(all =~= head + seq![grown]);
            assert(parts =~= head + seq![parts.last()]);
            assert(parts[parts.len() - 1] == parts.last());
            join_of_one(grown, seq![sep]);
            join_of_one(parts.last(), seq![sep]);
            if head.len() > 0 {
                join_of_two(head, seq![grown], seq![sep]);
                join_of_two(head, seq![parts.last()], seq![sep]);
                assert(joined(head, seq![sep]) + seq![sep] + grown =~= (joined(head, seq![sep])
                    + seq![sep] + parts.last()).push(s.last()));
            } else {
                assert(all =~= seq![grown]);
                assert(parts =~= seq![parts.last()]);
            }
            assert(init.push(s.last()) =~= s);
            assert forall|i: int| 0 <= i < all.len() implies !(#[trigger] all[i]).contains(sep) by {
                if i < head.len() {
                    assert(all[i] == parts[i]);
                } else {
                    assert(!parts.last().contains(sep));
                    assert forall|k: int| 0 <= k < grown.len() implies grown[k] != sep by {
                        if k < parts.last().len() {
                            assert(grown[k] == parts.last()[k]);
                        }
                    }
                }
            }
        }
    }
}

/// A prefix is taken away exactly where it stands: what is left makes the string again behind it.
pub proof fn prefix_taken_away(s: Seq<char>, p: Seq<char>, rest: Seq<char>)
    ensures
        without_prefix(s, p) == Some(rest) <==> s == p + rest,
{
    if s == p + rest {
        assert(s.take(p.len() as int) =~= p);
        assert(s.skip(p.len() as int) =~= rest);
    }
    if without_prefix(s, p) == Some(rest) {
        assert(s =~= s.take(p.len() as int) + s.skip(p.len() as int));
    }
}

/// A string whose front is trimmed is the rest behind some of the trimmed characters, and does not
/// begin with one.
pub proof fn front_trimmed(s: Seq<char>, c: char) -> (n: nat)
    ensures
        s == Seq::new(n, |i: int| c) + without_leading(s, c),
        without_leading(s, c).len() > 0 ==> without_leading(s, c)[0] != c,
    decreases s.len(),
{
    if s.len() > 0 && s[0] == c {
        let n = front_trimmed(s.drop_first(), c);
        assert(s =~= seq![c] + s.drop_first());
        assert(Seq::new((n + 1) as nat, |i: int| c) =~= seq![c] + Seq::new(n, |i: int| c));
        assert(s =~= Seq::new((n + 1) as nat, |i: int| c) + without_leading(s, c));
        (n + 1) as nat
    } else {
        assert(s =~= Seq::new(0, |i: int| c) + s);
        0
    }
}

/// A prefix is taken away as often as it stands at the front, and no oftener.
pub proof fn prefixes_taken_away(s: Seq<char>, p: Seq<char>)
    requires
        p.len() > 0,
    ensures
        without_prefixes(p + s, p) == without_prefixes(s, p),
        (forall|rest: Seq<char>| s != #[trigger] (p + rest)) ==> without_prefixes(s, p) == s,
{
    assert((p + s).take(p.len() as int) =~= p);
    assert((p + s).skip(p.len() as int) =~= s);
    if p.len() <= s.len() && s.take(p.len() as int) == p {
        assert(s =~= p + s.skip(p.len() as int));
    }
}

/// Lower case keeps the length and every character but the letters `A` to `Z`, which move to the
/// small letters in their order.
pub proof fn lower_case(s: Seq<char>, i: int)
    requires
        0 <= i < s.len(),
    ensures
        lower(s).len() == s.len(),
        'A' <= s[i] <= 'Z' ==> lower(s)[i] as int - 'a' as int == s[i] as int - 'A' as int,
        !('A' <= s[i] <= 'Z') ==> lower(s)[i] == s[i],
{
}

/// A number is read digit by digit: a string of digits with one more digit stands for ten times the
/// number and the digit, unless that exceeds the bound. A plus sign in front changes nothing.
pub proof fn number_read_by_digits(s: Seq<char>, n: nat, d: nat, max: nat)
    requires
        parsed_unsigned(s, max) == Some(n),
        d < 10,
    ensures
        n <= max,
        parsed_unsigned(s.push(digit_char(d)), max) == (if 10 * n + d <= max {
            Some(10 * n + d)
        } else {
            None
        }),
        s[0] != '+' ==> parsed_unsigned(seq!['+'] + s, max) == Some(n),
{
    let t = s.push(digit_char(d));
    let body = unsigned_body(s);
    let more = unsigned_body(t);
    assert(s.len() > 0);
    assert(t[0] == s[0]);
    assert(more =~= body.push(digit_char(d)));
    assert(more.drop_last() =~= body);
    assert(is_digit(digit_char(d)));
    assert forall|i: int| 0 <= i < more.len() implies is_digit(#[trigger] more[i]) by {
        if i < body.len() {
            assert(more[i] == body[i]);
        }
    }
    let plus = seq!['+'] + s;
    assert(plus[0] == '+');
    assert(plus.skip(1) =~= s);
}

/// A string that is no number is not read as one: it is empty, or it holds something that is neither
/// a digit nor a plus sign at the front. A digit stands for itself.
pub proof fn number_needs_digits(s: Seq<char>, d: nat, max: nat)
    requires
        d < 10,
    ensures
        s.len() == 0 ==> parsed_unsigned(s, max) is None,
        s == seq!['+'] ==> parsed_unsigned(s, max) is None,
        forall|i: int|
            0 <= i < s.len() && !is_digit(#[trigger] s[i]) && !(i == 0 && s[i] == '+')
                ==> parsed_unsigned(s, max) is None,
        parsed_unsigned(seq![digit_char(d)], max) == (if d <= max {
            Some(d)
        } else {
            None
        }),
{
    let body = unsigned_body(s);
    if s == seq!['+'] {
        assert(s.skip(1) =~= Seq::<char>::empty());
    }
    assert forall|i: int|
        0 <= i < s.len() && !is_digit(#[trigger] s[i]) && !(i == 0 && s[i] == '+') implies
    parsed_unsigned(s, max) is None by {
        if s[0] == '+' {
            assert(body[i - 1] == s[i]);
        } else {
            assert(body[i] == s[i]);
        }
    }
    let one = seq![digit_char(d)];
    assert(one[0] == digit_char(d));
    assert(unsigned_body(one) == one);
    assert(one.drop_last() =~= Seq::<char>::empty());
    reveal_with_fuel(digits_value, 2);
    assert(one.last() == digit_char(d));
}

/// A number is written with digits only, without a zero in front, and reads back as itself.
pub proof fn number_written(n: nat)
    ensures
        parsed_unsigned(decimal(n), n) == Some(n),
        decimal(n).len() > 1 ==> decimal(n)[0] != '0',
        forall|i: int| 0 <= i < decimal(n).len() ==> is_digit(#[trigger] decimal(n)[i]),
    decreases n,
{
    decimal_round_trip(n, n);
    decimal_value(n);
    if n >= 10 {
        number_written(n / 10);
        decimal_value(n / 10);
        if decimal(n / 10).len() == 1 {
            assert(n / 10 < 10) by {
                if n / 10 >= 10 {
                    decimal_value(n / 100);
                }
            }
            assert(decimal(n / 10)[0] == digit_char(n / 10));
        }
        assert(decimal(n)[0] == decimal(n / 10)[0]);
    }
}

/// The order of strings is that of a dictionary: after what they have in common, one string ends or
/// has the smaller character.
pub proof fn dictionary_order(a: Seq<char>, b: Seq<char>)
    ensures
        text_lt(a, b) <==> exists|k: int|
            0 <= k <= a.len() && k < b.len() && #[trigger] a.take(k) == b.take(k) && (k == a.len()
                || a[k] < b[k]),
    decreases a.len(),
{
    if b.len() > 0 {
        if a.len() == 0 {
            assert(a.take(0) =~= b.take(0));
        } else if a[0] != b[0] {
            assert(a.take(0) =~= b.take(0));
            assert forall|k: int|
                0 <= k <= a.len() && k < b.len() && #[trigger] a.take(k) == b.take(k) implies k
                == 0 by {
                if k > 0 {
                    assert(a.take(k)[0] == a[0] && b.take(k)[0] == b[0]);
                }
            }
        } else {
            let x = a.drop_first();
            let y = b.drop_first();
            dictionary_order(x, y);
            if text_lt(x, y) {
                let k = choose|k: int|
                    0 <= k <= x.len() && k < y.len() && #[trigger] x.take(k) == y.take(k) && (k
                        == x.len() || x[k] < y[k]);
                assert(a.take(k + 1) =~= seq![a[0]] + x.take(k));
                assert(b.take(k + 1) =~= seq![b[0]] + y.take(k));
                assert(a.take(k + 1) == b.take(k + 1));
            }
            if exists|k: int|
                0 <= k <= a.len() && k < b.len() && #[trigger] a.take(k) == b.take(k) && (k
                    == a.len() || a[k] < b[k]) {
                let k = choose|k: int|
                    0 <= k <= a.len() && k < b.len() && #[trigger] a.take(k) == b.take(k) && (k
                        == a.len() || a[k] < b[k]);
                assert(k > 0);
                assert(x.take(k - 1) =~= a.take(k).drop_first());
                assert(y.take(k - 1) =~= b.take(k).drop_first());
                assert(x.take(k - 1) == y.take(k - 1));
            }
        }
    }
}

} // verus!
