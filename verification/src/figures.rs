//! Numbers as they are written: what decimals, quantities, instants and
//! settings come to.

use crate::api;
use crate::api::{Params, QueryFault, Span};
use crate::config;
use crate::config::Variables;
use crate::decimal;
use crate::double;
use crate::kube;
use crate::promql::eval;
use crate::promql::eval::{RangeView, ValueView};
use crate::promql::parser;
use crate::store::StoreView;
use crate::text;
use vstd::arithmetic::power;
use vstd::prelude::*;

verus! {

/// Each digit weighs ten times what the next one does.
pub proof fn law_digits_weigh_ten(a: Seq<char>, b: Seq<char>)
    requires
        decimal::all_digits(b),
    ensures
        decimal::digits_value(a + b) == decimal::digits_value(a) * power::pow(10, b.len())
            + decimal::digits_value(b),
        b.len() == 1 ==> decimal::digits_value(b) == b[0] as int - '0' as int,
    decreases b.len(),
{
    if b.len() == 0 {
        assert(a + b =~= a);
        power::lemma_pow0(10);
    } else {
        let init = b.drop_last();
        assert forall|i: int| 0 <= i < init.len() implies text::digit(#[trigger] init[i]) by {
            assert(init[i] == b[i]);
        }
        assert(text::digit(b[b.len() - 1]));
        assert((a + b).drop_last() =~= a + init);
        law_digits_weigh_ten(a, init);
        reveal(power::pow);
        let p = power::pow(10, init.len());
        let x = decimal::digits_value(a);
        assert(10 * (x * p) == x * (10 * p)) by (nonlinear_arith);
        if b.len() == 1 {
            assert(init =~= seq![]);
        }
    }
}

/// Digits in front of something else are counted to their end.
proof fn lemma_digits_end(a: Seq<char>, b: Seq<char>)
    requires
        decimal::all_digits(a),
        b.len() == 0 || !text::digit(b[0]),
    ensures
        decimal::leading_digits(a + b) == a.len(),
    decreases a.len(),
{
    let s = a + b;
    if a.len() == 0 {
        assert(s =~= b);
    } else {
        let tail = a.drop_first();
        assert forall|i: int| 0 <= i < tail.len() implies text::digit(#[trigger] tail[i]) by {
            assert(tail[i] == a[i + 1]);
        }
        assert(text::digit(a[0]));
        assert(s.drop_first() =~= tail + b);
        lemma_digits_end(tail, b);
    }
}

/// What starts with a digit is neither signed nor a word.
proof fn lemma_starts_with_digit(s: Seq<char>)
    requires
        s.len() > 0,
        text::digit(s[0]),
    ensures
        !decimal::has_sign(s),
        decimal::unsigned(s) == s,
        decimal::smalls(s) != "inf"@,
        decimal::smalls(s) != "infinity"@,
        decimal::smalls(s) != "nan"@,
{
    reveal_strlit("inf");
    reveal_strlit("infinity");
    reveal_strlit("nan");
    assert(decimal::smalls(s)[0] == s[0]);
    assert("inf"@[0] == 'i' && "infinity"@[0] == 'i' && "nan"@[0] == 'n');
}

/// Which number a decimal that starts with digits stands for.
proof fn lemma_spelled(s: Seq<char>, w: nat, q: int)
    requires
        s.len() > 0,
        text::digit(s[0]),
        decimal::decimal(s) == Some((w, q)),
    ensures
        decimal::spelled(s) == Some(double::signed(false, decimal::nearest_decimal(w, q))),
        decimal::spelled("-"@ + s) == Some(double::signed(true, decimal::nearest_decimal(w, q))),
{
    reveal_strlit("-");
    lemma_starts_with_digit(s);
    let t = "-"@ + s;
    assert(t.drop_first() =~= s);
}

/// A whole number in digits is read as the double nearest to it, and with a
/// minus in front as the one nearest to its opposite.
pub proof fn law_whole_numbers_are_spelled(n: nat)
    ensures
        decimal::spelled(decimal::shown(n)) == Some(double::of_int(n as int)),
        n > 0 ==> decimal::spelled("-"@ + decimal::shown(n)) == Some(double::of_int(-(n as int))),
{
    let s = decimal::shown(n);
    decimal::law_shown_reads_back(n);
    assert(text::digit(s[0]));
    assert(s + seq![] =~= s);
    lemma_digits_end(s, seq![]);
    let behind = s.skip(s.len() as int);
    assert(s.take(s.len() as int) + behind.take(0) =~= s);
    assert(behind.skip(0).len() == 0);
    assert(decimal::decimal(s) == Some((n, 0int)));
    lemma_spelled(s, n, 0);
    power::lemma_pow0(10);
    let p = power::pow(10, 0) as nat;
    assert(n * p == n) by (nonlinear_arith)
        requires
            p == 1,
    ;
}

/// A decimal with a point is read as the double nearest to it.
pub proof fn law_fractions_are_spelled(n: nat, tail: Seq<char>)
    requires
        decimal::all_digits(tail),
    ensures
        ({
            let all = n * power::pow(10, tail.len()) + decimal::digits_value(tail);
            decimal::spelled(decimal::shown(n) + "."@ + tail) matches Some(m)
                && double::is_nearest(
                all as nat * double::one(),
                power::pow(10, tail.len()) as nat,
                m as nat,
            )
        }),
{
    reveal_strlit(".");
    let front = decimal::shown(n);
    let s = front + "."@ + tail;
    let k = tail.len();
    let whole = front.len() as int;
    decimal::law_shown_reads_back(n);
    assert(text::digit(front[0]) && s[0] == front[0]);
    assert(s =~= front + ("."@ + tail));
    lemma_digits_end(front, "."@ + tail);
    assert(s[whole] == '.');
    let behind = s.skip(whole + 1);
    assert(behind =~= tail);
    assert(tail + seq![] =~= tail);
    lemma_digits_end(tail, seq![]);
    assert(s.take(whole) =~= front);
    assert(behind.take(k as int) =~= tail);
    assert(behind.skip(k as int).len() == 0);
    law_digits_weigh_ten(front, tail);
    let w = decimal::digits_value(front + tail);
    assert(decimal::decimal(s) == Some((w, -(k as int))));
    lemma_spelled(s, w, -(k as int));
    power::lemma_pow_positive(10, k);
    power::lemma_pow0(10);
    double::law_nearest_exists(w * double::one(), power::pow(10, k) as nat);
}

/// A number behind an `e` says how many places to move the point.
pub proof fn law_exponents_move_the_point(n: nat, k: nat)
    ensures
        decimal::spelled(decimal::shown(n) + "e"@ + decimal::shown(k)) matches Some(m)
            && double::is_nearest(n * power::pow(10, k) as nat * double::one(), 1, m as nat),
        decimal::spelled(decimal::shown(n) + "e-"@ + decimal::shown(k)) matches Some(m)
            && double::is_nearest(n * double::one(), power::pow(10, k) as nat, m as nat),
{
    reveal_strlit("e");
    reveal_strlit("e-");
    decimal::law_shown_reads_back(n);
    decimal::law_shown_reads_back(k);
    power::lemma_pow_positive(10, k);
    power::lemma_pow0(10);
    let front = decimal::shown(n);
    let back = decimal::shown(k);
    let whole = front.len() as int;
    assert(text::digit(front[0]));
    assert(text::digit(back[0]));
    lemma_starts_with_digit(back);
    let s = front + "e"@ + back;
    assert(s[0] == front[0]);
    assert(s =~= front + ("e"@ + back));
    lemma_digits_end(front, "e"@ + back);
    assert(s[whole] == 'e');
    assert(s.skip(whole).skip(0) =~= "e"@ + back);
    assert(("e"@ + back).drop_first() =~= back);
    assert(s.take(whole) + s.skip(whole).take(0) =~= front);
    assert(decimal::decimal(s) == Some((n, k as int)));
    lemma_spelled(s, n, k as int);
    double::law_nearest_exists(n * power::pow(10, k) as nat * double::one(), 1);
    let t = front + "e-"@ + back;
    assert(t[0] == front[0]);
    assert(t =~= front + ("e-"@ + back));
    lemma_digits_end(front, "e-"@ + back);
    assert(t[whole] == 'e');
    assert(t.skip(whole).skip(0) =~= "e-"@ + back);
    let down = ("e-"@ + back).drop_first();
    assert(down[0] == '-');
    assert(down.drop_first() =~= back);
    assert(t.take(whole) + t.skip(whole).take(0) =~= front);
    assert(decimal::decimal(t) == Some((n, -(k as int))));
    lemma_spelled(t, n, -(k as int));
    double::law_nearest_exists(n * double::one(), power::pow(10, k) as nat);
    if k == 0 {
        assert(n * 1 * double::one() == n * double::one()) by (nonlinear_arith);
    }
}

/// A whole number to a whole power is that whole number, as long as it does
/// not pass 2^53.
proof fn lemma_squared_power(a: int, n: nat, r: int)
    requires
        a >= 2,
        r >= 1,
        r * power::pow(a, n) <= 0x20_0000_0000_0000,
        n > 0 ==> a <= 0x20_0000_0000_0000,
    ensures
        double::squared_power(double::of_int(a), n, double::of_int(r)) == double::of_int(
            r * power::pow(a, n),
        ),
    decreases n,
{
    power::lemma_pow0(a);
    power::lemma_pow1(a);
    power::lemma_pow_positive(a, n);
    assert(r <= r * power::pow(a, n)) by (nonlinear_arith)
        requires
            r >= 1,
            power::pow(a, n) >= 1,
    ;
    let half = n / 2;
    let square = a * a;
    let odd = n % 2 == 1;
    let next = if odd {
        r * a
    } else {
        r
    };
    if n > 0 {
        assert(square == power::pow(a, 2)) by {
            power::lemma_pow_adds(a, 1, 1);
        }
        power::lemma_pow_multiplies(a, 2, half);
        assert(power::pow(square, half) == power::pow(a, 2 * half));
        let p = power::pow(square, half);
        assert(square >= 2 && next >= 1) by (nonlinear_arith)
            requires
                a >= 2,
                r >= 1,
                square == a * a,
                next == r || next == r * a,
        ;
        power::lemma_pow_positive(square, half);
        if odd {
            power::lemma_pow_adds(a, 1, 2 * half);
            assert(power::pow(a, n) == a * p);
            assert(r * (a * p) == next * p) by (nonlinear_arith)
                requires
                    next == r * a,
            ;
        } else {
            assert(power::pow(a, n) == p);
        }
        assert(next * p <= 0x20_0000_0000_0000);
        assert(next <= next * p && p <= next * p) by (nonlinear_arith)
            requires
                next >= 1,
                p >= 1,
        ;
        if odd {
            assert(r <= next) by (nonlinear_arith)
                requires
                    next == r * a,
                    a >= 2,
                    r >= 1,
            ;
            double::law_small_integers_multiply(r, a);
        }
        if n >= 2 {
            assert(square <= p) by {
                power::lemma_pow1(square);
                power::lemma_pow_increases(square as nat, 1, half);
            }
            double::law_small_integers_multiply(a, a);
            lemma_squared_power(square, half, next);
        } else {
            power::lemma_pow0(square);
            assert(next * 1 == next);
        }
    } else {
        assert(r * 1 == r);
    }
}

/// A whole number to a whole power is that whole number, as long as it does
/// not pass 2^53, and to a negative power one over it.
pub proof fn law_powers_are_exact(a: int, n: nat)
    requires
        2 <= a <= 0x20_0000_0000_0000,
        power::pow(a, n) <= 0x20_0000_0000_0000,
    ensures
        double::power(double::of_int(a), n as int) == double::of_int(power::pow(a, n)),
        n > 0 ==> double::power(double::of_int(a), -(n as int)) == double::quotient(
            double::of_int(1),
            double::of_int(power::pow(a, n)),
        ),
{
    assert(1 * power::pow(a, n) == power::pow(a, n));
    lemma_squared_power(a, n, 1);
}

/// Whether a character is a blank.
pub open spec fn blank(c: char) -> bool {
    c == ' ' || c == '\t' || c == '\n' || c == '\r'
}

proof fn lemma_front_trimmed(a: Seq<char>, s: Seq<char>)
    requires
        forall|i: int| 0 <= i < a.len() ==> text::white(#[trigger] a[i]),
        s.len() > 0 && !text::white(s[0]),
    ensures
        text::trimmed_front(a + s) == s,
    decreases a.len(),
{
    let all = a + s;
    if a.len() == 0 {
        assert(all =~= s);
    } else {
        let tail = a.drop_first();
        assert forall|i: int| 0 <= i < tail.len() implies text::white(#[trigger] tail[i]) by {
            assert(tail[i] == a[i + 1]);
        }
        assert(all[0] == a[0]);
        assert(all.drop_first() =~= tail + s);
        lemma_front_trimmed(tail, s);
    }
}

proof fn lemma_back_trimmed(s: Seq<char>, b: Seq<char>)
    requires
        forall|i: int| 0 <= i < b.len() ==> text::white(#[trigger] b[i]),
        s.len() > 0 && !text::white(s.last()),
    ensures
        text::trimmed_back(s + b) == s,
    decreases b.len(),
{
    let all = s + b;
    if b.len() == 0 {
        assert(all =~= s);
    } else {
        let init = b.drop_last();
        assert forall|i: int| 0 <= i < init.len() implies text::white(#[trigger] init[i]) by {
            assert(init[i] == b[i]);
        }
        assert(all.last() == b[b.len() - 1]);
        assert(all.drop_last() =~= s + init);
        lemma_back_trimmed(s, init);
    }
}

proof fn lemma_trimmed(a: Seq<char>, s: Seq<char>, b: Seq<char>)
    requires
        forall|i: int| 0 <= i < a.len() ==> text::white(#[trigger] a[i]),
        forall|i: int| 0 <= i < b.len() ==> text::white(#[trigger] b[i]),
        s.len() > 0 && !text::white(s[0]) && !text::white(s.last()),
    ensures
        text::trimmed(a + s + b) == s,
{
    assert(a + s + b =~= a + (s + b));
    assert((s + b)[0] == s[0]);
    lemma_front_trimmed(a, s + b);
    lemma_back_trimmed(s, b);
}

proof fn lemma_number_ends(a: Seq<char>, b: Seq<char>)
    requires
        decimal::all_digits(a),
        b.len() == 0 || !kube::in_quantity(b[0]),
    ensures
        kube::number_length(a + b) == a.len(),
    decreases a.len(),
{
    let s = a + b;
    if a.len() == 0 {
        assert(s =~= b);
    } else {
        let tail = a.drop_first();
        assert forall|i: int| 0 <= i < tail.len() implies text::digit(#[trigger] tail[i]) by {
            assert(tail[i] == a[i + 1]);
        }
        assert(text::digit(a[0]));
        assert(s.drop_first() =~= tail + b);
        lemma_number_ends(tail, b);
    }
}

/// A quantity is its number times what its suffix stands for.
proof fn lemma_quantity(n: nat, suffix: Seq<char>)
    requires
        suffix.len() == 0 || (!kube::in_quantity(suffix[0]) && !text::white(suffix.last())),
    ensures
        kube::quantity(decimal::shown(n) + suffix) == (match kube::multiplier(suffix) {
            Some(by) => Some(double::product(double::of_int(n as int), by)),
            None => None,
        }),
{
    let number = decimal::shown(n);
    let s = number + suffix;
    decimal::law_shown_reads_back(n);
    law_whole_numbers_are_spelled(n);
    assert(text::digit(number[0]));
    assert(text::digit(number[number.len() - 1]));
    assert(s[0] == number[0]);
    if suffix.len() == 0 {
        assert(s.last() == number.last());
    } else {
        assert(s.last() == suffix.last());
    }
    lemma_trimmed(seq![], s, seq![]);
    assert(seq![] + s + seq![] =~= s);
    lemma_number_ends(number, suffix);
    assert(s.take(number.len() as int) =~= number);
    assert(s.skip(number.len() as int) =~= suffix);
}

/// Blanks around a quantity do not count.
pub proof fn law_blanks_around_a_quantity(a: Seq<char>, s: Seq<char>, b: Seq<char>)
    requires
        forall|i: int| 0 <= i < a.len() ==> blank(#[trigger] a[i]),
        forall|i: int| 0 <= i < b.len() ==> blank(#[trigger] b[i]),
        s.len() > 0,
        !text::white(s[0]) && !text::white(s.last()),
    ensures
        kube::quantity(a + s + b) == kube::quantity(s),
{
    lemma_trimmed(a, s, b);
    lemma_trimmed(seq![], s, seq![]);
    assert(seq![] + s + seq![] =~= s);
}

/// What quantities are written with, each standing for a thousand times
/// what the one before it does, or 1024 times with an `i` behind it.
pub open spec fn letters() -> Seq<char> {
    seq!['k', 'M', 'G', 'T', 'P', 'E']
}

proof fn lemma_powers(i: int)
    requires
        0 <= i < 6,
    ensures
        power::pow(1000, (i + 1) as nat) == seq![
            1_000int,
            1_000_000int,
            1_000_000_000int,
            1_000_000_000_000int,
            1_000_000_000_000_000int,
            1_000_000_000_000_000_000int,
        ][i],
        power::pow(1024, (i + 1) as nat) == seq![
            1_024int,
            1_048_576int,
            1_073_741_824int,
            1_099_511_627_776int,
            1_125_899_906_842_624int,
            1_152_921_504_606_846_976int,
        ][i],
{
    reveal(power::pow);
    assert(power::pow(1000, 0) == 1);
    assert(power::pow(1000, 1) == 1_000);
    assert(power::pow(1000, 2) == 1_000_000);
    assert(power::pow(1000, 3) == 1_000_000_000);
    assert(power::pow(1000, 4) == 1_000_000_000_000);
    assert(power::pow(1000, 5) == 1_000_000_000_000_000);
    assert(power::pow(1000, 6) == 1_000_000_000_000_000_000);
    assert(power::pow(1024, 0) == 1);
    assert(power::pow(1024, 1) == 1_024);
    assert(power::pow(1024, 2) == 1_048_576);
    assert(power::pow(1024, 3) == 1_073_741_824);
    assert(power::pow(1024, 4) == 1_099_511_627_776);
    assert(power::pow(1024, 5) == 1_125_899_906_842_624);
    assert(power::pow(1024, 6) == 1_152_921_504_606_846_976);
}

proof fn lemma_suffixes()
    ensures
        ""@ == Seq::<char>::empty(),
        "m"@ == seq!['m'],
        "k"@ == seq!['k'],
        "M"@ == seq!['M'],
        "G"@ == seq!['G'],
        "T"@ == seq!['T'],
        "P"@ == seq!['P'],
        "E"@ == seq!['E'],
        "Ki"@ == seq!['K', 'i'],
        "Mi"@ == seq!['M', 'i'],
        "Gi"@ == seq!['G', 'i'],
        "Ti"@ == seq!['T', 'i'],
        "Pi"@ == seq!['P', 'i'],
        "Ei"@ == seq!['E', 'i'],
{
    reveal_strlit("");
    reveal_strlit("m");
    reveal_strlit("k");
    reveal_strlit("M");
    reveal_strlit("G");
    reveal_strlit("T");
    reveal_strlit("P");
    reveal_strlit("E");
    reveal_strlit("Ki");
    reveal_strlit("Mi");
    reveal_strlit("Gi");
    reveal_strlit("Ti");
    reveal_strlit("Pi");
    reveal_strlit("Ei");
}

proof fn lemma_thousands(i: int)
    requires
        0 <= i < 6,
    ensures
        kube::multiplier(seq![letters()[i]]) == Some(
            double::of_int(power::pow(1000, (i + 1) as nat)),
        ),
{
    lemma_powers(i);
    lemma_suffixes();
    let suffix = seq![letters()[i]];
    assert(suffix.len() == 1 && suffix[0] == letters()[i]);
    assert(i == 0 || i == 1 || i == 2 || i == 3 || i == 4 || i == 5);
}

proof fn lemma_binaries(i: int, letter: char)
    requires
        0 <= i < 6,
        letter == (if i == 0 {
            'K'
        } else {
            letters()[i]
        }),
    ensures
        kube::multiplier(seq![letter, 'i']) == Some(
            double::of_int(power::pow(1024, (i + 1) as nat)),
        ),
{
    lemma_powers(i);
    lemma_suffixes();
    let suffix = seq![letter, 'i'];
    assert(suffix.len() == 2 && suffix[0] == letter && suffix[1] == 'i');
    assert(i == 0 || i == 1 || i == 2 || i == 3 || i == 4 || i == 5);
}

/// A quantity that stays below 2^53 comes out exact.
proof fn lemma_exact(n: nat, by: int)
    requires
        by >= 1,
    ensures
        by <= 0x20_0000_0000_0000 && n * by <= 0x20_0000_0000_0000 ==> double::product(
            double::of_int(n as int),
            double::of_int(by),
        ) == double::of_int(n * by),
{
    if by <= 0x20_0000_0000_0000 && n * by <= 0x20_0000_0000_0000 {
        assert(n <= n * by) by (nonlinear_arith)
            requires
                by >= 1,
        ;
        double::law_small_integers_multiply(n as int, by);
    }
}

/// Kilo, mega, giga and so on scale a quantity by powers of a thousand, and
/// with an `i` by powers of 1024. What stays below 2^53 comes out exact.
pub proof fn law_suffixes_scale(n: nat, i: int)
    requires
        0 <= i < 6,
    ensures
        ({
            let by = power::pow(1000, (i + 1) as nat);
            let got = kube::quantity(decimal::shown(n) + seq![letters()[i]]);
            &&& got == Some(double::product(double::of_int(n as int), double::of_int(by)))
            &&& by <= 0x20_0000_0000_0000 && n * by <= 0x20_0000_0000_0000 ==> got == Some(
                double::of_int(n * by),
            )
        }),
        ({
            let by = power::pow(1024, (i + 1) as nat);
            let letter = if i == 0 {
                'K'
            } else {
                letters()[i]
            };
            let got = kube::quantity(decimal::shown(n) + seq![letter, 'i']);
            &&& got == Some(double::product(double::of_int(n as int), double::of_int(by)))
            &&& by <= 0x20_0000_0000_0000 && n * by <= 0x20_0000_0000_0000 ==> got == Some(
                double::of_int(n * by),
            )
        }),
{
    let letter = letters()[i];
    let large = if i == 0 {
        'K'
    } else {
        letter
    };
    lemma_thousands(i);
    lemma_binaries(i, large);
    assert(!kube::in_quantity(letter) && !kube::in_quantity(large)
        && !text::white(letter));
    assert(seq![letter][0] == letter && seq![letter].last() == letter);
    assert(seq![large, 'i'][0] == large && seq![large, 'i'].last() == 'i');
    lemma_quantity(n, seq![letter]);
    lemma_quantity(n, seq![large, 'i']);
    power::lemma_pow_positive(1000, (i + 1) as nat);
    power::lemma_pow_positive(1024, (i + 1) as nat);
    lemma_exact(n, power::pow(1000, (i + 1) as nat));
    lemma_exact(n, power::pow(1024, (i + 1) as nat));
}

/// A quantity without a suffix is its number, and `m` makes thousandths of
/// it.
pub proof fn law_plain_and_milli_quantities(n: nat)
    ensures
        n <= 0x20_0000_0000_0000 ==> kube::quantity(decimal::shown(n)) == Some(
            double::of_int(n as int),
        ),
        kube::quantity(decimal::shown(n) + seq!['m']) == Some(
            double::product(
                double::of_int(n as int),
                double::quotient(double::of_int(1), double::of_int(1000)),
            ),
        ),
{
    lemma_suffixes();
    lemma_quantity(n, seq![]);
    assert(decimal::shown(n) + seq![] =~= decimal::shown(n));
    if n <= 0x20_0000_0000_0000 {
        assert(n * 1 == n);
        double::law_small_integers_multiply(n as int, 1);
    }
    let milli = seq!['m'];
    assert(milli.len() == 1 && milli[0] == 'm');
    lemma_quantity(n, milli);
}

proof fn lemma_exponent_is_small(k: nat)
    requires
        power::pow(10, k) <= 0x20_0000_0000_0000,
    ensures
        k < 16,
{
    if k >= 16 {
        power::lemma_pow_increases(10, 16, k);
        reveal(power::pow);
        assert(power::pow(10, 0) == 1);
        assert(power::pow(10, 1) == 10);
        assert(power::pow(10, 2) == 100);
        assert(power::pow(10, 3) == 1_000);
        assert(power::pow(10, 4) == 10_000);
        power::lemma_pow_adds(10, 4, 4);
        power::lemma_pow_adds(10, 8, 8);
        let p = power::pow(10, 4);
        let q = power::pow(10, 8);
        assert(q == 100_000_000) by (nonlinear_arith)
            requires
                q == p * p,
                p == 10_000,
        ;
        assert(q * q == 10_000_000_000_000_000) by (nonlinear_arith)
            requires
                q == 100_000_000,
        ;
    }
}

proof fn lemma_exponent_suffix(k: nat)
    requires
        k < 16,
    ensures
        kube::multiplier(seq!['e'] + decimal::shown(k)) == Some(
            double::power(double::of_int(10), k as int),
        ),
{
    lemma_suffixes();
    let back = decimal::shown(k);
    decimal::law_shown_reads_back(k);
    assert(text::digit(back[0]));
    lemma_starts_with_digit(back);
    let suffix = seq!['e'] + back;
    assert(suffix.len() >= 2 && suffix[0] == 'e');
    assert(suffix.drop_first() =~= back);
    assert(decimal::integer(back) == Some(k as int));
    assert(seq!['K', 'i'][0] == 'K' && seq!['M', 'i'][0] == 'M' && seq!['G', 'i'][0] == 'G' && seq![
        'T',
        'i',
    ][0] == 'T' && seq!['P', 'i'][0] == 'P' && seq!['E', 'i'][0] == 'E');
}

/// A number behind an `e` multiplies a quantity by that power of ten.
pub proof fn law_exponents_scale(n: nat, k: nat)
    requires
        n <= 0x20_0000_0000_0000,
        power::pow(10, k) <= 0x20_0000_0000_0000,
        n * power::pow(10, k) <= 0x20_0000_0000_0000,
    ensures
        kube::quantity(decimal::shown(n) + (seq!['e'] + decimal::shown(k))) == Some(
            double::of_int(n * power::pow(10, k)),
        ),
{
    lemma_exponent_is_small(k);
    lemma_exponent_suffix(k);
    let back = decimal::shown(k);
    decimal::law_shown_reads_back(k);
    assert(text::digit(back[back.len() - 1]));
    let suffix = seq!['e'] + back;
    assert(suffix.last() == back.last());
    lemma_quantity(n, suffix);
    law_powers_are_exact(10, k);
    power::lemma_pow_positive(10, k);
    double::law_small_integers_multiply(n as int, power::pow(10, k));
}

/// What starts with another letter is no suffix.
pub proof fn law_strange_suffixes_are_refused(n: nat, suffix: Seq<char>)
    requires
        suffix.len() > 0,
        !kube::in_quantity(suffix[0]) && !text::white(suffix.last()),
        !seq!['m', 'k', 'K', 'M', 'G', 'T', 'P', 'E', 'e'].contains(suffix[0]),
    ensures
        kube::quantity(decimal::shown(n) + suffix) is None,
{
    lemma_suffixes();
    lemma_quantity(n, suffix);
    let known = seq!['m', 'k', 'K', 'M', 'G', 'T', 'P', 'E', 'e'];
    assert(known[0] == 'm' && known[1] == 'k' && known[2] == 'K' && known[3] == 'M' && known[4]
        == 'G' && known[5] == 'T' && known[6] == 'P' && known[7] == 'E' && known[8] == 'e');
    assert(forall|i: int| 0 <= i < known.len() ==> #[trigger] known[i] != suffix[0]);
}

/// Whether a parameter is a whole number in digits.
pub open spec fn says(param: Option<String>, t: int) -> bool {
    param matches Some(s) && s@ == (if t < 0 {
        "-"@ + decimal::shown((-t) as nat)
    } else {
        decimal::shown(t as nat)
    })
}

/// Whether a parameter is not there or is no number.
pub open spec fn unset(param: Option<String>) -> bool {
    match param {
        Some(s) => decimal::spelled(s@) is None,
        None => true,
    }
}

proof fn lemma_says(param: Option<String>, t: int)
    requires
        says(param, t),
        -0x20_0000_0000_0000 <= t <= 0x20_0000_0000_0000,
    ensures
        api::time_in(param) == Some(t as i64),
{
    if t < 0 {
        law_whole_numbers_are_spelled((-t) as nat);
    } else {
        law_whole_numbers_are_spelled(t as nat);
    }
    double::law_whole_numbers_truncate(t);
}

/// A range ends where it says, or now. It starts where it says, or an hour
/// before its end. Its steps are as long as it says but at least a second,
/// or a minute.
pub proof fn law_span_is_what_is_asked(params: Params, now: i64, t: int)
    requires
        -0x20_0000_0000_0000 <= t <= 0x20_0000_0000_0000,
    ensures
        unset(params.end) ==> api::span_of(params, now).end == now,
        says(params.end, t) ==> api::span_of(params, now).end == t,
        says(params.start, t) ==> api::span_of(params, now).start == t,
        unset(params.start) && api::span_of(params, now).end >= i64::MIN + 3600 ==> api::span_of(
            params,
            now,
        ).start == api::span_of(params, now).end - 3600,
        unset(params.start) && api::span_of(params, now).end < i64::MIN + 3600 ==> api::span_of(
            params,
            now,
        ).start == i64::MIN,
        unset(params.step) ==> api::span_of(params, now).step == 60,
        says(params.step, t) ==> api::span_of(params, now).step == (if t < 1 {
            1
        } else {
            t
        }),
        unset(params.start) ==> api::instant_of(params, now) == now,
        says(params.start, t) ==> api::instant_of(params, now) == t,
{
    if says(params.end, t) {
        lemma_says(params.end, t);
    }
    if says(params.start, t) {
        lemma_says(params.start, t);
    }
    if says(params.step, t) {
        lemma_says(params.step, t);
    }
}

/// A range that ends before it starts is refused, and so is one of more
/// than 11000 steps. No other is.
pub proof fn law_long_spans_are_refused(span: Span)
    requires
        span.step >= 1,
    ensures
        span.start > span.end <==> api::span_fault(span) == Some(QueryFault::StartAfterEnd),
        span.start <= span.end ==> (api::span_fault(span) == Some(QueryFault::TooManyPoints)
            <==> span.start + 11001 * span.step <= span.end),
        span.start <= span.end < span.start + 11001 * span.step ==> api::span_fault(span) is None,
{
    let d = span.end - span.start;
    let k = span.step as int;
    assert(d / k > 11000 <==> d >= 11001 * k) by (nonlinear_arith)
        requires
            k >= 1,
    ;
}

/// A whole number below 10^15 prints as an integer, a larger one does not.
pub proof fn law_whole_numbers_print_in_full(n: int)
    requires
        -0x20_0000_0000_0000 <= n <= 0x20_0000_0000_0000,
    ensures
        double::plain(double::of_int(n)) <==> -1_000_000_000_000_000 < n < 1_000_000_000_000_000,
        double::truncated(double::of_int(n)) == n,
{
    double::law_whole_numbers_truncate(n);
    double::law_signed_integers_are_exact(n);
    vstd::arithmetic::power2::lemma_pow2_pos(1074);
    let one = double::one();
    let m = if n < 0 {
        -n
    } else {
        n
    };
    let all = double::units(double::magnitude(double::of_int(n)));
    assert(all == n * one || all == -(n * one));
    assert(all == m * one) by (nonlinear_arith)
        requires
            all == n * one || all == -(n * one),
            all >= 0,
            one > 0,
            m == n || m == -n,
            m >= 0,
    ;
    assert(all < 1_000_000_000_000_000 * one <==> m < 1_000_000_000_000_000) by (nonlinear_arith)
        requires
            all == m * one,
            one > 0,
    ;
    assert(all as int % one as int == 0) by {
        vstd::arithmetic::div_mod::lemma_mod_multiples_basic(m, one as int);
    }
}

/// What is not finite, or not whole, does not print as an integer.
pub proof fn law_fractions_do_not_print_as_integers(a: u64)
    requires
        !double::finite(a) || double::value(a) % (double::one() as int) != 0,
    ensures
        !double::plain(a),
{
    vstd::arithmetic::power2::lemma_pow2_pos(1074);
    let one = double::one() as int;
    let u = double::units(double::magnitude(a)) as int;
    if u % one == 0 {
        vstd::arithmetic::div_mod::lemma_fundamental_div_mod(u, one);
        let q = u / one;
        assert(-u == (-q) * one) by (nonlinear_arith)
            requires
                u == one * q,
        ;
        vstd::arithmetic::div_mod::lemma_mod_multiples_basic(-q, one);
    }
}

/// What a whole number reads as.
proof fn lemma_integer(t: int)
    ensures
        decimal::integer(
            if t < 0 {
                "-"@ + decimal::shown((-t) as nat)
            } else {
                decimal::shown(t as nat)
            },
        ) == Some(t),
{
    reveal_strlit("-");
    if t < 0 {
        let s = decimal::shown((-t) as nat);
        decimal::law_shown_reads_back((-t) as nat);
        assert(("-"@ + s).drop_first() =~= s);
    } else {
        let s = decimal::shown(t as nat);
        decimal::law_shown_reads_back(t as nat);
        assert(text::digit(s[0]));
        lemma_starts_with_digit(s);
    }
}

/// Whether a variable is not there or is no whole number that fits.
pub open spec fn unreadable(variable: Option<String>, low: int, high: int) -> bool {
    match variable {
        Some(s) => decimal::integer_within(s@, low, high) is None,
        None => true,
    }
}

/// Samples are kept for as many hours as is said, at least one, and for a
/// day where nothing is said. Snapshots are taken and nodes are read as
/// often as is said, at least a second apart, and else every five minutes
/// and every half.
pub proof fn law_settings_are_what_is_said(vars: Variables, t: int)
    ensures
        unreadable(vars.retention_hours, i64::MIN as int, i64::MAX as int) ==> config::retention_of(
            vars,
        ) == 86400,
        i64::MIN <= t <= i64::MAX && says(vars.retention_hours, t) ==> config::retention_of(vars)
            == (if t < 1 {
            3600
        } else {
            3600 * t
        }),
        unreadable(vars.snapshot_interval, i64::MIN as int, i64::MAX as int)
            ==> config::at_least_one(
            vars.snapshot_interval,
            config::DEFAULT_SNAPSHOT_INTERVAL as int,
        ) == 300,
        i64::MIN <= t <= i64::MAX && says(vars.snapshot_interval, t) ==> config::at_least_one(
            vars.snapshot_interval,
            config::DEFAULT_SNAPSHOT_INTERVAL as int,
        ) == (if t < 1 {
            1
        } else {
            t
        }),
        unreadable(vars.scrape_interval, 0, u64::MAX as int) ==> config::count_of(
            vars.scrape_interval,
            config::DEFAULT_SCRAPE_INTERVAL as int,
        ) == 30,
        0 <= t <= u64::MAX && says(vars.scrape_interval, t) ==> config::count_of(
            vars.scrape_interval,
            config::DEFAULT_SCRAPE_INTERVAL as int,
        ) == (if t < 1 {
            1
        } else {
            t
        }),
{
    lemma_integer(t);
    if t >= 0 {
        decimal::law_shown_reads_back(t as nat);
        assert(text::digit(decimal::shown(t as nat)[0]));
    }
}

/// An address with a colon goes in brackets, another as it is.
pub proof fn law_addresses_with_colons_go_in_brackets(host: Seq<char>, port: Seq<char>)
    ensures
        host.contains(':') ==> kube::base_of(host, port) == "https://["@ + host + "]:"@ + port,
        !host.contains(':') ==> kube::base_of(host, port) == "https://"@ + host + ":"@ + port,
{
    if kube::has_char(host, ':') {
        let i = choose|i: int| 0 <= i < host.len() && #[trigger] host[i] == ':';
        assert(host.contains(host[i]));
    }
}

/// A query is answered for the instants it asks for: a range with what its
/// expression comes to from start to end, an instant query with what it
/// comes to then. One that does not parse is refused first, whatever its
/// instants.
pub proof fn law_queries_are_answered_as_asked(
    v: StoreView,
    params: Params,
    now: i64,
    bad: Set<Seq<char>>,
    start: int,
    end: int,
    step: int,
)
    requires
        says(params.start, start) && says(params.end, end) && says(params.step, step),
        -0x20_0000_0000_0000 <= start <= 0x20_0000_0000_0000,
        -0x20_0000_0000_0000 <= end <= 0x20_0000_0000_0000,
        1 <= step <= 0x20_0000_0000_0000,
    ensures
        match parser::parsed_under(params.query@, bad) {
            Err(e) => {
                &&& api::range_answer(v, params, now, bad) == Err::<Seq<RangeView>, QueryFault>(
                    QueryFault::Query(e),
                )
                &&& api::instant_answer(v, params, now, bad) == Err::<(i64, ValueView), QueryFault>(
                    QueryFault::Query(e),
                )
            },
            Ok(expr) => {
                &&& start > end ==> api::range_answer(v, params, now, bad) == Err::<
                    Seq<RangeView>,
                    QueryFault,
                >(QueryFault::StartAfterEnd)
                &&& start + 11001 * step <= end ==> api::range_answer(v, params, now, bad) == Err::<
                    Seq<RangeView>,
                    QueryFault,
                >(QueryFault::TooManyPoints)
                &&& start <= end < start + 11001 * step ==> api::range_answer(v, params, now, bad)
                    == Ok::<Seq<RangeView>, QueryFault>(
                    eval::ranged(v, expr, start as i64, end as i64, step as i64),
                )
                &&& api::instant_answer(v, params, now, bad) == Ok::<(i64, ValueView), QueryFault>(
                    (start as i64, eval::evaluated(v, expr, start as i64)),
                )
            },
        },
{
    law_span_is_what_is_asked(params, now, start);
    law_span_is_what_is_asked(params, now, end);
    law_span_is_what_is_asked(params, now, step);
    law_long_spans_are_refused(
        Span { start: start as i64, end: end as i64, step: step as i64 },
    );
    assert(api::span_of(params, now) == Span {
        start: start as i64,
        end: end as i64,
        step: step as i64,
    });
}

proof fn lemma_only_blanks(s: Seq<char>)
    requires
        forall|i: int| 0 <= i < s.len() ==> text::white(#[trigger] s[i]),
    ensures
        text::trimmed_front(s).len() == 0,
    decreases s.len(),
{
    if s.len() > 0 {
        let tail = s.drop_first();
        assert forall|i: int| 0 <= i < tail.len() implies text::white(#[trigger] tail[i]) by {
            assert(tail[i] == s[i + 1]);
        }
        lemma_only_blanks(tail);
    }
}

proof fn lemma_front_stays(s: Seq<char>, i: int)
    requires
        0 <= i < s.len(),
        !text::white(s[i]),
    ensures
        text::trimmed_front(s).len() > 0,
        !text::white(text::trimmed_front(s)[0]),
    decreases s.len(),
{
    if text::white(s[0]) {
        assert(s.drop_first()[i - 1] == s[i]);
        lemma_front_stays(s.drop_first(), i - 1);
    }
}

proof fn lemma_back_stays(s: Seq<char>)
    requires
        s.len() > 0,
        !text::white(s[0]),
    ensures
        text::trimmed_back(s).len() > 0,
    decreases s.len(),
{
    if text::white(s.last()) {
        assert(s.drop_last()[0] == s[0]);
        lemma_back_stays(s.drop_last());
    }
}

/// The address is the one that is set, and a snapshot is kept where a path
/// is set that is not blank.
pub proof fn law_addresses_and_paths(vars: Variables, i: int)
    ensures
        vars.listen is None ==> config::text_of(vars.listen, config::DEFAULT_LISTEN@)
            == "0.0.0.0:9090"@,
        vars.listen matches Some(s) ==> config::text_of(vars.listen, config::DEFAULT_LISTEN@) == s@,
        vars.snapshot_path is None ==> config::path_of(vars.snapshot_path) is None,
        vars.snapshot_path matches Some(s) ==> {
            &&& (forall|k: int| 0 <= k < s@.len() ==> blank(#[trigger] s@[k])) ==> config::path_of(
                vars.snapshot_path,
            ) is None
            &&& 0 <= i < s@.len() && !text::white(s@[i]) ==> config::path_of(vars.snapshot_path)
                == Some(s@)
        },
{
    if let Some(s) = vars.snapshot_path {
        if forall|k: int| 0 <= k < s@.len() ==> blank(#[trigger] s@[k]) {
            assert forall|k: int| 0 <= k < s@.len() implies text::white(#[trigger] s@[k]) by {
                assert(blank(s@[k]));
            }
            lemma_only_blanks(s@);
        }
        if 0 <= i < s@.len() && !text::white(s@[i]) {
            lemma_front_stays(s@, i);
            lemma_back_stays(text::trimmed_front(s@));
        }
    }
}

} // verus!
