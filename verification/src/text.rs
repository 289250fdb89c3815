//! Text as sequences of characters: comparing it, taking it apart and
//! putting it together.

use vstd::prelude::*;
use vstd::slice::slice_subrange;
use vstd::utf8;

verus! {

/// `String::push` puts a character at the end.
pub assume_specification[ String::push ](s: &mut String, ch: char)
    ensures
        final(s)@ == old(s)@.push(ch),
;

/// `String::from_utf8` takes bytes for what they are in UTF-8, and gives
/// nothing where they are not UTF-8.
#[verifier::external_body]
pub(crate) fn from_utf8(bytes: Vec<u8>) -> (r: Option<String>)
    ensures
        match r {
            Some(s) => utf8::encode_utf8(s@) == bytes@,
            None => !utf8::valid_utf8(bytes@),
        },
{
    String::from_utf8(bytes).ok()
}

/// A text that may be missing.
pub open spec fn some_text(s: Option<String>) -> Option<Seq<char>> {
    match s {
        Some(s) => Some(s@),
        None => None,
    }
}

/// Which of two texts comes first.
#[derive(Clone, Copy, Debug, PartialEq, Eq, Structural)]
pub enum Order {
    Before,
    Same,
    After,
}

/// Whether a text comes before another: by their first characters, and by
/// what follows where those are the same.
pub open spec fn before(a: Seq<char>, b: Seq<char>) -> bool
    decreases a.len(),
{
    if b.len() == 0 {
        false
    } else if a.len() == 0 {
        true
    } else {
        a[0] < b[0] || (a[0] == b[0] && before(a.drop_first(), b.drop_first()))
    }
}

pub proof fn lemma_before_irreflexive(a: Seq<char>)
    ensures
        !before(a, a),
    decreases a.len(),
{
    if a.len() > 0 {
        lemma_before_irreflexive(a.drop_first());
    }
}

pub proof fn lemma_before_transitive(a: Seq<char>, b: Seq<char>, c: Seq<char>)
    requires
        before(a, b),
        before(b, c),
    ensures
        before(a, c),
    decreases a.len(),
{
    if a.len() > 0 && a[0] == b[0] && b[0] == c[0] {
        lemma_before_transitive(a.drop_first(), b.drop_first(), c.drop_first());
    }
}

pub proof fn lemma_before_total(a: Seq<char>, b: Seq<char>)
    ensures
        before(a, b) || a == b || before(b, a),
    decreases a.len(),
{
    if a.len() == 0 {
        if b.len() == 0 {
            assert(a =~= b);
        }
    } else if b.len() > 0 && a[0] == b[0] {
        lemma_before_total(a.drop_first(), b.drop_first());
        if a.drop_first() == b.drop_first() {
            assert(a =~= seq![a[0]] + a.drop_first());
            assert(b =~= seq![b[0]] + b.drop_first());
        }
    }
}

/// A text comes before another if its character is the smaller one where
/// they first differ, or if it ends there.
pub proof fn law_first_difference_decides(a: Seq<char>, b: Seq<char>, k: int)
    requires
        0 <= k <= a.len(),
        k <= b.len(),
        a.take(k) == b.take(k),
    ensures
        k < a.len() && k < b.len() && a[k] < b[k] ==> before(a, b) && !before(b, a),
        k == a.len() && k < b.len() ==> before(a, b) && !before(b, a),
    decreases k,
{
    if k > 0 {
        assert(a[0] == a.take(k)[0] && b[0] == b.take(k)[0]);
        let x = a.drop_first();
        let y = b.drop_first();
        assert(x.take(k - 1) =~= a.take(k).drop_first());
        assert(y.take(k - 1) =~= b.take(k).drop_first());
        law_first_difference_decides(x, y, k - 1);
    }
}

/// Compares two texts.
pub fn order(a: &str, b: &str) -> (r: Order)
    ensures
        match r {
            Order::Before => before(a@, b@),
            Order::Same => a@ == b@,
            Order::After => before(b@, a@),
        },
{
    broadcast use vstd::string::group_string_axioms;

    let mut x = a.chars();
    let mut y = b.chars();
    let ghost mut p = a@;
    let ghost mut q = b@;
    loop
        invariant
            vstd::std_specs::iter::IteratorSpec::remaining(&x) == p,
            vstd::std_specs::iter::IteratorSpec::remaining(&y) == q,
            before(a@, b@) == before(p, q),
            before(b@, a@) == before(q, p),
            (a@ == b@) == (p == q),
        decreases p.len(),
    {
        let c = x.next();
        let d = y.next();
        proof {
            if p.len() > 0 && q.len() > 0 {
                assert(p =~= seq![p[0]] + p.drop_first());
                assert(q =~= seq![q[0]] + q.drop_first());
            }
        }
        match (c, d) {
            (None, None) => {
                assert(p =~= q);
                return Order::Same;
            },
            (None, Some(_)) => return Order::Before,
            (Some(_), None) => return Order::After,
            (Some(c), Some(d)) => {
                if c < d {
                    return Order::Before;
                }
                if d < c {
                    return Order::After;
                }
                proof {
                    p = p.drop_first();
                    q = q.drop_first();
                }
            },
        }
    }
}

/// Whether two texts are the same.
pub fn same(a: &str, b: &str) -> (r: bool)
    ensures
        r == (a@ == b@),
{
    let x = a.as_bytes();
    let y = b.as_bytes();
    proof {
        utf8::encode_utf8_decode_utf8(a@);
        utf8::encode_utf8_decode_utf8(b@);
    }
    if x.len() != y.len() {
        return false;
    }
    let mut i: usize = 0;
    while i < x.len()
        invariant
            x@ == utf8::encode_utf8(a@),
            y@ == utf8::encode_utf8(b@),
            i <= x@.len() == y@.len(),
            forall|j: int| 0 <= j < i ==> x@[j] == y@[j],
        decreases x@.len() - i,
    {
        if x[i] != y[i] {
            return false;
        }
        i += 1;
    }
    assert(x@ =~= y@);
    true
}

/// The characters of a text.
pub fn chars_of(s: &str) -> (v: Vec<char>)
    ensures
        v@ == s@,
{
    broadcast use vstd::string::group_string_axioms;

    let mut rest = s.chars();
    let mut v: Vec<char> = Vec::new();
    let ghost mut left = s@;
    assert(v@ + left =~= s@);
    loop
        invariant
            vstd::std_specs::iter::IteratorSpec::remaining(&rest) == left,
            v@ + left == s@,
        decreases left.len(),
    {
        match rest.next() {
            None => {
                assert(v@ =~= s@);
                return v;
            },
            Some(c) => {
                let ghost was = v@;
                v.push(c);
                proof {
                    assert(v@ + left.drop_first() =~= was + left);
                    left = left.drop_first();
                }
            },
        }
    }
}

/// The text of some characters.
pub fn string_of(chars: &[char]) -> (s: String)
    ensures
        s@ == chars@,
{
    let mut s = String::new();
    let mut i: usize = 0;
    while i < chars.len()
        invariant
            i <= chars@.len(),
            s@ == chars@.take(i as int),
        decreases chars@.len() - i,
    {
        s.push(chars[i]);
        i += 1;
        proof {
            assert(s@ =~= chars@.take(i as int));
        }
    }
    proof {
        assert(chars@.take(i as int) =~= chars@);
    }
    s
}

/// Whether a character is white space, as Unicode has it.
pub open spec fn white(c: char) -> bool {
    let n = c as u32;
    ||| 0x9 <= n <= 0xd
    ||| n == 0x20
    ||| n == 0x85
    ||| n == 0xa0
    ||| n == 0x1680
    ||| 0x2000 <= n <= 0x200a
    ||| n == 0x2028
    ||| n == 0x2029
    ||| n == 0x202f
    ||| n == 0x205f
    ||| n == 0x3000
}

pub fn is_white(c: char) -> (r: bool)
    ensures
        r == white(c),
{
    let n = c as u32;
    (0x9 <= n && n <= 0xd) || n == 0x20 || n == 0x85 || n == 0xa0 || n == 0x1680 || (0x2000 <= n
        && n <= 0x200a) || n == 0x2028 || n == 0x2029 || n == 0x202f || n == 0x205f || n == 0x3000
}

pub open spec fn digit(c: char) -> bool {
    '0' <= c <= '9'
}

pub fn is_digit(c: char) -> (r: bool)
    ensures
        r == digit(c),
{
    '0' <= c && c <= '9'
}

pub open spec fn letter(c: char) -> bool {
    'a' <= c <= 'z' || 'A' <= c <= 'Z'
}

pub fn is_letter(c: char) -> (r: bool)
    ensures
        r == letter(c),
{
    ('a' <= c && c <= 'z') || ('A' <= c && c <= 'Z')
}

/// A text without white space in front.
pub open spec fn trimmed_front(s: Seq<char>) -> Seq<char>
    decreases s.len(),
{
    if s.len() > 0 && white(s[0]) {
        trimmed_front(s.drop_first())
    } else {
        s
    }
}

/// A text without white space behind.
pub open spec fn trimmed_back(s: Seq<char>) -> Seq<char>
    decreases s.len(),
{
    if s.len() > 0 && white(s.last()) {
        trimmed_back(s.drop_last())
    } else {
        s
    }
}

/// A text without white space around it.
pub open spec fn trimmed(s: Seq<char>) -> Seq<char> {
    trimmed_back(trimmed_front(s))
}

/// Takes the white space around a text off.
pub fn trim(s: &[char]) -> (r: &[char])
    ensures
        r@ == trimmed(s@),
{
    let mut from: usize = 0;
    proof {
        assert(s@.skip(0) =~= s@);
    }
    while from < s.len() && is_white(s[from])
        invariant
            from <= s@.len(),
            trimmed_front(s@) == trimmed_front(s@.skip(from as int)),
        decreases s@.len() - from,
    {
        proof {
            assert(s@.skip(from as int).drop_first() =~= s@.skip(from + 1));
        }
        from += 1;
    }
    let mut to: usize = s.len();
    let ghost front = s@.skip(from as int);
    proof {
        assert(s@.subrange(from as int, to as int) =~= front);
    }
    while to > from && is_white(s[to - 1])
        invariant
            from <= to <= s@.len(),
            trimmed_back(front) == trimmed_back(s@.subrange(from as int, to as int)),
        decreases to - from,
    {
        proof {
            let now = s@.subrange(from as int, to as int);
            assert(now.last() == s@[to - 1]);
            assert(now.drop_last() =~= s@.subrange(from as int, to - 1));
        }
        to -= 1;
    }
    proof {
        let now = s@.subrange(from as int, to as int);
        if from < to {
            assert(now.last() == s@[to - 1]);
        }
    }
    slice_subrange(s, from, to)
}

} // verus!
