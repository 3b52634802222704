//! Texts: the decimal rendering of numbers, as used in identifiers and in the names of
//! diagnostics directories, and the order in which texts stand.

use vstd::prelude::*;

verus! {

/// `String::push` appends one character to the end of the string and leaves the rest as it was.
pub assume_specification[ String::push ](s: &mut String, ch: char)
    ensures
        final(s)@ == old(s)@.push(ch),
;

/// The character that stands for the decimal digit `d`.
pub open spec fn digit_char(d: nat) -> char
    recommends
        d < 10,
{
    (('0' as u8) + d) as char
}

/// The decimal numeral of `n`, most significant digit first, without leading zeros.
pub open spec fn decimal_digits(n: nat) -> Seq<char>
    decreases n,
{
    if n < 10 {
        seq![digit_char(n)]
    } else {
        decimal_digits(n / 10).push(digit_char(n % 10))
    }
}

/// The decimal numeral of `n`, filled up with zeros on the left to at least `width` characters.
pub open spec fn zero_padded_digits(n: nat, width: nat) -> Seq<char> {
    let digits = decimal_digits(n);
    if digits.len() >= width {
        digits
    } else {
        Seq::new((width - digits.len()) as nat, |i: int| '0') + digits
    }
}

/// The digit `d` as a character.
pub fn digit(d: u8) -> (ch: char)
    requires
        d < 10,
    ensures
        ch == digit_char(d as nat),
{
    (48u8 + d) as char
}

/// Renders `n` in decimal, as `{}` does for an unsigned integer.
pub fn decimal(n: u64) -> (out: String)
    ensures
        out@ == decimal_digits(n as nat),
{
    zero_padded(n, 0)
}

/// Renders `n` in decimal with at least `width` digits, zeros first, as `{:0width$}` does for an
/// unsigned integer.
pub fn zero_padded(n: u64, width: usize) -> (out: String)
    ensures
        out@ == zero_padded_digits(n as nat, width as nat),
{
    // Least significant digit first.
    let mut reversed: Vec<char> = Vec::new();
    let mut rest: u64 = n;
    while rest >= 10
        invariant
            decimal_digits(n as nat) == decimal_digits(rest as nat) + reversed@.reverse(),
        decreases rest,
    {
        let d: u8 = (rest % 10) as u8;
        let ghost before = reversed@;
        reversed.push(digit(d));
        proof {
            assert(reversed@.reverse() =~= seq![digit_char(d as nat)] + before.reverse());
            assert(decimal_digits(rest as nat) == decimal_digits((rest / 10) as nat).push(
                digit_char(d as nat),
            ));
            assert(decimal_digits(n as nat) =~= decimal_digits((rest / 10) as nat)
                + reversed@.reverse());
        }
        rest = rest / 10;
    }
    let ghost before = reversed@;
    reversed.push(digit(rest as u8));
    proof {
        assert(reversed@.reverse() =~= seq![digit_char(rest as nat)] + before.reverse());
        assert(decimal_digits(n as nat) =~= reversed@.reverse());
    }
    let mut out = String::new();
    let mut fill: usize = reversed.len();
    while fill < width
        invariant
            reversed.len() <= fill,
            fill <= width || fill == reversed.len(),
            out@ == Seq::new((fill - reversed.len()) as nat, |i: int| '0'),
        decreases width - fill,
    {
        out.push('0');
        fill = fill + 1;
        assert(out@ =~= Seq::new((fill - reversed.len()) as nat, |i: int| '0'));
    }
    let ghost padding = out@;
    let mut left: usize = reversed.len();
    while left > 0
        invariant
            left <= reversed.len(),
            out@ == padding + reversed@.reverse().subrange(0, reversed.len() - left),
        decreases left,
    {
        left = left - 1;
        out.push(reversed[left]);
        assert(out@ =~= padding + reversed@.reverse().subrange(0, reversed.len() - left));
    }
    proof {
        assert(reversed@.reverse().subrange(0, reversed.len() as int) =~= reversed@.reverse());
        assert(padding.len() == 0 ==> padding + decimal_digits(n as nat) =~= decimal_digits(
            n as nat,
        ));
    }
    out
}

/// Tells whether two strings hold the same text.
pub fn same(a: &str, b: &str) -> (out: bool)
    ensures
        out == (a@ == b@),
{
    a.to_owned() == b.to_owned()
}

/// The characters of `s`.
pub fn chars(s: &str) -> (out: Vec<char>)
    ensures
        out@ == s@,
{
    let mut out: Vec<char> = Vec::new();
    for c in it: s.chars()
        invariant
            out@ == it.seq().take(it.index()),
            it.seq() == s@,
    {
        out.push(c);
        assert(out@ =~= it.seq().take(it.index() + 1));
    }
    assert(out@ =~= s@);
    out
}

/// How one text stands to another in the order of texts.
#[derive(Clone, Copy, Debug, PartialEq, Eq, Structural)]
pub enum Rank {
    /// The first text comes before the second.
    Before,
    /// The two are the same text.
    Same,
    /// The first text comes after the second.
    After,
}

/// The text `a` comes before the text `b`: at the first place where the two differ, `a` has
/// the character with the smaller code point, or `a` ends there and `b` does not. This is
/// the order of the texts' UTF-8 bytes.
pub open spec fn precedes(a: Seq<char>, b: Seq<char>) -> bool
    decreases a.len(),
{
    if b.len() == 0 {
        false
    } else if a.len() == 0 {
        true
    } else if a[0] != b[0] {
        a[0] < b[0]
    } else {
        precedes(a.drop_first(), b.drop_first())
    }
}

/// No text comes before itself.
pub proof fn lemma_precedes_irreflexive(a: Seq<char>)
    ensures
        !precedes(a, a),
    decreases a.len(),
{
    if a.len() > 0 {
        lemma_precedes_irreflexive(a.drop_first());
    }
}

/// Of two texts that differ, one comes before the other, and never both.
pub proof fn lemma_precedes_total(a: Seq<char>, b: Seq<char>)
    ensures
        a != b ==> (precedes(a, b) || precedes(b, a)),
        !(precedes(a, b) && precedes(b, a)),
    decreases a.len(),
{
    if a.len() > 0 && b.len() > 0 {
        if a[0] == b[0] {
            lemma_precedes_total(a.drop_first(), b.drop_first());
            if a.drop_first() == b.drop_first() {
                assert(a =~= seq![a[0]] + a.drop_first());
                assert(b =~= seq![b[0]] + b.drop_first());
            }
        }
    } else if a.len() == 0 && b.len() == 0 {
        assert(a =~= b);
    }
}

/// What comes before a text that comes before a third comes before the third.
pub proof fn lemma_precedes_transitive(a: Seq<char>, b: Seq<char>, c: Seq<char>)
    requires
        precedes(a, b),
        precedes(b, c),
    ensures
        precedes(a, c),
    decreases a.len(),
{
    if a.len() > 0 {
        if a[0] == b[0] && b[0] == c[0] {
            lemma_precedes_transitive(a.drop_first(), b.drop_first(), c.drop_first());
        }
    }
}

/// Tells how `a` stands to `b` in the order of texts.
pub fn rank(a: &str, b: &str) -> (out: Rank)
    ensures
        match out {
            Rank::Before => precedes(a@, b@),
            Rank::Same => a@ == b@,
            Rank::After => precedes(b@, a@),
        },
{
    let left = chars(a);
    let right = chars(b);
    let mut i: usize = 0;
    proof {
        assert(left@.skip(0) =~= left@);
        assert(right@.skip(0) =~= right@);
        assert(left@.take(0) =~= right@.take(0));
    }
    while i < left.len() && i < right.len()
        invariant
            i <= left.len(),
            i <= right.len(),
            left@ == a@,
            right@ == b@,
            left@.take(i as int) == right@.take(i as int),
            precedes(left@, right@) == precedes(left@.skip(i as int), right@.skip(i as int)),
            precedes(right@, left@) == precedes(right@.skip(i as int), left@.skip(i as int)),
        decreases left.len() - i,
    {
        let x = left[i];
        let y = right[i];
        proof {
            let l = left@.skip(i as int);
            let r = right@.skip(i as int);
            assert(l[0] == x && r[0] == y);
            assert(l.drop_first() =~= left@.skip(i + 1));
            assert(r.drop_first() =~= right@.skip(i + 1));
        }
        if x != y {
            if x < y {
                return Rank::Before;
            } else {
                return Rank::After;
            }
        }
        proof {
            assert(left@.take(i + 1) =~= left@.take(i as int).push(x));
            assert(right@.take(i + 1) =~= right@.take(i as int).push(y));
        }
        i = i + 1;
    }
    if i < right.len() {
        assert(left@.skip(i as int).len() == 0);
        Rank::Before
    } else if i < left.len() {
        assert(right@.skip(i as int).len() == 0);
        Rank::After
    } else {
        proof {
            assert(left@.take(i as int) =~= left@);
            assert(right@.take(i as int) =~= right@);
        }
        Rank::Same
    }
}

} // verus!
