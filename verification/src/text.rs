//! Small text helpers: decimal digits, fresh names, and comparisons of
//! strings as character sequences.
use vstd::prelude::*;

verus! {

/// The decimal digit `d`.
pub open spec fn digit_of(d: nat) -> char {
    if d == 0 {
        '0'
    } else if d == 1 {
        '1'
    } else if d == 2 {
        '2'
    } else if d == 3 {
        '3'
    } else if d == 4 {
        '4'
    } else if d == 5 {
        '5'
    } else if d == 6 {
        '6'
    } else if d == 7 {
        '7'
    } else if d == 8 {
        '8'
    } else {
        '9'
    }
}

pub open spec fn is_digit(c: char) -> bool {
    '0' <= c <= '9'
}

/// The decimal representation of `n`, most significant digit first.
pub open spec fn dec_digits(n: nat) -> Seq<char>
    decreases n,
{
    if n < 10 {
        seq![digit_of(n)]
    } else {
        dec_digits(n / 10) + seq![digit_of(n % 10)]
    }
}

/// The name minted from `base` with number `n`: `base~n`.
pub open spec fn fresh_name(base: Seq<char>, n: nat) -> Seq<char> {
    base + seq!['~'] + dec_digits(n)
}

/// Appends a character; calls `String::push`, which is trusted to append
/// exactly that character.
#[verifier::external_body]
pub fn push_char(s: &mut String, c: char)
    ensures
        final(s)@ == old(s)@.push(c),
{
    s.push(c)
}

fn digit_char(d: u64) -> (c: char)
    requires
        d < 10,
    ensures
        c == digit_of(d as nat),
{
    if d == 0 {
        '0'
    } else if d == 1 {
        '1'
    } else if d == 2 {
        '2'
    } else if d == 3 {
        '3'
    } else if d == 4 {
        '4'
    } else if d == 5 {
        '5'
    } else if d == 6 {
        '6'
    } else if d == 7 {
        '7'
    } else if d == 8 {
        '8'
    } else {
        '9'
    }
}

/// Append the decimal digits of `n`.
pub fn push_dec(s: &mut String, n: u64)
    ensures
        final(s)@ == old(s)@ + dec_digits(n as nat),
    decreases n,
{
    if n >= 10 {
        push_dec(s, n / 10);
    }
    let c = digit_char(n % 10);
    push_char(s, c);
    proof {
        if n < 10 {
            assert(n % 10 == n);
        }
        assert(final(s)@ =~= old(s)@ + dec_digits(n as nat));
    }
}

/// The name `base~n`.
pub fn mint_name(base: &String, n: u64) -> (r: String)
    ensures
        r@ == fresh_name(base@, n as nat),
{
    let mut s = base.clone();
    push_char(&mut s, '~');
    push_dec(&mut s, n);
    proof {
        assert(s@ =~= fresh_name(base@, n as nat));
    }
    s
}

proof fn lemma_digits_are_digits(n: nat)
    ensures
        forall|i: int| 0 <= i < dec_digits(n).len() ==> is_digit(#[trigger] dec_digits(n)[i]),
        dec_digits(n).len() >= 1,
        n < 10 <==> dec_digits(n).len() == 1,
    decreases n,
{
    if n >= 10 {
        lemma_digits_are_digits(n / 10);
        let p = dec_digits(n / 10);
        assert forall|i: int| 0 <= i < dec_digits(n).len() implies is_digit(#[trigger] dec_digits(n)[i]) by {
            if i < p.len() {
                assert(dec_digits(n)[i] == p[i]);
            }
        }
    }
}

proof fn lemma_digit_inj(a: nat, b: nat)
    requires
        a < 10,
        b < 10,
        digit_of(a) == digit_of(b),
    ensures
        a == b,
{
}

/// Distinct numbers have distinct decimal representations.
pub proof fn lemma_dec_inj(a: nat, b: nat)
    requires
        dec_digits(a) == dec_digits(b),
    ensures
        a == b,
    decreases a,
{
    lemma_digits_are_digits(a);
    lemma_digits_are_digits(b);
    if a < 10 && b < 10 {
        assert(dec_digits(a) == seq![digit_of(a)]);
        assert(dec_digits(b) == seq![digit_of(b)]);
        assert(dec_digits(a)[0] == dec_digits(b)[0]);
        assert(seq![digit_of(a)][0] == digit_of(a));
        assert(seq![digit_of(b)][0] == digit_of(b));
        lemma_digit_inj(a, b);
    } else if a >= 10 && b >= 10 {
        let da = dec_digits(a);
        let db = dec_digits(b);
        assert(da.last() == db.last());
        lemma_digit_inj(a % 10, b % 10);
        assert(da.drop_last() =~= dec_digits(a / 10));
        assert(db.drop_last() =~= dec_digits(b / 10));
        lemma_dec_inj(a / 10, b / 10);
    }
}

/// Names minted with different numbers differ, whatever their bases.
pub proof fn lemma_fresh_distinct(b1: Seq<char>, n1: nat, b2: Seq<char>, n2: nat)
    requires
        n1 != n2,
    ensures
        fresh_name(b1, n1) != fresh_name(b2, n2),
{
    let d1 = dec_digits(n1);
    let d2 = dec_digits(n2);
    let s1 = fresh_name(b1, n1);
    let s2 = fresh_name(b2, n2);
    lemma_digits_are_digits(n1);
    lemma_digits_are_digits(n2);
    if s1 == s2 {
        let len = s1.len();
        if d1.len() < d2.len() {
            let k = len - d1.len() - 1;
            assert(s1[k] == '~');
            assert(s2[k] == d2[k - (b2.len() + 1)]);
            assert(is_digit(d2[k - (b2.len() + 1)]));
        } else if d2.len() < d1.len() {
            let k = len - d2.len() - 1;
            assert(s2[k] == '~');
            assert(s1[k] == d1[k - (b1.len() + 1)]);
            assert(is_digit(d1[k - (b1.len() + 1)]));
        } else {
            assert(d1 =~= s1.subrange(len - d1.len(), len as int));
            assert(d2 =~= s2.subrange(len - d2.len(), len as int));
            lemma_dec_inj(n1, n2);
        }
    }
}

/// The entries of `s` are pairwise different.
pub open spec fn all_distinct(s: Seq<Seq<char>>) -> bool {
    forall|i: int, j: int| 0 <= i < j < s.len() ==> s[i] != s[j]
}

} // verus!
