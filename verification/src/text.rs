//! Verified text building blocks: decimal numerals, comma-separated
//! joins, and counting of line breaks.

use vstd::prelude::*;
use vstd::string::StringExecFns;

verus! {

/// The decimal digit character for `d` (meaningful for `d < 10`).
pub open spec fn digit_char(d: nat) -> char {
    if d == 0 {
        '0'
    } else if d == 1 {
        '1'
    } else if d == 2 {
        '2'
    } else if d == 3 {
        '3'
    } else if d == 4 {
        '4'
    } else if d == 5 {
        '5'
    } else if d == 6 {
        '6'
    } else if d == 7 {
        '7'
    } else if d == 8 {
        '8'
    } else {
        '9'
    }
}

/// The decimal numeral of `n`, most significant digit first, no sign,
/// no leading zero except for `n == 0` itself.
pub open spec fn dec_digits(n: nat) -> Seq<char>
    decreases n,
{
    if n < 10 {
        seq![digit_char(n)]
    } else {
        dec_digits(n / 10) + seq![digit_char(n % 10)]
    }
}

/// The one-character string holding the decimal digit `d`.
fn digit_str(d: u32) -> (r: &'static str)
    requires
        d < 10,
    ensures
        r@ == seq![digit_char(d as nat)],
{
    let s: &'static str = if d == 0 {
        "0"
    } else if d == 1 {
        "1"
    } else if d == 2 {
        "2"
    } else if d == 3 {
        "3"
    } else if d == 4 {
        "4"
    } else if d == 5 {
        "5"
    } else if d == 6 {
        "6"
    } else if d == 7 {
        "7"
    } else if d == 8 {
        "8"
    } else {
        "9"
    };
    proof {
        reveal_strlit("0");
        reveal_strlit("1");
        reveal_strlit("2");
        reveal_strlit("3");
        reveal_strlit("4");
        reveal_strlit("5");
        reveal_strlit("6");
        reveal_strlit("7");
        reveal_strlit("8");
        reveal_strlit("9");
        assert(s@ =~= seq![digit_char(d as nat)]);
    }
    s
}

/// Renders `n` in decimal.
pub fn u32_dec(n: u32) -> (r: String)
    ensures
        r@ == dec_digits(n as nat),
    decreases n,
{
    if n < 10 {
        digit_str(n).to_owned()
    } else {
        let mut s = u32_dec(n / 10);
        s.append(digit_str(n % 10));
        proof {
            assert(s@ =~= dec_digits(n as nat));
        }
        s
    }
}

/// The parts joined with a comma-space separator.
pub open spec fn joined(parts: Seq<Seq<char>>) -> Seq<char>
    decreases parts.len(),
{
    if parts.len() == 0 {
        Seq::empty()
    } else if parts.len() == 1 {
        parts[0]
    } else {
        joined(parts.drop_last()) + seq![',', ' '] + parts.last()
    }
}

/// How many line-break characters a text holds.
pub open spec fn nl_count(s: Seq<char>) -> nat
    decreases s.len(),
{
    if s.len() == 0 {
        0
    } else {
        nl_count(s.drop_last()) + (if s.last() == '\n' {
            1nat
        } else {
            0nat
        })
    }
}

/// Line breaks of a one-character text.
pub proof fn lemma_nl_count_single(c: char)
    ensures
        nl_count(seq![c]) == (if c == '\n' {
            1nat
        } else {
            0nat
        }),
{
    assert(seq![c].drop_last() =~= Seq::<char>::empty());
    assert(nl_count(Seq::<char>::empty()) == 0);
    assert(seq![c].last() == c);
}

/// Line breaks count up over concatenation.
pub proof fn lemma_nl_count_concat(a: Seq<char>, b: Seq<char>)
    ensures
        nl_count(a + b) == nl_count(a) + nl_count(b),
    decreases b.len(),
{
    if b.len() == 0 {
        assert(a + b =~= a);
    } else {
        lemma_nl_count_concat(a, b.drop_last());
        assert((a + b).drop_last() =~= a + b.drop_last());
    }
}

/// A decimal numeral holds no line break.
pub proof fn lemma_dec_digits_nl_free(n: nat)
    ensures
        nl_count(dec_digits(n)) == 0,
    decreases n,
{
    if n < 10 {
        lemma_nl_count_single(digit_char(n));
    } else {
        lemma_dec_digits_nl_free(n / 10);
        lemma_nl_count_concat(dec_digits(n / 10), seq![digit_char(n % 10)]);
        lemma_nl_count_single(digit_char(n % 10));
    }
}

/// A text without the line-break character has no line break.
pub proof fn lemma_nl_count_zero(s: Seq<char>)
    requires
        forall|i: int| 0 <= i < s.len() ==> s[i] != '\n',
    ensures
        nl_count(s) == 0,
    decreases s.len(),
{
    if s.len() > 0 {
        lemma_nl_count_zero(s.drop_last());
    }
}

/// Joining one more part appends one comma-space separator and the part.
pub proof fn lemma_joined_push(parts: Seq<Seq<char>>, p: Seq<char>)
    requires
        parts.len() > 0,
    ensures
        joined(parts.push(p)) == joined(parts) + seq![',', ' '] + p,
{
    assert(parts.push(p).drop_last() =~= parts);
    assert(parts.push(p).last() == p);
}

/// A join of line-break-free parts is line-break free.
pub proof fn lemma_joined_nl_free(parts: Seq<Seq<char>>)
    requires
        forall|i: int| 0 <= i < parts.len() ==> nl_count(#[trigger] parts[i]) == 0,
    ensures
        nl_count(joined(parts)) == 0,
    decreases parts.len(),
{
    if parts.len() == 0 {
    } else if parts.len() == 1 {
    } else {
        lemma_joined_nl_free(parts.drop_last());
        lemma_nl_count_single(',');
        lemma_nl_count_single(' ');
        assert(seq![',', ' '] =~= seq![','] + seq![' ']);
        lemma_nl_count_concat(seq![','], seq![' ']);
        lemma_nl_count_concat(joined(parts.drop_last()), seq![',', ' ']);
        lemma_nl_count_concat(joined(parts.drop_last()) + seq![',', ' '], parts.last());
    }
}

} // verus!
