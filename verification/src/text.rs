//! Text output for values: a verified decimal rendering for integers and
//! the one character-append primitive the tree rendering is built on.

use vstd::prelude::*;

verus! {

/// The character for a single decimal digit.
pub open spec fn digit_char(d: int) -> char {
    if d == 0 {
        '0'
    } else if d == 1 {
        '1'
    } else if d == 2 {
        '2'
    } else if d == 3 {
        '3'
    } else if d == 4 {
        '4'
    } else if d == 5 {
        '5'
    } else if d == 6 {
        '6'
    } else if d == 7 {
        '7'
    } else if d == 8 {
        '8'
    } else {
        '9'
    }
}

/// Decimal digits of a non-negative number, most significant first.
pub open spec fn nat_text(n: nat) -> Seq<char>
    decreases n,
{
    if n < 10 {
        seq![digit_char(n as int)]
    } else {
        nat_text(n / 10).push(digit_char((n % 10) as int))
    }
}

/// Decimal rendering of an integer: a minus sign for negative numbers,
/// then the digits.
pub open spec fn int_text(n: int) -> Seq<char> {
    if n >= 0 {
        nat_text(n as nat)
    } else {
        seq!['-'] + nat_text((-n) as nat)
    }
}

/// A value with a canonical text rendering.
pub trait ToText: Sized {
    /// The rendering, as a sequence of characters.
    spec fn text_spec(self) -> Seq<char>;

    /// Produces the rendering.
    fn to_text(&self) -> (s: String)
        ensures
            s@ == self.text_spec(),
    ;
}

/// Relies on String::push, which appends exactly the given character.
#[verifier::external_body]
pub(crate) fn push_char(s: &mut String, c: char)
    ensures
        final(s)@ == old(s)@.push(c),
{
    s.push(c)
}

/// The character for a digit given at run time.
fn digit_to_char(d: u8) -> (c: char)
    requires
        d < 10,
    ensures
        c == digit_char(d as int),
{
    match d {
        0 => '0',
        1 => '1',
        2 => '2',
        3 => '3',
        4 => '4',
        5 => '5',
        6 => '6',
        7 => '7',
        8 => '8',
        _ => '9',
    }
}

/// Renders a 32-bit integer in decimal.
pub fn i32_to_text(x: i32) -> (s: String)
    ensures
        s@ == int_text(x as int),
{
    let neg = x < 0;
    let wide: i64 = x as i64;
    let mut m: i64 = if neg {
        -wide
    } else {
        wide
    };
    let ghost mag0: nat = m as nat;
    let mut digits: Vec<char> = Vec::new();
    proof {
        assert(nat_text(mag0) =~= nat_text(m as nat) + digits@.reverse());
    }
    while m >= 10
        invariant
            0 <= m,
            nat_text(mag0) == nat_text(m as nat) + digits@.reverse(),
        decreases m,
    {
        let d: u8 = (m % 10) as u8;
        let c = digit_to_char(d);
        proof {
            assert(digits@.push(c).reverse() =~= seq![c] + digits@.reverse());
            assert(nat_text((m / 10) as nat).push(c) + digits@.reverse() =~= nat_text(
                (m / 10) as nat,
            ) + (seq![c] + digits@.reverse()));
            assert(nat_text(m as nat) == nat_text((m as nat) / 10).push(
                digit_char(((m as nat) % 10) as int),
            ));
            assert((m / 10) as nat == (m as nat) / 10);
            assert((m % 10) as int == (m as nat) % 10);
        }
        digits.push(c);
        m = m / 10;
    }
    let last = digit_to_char(m as u8);
    proof {
        assert(digits@.push(last).reverse() =~= seq![last] + digits@.reverse());
        assert(nat_text(m as nat) =~= seq![last]);
        assert(seq![last] + digits@.reverse() =~= nat_text(m as nat) + digits@.reverse());
    }
    digits.push(last);
    let ghost all: Seq<char> = digits@.reverse();
    proof {
        assert(all == nat_text(mag0));
    }
    let mut s = String::new();
    if neg {
        push_char(&mut s, '-');
    }
    let ghost head: Seq<char> = s@;
    let n = digits.len();
    let mut j: usize = 0;
    proof {
        assert(s@ =~= head + all.subrange(0, 0));
    }
    while j < n
        invariant
            j <= n,
            n == digits@.len(),
            all == digits@.reverse(),
            s@ == head + all.subrange(0, j as int),
        decreases n - j,
    {
        let c = digits[n - 1 - j];
        proof {
            assert(all[j as int] == digits@[n - 1 - j as int]);
            assert(all.subrange(0, j + 1) =~= all.subrange(0, j as int).push(all[j as int]));
            assert(head + all.subrange(0, j + 1) =~= (head + all.subrange(0, j as int)).push(
                all[j as int],
            ));
        }
        push_char(&mut s, c);
        j += 1;
    }
    proof {
        assert(all.subrange(0, n as int) =~= all);
        if neg {
            assert(head =~= seq!['-']);
            assert(s@ =~= int_text(x as int));
        } else {
            assert(head =~= Seq::<char>::empty());
            assert(s@ =~= int_text(x as int));
        }
    }
    s
}

impl ToText for i32 {
    open spec fn text_spec(self) -> Seq<char> {
        int_text(self as int)
    }

    fn to_text(&self) -> (s: String) {
        i32_to_text(*self)
    }
}

} // verus!
