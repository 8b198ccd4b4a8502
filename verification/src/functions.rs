use vstd::prelude::*;

use crate::text::{
    chars_of, int_to_decimal, lemma_parse_int_to_decimal, parse_i32, push_char, push_decimal_i64,
    spec_parse_i32,
};

verus! {

/// The link type a single letter names: `n` num, `r` radius, `x` `y` `z`
/// position, `h` `s` `l` `a` color, `v` vertices, `o` rotation, `A` array,
/// `T` targets. Anything else names link type 0.
pub open spec fn named_link_type(s: Seq<char>) -> int {
    if s == seq!['n'] {
        -1
    } else if s == seq!['r'] {
        -2
    } else if s == seq!['x'] {
        -3
    } else if s == seq!['y'] {
        -4
    } else if s == seq!['z'] {
        -5
    } else if s == seq!['h'] {
        -6
    } else if s == seq!['s'] {
        -7
    } else if s == seq!['l'] {
        -8
    } else if s == seq!['a'] {
        -9
    } else if s == seq!['v'] {
        -11
    } else if s == seq!['o'] {
        -12
    } else if s == seq!['A'] {
        -13
    } else if s == seq!['T'] {
        -14
    } else {
        0
    }
}

/// The letter that names a link type, where one does.
pub open spec fn link_type_letter(n: int) -> Option<char> {
    if n == -1 {
        Some('n')
    } else if n == -2 {
        Some('r')
    } else if n == -3 {
        Some('x')
    } else if n == -4 {
        Some('y')
    } else if n == -5 {
        Some('z')
    } else if n == -6 {
        Some('h')
    } else if n == -7 {
        Some('s')
    } else if n == -8 {
        Some('l')
    } else if n == -9 {
        Some('a')
    } else if n == -11 {
        Some('v')
    } else if n == -12 {
        Some('o')
    } else if n == -13 {
        Some('A')
    } else if n == -14 {
        Some('T')
    } else {
        None
    }
}

/// The link type that a piece of text denotes: a decimal `i32` is itself,
/// otherwise a letter's link type (0 for anything else).
pub open spec fn spec_str_to_lt(s: Seq<char>) -> int {
    match spec_parse_i32(s) {
        Some(n) => n as int,
        None => named_link_type(s),
    }
}

/// How a link type is shown: its letter where it has one, else its decimal
/// value.
pub open spec fn spec_lt_to_string(n: int) -> Seq<char> {
    match link_type_letter(n) {
        Some(c) => seq![c],
        None => int_to_decimal(n),
    }
}

/// Reads a link type from text: a decimal integer, or one of the letters
/// `n r x y z h s l a v o A T`; anything else gives 0.
pub fn str_to_lt(s: &str) -> (lt: i32)
    ensures
        lt == spec_str_to_lt(s@),
{
    let v = chars_of(s);
    if let Some(n) = parse_i32(&v) {
        return n;
    }
    if v.len() != 1 {
        assert(v@ != seq!['n'] && v@ != seq!['r'] && v@ != seq!['x'] && v@ != seq!['y']);
        assert(v@ != seq!['z'] && v@ != seq!['h'] && v@ != seq!['s'] && v@ != seq!['l']);
        assert(v@ != seq!['a'] && v@ != seq!['v'] && v@ != seq!['o'] && v@ != seq!['A']);
        assert(v@ != seq!['T']);
        return 0;
    }
    let c = v[0];
    assert(v@ =~= seq![c]);
    if c == 'n' {
        -1
    } else if c == 'r' {
        -2
    } else if c == 'x' {
        -3
    } else if c == 'y' {
        -4
    } else if c == 'z' {
        -5
    } else if c == 'h' {
        -6
    } else if c == 's' {
        -7
    } else if c == 'l' {
        -8
    } else if c == 'a' {
        -9
    } else if c == 'v' {
        -11
    } else if c == 'o' {
        -12
    } else if c == 'A' {
        -13
    } else if c == 'T' {
        -14
    } else {
        0
    }
}

/// Shows a link type: its letter where it has one, else its decimal value.
pub fn lt_to_string(n: i32) -> (s: String)
    ensures
        s@ == spec_lt_to_string(n as int),
{
    let mut s = String::new();
    let letter: Option<char> = if n == -1 {
        Some('n')
    } else if n == -2 {
        Some('r')
    } else if n == -3 {
        Some('x')
    } else if n == -4 {
        Some('y')
    } else if n == -5 {
        Some('z')
    } else if n == -6 {
        Some('h')
    } else if n == -7 {
        Some('s')
    } else if n == -8 {
        Some('l')
    } else if n == -9 {
        Some('a')
    } else if n == -11 {
        Some('v')
    } else if n == -12 {
        Some('o')
    } else if n == -13 {
        Some('A')
    } else if n == -14 {
        Some('T')
    } else {
        None
    };
    match letter {
        Some(c) => {
            push_char(&mut s, c);
            assert(s@ =~= seq![c]);
        },
        None => {
            push_decimal_i64(&mut s, n as i64);
            assert(s@ =~= int_to_decimal(n as int));
        },
    }
    s
}

/// Every link type reads back from the way it is shown: reading the text
/// that `lt_to_string` gives for `n` with `str_to_lt` gives `n` again.
pub proof fn lemma_link_type_text_round_trip(n: i32)
    ensures
        spec_str_to_lt(spec_lt_to_string(n as int)) == n,
{
    match link_type_letter(n as int) {
        Some(c) => {
            let s = seq![c];
            assert(s.len() == 1 && s[0] == c);
            assert(!crate::text::is_digit(s[0]));
            assert(spec_parse_i32(s) is None);
        },
        None => {
            lemma_parse_int_to_decimal(n as int);
        },
    }
}

} // verus!
