//! Character-level helpers: decimal rendering, escaping of control
//! characters for diagnostics, and mapping UTF-8 byte offsets to
//! character positions.

use vstd::prelude::*;

verus! {

/// The characters of the decimal rendering of `n`.
pub open spec fn decimal_spec(n: nat) -> Seq<char>
    decreases n,
{
    if n < 10 {
        seq![digit_char(n)]
    } else {
        decimal_spec(n / 10).push(digit_char(n % 10))
    }
}

pub open spec fn digit_char(d: nat) -> char {
    if d == 0 { '0' }
    else if d == 1 { '1' }
    else if d == 2 { '2' }
    else if d == 3 { '3' }
    else if d == 4 { '4' }
    else if d == 5 { '5' }
    else if d == 6 { '6' }
    else if d == 7 { '7' }
    else if d == 8 { '8' }
    else { '9' }
}

/// Relies on std's String::push: the character is appended at the end.
#[verifier::external_body]
pub(crate) fn push_char(s: &mut String, c: char)
    ensures
        final(s)@ == old(s)@.push(c),
{
    s.push(c)
}

fn digit(d: usize) -> (c: char)
    requires
        d < 10,
    ensures
        c == digit_char(d as nat),
{
    if d == 0 { '0' }
    else if d == 1 { '1' }
    else if d == 2 { '2' }
    else if d == 3 { '3' }
    else if d == 4 { '4' }
    else if d == 5 { '5' }
    else if d == 6 { '6' }
    else if d == 7 { '7' }
    else if d == 8 { '8' }
    else { '9' }
}

/// Renders `n` in decimal.
pub fn decimal(n: usize) -> (r: String)
    ensures
        r@ == decimal_spec(n as nat),
    decreases n,
{
    if n < 10 {
        let mut r = String::new();
        push_char(&mut r, digit(n));
        proof {
            assert(r@ =~= seq![digit_char(n as nat)]);
        }
        r
    } else {
        let mut r = decimal(n / 10);
        push_char(&mut r, digit(n % 10));
        r
    }
}


/// How a buffer character is shown in a timeout diagnostic: a newline as
/// "`\n`" followed by the newline, a carriage return as "`\r`", an escape
/// character as "`^`", anything else as itself.
pub open spec fn escaped_char(c: char) -> Seq<char> {
    if c == '\n' {
        seq!['`', '\\', 'n', '`', '\n']
    } else if c == '\r' {
        seq!['`', '\\', 'r', '`']
    } else if c == '\u{1b}' {
        seq!['`', '^', '`']
    } else {
        seq![c]
    }
}

/// The diagnostic rendering of a whole buffer, character by character.
pub open spec fn escaped_spec(s: Seq<char>) -> Seq<char>
    decreases s.len(),
{
    if s.len() == 0 {
        Seq::empty()
    } else {
        escaped_spec(s.drop_last()) + escaped_char(s.last())
    }
}

/// Renders the control characters of `s` as visible markers.
pub fn escape_controls(s: &Vec<char>) -> (r: String)
    ensures
        r@ == escaped_spec(s@),
{
    let mut r = String::new();
    let mut i: usize = 0;
    while i < s.len()
        invariant
            i <= s@.len(),
            r@ == escaped_spec(s@.take(i as int)),
        decreases s@.len() - i,
    {
        let c = s[i];
        if c == '\n' {
            push_char(&mut r, '`');
            push_char(&mut r, '\\');
            push_char(&mut r, 'n');
            push_char(&mut r, '`');
            push_char(&mut r, '\n');
        } else if c == '\r' {
            push_char(&mut r, '`');
            push_char(&mut r, '\\');
            push_char(&mut r, 'r');
            push_char(&mut r, '`');
        } else if c == '\u{1b}' {
            push_char(&mut r, '`');
            push_char(&mut r, '^');
            push_char(&mut r, '`');
        } else {
            push_char(&mut r, c);
        }
        proof {
            assert(s@.take(i + 1).drop_last() =~= s@.take(i as int));
            assert(r@ =~= escaped_spec(s@.take(i as int)) + escaped_char(c));
        }
        i = i + 1;
    }
    proof {
        assert(s@.take(i as int) =~= s@);
    }
    r
}

/// Number of bytes in the UTF-8 encoding of `c`.
pub open spec fn utf8_width(c: char) -> nat {
    if (c as u32) < 0x80 {
        1
    } else if (c as u32) < 0x800 {
        2
    } else if (c as u32) < 0x10000 {
        3
    } else {
        4
    }
}

/// The position of the character that starts at UTF-8 byte offset `b` of
/// the encoding of `s` (`s.len()` for the offset just past the end); none
/// where `b` is not such a boundary.
pub open spec fn char_index_spec(s: Seq<char>, b: int) -> Option<int>
    decreases s.len(),
{
    if b == 0 {
        Some(0)
    } else if b < 0 || s.len() == 0 {
        None
    } else {
        match char_index_spec(s.drop_first(), b - utf8_width(s[0])) {
            Some(i) => Some(i + 1),
            None => None,
        }
    }
}

fn width(c: char) -> (w: usize)
    ensures
        w == utf8_width(c),
{
    let u = c as u32;
    if u < 0x80 {
        1
    } else if u < 0x800 {
        2
    } else if u < 0x10000 {
        3
    } else {
        4
    }
}

/// Maps a UTF-8 byte offset into the text `s` to a character position.
pub fn char_index(s: &Vec<char>, b: usize) -> (r: Option<usize>)
    ensures
        match r {
            Some(i) => char_index_spec(s@, b as int) == Some(i as int),
            None => char_index_spec(s@, b as int) is None,
        },
{
    let mut i: usize = 0;
    let mut rem: usize = b;
    assert(s@.skip(0) =~= s@);
    while rem > 0 && i < s.len()
        invariant
            i <= s@.len(),
            char_index_spec(s@, b as int) == match char_index_spec(s@.skip(i as int), rem as int) {
                Some(k) => Some(k + i),
                None => None,
            },
        decreases s@.len() - i,
    {
        let w = width(s[i]);
        assert(s@.skip(i as int).drop_first() =~= s@.skip(i + 1));
        if w > rem {
            return None;
        }
        rem = rem - w;
        i = i + 1;
    }
    if rem == 0 {
        Some(i)
    } else {
        assert(s@.skip(i as int).len() == 0);
        None
    }
}


pub proof fn lemma_char_index_bounds(s: Seq<char>, b: int)
    ensures
        char_index_spec(s, b) matches Some(i) ==> 0 <= i <= s.len(),
    decreases s.len(),
{
    if b != 0 && b >= 0 && s.len() > 0 {
        lemma_char_index_bounds(s.drop_first(), b - utf8_width(s[0]));
    }
}

} // verus!
