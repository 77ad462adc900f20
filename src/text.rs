//! Character-level helpers shared by the matcher and the tokenizer.
use vstd::prelude::*;
use vstd::std_specs::iter::IteratorSpec;

verus! {

broadcast use vstd::string::group_string_axioms;

/// Number of bytes that the UTF-8 encoding of `c` occupies.
pub open spec fn utf8_width(c: char) -> nat {
    if (c as u32) < 0x80 {
        1
    } else if (c as u32) < 0x800 {
        2
    } else if (c as u32) < 0x10000 {
        3
    } else {
        4
    }
}

/// Number of bytes in the UTF-8 encoding of a whole character sequence.
pub open spec fn utf8_len(s: Seq<char>) -> nat
    decreases s.len(),
{
    if s.len() == 0 {
        0
    } else {
        utf8_len(s.drop_last()) + utf8_width(s.last())
    }
}

/// The lower-case form of a character, as `char::to_lowercase` yields it.
pub uninterp spec fn lower_of(c: char) -> Seq<char>;

/// Two characters are equal for matching purposes when they have the same
/// encoded width and the same lower-case form.
pub open spec fn same_char(a: char, b: char) -> bool {
    utf8_width(a) == utf8_width(b) && lower_of(a) == lower_of(b)
}

/// Relies on `char::to_lowercase`: the characters of the lower-case form of `c`.
#[verifier::external_body]
fn lowercase(c: char) -> (r: Vec<char>)
    ensures
        r@ == lower_of(c),
{
    c.to_lowercase().collect()
}

/// Byte width of the UTF-8 encoding of `c`.
pub fn width_utf8(c: char) -> (r: usize)
    ensures
        r == utf8_width(c),
{
    let v = c as u32;
    if v < 0x80 {
        1
    } else if v < 0x800 {
        2
    } else if v < 0x10000 {
        3
    } else {
        4
    }
}

/// The characters of `s`, in order.
pub fn chars_of(s: &str) -> (r: Vec<char>)
    ensures
        r@ == s@,
{
    let mut out: Vec<char> = Vec::new();
    for c in it: s.chars()
        invariant
            it.seq() == s@,
            out@ == s@.take(it.index() as int),
    {
        out.push(c);
        assert(s@.take(it.index() as int + 1) =~= out@);
    }
    assert(out@ =~= s@);
    out
}

/// Whether two character vectors hold the same characters.
pub fn chars_equal(a: &Vec<char>, b: &Vec<char>) -> (r: bool)
    ensures
        r == (a@ == b@),
{
    if a.len() != b.len() {
        return false;
    }
    let mut i: usize = 0;
    while i < a.len()
        invariant
            a@.len() == b@.len(),
            i <= a@.len(),
            a@.subrange(0, i as int) == b@.subrange(0, i as int),
        decreases a@.len() - i,
    {
        if a[i] != b[i] {
            assert(a@[i as int] == a@.subrange(0, i as int + 1)[i as int]);
            return false;
        }
        assert(a@.subrange(0, i as int + 1) =~= a@.subrange(0, i as int).push(a@[i as int]));
        assert(b@.subrange(0, i as int + 1) =~= b@.subrange(0, i as int).push(b@[i as int]));
        i += 1;
    }
    assert(a@ =~= a@.subrange(0, i as int));
    assert(b@ =~= b@.subrange(0, i as int));
    true
}

/// Number of bytes in the UTF-8 encoding of `s`, for strings of fewer than
/// `2^31` characters.
pub fn byte_len(s: &str) -> (r: u64)
    requires
        s@.len() < 0x8000_0000,
    ensures
        r == utf8_len(s@),
{
    let cs = chars_of(s);
    let mut total: u64 = 0;
    let mut i: usize = 0;
    while i < cs.len()
        invariant
            cs@ == s@,
            i <= cs@.len(),
            cs@.len() < 0x8000_0000,
            total == utf8_len(cs@.take(i as int)),
            total <= 4 * i,
        decreases cs@.len() - i,
    {
        assert(cs@.take(i as int + 1).drop_last() =~= cs@.take(i as int));
        total = total + width_utf8(cs[i]) as u64;
        i += 1;
    }
    assert(cs@.take(i as int) =~= s@);
    total
}

/// Case-insensitive comparison of two characters of equal encoded width.
pub fn char_eq_fold(a: char, b: char) -> (r: bool)
    ensures
        r == same_char(a, b),
{
    if width_utf8(a) != width_utf8(b) {
        return false;
    }
    let la = lowercase(a);
    let lb = lowercase(b);
    chars_equal(&la, &lb)
}

} // verus!
