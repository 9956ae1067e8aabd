//! Conversions between strings and letter sequences, and the clean-up of
//! dictionary lines.
use vstd::prelude::*;

verus! {

/// The letters of `s`, one by one.
pub fn letters(s: &str) -> (r: Vec<char>)
    ensures
        r@ == s@,
{
    let n = s.unicode_len();
    let mut r: Vec<char> = Vec::new();
    let mut i: usize = 0;
    while i < n
        invariant
            n == s@.len(),
            i <= n,
            r@ == s@.subrange(0, i as int),
        decreases n - i,
    {
        r.push(s.get_char(i));
        i += 1;
    }
    r
}

/// Relies on `String::push`: the character is appended at the end of the string.
pub assume_specification[ String::push ](s: &mut String, ch: char)
    ensures
        final(s)@ == old(s)@.push(ch),
;

/// The string made of the letters `w`.
pub fn string_of(w: &Vec<char>) -> (r: String)
    ensures
        r@ == w@,
{
    let mut r = String::new();
    let mut i: usize = 0;
    while i < w.len()
        invariant
            i <= w.len(),
            r@ == w@.subrange(0, i as int),
        decreases w.len() - i,
    {
        r.push(w[i]);
        i += 1;
    }
    r
}

/// The byte-order mark that may open a line of text.
pub const BOM: char = '\u{feff}';

/// What `str::to_lowercase` makes of the characters `s`.
pub uninterp spec fn lowercase_of(s: Seq<char>) -> Seq<char>;

/// Relies on `str::to_lowercase`: the lower-case form depends on the
/// characters alone.
#[verifier::external_body]
fn lowercase(s: &str) -> (r: String)
    ensures
        r@ == lowercase_of(s@),
{
    s.to_lowercase()
}

/// `s` without the byte-order marks it starts with.
pub open spec fn without_bom(s: Seq<char>) -> Seq<char>
    decreases s.len(),
{
    if s.len() > 0 && s[0] == BOM {
        without_bom(s.drop_first())
    } else {
        s
    }
}

/// `s` without the byte-order marks it starts with.
pub fn strip_bom(s: &str) -> (r: String)
    ensures
        r@ == without_bom(s@),
{
    let w = letters(s);
    assert(w@.subrange(0, w.len() as int) =~= w@);
    let mut i: usize = 0;
    while i < w.len() && w[i] == BOM
        invariant
            i <= w.len(),
            without_bom(w@.subrange(i as int, w.len() as int)) == without_bom(w@),
        decreases w.len() - i,
    {
        assert(w@.subrange(i as int, w.len() as int).drop_first() =~= w@.subrange(
            i + 1,
            w.len() as int,
        ));
        i += 1;
    }
    let mut rest: Vec<char> = Vec::new();
    let mut k: usize = i;
    while k < w.len()
        invariant
            i <= k <= w.len(),
            rest@ == w@.subrange(i as int, k as int),
        decreases w.len() - k,
    {
        rest.push(w[k]);
        k += 1;
    }
    string_of(&rest)
}

/// A dictionary line made ready for the tree: in lower case, without the
/// byte-order marks it starts with.
pub fn dictionary_word(line: &str) -> (r: String)
    ensures
        r@ == without_bom(lowercase_of(line@)),
{
    let lower = lowercase(line);
    strip_bom(lower.as_str())
}

} // verus!
