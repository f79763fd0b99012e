//! Character-level helpers shared by the formatters and the filters.

use vstd::prelude::*;
use vstd::string::*;

verus! {

/// The decimal digit character for `d` in `0..10`.
pub open spec fn digit_char(d: int) -> char {
    seq!['0', '1', '2', '3', '4', '5', '6', '7', '8', '9'][d]
}

/// Decimal rendering of a natural number, without leading zeros.
pub open spec fn nat_text(n: nat) -> Seq<char>
    decreases n,
{
    if n < 10 {
        seq![digit_char(n as int)]
    } else {
        nat_text(n / 10).push(digit_char((n % 10) as int))
    }
}

/// Decimal rendering of an integer, with a leading `-` when negative.
pub open spec fn int_text(i: int) -> Seq<char> {
    if i < 0 {
        seq!['-'] + nat_text((-i) as nat)
    } else {
        nat_text(i as nat)
    }
}

pub(crate) fn digit_str(d: u64) -> (r: &'static str)
    requires
        d < 10,
    ensures
        r@ == seq![digit_char(d as int)],
{
    proof {
        reveal_strlit("0");
        reveal_strlit("1");
        reveal_strlit("2");
        reveal_strlit("3");
        reveal_strlit("4");
        reveal_strlit("5");
        reveal_strlit("6");
        reveal_strlit("7");
        reveal_strlit("8");
        reveal_strlit("9");
    }
    match d {
        0 => "0",
        1 => "1",
        2 => "2",
        3 => "3",
        4 => "4",
        5 => "5",
        6 => "6",
        7 => "7",
        8 => "8",
        _ => "9",
    }
}

/// Appends the decimal digits of `n` to `out`.
pub fn push_decimal(out: &mut String, n: u64)
    ensures
        final(out)@ == old(out)@ + nat_text(n as nat),
    decreases n,
{
    if n >= 10 {
        push_decimal(out, n / 10);
    }
    out.append(digit_str(n % 10));
    assert(old(out)@ + nat_text(n as nat) =~= out@);
}

/// The decimal rendering of `n`.
pub fn decimal_text(n: u64) -> (r: String)
    ensures
        r@ == nat_text(n as nat),
{
    let mut s = String::new();
    push_decimal(&mut s, n);
    assert(s@ =~= nat_text(n as nat));
    s
}

/// The decimal rendering of a signed integer.
pub fn signed_decimal_text(i: i64) -> (r: String)
    ensures
        r@ == int_text(i as int),
{
    if i < 0 {
        let magnitude: u64 = ((-(i + 1)) as u64) + 1;
        let mut s = String::from_str("-");
        proof {
            reveal_strlit("-");
        }
        push_decimal(&mut s, magnitude);
        assert(s@ =~= int_text(i as int));
        s
    } else {
        decimal_text(i as u64)
    }
}

/// `n` space characters.
pub open spec fn spaces(n: nat) -> Seq<char>
    decreases n,
{
    if n == 0 {
        Seq::empty()
    } else {
        spaces((n - 1) as nat).push(' ')
    }
}

/// `s` right-aligned in a field of `width` characters.
pub open spec fn pad_left(s: Seq<char>, width: nat) -> Seq<char> {
    if s.len() < width {
        spaces((width - s.len()) as nat) + s
    } else {
        s
    }
}

/// Right-aligns `s` in a field of `width` characters.
pub fn padded_left(s: &str, width: usize) -> (r: String)
    ensures
        r@ == pad_left(s@, width as nat),
{
    let len = s.unicode_len();
    let mut out = String::new();
    let mut k: usize = len;
    proof {
        reveal_strlit(" ");
    }
    while k < width
        invariant
            len == s@.len(),
            len <= k <= width || (k == len && len >= width),
            out@ == spaces((k - len) as nat),
        decreases width - k,
    {
        proof {
            reveal_strlit(" ");
        }
        out.append(" ");
        k = k + 1;
        assert(out@ =~= spaces((k - len) as nat));
    }
    out.append(s);
    proof {
        if len < width {
            assert(out@ =~= pad_left(s@, width as nat));
        } else {
            assert(out@ =~= pad_left(s@, width as nat));
        }
    }
    out
}

/// The characters of `s`, one per element.
pub fn chars_of(s: &str) -> (r: Vec<char>)
    ensures
        r@ == s@,
{
    let len = s.unicode_len();
    let mut v: Vec<char> = Vec::new();
    let mut i: usize = 0;
    while i < len
        invariant
            len == s@.len(),
            i <= len,
            v@ == s@.subrange(0, i as int),
        decreases len - i,
    {
        v.push(s.get_char(i));
        i = i + 1;
        assert(v@ =~= s@.subrange(0, i as int));
    }
    assert(v@ =~= s@);
    v
}

/// `needle` occurs in `hay` as a contiguous run of characters.
pub open spec fn is_substring(needle: Seq<char>, hay: Seq<char>) -> bool {
    exists|i: int|
        0 <= i && i + needle.len() <= hay.len() && #[trigger] hay.subrange(i, i + needle.len())
            == needle
}

fn occurs_at(needle: &Vec<char>, hay: &Vec<char>, at: usize) -> (r: bool)
    requires
        at + needle@.len() <= hay@.len(),
    ensures
        r == (hay@.subrange(at as int, at + needle@.len()) == needle@),
{
    let hl = hay.len();
    let mut j: usize = 0;
    while j < needle.len()
        invariant
            hl == hay@.len(),
            at + needle@.len() <= hay@.len(),
            j <= needle@.len(),
            forall|m: int| 0 <= m < j ==> hay@[at + m] == needle@[m],
        decreases needle@.len() - j,
    {
        if hay[at + j] != needle[j] {
            assert(hay@.subrange(at as int, at + needle@.len())[j as int] != needle@[j as int]);
            return false;
        }
        j = j + 1;
    }
    assert(hay@.subrange(at as int, at + needle@.len()) =~= needle@);
    true
}

/// Whether `needle` occurs in `haystack`; an empty needle occurs everywhere.
pub fn contains_text(haystack: &str, needle: &str) -> (r: bool)
    ensures
        r == is_substring(needle@, haystack@),
{
    let hay = chars_of(haystack);
    let pat = chars_of(needle);
    if pat.len() == 0 {
        assert(haystack@.subrange(0int, 0int + needle@.len()) =~= needle@);
        return true;
    }
    if pat.len() > hay.len() {
        return false;
    }
    let last: usize = hay.len() - pat.len();
    let mut i: usize = 0;
    while i < last + 1
        invariant
            last < usize::MAX,
            i <= last + 1,
            hay@ == haystack@,
            pat@ == needle@,
            last + pat@.len() == hay@.len(),
            forall|k: int| 0 <= k < i ==> #[trigger] hay@.subrange(k, k + pat@.len()) != pat@,
        decreases last + 1 - i,
    {
        if occurs_at(&pat, &hay, i) {
            return true;
        }
        i = i + 1;
    }
    assert forall|k: int|
        0 <= k && k + needle@.len() <= haystack@.len() implies #[trigger] haystack@.subrange(
        k,
        k + needle@.len(),
    ) != needle@ by {
        assert(k <= last);
    }
    false
}

/// `s` with every trailing `a` or `b` character removed.
pub open spec fn trim_end_of(s: Seq<char>, a: char, b: char) -> Seq<char>
    decreases s.len(),
{
    if s.len() > 0 && (s.last() == a || s.last() == b) {
        trim_end_of(s.drop_last(), a, b)
    } else {
        s
    }
}

/// Removes every trailing `a` or `b` character from `s`.
pub fn trimmed_end(s: &str, a: char, b: char) -> (r: String)
    ensures
        r@ == trim_end_of(s@, a, b),
{
    let len = s.unicode_len();
    let mut k: usize = len;
    assert(s@.subrange(0, len as int) =~= s@);
    while k > 0 && (s.get_char(k - 1) == a || s.get_char(k - 1) == b)
        invariant
            len == s@.len(),
            k <= len,
            trim_end_of(s@.subrange(0, k as int), a, b) == trim_end_of(s@, a, b),
        decreases k,
    {
        assert(s@.subrange(0, k as int).drop_last() =~= s@.subrange(0, k - 1));
        k = k - 1;
    }
    let kept = s.substring_char(0, k);
    String::from_str(kept)
}

/// What `str::to_lowercase` makes of a string.
pub uninterp spec fn lower_of(s: Seq<char>) -> Seq<char>;

/// Relies on `str::to_lowercase`, whose result depends on the characters
/// alone; an empty string stays empty.
#[verifier::external_body]
pub(crate) fn lowercase(s: &str) -> (r: String)
    ensures
        r@ == lower_of(s@),
        s@.len() == 0 ==> r@.len() == 0,
{
    s.to_lowercase()
}

/// Case-insensitive containment: `needle` occurs in `haystack` once both are
/// lowercased.
pub fn contains_folded(haystack: &str, needle: &str) -> (r: bool)
    ensures
        r == is_substring(lower_of(needle@), lower_of(haystack@)),
{
    let h = lowercase(haystack);
    let n = lowercase(needle);
    contains_text(h.as_str(), n.as_str())
}

} // verus!
