//! Character-level text operations used by the accounting logic.
use vstd::prelude::*;

verus! {

/// Lexicographic order on character sequences, comparing code points.
/// On strings this is the order of `String`'s `Ord`: comparing UTF-8 bytes
/// lexicographically orders strings exactly as comparing their code points.
pub open spec fn text_lt(a: Seq<char>, b: Seq<char>) -> bool
    decreases a.len(),
{
    if a.len() == 0 {
        b.len() > 0
    } else if b.len() == 0 {
        false
    } else if a[0] != b[0] {
        (a[0] as int) < (b[0] as int)
    } else {
        text_lt(a.drop_first(), b.drop_first())
    }
}

pub proof fn lemma_text_lt_irreflexive(a: Seq<char>)
    ensures
        !text_lt(a, a),
    decreases a.len(),
{
    if a.len() > 0 {
        lemma_text_lt_irreflexive(a.drop_first());
    }
}

pub proof fn lemma_text_lt_transitive(a: Seq<char>, b: Seq<char>, c: Seq<char>)
    requires
        text_lt(a, b),
        text_lt(b, c),
    ensures
        text_lt(a, c),
    decreases a.len(),
{
    if a.len() > 0 && b.len() > 0 && c.len() > 0 && a[0] == b[0] && b[0] == c[0] {
        lemma_text_lt_transitive(a.drop_first(), b.drop_first(), c.drop_first());
    }
}

pub proof fn lemma_text_lt_total(a: Seq<char>, b: Seq<char>)
    ensures
        a =~= b || text_lt(a, b) || text_lt(b, a),
    decreases a.len(),
{
    if a.len() > 0 && b.len() > 0 && a[0] == b[0] {
        lemma_text_lt_total(a.drop_first(), b.drop_first());
        if a.drop_first() =~= b.drop_first() {
            assert(a =~= seq![a[0]] + a.drop_first());
            assert(b =~= seq![b[0]] + b.drop_first());
        }
    } else if a.len() > 0 && b.len() > 0 {
        assert((a[0] as int) != (b[0] as int));
    }
}


/// `p` is a prefix of `s`.
pub open spec fn is_prefix_of(p: Seq<char>, s: Seq<char>) -> bool {
    p.len() <= s.len() && s.take(p.len() as int) =~= p
}

/// `needle` occurs as a contiguous run of characters in `hay`.
pub open spec fn occurs_in(needle: Seq<char>, hay: Seq<char>) -> bool {
    exists|i: int|
        0 <= i && i + needle.len() <= hay.len() && #[trigger] hay.subrange(i, i + needle.len())
            =~= needle
}

/// The number of bytes that UTF-8 uses for `c`.
pub open spec fn utf8_width(c: char) -> int {
    let u = c as int;
    if u < 0x80 {
        1
    } else if u < 0x800 {
        2
    } else if u < 0x10000 {
        3
    } else {
        4
    }
}

/// The number of characters of `s` whose UTF-8 encoding takes exactly `n`
/// bytes, if byte offset `n` falls on a character boundary of `s`.
pub open spec fn char_index_at_byte(s: Seq<char>, n: int) -> Option<int>
    decreases s.len(),
{
    if n == 0 {
        Some(0)
    } else if s.len() == 0 || n < utf8_width(s[0]) {
        None
    } else {
        match char_index_at_byte(s.drop_first(), n - utf8_width(s[0])) {
            Some(k) => Some(k + 1),
            None => None,
        }
    }
}

pub proof fn lemma_char_index_bound(s: Seq<char>, n: int)
    requires
        char_index_at_byte(s, n) is Some,
    ensures
        0 <= char_index_at_byte(s, n)->0 <= s.len(),
    decreases s.len(),
{
    if n != 0 {
        lemma_char_index_bound(s.drop_first(), n - utf8_width(s[0]));
    }
}

/// A character boundary of a prefix is one of the whole text.
pub proof fn lemma_char_index_in_prefix(p: Seq<char>, s: Seq<char>, n: int)
    requires
        is_prefix_of(p, s),
        char_index_at_byte(p, n) is Some,
    ensures
        char_index_at_byte(s, n) == char_index_at_byte(p, n),
    decreases p.len(),
{
    if n != 0 {
        assert(s[0] == s.take(p.len() as int)[0]);
        assert(s.drop_first().take(p.len() - 1) =~= p.drop_first()) by {
            assert forall|i: int| 0 <= i < p.len() - 1 implies s.drop_first().take(p.len() - 1)[i]
                == p.drop_first()[i] by {
                assert(s.take(p.len() as int)[i + 1] == p[i + 1]);
            }
        }
        lemma_char_index_in_prefix(p.drop_first(), s.drop_first(), n - utf8_width(s[0]));
    }
}

/// `s` without its leading `'0'` characters.
pub open spec fn trim_leading_zeros(s: Seq<char>) -> Seq<char>
    decreases s.len(),
{
    if s.len() > 0 && s[0] == '0' {
        trim_leading_zeros(s.drop_first())
    } else {
        s
    }
}

/// The character of a decimal digit.
pub open spec fn digit_char(d: nat) -> char {
    ((d + 48) as u8) as char
}

/// Decimal notation of `n`, as `Display` writes an unsigned integer.
pub open spec fn decimal(n: nat) -> Seq<char>
    decreases n,
{
    if n < 10 {
        seq![digit_char(n)]
    } else {
        decimal(n / 10).push(digit_char(n % 10))
    }
}

/// What `str::to_lowercase` returns for a string with these characters.
pub uninterp spec fn lowercase(s: Seq<char>) -> Seq<char>;

/// A leading (high) surrogate code unit.
pub open spec fn is_high_surrogate(u: u16) -> bool {
    0xD800 <= u <= 0xDBFF
}

/// A trailing (low) surrogate code unit.
pub open spec fn is_low_surrogate(u: u16) -> bool {
    0xDC00 <= u <= 0xDFFF
}

/// U+FFFD, which stands for invalid data.
pub open spec fn replacement_char() -> char {
    0xFFFDu32 as char
}

/// The code point of a surrogate pair.
pub open spec fn pair_code_point(high: u16, low: u16) -> int {
    0x10000 + (high - 0xD800) * 0x400 + (low - 0xDC00)
}

/// UTF-16 decoding with each unpaired surrogate replaced by U+FFFD: a unit
/// outside the surrogates is its own character, a high surrogate followed
/// by a low one is the character they encode, and any other surrogate is
/// invalid data.
pub open spec fn utf16_lossy(units: Seq<u16>) -> Seq<char>
    decreases units.len(),
{
    if units.len() == 0 {
        Seq::empty()
    } else if !(0xD800 <= units[0] <= 0xDFFF) {
        seq![units[0] as char] + utf16_lossy(units.drop_first())
    } else if is_high_surrogate(units[0]) && units.len() >= 2 && is_low_surrogate(units[1]) {
        seq![pair_code_point(units[0], units[1]) as char] + utf16_lossy(
            units.subrange(2, units.len() as int),
        )
    } else {
        seq![replacement_char()] + utf16_lossy(units.drop_first())
    }
}

/// Law: decoding a non-empty sequence of units gives some text, and text
/// without NUL when no unit is 0.
pub proof fn law_utf16_lossy(units: Seq<u16>)
    ensures
        units.len() > 0 ==> utf16_lossy(units).len() > 0,
        (forall|i: int| 0 <= i < units.len() ==> units[i] != 0) ==> forall|j: int|
            0 <= j < utf16_lossy(units).len() ==> utf16_lossy(units)[j] != '\0',
    decreases units.len(),
{
    if units.len() > 0 {
        let d = utf16_lossy(units);
        if !(0xD800 <= units[0] <= 0xDFFF) {
            let rest = units.drop_first();
            law_utf16_lossy(rest);
            if forall|i: int| 0 <= i < units.len() ==> units[i] != 0 {
                assert(units[0] != 0);
                assert((units[0] as char) as int == units[0] as int);
                assert forall|i: int| 0 <= i < rest.len() implies rest[i] != 0 by {
                    assert(rest[i] == units[i + 1]);
                }
                assert forall|j: int| 0 <= j < d.len() implies d[j] != '\0' by {
                    if j > 0 {
                        assert(d[j] == utf16_lossy(rest)[j - 1]);
                    }
                }
            }
        } else if is_high_surrogate(units[0]) && units.len() >= 2 && is_low_surrogate(units[1]) {
            let rest = units.subrange(2, units.len() as int);
            law_utf16_lossy(rest);
            let c = pair_code_point(units[0], units[1]);
            assert(0x10000 <= c <= 0x10FFFF);
            assert((c as char) as int == c);
            if forall|i: int| 0 <= i < units.len() ==> units[i] != 0 {
                assert forall|i: int| 0 <= i < rest.len() implies rest[i] != 0 by {
                    assert(rest[i] == units[i + 2]);
                }
                assert forall|j: int| 0 <= j < d.len() implies d[j] != '\0' by {
                    if j > 0 {
                        assert(d[j] == utf16_lossy(rest)[j - 1]);
                    }
                }
            }
        } else {
            let rest = units.drop_first();
            law_utf16_lossy(rest);
            assert((0xFFFDu32 as char) as int == 0xFFFD);
            if forall|i: int| 0 <= i < units.len() ==> units[i] != 0 {
                assert forall|i: int| 0 <= i < rest.len() implies rest[i] != 0 by {
                    assert(rest[i] == units[i + 1]);
                }
                assert forall|j: int| 0 <= j < d.len() implies d[j] != '\0' by {
                    if j > 0 {
                        assert(d[j] == utf16_lossy(rest)[j - 1]);
                    }
                }
            }
        }
    }
}

/// Calls `str::to_lowercase`. Its result is a function of the characters of
/// `s` alone, named `lowercase`; what that function is (Unicode's lowercase
/// mapping) is not stated here.
#[verifier::external_body]
pub fn to_lowercase(s: &str) -> (r: String)
    ensures
        r@ == lowercase(s@),
{
    s.to_lowercase()
}

/// Calls `String::from_utf16_lossy`, which decodes UTF-16 and replaces
/// invalid data (each unpaired surrogate, as `char::decode_utf16` reports
/// them) with U+FFFD: `utf16_lossy`.
#[verifier::external_body]
pub fn from_utf16_lossy(units: &[u16]) -> (r: String)
    ensures
        r@ == utf16_lossy(units@),
{
    String::from_utf16_lossy(units)
}

/// Calls `String::push`, which appends one character.
#[verifier::external_body]
pub fn push_char(s: &mut String, c: char)
    ensures
        final(s)@ == old(s)@.push(c),
{
    s.push(c)
}

/// The characters of `s`, one by one.
pub fn chars_of(s: &str) -> (v: Vec<char>)
    ensures
        v@ == s@,
{
    let n = s.unicode_len();
    let mut v: Vec<char> = Vec::new();
    let mut i: usize = 0;
    while i < n
        invariant
            n == s@.len(),
            i <= n,
            v@ =~= s@.take(i as int),
        decreases n - i,
    {
        let c = s.get_char(i);
        v.push(c);
        i = i + 1;
    }
    v
}

proof fn lemma_text_lt_skip(a: Seq<char>, b: Seq<char>, i: int)
    requires
        0 <= i < a.len(),
        i < b.len(),
        a[i] == b[i],
    ensures
        text_lt(a.skip(i), b.skip(i)) == text_lt(a.skip(i + 1), b.skip(i + 1)),
{
    assert(a.skip(i).drop_first() =~= a.skip(i + 1));
    assert(b.skip(i).drop_first() =~= b.skip(i + 1));
}

/// Compares two strings in the order of `String`'s `Ord`.
pub fn text_less(a: &str, b: &str) -> (r: bool)
    ensures
        r == text_lt(a@, b@),
{
    let x = chars_of(a);
    let y = chars_of(b);
    let mut i: usize = 0;
    assert(a@.skip(0) =~= a@);
    assert(b@.skip(0) =~= b@);
    while i < x.len() && i < y.len() && x[i] == y[i]
        invariant
            x@ == a@,
            y@ == b@,
            i <= x.len(),
            i <= y.len(),
            text_lt(a@, b@) == text_lt(a@.skip(i as int), b@.skip(i as int)),
        decreases x.len() - i,
    {
        proof {
            lemma_text_lt_skip(a@, b@, i as int);
        }
        i = i + 1;
    }
    if i == x.len() {
        i < y.len()
    } else if i == y.len() {
        false
    } else {
        assert(a@.skip(i as int)[0] == x@[i as int]);
        assert(b@.skip(i as int)[0] == y@[i as int]);
        x[i] < y[i]
    }
}

/// Whether `p` is a prefix of `s`, as `str::starts_with` with a string pattern.
pub fn starts_with_text(s: &str, p: &str) -> (r: bool)
    ensures
        r == is_prefix_of(p@, s@),
{
    let x = chars_of(s);
    let y = chars_of(p);
    if y.len() > x.len() {
        return false;
    }
    let mut i: usize = 0;
    while i < y.len()
        invariant
            x@ == s@,
            y@ == p@,
            y.len() <= x.len(),
            i <= y.len(),
            forall|j: int| 0 <= j < i ==> x@[j] == y@[j],
        decreases y.len() - i,
    {
        if x[i] != y[i] {
            assert(s@.take(p@.len() as int)[i as int] != p@[i as int]);
            return false;
        }
        i = i + 1;
    }
    assert(s@.take(p@.len() as int) =~= p@);
    true
}

/// Whether `needle` occurs in `hay`, as `str::contains` with a string pattern.
pub fn contains_chars(hay: &Vec<char>, needle: &Vec<char>) -> (r: bool)
    ensures
        r == occurs_in(needle@, hay@),
{
    if needle.len() > hay.len() {
        return false;
    }
    let last = hay.len() - needle.len();
    let mut i: usize = 0;
    while i <= last
        invariant
            last == hay.len() - needle.len(),
            needle.len() <= hay.len(),
            i <= last + 1,
            forall|k: int| 0 <= k < i ==> !(#[trigger] hay@.subrange(k, k + needle.len()) =~= needle@),
        decreases last + 1 - i,
    {
        let mut j: usize = 0;
        let mut same = true;
        while j < needle.len()
            invariant
                i <= last,
                last == hay.len() - needle.len(),
                j <= needle.len(),
                same ==> forall|t: int| 0 <= t < j ==> hay@[i + t] == needle@[t],
                !same ==> exists|t: int| 0 <= t < needle.len() && hay@[i + t] != needle@[t],
            decreases needle.len() - j,
        {
            if hay[i + j] != needle[j] {
                same = false;
            }
            j = j + 1;
        }
        if same {
            assert(hay@.subrange(i as int, i + needle.len()) =~= needle@);
            return true;
        }
        proof {
            let t = choose|t: int| 0 <= t < needle.len() && hay@[i + t] != needle@[t];
            assert(hay@.subrange(i as int, i + needle.len())[t] != needle@[t]);
        }
        i = i + 1;
    }
    proof {
        assert forall|k: int| 0 <= k && k + needle.len() <= hay.len() implies !(
        #[trigger] hay@.subrange(k, k + needle.len()) =~= needle@) by {
            assert(k < i);
        }
    }
    false
}


fn digit(d: u32) -> (c: char)
    requires
        d < 10,
    ensures
        c == digit_char(d as nat),
{
    ((d as u8) + 48u8) as char
}

/// Decimal notation of `n`, as `format!("{}", n)` writes it.
pub fn decimal_string(n: u32) -> (s: String)
    ensures
        s@ == decimal(n as nat),
    decreases n,
{
    if n < 10 {
        let mut s = String::new();
        push_char(&mut s, digit(n));
        s
    } else {
        let mut s = decimal_string(n / 10);
        push_char(&mut s, digit(n % 10));
        s
    }
}

fn utf8_width_of(c: char) -> (w: usize)
    ensures
        w == utf8_width(c),
{
    let u = c as u32;
    assert(u as int == c as int);
    if u < 0x80 {
        1
    } else if u < 0x800 {
        2
    } else if u < 0x10000 {
        3
    } else {
        4
    }
}

/// Shifts a character index found in a suffix back to the whole text.
pub open spec fn shift_index(o: Option<int>, by: int) -> Option<int> {
    match o {
        Some(k) => Some(k + by),
        None => None,
    }
}

/// The character index at byte offset `n` of `s`, if `n` is a character
/// boundary (`str::is_char_boundary`): what `&s[..n]` and `&s[n..]` split at.
pub fn char_index_at(s: &str, n: usize) -> (r: Option<usize>)
    ensures
        r is Some <==> char_index_at_byte(s@, n as int) is Some,
        r matches Some(k) ==> char_index_at_byte(s@, n as int) == Some(k as int) && k <= s@.len(),
{
    let x = chars_of(s);
    let mut i: usize = 0;
    let mut b: usize = 0;
    assert(s@.skip(0) =~= s@);
    loop
        invariant
            x@ == s@,
            i <= x.len(),
            b <= n,
            char_index_at_byte(s@, n as int) == shift_index(
                char_index_at_byte(s@.skip(i as int), n - b),
                i as int,
            ),
        decreases x.len() - i,
    {
        if b == n {
            return Some(i);
        }
        if i == x.len() {
            return None;
        }
        let w = utf8_width_of(x[i]);
        assert(s@.skip(i as int)[0] == x@[i as int]);
        if n - b < w {
            return None;
        }
        assert(s@.skip(i as int).drop_first() =~= s@.skip(i + 1));
        b = b + w;
        i = i + 1;
    }
}

/// `s` without its leading `'0'` characters, as `str::trim_start_matches('0')`.
pub fn trim_zeros(s: &str) -> (r: String)
    ensures
        r@ == trim_leading_zeros(s@),
{
    let n = s.unicode_len();
    let mut i: usize = 0;
    assert(s@.skip(0) =~= s@);
    while i < n && s.get_char(i) == '0'
        invariant
            n == s@.len(),
            i <= n,
            trim_leading_zeros(s@) == trim_leading_zeros(s@.skip(i as int)),
        decreases n - i,
    {
        assert(s@.skip(i as int).drop_first() =~= s@.skip(i + 1));
        i = i + 1;
    }
    assert(s@.subrange(i as int, n as int) =~= s@.skip(i as int));
    String::from_str(s.substring_char(i, n))
}

} // verus!
