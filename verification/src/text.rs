//! Character-level helpers over the `Seq<char>` view of strings.
use vstd::prelude::*;

verus! {

/// Unicode `White_Space` (the set `char::is_whitespace` and `str::trim` use).
pub open spec fn is_unicode_whitespace(c: char) -> bool {
    let u = c as u32;
    ||| 0x09 <= u <= 0x0d
    ||| u == 0x20
    ||| u == 0x85
    ||| u == 0xa0
    ||| u == 0x1680
    ||| 0x2000 <= u <= 0x200a
    ||| u == 0x2028
    ||| u == 0x2029
    ||| u == 0x202f
    ||| u == 0x205f
    ||| u == 0x3000
}

pub open spec fn is_ascii_alphanumeric(c: char) -> bool {
    let u = c as u32;
    ||| 0x30 <= u <= 0x39
    ||| 0x41 <= u <= 0x5a
    ||| 0x61 <= u <= 0x7a
}

pub open spec fn is_ascii_lowercase(c: char) -> bool {
    0x61 <= c as u32 <= 0x7a
}

/// `char::to_ascii_uppercase`: ASCII lowercase letters move to uppercase,
/// every other character is unchanged.
pub open spec fn ascii_upper(c: char) -> char {
    if is_ascii_lowercase(c) {
        ((c as u32) - 32) as char
    } else {
        c
    }
}

pub fn is_whitespace(c: char) -> (b: bool)
    ensures
        b == is_unicode_whitespace(c),
{
    let u = c as u32;
    (0x09 <= u && u <= 0x0d) || u == 0x20 || u == 0x85 || u == 0xa0 || u == 0x1680 || (0x2000
        <= u && u <= 0x200a) || u == 0x2028 || u == 0x2029 || u == 0x202f || u == 0x205f || u
        == 0x3000
}

pub fn is_alphanumeric_ascii(c: char) -> (b: bool)
    ensures
        b == is_ascii_alphanumeric(c),
{
    let u = c as u32;
    (0x30 <= u && u <= 0x39) || (0x41 <= u && u <= 0x5a) || (0x61 <= u && u <= 0x7a)
}

pub fn to_upper_ascii(c: char) -> (r: char)
    ensures
        r == ascii_upper(c),
{
    let u = c as u32;
    if 0x61 <= u && u <= 0x7a {
        let b: u8 = (u - 32) as u8;
        let r = b as char;
        assert(r as u32 == b as u32);
        r
    } else {
        c
    }
}

/// Appends one character to a `String`.
/// Trusted: calls `String::push`, which std documents as appending the given
/// char to the end of the string.
#[verifier::external_body]
pub(crate) fn push_char(s: &mut String, c: char)
    ensures
        final(s)@ == old(s)@.push(c),
{
    s.push(c);
}

/// The characters of `s`, in order.
pub fn chars_of(s: &str) -> (v: Vec<char>)
    ensures
        v@ == s@,
{
    let mut v: Vec<char> = Vec::new();
    for c in it: s.chars()
        invariant
            v@ == it.seq().take(it.index() as int),
    {
        v.push(c);
    }
    v
}


/// The characters `str::trim_matches` strips: Unicode whitespace for `trim`,
/// or `'_'` for `trim_matches('_')`.
pub open spec fn is_trim_char(c: char, underscores: bool) -> bool {
    if underscores {
        c == '_'
    } else {
        is_unicode_whitespace(c)
    }
}

/// `s` without its longest prefix of trim characters.
pub open spec fn strip_front(s: Seq<char>, underscores: bool) -> Seq<char>
    decreases s.len(),
{
    if s.len() > 0 && is_trim_char(s[0], underscores) {
        strip_front(s.drop_first(), underscores)
    } else {
        s
    }
}

/// `s` without its longest suffix of trim characters.
pub open spec fn strip_back(s: Seq<char>, underscores: bool) -> Seq<char>
    decreases s.len(),
{
    if s.len() > 0 && is_trim_char(s.last(), underscores) {
        strip_back(s.drop_last(), underscores)
    } else {
        s
    }
}

/// `str::trim` (whitespace) or `str::trim_matches('_')` (underscores).
pub open spec fn trim_matching(s: Seq<char>, underscores: bool) -> Seq<char> {
    strip_back(strip_front(s, underscores), underscores)
}

fn is_trim(c: char, underscores: bool) -> (b: bool)
    ensures
        b == is_trim_char(c, underscores),
{
    if underscores {
        c == '_'
    } else {
        is_whitespace(c)
    }
}

/// The bounds of `v[lo..hi]` once trimmed.
pub fn trim_bounds(v: &Vec<char>, lo: usize, hi: usize, underscores: bool) -> (r: (usize, usize))
    requires
        lo <= hi <= v.len(),
    ensures
        lo <= r.0 <= r.1 <= hi,
        v@.subrange(r.0 as int, r.1 as int) == trim_matching(v@.subrange(lo as int, hi as int), underscores),
{
    let ghost s = v@.subrange(lo as int, hi as int);
    let mut a = lo;
    while a < hi && is_trim(v[a], underscores)
        invariant
            lo <= a <= hi <= v.len(),
            s == v@.subrange(lo as int, hi as int),
            strip_front(s, underscores) == strip_front(v@.subrange(a as int, hi as int), underscores),
        decreases hi - a,
    {
        assert(v@.subrange(a as int, hi as int).drop_first() =~= v@.subrange(a + 1, hi as int));
        a = a + 1;
    }
    assert(strip_front(s, underscores) == v@.subrange(a as int, hi as int));
    let ghost f = v@.subrange(a as int, hi as int);
    let mut b = hi;
    while b > a && is_trim(v[b - 1], underscores)
        invariant
            lo <= a <= b <= hi <= v.len(),
            f == v@.subrange(a as int, hi as int),
            strip_back(f, underscores) == strip_back(v@.subrange(a as int, b as int), underscores),
        decreases b - a,
    {
        assert(v@.subrange(a as int, b as int).drop_last() =~= v@.subrange(a as int, b - 1));
        b = b - 1;
    }
    (a, b)
}

/// A new `String` holding `v[lo..hi]`.
pub fn string_of(v: &Vec<char>, lo: usize, hi: usize) -> (r: String)
    requires
        lo <= hi <= v.len(),
    ensures
        r@ == v@.subrange(lo as int, hi as int),
{
    let mut r = String::new();
    let mut i = lo;
    while i < hi
        invariant
            lo <= i <= hi <= v.len(),
            r@ == v@.subrange(lo as int, i as int),
        decreases hi - i,
    {
        push_char(&mut r, v[i]);
        assert(v@.subrange(lo as int, i + 1) =~= v@.subrange(lo as int, i as int).push(v@[i as int]));
        i = i + 1;
    }
    r
}

/// Whether two strings hold the same characters.
pub fn str_eq(a: &str, b: &str) -> (r: bool)
    ensures
        r == (a@ == b@),
{
    let x = chars_of(a);
    let y = chars_of(b);
    if x.len() != y.len() {
        return false;
    }
    let mut i: usize = 0;
    while i < x.len()
        invariant
            x@ == a@,
            y@ == b@,
            x.len() == y.len(),
            i <= x.len(),
            forall|j: int| 0 <= j < i ==> x@[j] == y@[j],
        decreases x.len() - i,
    {
        if x[i] != y[i] {
            return false;
        }
        i = i + 1;
    }
    assert(x@ =~= y@);
    true
}


/// `a` sorts strictly before `b` in the order of `Ord for str`: character by
/// character by code point (UTF-8 byte order is code point order), a proper
/// prefix first.
pub open spec fn lex_lt(a: Seq<char>, b: Seq<char>) -> bool
    decreases a.len(),
{
    if b.len() == 0 {
        false
    } else if a.len() == 0 {
        true
    } else if a[0] != b[0] {
        (a[0] as u32) < (b[0] as u32)
    } else {
        lex_lt(a.drop_first(), b.drop_first())
    }
}

pub proof fn lemma_lex_irreflexive(a: Seq<char>)
    ensures
        !lex_lt(a, a),
    decreases a.len(),
{
    if a.len() > 0 {
        lemma_lex_irreflexive(a.drop_first());
    }
}

pub proof fn lemma_lex_asymmetric(a: Seq<char>, b: Seq<char>)
    ensures
        lex_lt(a, b) ==> !lex_lt(b, a),
    decreases a.len(),
{
    if a.len() > 0 && b.len() > 0 && a[0] == b[0] {
        lemma_lex_asymmetric(a.drop_first(), b.drop_first());
    }
}

pub proof fn lemma_lex_total(a: Seq<char>, b: Seq<char>)
    ensures
        a != b ==> lex_lt(a, b) || lex_lt(b, a),
    decreases a.len(),
{
    if a.len() > 0 && b.len() > 0 {
        if a[0] == b[0] {
            lemma_lex_total(a.drop_first(), b.drop_first());
            if a.drop_first() == b.drop_first() {
                assert(a =~= seq![a[0]] + a.drop_first());
                assert(b =~= seq![b[0]] + b.drop_first());
            }
        } else {
            vstd::utf8::char_u32_cast(a[0], a[0] as u32);
            vstd::utf8::char_u32_cast(b[0], b[0] as u32);
        }
    } else if a.len() == 0 && b.len() == 0 {
        assert(a =~= b);
    }
}

pub proof fn lemma_lex_transitive(a: Seq<char>, b: Seq<char>, c: Seq<char>)
    ensures
        lex_lt(a, b) && lex_lt(b, c) ==> lex_lt(a, c),
    decreases a.len(),
{
    if a.len() > 0 && b.len() > 0 && c.len() > 0 && a[0] == b[0] && b[0] == c[0] {
        lemma_lex_transitive(a.drop_first(), b.drop_first(), c.drop_first());
    }
}

/// The result of comparing two strings.
#[derive(Clone, Copy, Debug, PartialEq, Eq)]
pub enum Order {
    Less,
    Equal,
    Greater,
}

/// Compares `a` and `b` in the order of `Ord for str`.
pub fn compare_chars(a: &Vec<char>, b: &Vec<char>) -> (r: Order)
    ensures
        r == Order::Less <==> lex_lt(a@, b@),
        r == Order::Equal <==> a@ == b@,
        r == Order::Greater <==> lex_lt(b@, a@),
{
    let mut i: usize = 0;
    assert(a@.skip(0) =~= a@);
    assert(b@.skip(0) =~= b@);
    while i < a.len() && i < b.len() && a[i] == b[i]
        invariant
            i <= a.len(),
            i <= b.len(),
            a@.take(i as int) == b@.take(i as int),
            lex_lt(a@, b@) == lex_lt(a@.skip(i as int), b@.skip(i as int)),
            lex_lt(b@, a@) == lex_lt(b@.skip(i as int), a@.skip(i as int)),
        decreases a.len() - i,
    {
        assert(a@.skip(i as int).drop_first() =~= a@.skip(i + 1));
        assert(b@.skip(i as int).drop_first() =~= b@.skip(i + 1));
        assert(a@.take(i + 1) =~= a@.take(i as int).push(a@[i as int]));
        assert(b@.take(i + 1) =~= b@.take(i as int).push(b@[i as int]));
        i = i + 1;
    }
    proof {
        lemma_lex_irreflexive(a@);
        lemma_lex_asymmetric(a@, b@);
        lemma_lex_total(a@, b@);
    }
    if i < a.len() && i < b.len() {
        assert(a@.skip(i as int)[0] == a@[i as int]);
        assert(b@.skip(i as int)[0] == b@[i as int]);
        assert(a@[i as int] != b@[i as int]);
        let x = a[i];
        let y = b[i];
        proof {
            vstd::utf8::char_u32_cast(x, x as u32);
            vstd::utf8::char_u32_cast(y, y as u32);
        }
        if (x as u32) < (y as u32) {
            Order::Less
        } else {
            Order::Greater
        }
    } else if i == a.len() && i == b.len() {
        assert(a@ =~= a@.take(i as int));
        assert(b@ =~= b@.take(i as int));
        Order::Equal
    } else if i == a.len() {
        assert(a@.skip(i as int).len() == 0);
        Order::Less
    } else {
        assert(b@.skip(i as int).len() == 0);
        Order::Greater
    }
}


/// `strip_front` drops exactly the leading run of trim characters.
pub proof fn lemma_strip_front(s: Seq<char>, underscores: bool) -> (a: int)
    ensures
        0 <= a <= s.len(),
        strip_front(s, underscores) == s.skip(a),
        forall|k: int| 0 <= k < a ==> is_trim_char(#[trigger] s[k], underscores),
        a < s.len() ==> !is_trim_char(s[a], underscores),
    decreases s.len(),
{
    if s.len() > 0 && is_trim_char(s[0], underscores) {
        let a1 = lemma_strip_front(s.drop_first(), underscores);
        assert(s.drop_first().skip(a1) =~= s.skip(a1 + 1));
        assert forall|k: int| 0 <= k < a1 + 1 implies is_trim_char(#[trigger] s[k], underscores) by {
            if k > 0 {
                assert(s[k] == s.drop_first()[k - 1]);
            }
        }
        if a1 + 1 < s.len() {
            assert(s[a1 + 1] == s.drop_first()[a1]);
        }
        a1 + 1
    } else {
        assert(s.skip(0) =~= s);
        0
    }
}

/// `strip_back` drops exactly the trailing run of trim characters.
pub proof fn lemma_strip_back(s: Seq<char>, underscores: bool) -> (b: int)
    ensures
        0 <= b <= s.len(),
        strip_back(s, underscores) == s.take(b),
        forall|k: int| b <= k < s.len() ==> is_trim_char(#[trigger] s[k], underscores),
        b > 0 ==> !is_trim_char(s[b - 1], underscores),
    decreases s.len(),
{
    if s.len() > 0 && is_trim_char(s.last(), underscores) {
        let b1 = lemma_strip_back(s.drop_last(), underscores);
        assert(s.drop_last().take(b1) =~= s.take(b1));
        assert forall|k: int| b1 <= k < s.len() implies is_trim_char(#[trigger] s[k], underscores) by {
            if k < s.len() - 1 {
                assert(s[k] == s.drop_last()[k]);
            }
        }
        if b1 > 0 {
            assert(s[b1 - 1] == s.drop_last()[b1 - 1]);
        }
        b1
    } else {
        assert(s.take(s.len() as int) =~= s);
        s.len() as int
    }
}

/// A trimmed string is a slice of the original whose ends, if any, are not
/// trim characters; every character cut off is one.
pub proof fn lemma_trim_bounds(s: Seq<char>, underscores: bool) -> (r: (int, int))
    ensures
        0 <= r.0 <= r.1 <= s.len(),
        trim_matching(s, underscores) == s.subrange(r.0, r.1),
        forall|k: int| (0 <= k < r.0 || r.1 <= k < s.len()) ==> is_trim_char(#[trigger] s[k], underscores),
        r.0 < r.1 ==> !is_trim_char(s[r.0], underscores) && !is_trim_char(s[r.1 - 1], underscores),
{
    let a = lemma_strip_front(s, underscores);
    let f = s.skip(a);
    let b = lemma_strip_back(f, underscores);
    assert(f.take(b) =~= s.subrange(a, a + b));
    assert forall|k: int| (0 <= k < a || a + b <= k < s.len()) implies is_trim_char(#[trigger] s[k], underscores) by {
        if k >= a + b {
            assert(s[k] == f[k - a]);
        }
    }
    if b > 0 {
        assert(f[b - 1] == s[a + b - 1]);
    }
    (a, a + b)
}

} // verus!
