//! Text normalisation: trimming Unicode whitespace, ASCII upper-casing and
//! Unicode lower-casing, with the calls into `str` that perform the last
//! two.
use vstd::prelude::*;
use vstd::string::*;

verus! {

/// The Unicode `White_Space` characters, which `char::is_whitespace`
/// recognises and `str::trim` removes.
pub open spec fn is_space(c: char) -> bool {
    let x = c as u32;
    ||| 0x09 <= x <= 0x0d
    ||| x == 0x20
    ||| x == 0x85
    ||| x == 0xa0
    ||| x == 0x1680
    ||| 0x2000 <= x <= 0x200a
    ||| x == 0x2028
    ||| x == 0x2029
    ||| x == 0x202f
    ||| x == 0x205f
    ||| x == 0x3000
}

/// `s` without its leading whitespace.
pub open spec fn trim_start(s: Seq<char>) -> Seq<char>
    decreases s.len(),
{
    if s.len() > 0 && is_space(s[0]) {
        trim_start(s.drop_first())
    } else {
        s
    }
}

/// `s` without its trailing whitespace.
pub open spec fn trim_end(s: Seq<char>) -> Seq<char>
    decreases s.len(),
{
    if s.len() > 0 && is_space(s.last()) {
        trim_end(s.drop_last())
    } else {
        s
    }
}

/// `s` without leading and trailing whitespace.
pub open spec fn trimmed(s: Seq<char>) -> Seq<char> {
    trim_end(trim_start(s))
}

/// `'a'..='z'` become `'A'..='Z'`; every other character is unchanged.
pub open spec fn ascii_upper(c: char) -> char {
    if 'a' <= c <= 'z' {
        ((c as u32) - 32) as char
    } else {
        c
    }
}

/// Every character of `s` upper-cased as ASCII.
pub open spec fn upper_all(s: Seq<char>) -> Seq<char> {
    s.map_values(|c: char| ascii_upper(c))
}

/// The canonical form of a user name: trimmed, then ASCII upper-cased.
pub open spec fn canonical(s: Seq<char>) -> Seq<char> {
    upper_all(trimmed(s))
}

/// What `str::to_lowercase` returns for a string: the Unicode lower-case
/// mapping of each character, some of which map to several characters.
pub uninterp spec fn lowercase(s: Seq<char>) -> Seq<char>;

/// Whether `c` is one of the Unicode `White_Space` characters.
pub fn is_space_char(c: char) -> (b: bool)
    ensures
        b == is_space(c),
{
    let x: u32 = c as u32;
    (0x09 <= x && x <= 0x0d) || x == 0x20 || x == 0x85 || x == 0xa0 || x == 0x1680 || (0x2000 <= x && x <= 0x200a)
        || x == 0x2028 || x == 0x2029 || x == 0x202f || x == 0x205f || x == 0x3000
}

/// `s` without leading and trailing whitespace, as `str::trim` gives it:
/// its documentation removes exactly the characters that `is_space` lists.
pub fn trim_str(s: &str) -> (r: &str)
    ensures
        r@ == trimmed(s@),
{
    let n: usize = s.unicode_len();
    let mut i: usize = 0;
    assert(s@.subrange(0, n as int) =~= s@);
    while i < n && is_space_char(s.get_char(i))
        invariant
            n == s@.len(),
            i <= n,
            trim_start(s@) == trim_start(s@.subrange(i as int, n as int)),
        decreases n - i,
    {
        assert(s@.subrange(i as int, n as int).drop_first() =~= s@.subrange(i + 1, n as int));
        i = i + 1;
    }
    let ghost rest = s@.subrange(i as int, n as int);
    assert(trim_start(rest) == rest);
    let mut j: usize = n;
    while j > i && is_space_char(s.get_char(j - 1))
        invariant
            n == s@.len(),
            i <= j <= n,
            rest == s@.subrange(i as int, n as int),
            trim_end(rest) == trim_end(s@.subrange(i as int, j as int)),
        decreases j,
    {
        assert(s@.subrange(i as int, j as int).drop_last() =~= s@.subrange(i as int, j - 1));
        j = j - 1;
    }
    assert(trim_end(s@.subrange(i as int, j as int)) == s@.subrange(i as int, j as int));
    s.substring_char(i, j)
}

/// Calls `str::to_ascii_uppercase`, which maps `'a'..='z'` to `'A'..='Z'`
/// and leaves every other character unchanged.
#[verifier::external_body]
pub(crate) fn ascii_upper_str(s: &str) -> (r: String)
    ensures
        r@ == upper_all(s@),
{
    s.to_ascii_uppercase()
}

/// Calls `str::to_lowercase`; the result is `lowercase` of the argument,
/// which depends on nothing else.
#[verifier::external_body]
pub(crate) fn lower_str(s: &str) -> (r: String)
    ensures
        r@ == lowercase(s@),
{
    s.to_lowercase()
}

proof fn lemma_trim_start_shape(s: Seq<char>)
    ensures
        trim_start(s).len() == 0 || !is_space(trim_start(s)[0]),
    decreases s.len(),
{
    if s.len() > 0 && is_space(s[0]) {
        lemma_trim_start_shape(s.drop_first());
    }
}

proof fn lemma_trim_end_shape(s: Seq<char>)
    ensures
        trim_end(s).len() == 0 || !is_space(trim_end(s).last()),
        trim_end(s).len() <= s.len(),
        trim_end(s) == s.subrange(0, trim_end(s).len() as int),
    decreases s.len(),
{
    if s.len() > 0 && is_space(s.last()) {
        lemma_trim_end_shape(s.drop_last());
    } else {
        assert(s.subrange(0, s.len() as int) =~= s);
    }
}

/// A trimmed string neither starts nor ends with whitespace.
pub proof fn lemma_trimmed_shape(s: Seq<char>)
    ensures
        trimmed(s).len() == 0 || (!is_space(trimmed(s)[0]) && !is_space(trimmed(s).last())),
{
    let a = trim_start(s);
    lemma_trim_start_shape(s);
    lemma_trim_end_shape(a);
    if trimmed(s).len() > 0 {
        assert(trimmed(s)[0] == a[0]);
    }
}

proof fn lemma_upper_char(c: char)
    ensures
        is_space(ascii_upper(c)) == is_space(c),
        ascii_upper(ascii_upper(c)) == ascii_upper(c),
{
}

/// Canonical names are fixed points: normalising twice is normalising once.
pub proof fn lemma_canonical_idempotent(s: Seq<char>)
    ensures
        canonical(canonical(s)) == canonical(s),
{
    let t = trimmed(s);
    let u = canonical(s);
    lemma_trimmed_shape(s);
    if u.len() > 0 {
        lemma_upper_char(t[0]);
        lemma_upper_char(t.last());
        assert(u[0] == ascii_upper(t[0]));
        assert(u.last() == ascii_upper(t.last()));
    }
    assert(trim_start(u) == u);
    assert(trim_end(u) == u);
    assert forall|i: int| 0 <= i < u.len() implies #[trigger] upper_all(u)[i] == u[i] by {
        lemma_upper_char(t[i]);
    }
    assert(upper_all(u) =~= u);
}

} // verus!
