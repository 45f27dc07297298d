//! Character-level helpers: prefixes, equality, Unicode white space,
//! decimal numerals, and building strings one character at a time.

use vstd::prelude::*;

verus! {

/// `p` is a prefix of `s`.
pub open spec fn is_prefix(p: Seq<char>, s: Seq<char>) -> bool {
    p.len() <= s.len() && s.subrange(0, p.len() as int) == p
}

/// Does `s` start with `p`?
pub fn starts_with(s: &str, p: &str) -> (r: bool)
    ensures
        r == is_prefix(p@, s@),
{
    let n = s.unicode_len();
    let m = p.unicode_len();
    if m > n {
        return false;
    }
    let mut i: usize = 0;
    while i < m
        invariant
            n == s@.len(),
            m == p@.len(),
            m <= n,
            i <= m,
            forall|j: int| 0 <= j < i ==> s@[j] == p@[j],
        decreases m - i,
    {
        if s.get_char(i) != p.get_char(i) {
            assert(s@.subrange(0, m as int)[i as int] != p@[i as int]);
            return false;
        }
        i = i + 1;
    }
    assert(s@.subrange(0, m as int) =~= p@);
    true
}

/// Are the two strings the same characters?
pub fn same(s: &str, p: &str) -> (r: bool)
    ensures
        r == (s@ == p@),
{
    if s.unicode_len() != p.unicode_len() {
        return false;
    }
    let r = starts_with(s, p);
    proof {
        if s@ == p@ {
            assert(s@.subrange(0, p@.len() as int) =~= s@);
        }
        if r {
            assert(s@ =~= s@.subrange(0, p@.len() as int));
        }
    }
    r
}

/// The characters that carry Unicode's `White_Space` property, the set
/// that `char::is_whitespace`, `str::trim` and `str::split_whitespace` use.
pub open spec fn is_space(c: char) -> bool {
    let u = c as u32;
    ||| 0x09 <= u <= 0x0d
    ||| u == 0x20
    ||| u == 0x85
    ||| u == 0xa0
    ||| u == 0x1680
    ||| 0x2000 <= u <= 0x200a
    ||| u == 0x2028
    ||| u == 0x2029
    ||| u == 0x202f
    ||| u == 0x205f
    ||| u == 0x3000
}

/// Is `c` white space?
pub fn space(c: char) -> (r: bool)
    ensures
        r == is_space(c),
{
    let u = c as u32;
    (0x09 <= u && u <= 0x0d) || u == 0x20 || u == 0x85 || u == 0xa0 || u == 0x1680 || (0x2000
        <= u && u <= 0x200a) || u == 0x2028 || u == 0x2029 || u == 0x202f || u == 0x205f || u
        == 0x3000
}

/// An ASCII digit, `0` to `9`.
pub open spec fn is_digit(c: char) -> bool {
    '0' <= c <= '9'
}

/// An ASCII letter.
pub open spec fn is_letter(c: char) -> bool {
    ('a' <= c <= 'z') || ('A' <= c <= 'Z')
}

/// The value of a digit.
pub open spec fn digit_value(c: char) -> int {
    (c as int) - ('0' as int)
}

/// The digit for a value below ten.
pub open spec fn digit_char(d: int) -> char {
    (d + ('0' as int)) as char
}

/// The decimal numeral of `n`, with no leading zeros ("0" for zero).
pub open spec fn decimal(n: nat) -> Seq<char>
    decreases n,
{
    if n < 10 {
        seq![digit_char(n as int)]
    } else {
        decimal(n / 10).push(digit_char((n % 10) as int))
    }
}

/// Ten to the power `k`.
pub open spec fn pow10(k: nat) -> nat
    decreases k,
{
    if k == 0 {
        1
    } else {
        10 * pow10((k - 1) as nat)
    }
}

/// A number below 10^k has at most k digits.
pub proof fn lemma_decimal_len(n: nat, k: nat)
    requires
        k >= 1,
        n < pow10(k),
    ensures
        decimal(n).len() <= k,
    decreases k,
{
    if n >= 10 {
        assert(k >= 2) by {
            if k == 1 {
                reveal_with_fuel(pow10, 2);
            }
        }
        assert(n / 10 < pow10((k - 1) as nat));
        lemma_decimal_len(n / 10, (k - 1) as nat);
    }
}

/// The value of a string of digits, read in base ten.
pub open spec fn value_of(s: Seq<char>) -> nat
    decreases s.len(),
{
    if s.len() == 0 {
        0
    } else {
        (value_of(s.drop_last()) * 10 + digit_value(s.last())) as nat
    }
}

/// Appends one character.
#[verifier::external_body]
pub(crate) fn push_char(s: &mut String, c: char)
    ensures
        final(s)@ == old(s)@.push(c),
{
    s.push(c);
}

/// Appends the decimal numeral of `n`.
pub fn push_decimal(s: &mut String, n: u64)
    ensures
        final(s)@ == old(s)@ + decimal(n as nat),
    decreases n,
{
    if n >= 10 {
        push_decimal(s, n / 10);
    }
    let d = (n % 10) as u8;
    let c = (0x30u8 + d) as char;
    push_char(s, c);
    proof {
        if n >= 10 {
            assert(old(s)@ + decimal(n as nat) =~= old(s)@ + decimal((n / 10) as nat) + seq![
                digit_char((n % 10) as int),
            ]);
        }
    }
}

/// `s` without its leading white space.
pub open spec fn trim_start(s: Seq<char>) -> Seq<char>
    decreases s.len(),
{
    if s.len() > 0 && is_space(s[0]) {
        trim_start(s.drop_first())
    } else {
        s
    }
}

/// `s` without its trailing white space.
pub open spec fn trim_end(s: Seq<char>) -> Seq<char>
    decreases s.len(),
{
    if s.len() > 0 && is_space(s.last()) {
        trim_end(s.drop_last())
    } else {
        s
    }
}

/// `s` without white space at either end, as `str::trim` gives it.
pub open spec fn trimmed(s: Seq<char>) -> Seq<char> {
    trim_end(trim_start(s))
}

/// `s` without white space at either end.
pub fn trim(s: &str) -> (r: String)
    ensures
        r@ == trimmed(s@),
{
    let len = s.unicode_len();
    let mut i: usize = 0;
    assert(s@.skip(0) =~= s@);
    while i < len && space(s.get_char(i))
        invariant
            len == s@.len(),
            i <= len,
            trim_start(s@) == trim_start(s@.skip(i as int)),
        decreases len - i,
    {
        assert(s@.skip(i as int).drop_first() =~= s@.skip(i + 1));
        i = i + 1;
    }
    let ghost front = s@.skip(i as int);
    assert(trim_start(front) == front);
    let mut j: usize = len;
    while j > i && space(s.get_char(j - 1))
        invariant
            len == s@.len(),
            i <= j <= len,
            front == s@.skip(i as int),
            trim_end(front) == trim_end(s@.subrange(i as int, j as int)),
        decreases j,
    {
        assert(s@.subrange(i as int, j as int).drop_last() =~= s@.subrange(i as int, j - 1));
        j = j - 1;
    }
    assert(front =~= s@.subrange(i as int, len as int));
    let ghost mid = s@.subrange(i as int, j as int);
    assert(trim_end(mid) == mid);
    let mut r = String::new();
    let mut k: usize = i;
    while k < j
        invariant
            len == s@.len(),
            i <= k <= j <= len,
            r@ =~= s@.subrange(i as int, k as int),
        decreases j - k,
    {
        push_char(&mut r, s.get_char(k));
        k = k + 1;
    }
    r
}

/// Which characters [`keep`] keeps.
#[derive(Clone, Copy, PartialEq, Eq, Structural, Debug)]
pub enum Keep {
    /// All but `-`, ` ` and `_`, the separators a person types in a name.
    Unseparated,
    /// ASCII digits.
    Digits,
    /// ASCII letters.
    Letters,
}

/// Does `which` keep `c`?
pub open spec fn keeps(which: Keep, c: char) -> bool {
    match which {
        Keep::Unseparated => !(c == '-' || c == ' ' || c == '_'),
        Keep::Digits => is_digit(c),
        Keep::Letters => is_letter(c),
    }
}

/// The characters of `s` that `which` keeps, in order.
pub open spec fn kept(s: Seq<char>, which: Keep) -> Seq<char>
    decreases s.len(),
{
    if s.len() == 0 {
        s
    } else if keeps(which, s.last()) {
        kept(s.drop_last(), which).push(s.last())
    } else {
        kept(s.drop_last(), which)
    }
}

/// The characters of `s` that `which` keeps, in order.
pub fn keep(s: &str, which: Keep) -> (r: String)
    ensures
        r@ == kept(s@, which),
{
    let len = s.unicode_len();
    let mut r = String::new();
    let mut k: usize = 0;
    while k < len
        invariant
            len == s@.len(),
            k <= len,
            r@ == kept(s@.take(k as int), which),
        decreases len - k,
    {
        let c = s.get_char(k);
        assert(s@.take(k + 1).drop_last() =~= s@.take(k as int));
        let yes = match which {
            Keep::Unseparated => !(c == '-' || c == ' ' || c == '_'),
            Keep::Digits => '0' <= c && c <= '9',
            Keep::Letters => ('a' <= c && c <= 'z') || ('A' <= c && c <= 'Z'),
        };
        if yes {
            push_char(&mut r, c);
        }
        k = k + 1;
    }
    assert(s@.take(len as int) =~= s@);
    r
}

/// Everything `kept` keeps passes its test.
pub proof fn lemma_kept(s: Seq<char>, which: Keep)
    ensures
        forall|j: int| 0 <= j < kept(s, which).len() ==> keeps(which, #[trigger] kept(s, which)[j]),
        kept(s, which).len() <= s.len(),
    decreases s.len(),
{
    if s.len() > 0 {
        lemma_kept(s.drop_last(), which);
    }
}

/// The value of a non-empty string of ASCII digits, when it fits a `u32`:
/// what `str::parse::<u32>` gives for such a string.
pub fn parse_digits(s: &str) -> (r: Option<u32>)
    requires
        s@.len() > 0,
        forall|j: int| 0 <= j < s@.len() ==> is_digit(#[trigger] s@[j]),
    ensures
        r matches Some(v) ==> v == value_of(s@),
        r is None <==> value_of(s@) > u32::MAX,
{
    let len = s.unicode_len();
    let mut v: u32 = 0;
    let mut k: usize = 0;
    while k < len
        invariant
            len == s@.len(),
            k <= len,
            forall|j: int| 0 <= j < s@.len() ==> is_digit(#[trigger] s@[j]),
            v == value_of(s@.take(k as int)),
        decreases len - k,
    {
        let c = s.get_char(k);
        assert(s@.take(k + 1).drop_last() =~= s@.take(k as int));
        let d = (c as u32) - ('0' as u32);
        if v > (u32::MAX - d) / 10 {
            proof {
                lemma_value_grows(s@, k as int + 1);
            }
            return None;
        }
        v = v * 10 + d;
        k = k + 1;
    }
    assert(s@.take(len as int) =~= s@);
    Some(v)
}

/// A longer prefix of digits has at least the value of a shorter one.
proof fn lemma_value_grows(s: Seq<char>, k: int)
    requires
        0 <= k <= s.len(),
        forall|j: int| 0 <= j < s.len() ==> is_digit(#[trigger] s[j]),
    ensures
        value_of(s.take(k)) <= value_of(s),
    decreases s.len() - k,
{
    if k < s.len() {
        lemma_value_grows(s, k + 1);
        assert(s.take(k + 1).drop_last() =~= s.take(k));
    } else {
        assert(s.take(k) =~= s);
    }
}

/// What `str::to_lowercase` gives for a string: each character's Unicode
/// lowercase mapping, with the final-sigma rule.
pub uninterp spec fn lowercase(s: Seq<char>) -> Seq<char>;

/// The lowercase form of `s`, by `str::to_lowercase`. Its documentation
/// defines lower case by Unicode's lowercase mapping; of that mapping only
/// the ASCII part is stated here (the capitals `A` to `Z` become `a` to
/// `z`, every other ASCII character stays), and the rest is only named.
#[verifier::external_body]
pub(crate) fn to_lower(s: &str) -> (r: String)
    ensures
        r@ == lowercase(s@),
        is_ascii(s@) ==> r@ == ascii_lower(s@),
{
    s.to_lowercase()
}

/// Every character of `s` is ASCII.
pub open spec fn is_ascii(s: Seq<char>) -> bool {
    forall|i: int| 0 <= i < s.len() ==> (#[trigger] s[i] as u32) < 128
}

/// One character in ASCII lower case: `A` to `Z` become `a` to `z`, every
/// other character stays.
pub open spec fn ascii_lower_char(c: char) -> char {
    if 'A' <= c <= 'Z' {
        ((c as u32) + 32) as char
    } else {
        c
    }
}

/// `s` in ASCII lower case.
pub open spec fn ascii_lower(s: Seq<char>) -> Seq<char> {
    Seq::new(s.len(), |i: int| ascii_lower_char(s[i]))
}

/// White space is neither a letter nor a digit, nor is a separator.
pub proof fn lemma_space_kept(c: char)
    ensures
        is_space(c) || !keeps(Keep::Unseparated, c) ==> !keeps(Keep::Letters, c) && !keeps(
            Keep::Digits,
            c,
        ),
        keeps(Keep::Letters, ascii_lower_char(c)) == keeps(Keep::Letters, c),
        keeps(Keep::Digits, c) ==> ascii_lower_char(c) == c,
        keeps(Keep::Digits, ascii_lower_char(c)) == keeps(Keep::Digits, c),
        ascii_lower_char(ascii_lower_char(c)) == ascii_lower_char(c),
{
}

/// `kept` of a concatenation is the concatenation of `kept`.
pub proof fn lemma_kept_add(a: Seq<char>, b: Seq<char>, which: Keep)
    ensures
        kept(a + b, which) == kept(a, which) + kept(b, which),
    decreases b.len(),
{
    if b.len() == 0 {
        assert(a + b =~= a);
        assert(kept(a, which) + kept(b, which) =~= kept(a, which));
    } else {
        lemma_kept_add(a, b.drop_last(), which);
        assert((a + b).drop_last() =~= a + b.drop_last());
        assert((a + b).last() == b.last());
        if keeps(which, b.last()) {
            assert(kept(a, which) + kept(b, which) =~= (kept(a, which) + kept(b.drop_last(), which)).push(
                b.last(),
            ));
        }
    }
}

/// A string none of whose characters `which` keeps keeps nothing.
pub proof fn lemma_kept_none(s: Seq<char>, which: Keep)
    requires
        forall|i: int| 0 <= i < s.len() ==> !keeps(which, #[trigger] s[i]),
    ensures
        kept(s, which) == Seq::<char>::empty(),
    decreases s.len(),
{
    if s.len() > 0 {
        lemma_kept_none(s.drop_last(), which);
    }
}

/// Letters and digits read the same in ASCII lower case, but for the case
/// of the letters.
pub proof fn lemma_kept_lower(s: Seq<char>)
    ensures
        kept(ascii_lower(s), Keep::Letters) == ascii_lower(kept(s, Keep::Letters)),
        kept(ascii_lower(s), Keep::Digits) == kept(s, Keep::Digits),
        ascii_lower(ascii_lower(s)) == ascii_lower(s),
    decreases s.len(),
{
    assert(ascii_lower(ascii_lower(s)) =~= ascii_lower(s)) by {
        assert forall|i: int| 0 <= i < s.len() implies ascii_lower(ascii_lower(s))[i] == ascii_lower(
            s,
        )[i] by {
            lemma_space_kept(s[i]);
        }
    }
    if s.len() > 0 {
        lemma_kept_lower(s.drop_last());
        let c = s.last();
        lemma_space_kept(c);
        assert(ascii_lower(s).drop_last() =~= ascii_lower(s.drop_last()));
        assert(ascii_lower(s).last() == ascii_lower_char(c));
        if keeps(Keep::Letters, c) {
            assert(ascii_lower(kept(s, Keep::Letters)) =~= ascii_lower(
                kept(s.drop_last(), Keep::Letters),
            ).push(ascii_lower_char(c)));
        }
    } else {
        assert(ascii_lower(s) =~= s);
        assert(ascii_lower(kept(s, Keep::Letters)) =~= kept(s, Keep::Letters));
    }
}

/// Dropping the separators first changes no letter and no digit.
pub proof fn lemma_kept_unseparated(s: Seq<char>)
    ensures
        kept(kept(s, Keep::Unseparated), Keep::Letters) == kept(s, Keep::Letters),
        kept(kept(s, Keep::Unseparated), Keep::Digits) == kept(s, Keep::Digits),
    decreases s.len(),
{
    if s.len() > 0 {
        lemma_kept_unseparated(s.drop_last());
        let c = s.last();
        lemma_space_kept(c);
        if keeps(Keep::Unseparated, c) {
            let u = kept(s.drop_last(), Keep::Unseparated);
            assert(u.push(c).drop_last() =~= u);
            assert(u.push(c).last() == c);
        }
    }
}

/// Trimming white space changes no letter and no digit.
pub proof fn lemma_kept_trimmed(s: Seq<char>)
    ensures
        kept(trimmed(s), Keep::Letters) == kept(s, Keep::Letters),
        kept(trimmed(s), Keep::Digits) == kept(s, Keep::Digits),
{
    lemma_kept_trim_start(s);
    lemma_kept_trim_end(trim_start(s));
}

proof fn lemma_kept_trim_start(s: Seq<char>)
    ensures
        kept(trim_start(s), Keep::Letters) == kept(s, Keep::Letters),
        kept(trim_start(s), Keep::Digits) == kept(s, Keep::Digits),
    decreases s.len(),
{
    if s.len() > 0 && is_space(s[0]) {
        lemma_kept_trim_start(s.drop_first());
        lemma_space_kept(s[0]);
        assert(s =~= seq![s[0]] + s.drop_first());
        lemma_kept_add(seq![s[0]], s.drop_first(), Keep::Letters);
        lemma_kept_add(seq![s[0]], s.drop_first(), Keep::Digits);
        lemma_kept_none(seq![s[0]], Keep::Letters);
        lemma_kept_none(seq![s[0]], Keep::Digits);
        assert(Seq::<char>::empty() + kept(s.drop_first(), Keep::Letters) =~= kept(
            s.drop_first(),
            Keep::Letters,
        ));
        assert(Seq::<char>::empty() + kept(s.drop_first(), Keep::Digits) =~= kept(
            s.drop_first(),
            Keep::Digits,
        ));
    }
}

proof fn lemma_kept_trim_end(s: Seq<char>)
    ensures
        kept(trim_end(s), Keep::Letters) == kept(s, Keep::Letters),
        kept(trim_end(s), Keep::Digits) == kept(s, Keep::Digits),
    decreases s.len(),
{
    if s.len() > 0 && is_space(s.last()) {
        lemma_kept_trim_end(s.drop_last());
        lemma_space_kept(s.last());
    }
}

/// What is kept of an ASCII string, and what is left of it trimmed, is ASCII.
pub proof fn lemma_ascii_kept(s: Seq<char>, which: Keep)
    requires
        is_ascii(s),
    ensures
        is_ascii(kept(s, which)),
        is_ascii(trimmed(s)),
    decreases s.len(),
{
    lemma_ascii_trim_start(s);
    lemma_ascii_trim_end(trim_start(s));
    if s.len() > 0 {
        assert(is_ascii(s.drop_last())) by {
            assert forall|i: int| 0 <= i < s.drop_last().len() implies (#[trigger] s.drop_last()[i]
                as u32) < 128 by {
                assert(s.drop_last()[i] == s[i]);
            }
        }
        lemma_ascii_kept(s.drop_last(), which);
        assert(s[s.len() - 1] == s.last());
    }
}

proof fn lemma_ascii_trim_start(s: Seq<char>)
    requires
        is_ascii(s),
    ensures
        is_ascii(trim_start(s)),
    decreases s.len(),
{
    if s.len() > 0 && is_space(s[0]) {
        assert(is_ascii(s.drop_first())) by {
            assert forall|i: int| 0 <= i < s.drop_first().len() implies (#[trigger] s.drop_first()[i]
                as u32) < 128 by {
                assert(s.drop_first()[i] == s[i + 1]);
            }
        }
        lemma_ascii_trim_start(s.drop_first());
    }
}

proof fn lemma_ascii_trim_end(s: Seq<char>)
    requires
        is_ascii(s),
    ensures
        is_ascii(trim_end(s)),
    decreases s.len(),
{
    if s.len() > 0 && is_space(s.last()) {
        assert(is_ascii(s.drop_last())) by {
            assert forall|i: int| 0 <= i < s.drop_last().len() implies (#[trigger] s.drop_last()[i]
                as u32) < 128 by {
                assert(s.drop_last()[i] == s[i]);
            }
        }
        lemma_ascii_trim_end(s.drop_last());
    }
}

/// All of `s` are ASCII digits.
pub open spec fn all_digits(s: Seq<char>) -> bool {
    forall|j: int| 0 <= j < s.len() ==> is_digit(#[trigger] s[j])
}

/// What `str::parse::<u32>` reads from `s`: an optional `+`, then one or
/// more ASCII digits whose value fits a `u32`.
pub open spec fn u32_of(s: Seq<char>) -> Option<u32> {
    let body = if s.len() > 0 && s[0] == '+' {
        s.drop_first()
    } else {
        s
    };
    if body.len() == 0 || !all_digits(body) || value_of(body) > u32::MAX {
        None
    } else {
        Some(value_of(body) as u32)
    }
}

/// Reads a `u32` the way `str::parse::<u32>` does.
pub fn parse_u32(s: &str) -> (r: Option<u32>)
    ensures
        r == u32_of(s@),
{
    let len = s.unicode_len();
    let start: usize = if len > 0 && s.get_char(0) == '+' {
        1
    } else {
        0
    };
    let ghost body = if s@.len() > 0 && s@[0] == '+' {
        s@.drop_first()
    } else {
        s@
    };
    assert(body =~= s@.skip(start as int));
    if start == len {
        return None;
    }
    let mut v: u32 = 0;
    let mut k: usize = start;
    while k < len
        invariant
            len == s@.len(),
            start <= k <= len,
            body == s@.skip(start as int),
            body == if s@.len() > 0 && s@[0] == '+' {
                s@.drop_first()
            } else {
                s@
            },
            all_digits(s@.subrange(start as int, k as int)),
            v == value_of(s@.subrange(start as int, k as int)),
        decreases len - k,
    {
        let c = s.get_char(k);
        assert(s@.subrange(start as int, k + 1).drop_last() =~= s@.subrange(start as int, k as int));
        if !('0' <= c && c <= '9') {
            assert(body[k - start] == c);
            return None;
        }
        let d = (c as u32) - ('0' as u32);
        if v > (u32::MAX - d) / 10 {
            proof {
                let b2 = s@.subrange(start as int, k + 1);
                assert(all_digits(b2));
                if all_digits(body) {
                    assert(body.take(k + 1 - start) =~= b2);
                    lemma_value_grows(body, k + 1 - start);
                }
            }
            return None;
        }
        v = v * 10 + d;
        k = k + 1;
    }
    assert(s@.subrange(start as int, len as int) =~= body);
    Some(v)
}

/// The pieces of `parts` with `sep` between them.
pub open spec fn joined(parts: Seq<Seq<char>>, sep: Seq<char>) -> Seq<char>
    decreases parts.len(),
{
    if parts.len() == 0 {
        seq![]
    } else if parts.len() == 1 {
        parts[0]
    } else {
        joined(parts.drop_last(), sep) + sep + parts.last()
    }
}

/// How `joined` ends: with its last piece, or, when that is empty and
/// there are others before it, with the separator.
pub proof fn lemma_joined_end(parts: Seq<Seq<char>>, sep: Seq<char>)
    requires
        parts.len() > 0,
    ensures
        parts.len() == 1 ==> joined(parts, sep) == parts[0],
        parts.last().len() > 0 ==> joined(parts, sep).len() > 0 && joined(parts, sep).last()
            == parts.last().last(),
        parts.len() > 1 && parts.last().len() == 0 && sep.len() > 0 ==> joined(parts, sep).len() > 0
            && joined(parts, sep).last() == sep.last(),
{
    if parts.len() > 1 {
        let j = joined(parts.drop_last(), sep) + sep;
        assert(joined(parts, sep) == j + parts.last());
        if parts.last().len() == 0 {
            assert(j + parts.last() =~= j);
        }
    }
}

/// `s` without the copies of `c` at its end.
pub open spec fn strip_end(s: Seq<char>, c: char) -> Seq<char>
    decreases s.len(),
{
    if s.len() > 0 && s.last() == c {
        strip_end(s.drop_last(), c)
    } else {
        s
    }
}

/// `s` without the copies of `c` at its end, as `str::trim_end_matches`
/// gives it for a character.
pub fn strip_end_char(s: &str, c: char) -> (r: String)
    ensures
        r@ == strip_end(s@, c),
{
    let len = s.unicode_len();
    let mut j: usize = len;
    assert(s@.subrange(0, len as int) =~= s@);
    while j > 0 && s.get_char(j - 1) == c
        invariant
            len == s@.len(),
            j <= len,
            strip_end(s@, c) == strip_end(s@.subrange(0, j as int), c),
        decreases j,
    {
        assert(s@.subrange(0, j as int).drop_last() =~= s@.subrange(0, j - 1));
        j = j - 1;
    }
    let mut r = String::new();
    let mut k: usize = 0;
    while k < j
        invariant
            j <= len == s@.len(),
            k <= j,
            r@ =~= s@.subrange(0, k as int),
        decreases j - k,
    {
        push_char(&mut r, s.get_char(k));
        k = k + 1;
    }
    r
}

} // verus!
