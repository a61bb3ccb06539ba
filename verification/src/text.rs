//! Character-level utilities the codec and the query operations share:
//! decimal digits, lexicographic order, substring search and case folding.

use vstd::prelude::*;

verus! {

/// `c` is one of the ten ASCII decimal digits.
pub open spec fn is_digit(c: char) -> bool {
    48 <= c as u32 <= 57
}

/// Numeric value of a decimal digit character.
pub open spec fn digit_val(c: char) -> int {
    c as u32 - 48
}

/// Every character of `s` is a decimal digit.
pub open spec fn all_digits(s: Seq<char>) -> bool {
    forall|i: int| 0 <= i < s.len() ==> is_digit(#[trigger] s[i])
}

/// Value of a digit string read most-significant first.
pub open spec fn digits_val(s: Seq<char>) -> int
    decreases s.len(),
{
    if s.len() == 0 {
        0
    } else {
        digits_val(s.drop_last()) * 10 + digit_val(s.last())
    }
}

/// The digit character of a value below ten.
pub open spec fn digit_char(d: int) -> char {
    if d == 0 { '0' }
    else if d == 1 { '1' }
    else if d == 2 { '2' }
    else if d == 3 { '3' }
    else if d == 4 { '4' }
    else if d == 5 { '5' }
    else if d == 6 { '6' }
    else if d == 7 { '7' }
    else if d == 8 { '8' }
    else { '9' }
}

/// Canonical decimal rendering of a non-negative number: no sign, no leading
/// zeros (except for the single digit of zero itself).
pub open spec fn u32_digits(n: int) -> Seq<char>
    recommends 0 <= n,
    decreases n,
{
    if n < 10 {
        seq![digit_char(n)]
    } else {
        u32_digits(n / 10).push(digit_char(n % 10))
    }
}

/// The canonical rendering is a non-empty digit string with the rendered
/// value.
pub proof fn lemma_u32_digits_ok(n: int)
    requires
        0 <= n,
    ensures
        all_digits(u32_digits(n)),
        u32_digits(n).len() >= 1,
        digits_val(u32_digits(n)) == n,
    decreases n,
{
    if n < 10 {
        let s = u32_digits(n);
        assert(s =~= seq![digit_char(n)]);
        assert(s.last() == digit_char(n));
        assert(s.drop_last() =~= Seq::<char>::empty());
        assert(digits_val(Seq::<char>::empty()) == 0);
        assert(digits_val(s) == digit_val(digit_char(n)));
    } else {
        lemma_u32_digits_ok(n / 10);
        let s = u32_digits(n / 10);
        let c = digit_char(n % 10);
        assert(s.push(c).drop_last() =~= s);
        assert(s.push(c).last() == c);
        assert(digits_val(s.push(c)) == n / 10 * 10 + (n % 10));
    }
}

/// The value of a digit string is non-negative.
pub proof fn lemma_digits_val_nonneg(s: Seq<char>)
    requires
        all_digits(s),
    ensures
        digits_val(s) >= 0,
    decreases s.len(),
{
    if s.len() > 0 {
        lemma_digits_val_nonneg(s.drop_last());
    }
}

/// Extending a digit string never lowers its value.
pub proof fn lemma_digits_val_prefix_le(s: Seq<char>, i: int)
    requires
        all_digits(s),
        0 <= i <= s.len(),
    ensures
        digits_val(s.take(i)) <= digits_val(s),
    decreases s.len() - i,
{
    if i < s.len() {
        lemma_digits_val_prefix_le(s, i + 1);
        let t = s.take(i + 1);
        assert(t.drop_last() =~= s.take(i));
        lemma_digits_val_nonneg(s.take(i));
        assert(all_digits(t)) by {
            assert(forall|k: int| 0 <= k < t.len() ==> t[k] == s[k]);
        }
        lemma_digits_val_nonneg(t.drop_last());
        assert(digits_val(t) == digits_val(s.take(i)) * 10 + digit_val(t.last()));
        assert(digits_val(s.take(i)) <= digits_val(t));
    } else {
        assert(s.take(i) =~= s);
    }
}

/// The digit character of `d`, as a string slice.
pub fn digit_str(d: u32) -> (r: &'static str)
    requires
        d < 10,
    ensures
        r@ =~= seq![digit_char(d as int)],
{
    proof {
        reveal_strlit("0");
        reveal_strlit("1");
        reveal_strlit("2");
        reveal_strlit("3");
        reveal_strlit("4");
        reveal_strlit("5");
        reveal_strlit("6");
        reveal_strlit("7");
        reveal_strlit("8");
        reveal_strlit("9");
    }
    if d == 0 { "0" }
    else if d == 1 { "1" }
    else if d == 2 { "2" }
    else if d == 3 { "3" }
    else if d == 4 { "4" }
    else if d == 5 { "5" }
    else if d == 6 { "6" }
    else if d == 7 { "7" }
    else if d == 8 { "8" }
    else { "9" }
}

/// Decimal rendering of a 32-bit number.
pub fn u32_to_string(n: u32) -> (r: String)
    ensures
        r@ == u32_digits(n as int),
    decreases n,
{
    if n < 10 {
        String::from_str(digit_str(n))
    } else {
        let mut r = u32_to_string(n / 10);
        r.append(digit_str(n % 10));
        r
    }
}


/// The number a string of digits denotes, if it is one and fits in 32 bits.
pub open spec fn str_u32(s: Seq<char>) -> Option<u32> {
    if s.len() > 0 && all_digits(s) && digits_val(s) <= u32::MAX {
        Some(digits_val(s) as u32)
    } else {
        None
    }
}

/// Decides [`str_u32`] on string slices.
pub fn parse_u32_str(s: &str) -> (r: Option<u32>)
    ensures
        r == str_u32(s@),
{
    let len = s.unicode_len();
    if len == 0 {
        return None;
    }
    let mut v: u32 = 0;
    let mut k: usize = 0;
    while k < len
        invariant
            0 < len == s@.len(),
            k <= len,
            forall|j: int| 0 <= j < k ==> is_digit(#[trigger] s@[j]),
            v == digits_val(s@.take(k as int)),
        decreases len - k,
    {
        let c = s.get_char(k);
        let u = c as u32;
        if !(48 <= u && u <= 57) {
            proof {
                assert(!is_digit(s@[k as int]));
                assert(!all_digits(s@));
            }
            return None;
        }
        let d = u - 48;
        if v > (u32::MAX - d) / 10 {
            proof {
                let m = u32::MAX as int;
                assert(v * 10 + d > m) by (nonlinear_arith)
                    requires
                        v > (m - d) / 10,
                        0 <= d <= 9,
                        m == u32::MAX as int,
                        v >= 0,
                {}
                assert(s@.take(k as int + 1).drop_last() =~= s@.take(k as int));
                assert(digits_val(s@.take(k as int + 1)) > u32::MAX);
                if all_digits(s@) {
                    lemma_digits_val_prefix_le(s@, k as int + 1);
                }
            }
            return None;
        }
        v = v * 10 + d;
        proof {
            assert(s@.take(k as int + 1).drop_last() =~= s@.take(k as int));
        }
        k += 1;
    }
    proof {
        assert(s@.take(len as int) =~= s@);
    }
    Some(v)
}

/// Lexicographic order on character sequences by code point, the order Rust
/// gives strings.
pub open spec fn lex_le(a: Seq<char>, b: Seq<char>) -> bool
    decreases a.len(),
{
    if a.len() == 0 {
        true
    } else if b.len() == 0 {
        false
    } else if (a[0] as u32) == (b[0] as u32) {
        lex_le(a.drop_first(), b.drop_first())
    } else {
        (a[0] as u32) < (b[0] as u32)
    }
}

/// Decides [`lex_le`] on string slices.
pub fn str_lex_le(a: &str, b: &str) -> (r: bool)
    ensures
        r == lex_le(a@, b@),
    decreases a@.len(),
{
    let alen = a.unicode_len();
    let blen = b.unicode_len();
    if alen == 0 {
        true
    } else if blen == 0 {
        false
    } else {
        let ca = a.get_char(0);
        let cb = b.get_char(0);
        if (ca as u32) == (cb as u32) {
            let ra = a.substring_char(1, alen);
            let rb = b.substring_char(1, blen);
            proof {
                assert(ra@ =~= a@.drop_first());
                assert(rb@ =~= b@.drop_first());
            }
            str_lex_le(ra, rb)
        } else {
            (ca as u32) < (cb as u32)
        }
    }
}

/// The needle occurs in the haystack starting at position `i`.
pub open spec fn contains_at(hay: Seq<char>, needle: Seq<char>, i: int) -> bool {
    0 <= i && i + needle.len() <= hay.len() && hay.subrange(i, i + needle.len()) == needle
}

/// The needle occurs somewhere in the haystack.
pub open spec fn contains_sub(hay: Seq<char>, needle: Seq<char>) -> bool {
    exists|i: int| contains_at(hay, needle, i)
}

/// Decides [`contains_sub`] on string slices.
pub fn str_contains(hay: &str, needle: &str) -> (r: bool)
    ensures
        r == contains_sub(hay@, needle@),
{
    let hlen = hay.unicode_len();
    let nlen = needle.unicode_len();
    if nlen > hlen {
        proof {
            assert(forall|i: int| !contains_at(hay@, needle@, i));
        }
        return false;
    }
    let mut i: usize = 0;
    while i <= hlen - nlen
        invariant
            nlen <= hlen,
            hlen == hay@.len(),
            nlen == needle@.len(),
            i <= hlen - nlen + 1,
            forall|k: int| 0 <= k < i ==> !contains_at(hay@, needle@, k),
        decreases hlen - nlen + 1 - i,
    {
        let mut j: usize = 0;
        while j < nlen && hay.get_char(i + j) == needle.get_char(j)
            invariant
                nlen <= hlen,
                hlen == hay@.len(),
                nlen == needle@.len(),
                i + nlen <= hlen,
                j <= nlen,
                forall|k: int| 0 <= k < j ==> hay@[i + k] == needle@[k],
            decreases nlen - j,
        {
            j += 1;
        }
        if j == nlen {
            proof {
                assert(hay@.subrange(i as int, i + needle@.len()) =~= needle@) by {
                    assert(forall|k: int| 0 <= k < needle@.len()
                        ==> #[trigger] hay@.subrange(i as int, i + needle@.len())[k] == hay@[i + k]);
                }
                assert(contains_at(hay@, needle@, i as int));
            }
            return true;
        }
        proof {
            let j0 = j as int;
            assert(hay@[i + j0] != needle@[j0]);
            assert(!contains_at(hay@, needle@, i as int)) by {
                if contains_at(hay@, needle@, i as int) {
                    assert(hay@.subrange(i as int, i + needle@.len())[j0] == hay@[i + j0]);
                }
            }
        }
        i += 1;
    }
    proof {
        assert(forall|k: int| contains_at(hay@, needle@, k) ==> 0 <= k <= hlen - nlen);
    }
    false
}

/// `lit` matches `s` exactly at position `pos`.
#[verifier::opaque]
pub open spec fn sp_match(s: Seq<char>, pos: int, lit: Seq<char>) -> bool {
    0 <= pos && pos + lit.len() <= s.len() && s.subrange(pos, pos + lit.len()) == lit
}

/// Decides [`sp_match`] on string slices.
pub fn match_at(s: &str, pos: usize, lit: &str) -> (r: bool)
    ensures
        r == sp_match(s@, pos as int, lit@),
{
    let slen = s.unicode_len();
    let llen = lit.unicode_len();
    if llen > slen || pos > slen - llen {
        proof {
            reveal(sp_match);
            assert(!sp_match(s@, pos as int, lit@));
        }
        return false;
    }
    let mut j: usize = 0;
    while j < llen
        invariant
            slen == s@.len(),
            llen == lit@.len(),
            pos + llen <= slen,
            j <= llen,
            forall|k: int| 0 <= k < j ==> s@[pos + k] == lit@[k],
        decreases llen - j,
    {
        if s.get_char(pos + j) != lit.get_char(j) {
            proof {
                reveal(sp_match);
                let j0 = j as int;
                if sp_match(s@, pos as int, lit@) {
                    assert(s@.subrange(pos as int, pos + lit@.len())[j0] == s@[pos + j0]);
                }
                assert(!sp_match(s@, pos as int, lit@));
            }
            return false;
        }
        j += 1;
    }
    proof {
        reveal(sp_match);
        assert(s@.subrange(pos as int, pos + lit@.len()) =~= lit@) by {
            assert(forall|k: int| 0 <= k < lit@.len()
                ==> #[trigger] s@.subrange(pos as int, pos + lit@.len())[k] == s@[pos + k]);
        }
        assert(sp_match(s@, pos as int, lit@));
    }
    true
}

/// A whole-string match is equality.
pub proof fn lemma_match_exact(s: Seq<char>, lit: Seq<char>)
    ensures
        (sp_match(s, 0, lit) && s.len() == lit.len()) ==> s == lit,
        s == lit ==> sp_match(s, 0, lit),
{
    reveal(sp_match);
    if sp_match(s, 0, lit) && s.len() == lit.len() {
        assert(s.subrange(0, lit.len() as int) =~= s);
    }
    if s == lit {
        assert(s.subrange(0, lit.len() as int) =~= lit);
    }
}

/// Case folding of a character sequence, as Unicode lowercasing of the
/// corresponding string defines it.
pub uninterp spec fn lower_of(s: Seq<char>) -> Seq<char>;

/// Relies on str::to_lowercase: the result is a function of the characters
/// alone.
#[verifier::external_body]
pub(crate) fn to_lower(s: &str) -> (r: String)
    ensures
        r@ == lower_of(s@),
{
    s.to_lowercase()
}

} // verus!
