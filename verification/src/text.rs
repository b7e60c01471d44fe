use vstd::prelude::*;

use crate::model::DicomError;
use vstd::std_specs::iter::IteratorSpec;

verus! {

/// What the fixed national 8-bit codec decodes a byte sequence to.
pub uninterp spec fn gbk_chars(bytes: Seq<u8>) -> Seq<char>;

/// Whether a character has the Unicode white-space property.
pub uninterp spec fn is_unicode_ws(c: char) -> bool;

/// Whether a wildcard pattern is a well-formed regular expression.
pub uninterp spec fn regex_valid(pattern: Seq<char>) -> bool;

/// Whether a well-formed regular expression matches somewhere in a text.
pub uninterp spec fn regex_matches(pattern: Seq<char>, text: Seq<char>) -> bool;

/// Relies on encoding_rs::Encoding::decode with the GBK encoding: the decoded
/// text depends on the input bytes alone.
#[verifier::external_body]
pub(crate) fn gbk_decode(bytes: &[u8]) -> (r: String)
    ensures
        r@ == gbk_chars(bytes@),
{
    let (text, _, _) = encoding_rs::GBK.decode(bytes);
    text.into_owned()
}

/// Relies on char::is_whitespace: whether the character is Unicode white space
/// depends on the character alone.
#[verifier::external_body]
pub(crate) fn char_is_ws(c: char) -> (r: bool)
    ensures
        r == is_unicode_ws(c),
{
    c.is_whitespace()
}

/// Relies on String::push: appends one character at the end.
#[verifier::external_body]
pub(crate) fn push_char(s: &mut String, c: char)
    ensures
        final(s)@ == old(s)@.push(c),
{
    s.push(c);
}

/// Relies on String::from_utf8: succeeds exactly on valid UTF-8 input and
/// yields the decoded characters.
#[verifier::external_body]
pub(crate) fn utf8_string(bytes: Vec<u8>) -> (r: Option<String>)
    ensures
        r is Some <==> vstd::utf8::valid_utf8(bytes@),
        r is Some ==> r.unwrap()@ == vstd::utf8::decode_utf8(bytes@),
{
    String::from_utf8(bytes).ok()
}

/// Relies on regex::Regex::new and regex::Regex::is_match: whether the pattern
/// compiles, and whether the compiled expression matches the text, each depend
/// on the two strings alone. The two calls stand together because a compiled
/// expression carries no information apart from its pattern.
#[verifier::external_body]
pub(crate) fn regex_check(pattern: &str, text: &str) -> (r: Option<bool>)
    ensures
        r is Some <==> regex_valid(pattern@),
        r is Some ==> r.unwrap() == regex_matches(pattern@, text@),
{
    match regex::Regex::new(pattern) {
        Ok(re) => Some(re.is_match(text)),
        Err(_) => None,
    }
}

/// The characters of a string, as a vector.
pub fn chars_of(s: &str) -> (v: Vec<char>)
    ensures
        v@ == s@,
{
    broadcast use vstd::string::axiom_spec_iter, vstd::string::next_postcondition;

    let mut it = s.chars();
    let mut v: Vec<char> = Vec::new();
    loop
        invariant
            it.obeys_prophetic_iter_laws(),
            it.decrease() is Some,
            v@ + it.remaining() == s@,
        ensures
            v@ == s@,
        decreases it.decrease()->0,
    {
        match it.next() {
            Some(c) => {
                v.push(c);
                proof {
                    assert(v@ + it.remaining() =~= s@);
                }
            },
            None => {
                proof {
                    assert(v@ =~= s@);
                }
                break ;
            },
        }
    }
    v
}

/// The string holding exactly the given characters.
pub fn string_of_chars(v: &Vec<char>) -> (s: String)
    ensures
        s@ == v@,
{
    let mut s = String::new();
    let mut i: usize = 0;
    while i < v.len()
        invariant
            i <= v@.len(),
            s@ == v@.take(i as int),
        decreases v@.len() - i,
    {
        push_char(&mut s, v[i]);
        i = i + 1;
        proof {
            assert(s@ =~= v@.take(i as int));
        }
    }
    proof {
        assert(v@.take(v@.len() as int) =~= v@);
    }
    s
}

pub open spec fn trim_front(s: Seq<char>) -> Seq<char>
    decreases s.len(),
{
    if s.len() > 0 && is_unicode_ws(s[0]) {
        trim_front(s.drop_first())
    } else {
        s
    }
}

pub open spec fn trim_back(s: Seq<char>) -> Seq<char>
    decreases s.len(),
{
    if s.len() > 0 && is_unicode_ws(s.last()) {
        trim_back(s.drop_last())
    } else {
        s
    }
}

/// The string with leading and trailing white space removed.
pub open spec fn ws_trimmed(s: Seq<char>) -> Seq<char> {
    trim_back(trim_front(s))
}

/// The string with trailing NUL characters removed.
pub open spec fn nul_trimmed(s: Seq<char>) -> Seq<char>
    decreases s.len(),
{
    if s.len() > 0 && s.last() == '\0' {
        nul_trimmed(s.drop_last())
    } else {
        s
    }
}

proof fn lemma_trim_front(s: Seq<char>, k: int)
    requires
        0 <= k <= s.len(),
        forall|j: int| 0 <= j < k ==> is_unicode_ws(#[trigger] s[j]),
        k == s.len() || !is_unicode_ws(s[k]),
    ensures
        trim_front(s) == s.skip(k),
    decreases k,
{
    if k == 0 {
        assert(s.skip(0) =~= s);
    } else {
        lemma_trim_front(s.drop_first(), k - 1);
        assert(s.drop_first().skip(k - 1) =~= s.skip(k));
    }
}

proof fn lemma_trim_back(s: Seq<char>, k: int)
    requires
        0 <= k <= s.len(),
        forall|j: int| k <= j < s.len() ==> is_unicode_ws(#[trigger] s[j]),
        k == 0 || !is_unicode_ws(s[k - 1]),
    ensures
        trim_back(s) == s.take(k),
    decreases s.len(),
{
    if k == s.len() {
        assert(s.take(k) =~= s);
    } else {
        lemma_trim_back(s.drop_last(), k);
        assert(s.drop_last().take(k) =~= s.take(k));
    }
}

pub proof fn lemma_nul_trim(s: Seq<char>, k: int)
    requires
        0 <= k <= s.len(),
        forall|j: int| k <= j < s.len() ==> #[trigger] s[j] == '\0',
        k == 0 || s[k - 1] != '\0',
    ensures
        nul_trimmed(s) == s.take(k),
    decreases s.len(),
{
    if k == s.len() {
        assert(s.take(k) =~= s);
    } else {
        lemma_nul_trim(s.drop_last(), k);
        assert(s.drop_last().take(k) =~= s.take(k));
    }
}

/// White space trimmed from both ends, as the standard trim does.
pub fn trim_chars(v: &Vec<char>) -> (r: Vec<char>)
    ensures
        r@ == ws_trimmed(v@),
{
    let n = v.len();
    let mut i: usize = 0;
    while i < n && char_is_ws(v[i])
        invariant
            i <= n,
            n == v@.len(),
            forall|j: int| 0 <= j < i ==> is_unicode_ws(#[trigger] v@[j]),
        decreases n - i,
    {
        i = i + 1;
    }
    proof {
        lemma_trim_front(v@, i as int);
    }
    if i == n {
        let r: Vec<char> = Vec::new();
        proof {
            assert(v@.skip(n as int) =~= Seq::<char>::empty());
            assert(trim_back(Seq::<char>::empty()) =~= Seq::<char>::empty());
        }
        return r;
    }
    let mut j: usize = n;
    while j > i + 1 && char_is_ws(v[j - 1])
        invariant
            i < j <= n,
            n == v@.len(),
            forall|m: int| j <= m < n ==> is_unicode_ws(#[trigger] v@[m]),
        decreases j,
    {
        j = j - 1;
    }
    proof {
        let t = v@.skip(i as int);
        lemma_trim_back(t, j - i);
        assert(t.take(j - i) =~= v@.subrange(i as int, j as int));
    }
    let r = crate::util::subvec(v, i, j);
    r
}

/// The first position holding one of the two characters, or -1.
pub open spec fn first_idx2(s: Seq<char>, a: char, b: char) -> int
    decreases s.len(),
{
    if s.len() == 0 {
        -1
    } else if s[0] == a || s[0] == b {
        0
    } else if first_idx2(s.drop_first(), a, b) < 0 {
        -1
    } else {
        1 + first_idx2(s.drop_first(), a, b)
    }
}

pub proof fn lemma_first_idx2(s: Seq<char>, a: char, b: char, k: int)
    requires
        0 <= k <= s.len(),
        forall|j: int| 0 <= j < k ==> #[trigger] s[j] != a && s[j] != b,
        k == s.len() || s[k] == a || s[k] == b,
    ensures
        first_idx2(s, a, b) == if k == s.len() {
            -1int
        } else {
            k
        },
    decreases k,
{
    if k == 0 {
    } else {
        lemma_first_idx2(s.drop_first(), a, b, k - 1);
    }
}

/// The pieces of a string between occurrences of a separator.
pub open spec fn split_on(s: Seq<char>, sep: char) -> Seq<Seq<char>>
    decreases s.len(),
{
    let i = first_idx2(s, sep, sep);
    if 0 <= i && i < s.len() {
        seq![s.take(i)] + split_on(s.skip(i + 1), sep)
    } else {
        seq![s]
    }
}

/// Whether a character is a decimal digit.
pub open spec fn is_digit(c: char) -> bool {
    '0' <= c && c <= '9'
}

pub open spec fn all_digits(s: Seq<char>) -> bool {
    forall|i: int| 0 <= i < s.len() ==> is_digit(#[trigger] s[i])
}

/// Case-insensitive comparison with one letter.
pub open spec fn ci(c: char, lo: char, up: char) -> bool {
    c == lo || c == up
}

/// The case-insensitive words "inf", "infinity" and "nan".
pub open spec fn is_inf_nan(s: Seq<char>) -> bool {
    ||| (s.len() == 3 && ci(s[0], 'i', 'I') && ci(s[1], 'n', 'N') && ci(s[2], 'f', 'F'))
    ||| (s.len() == 8 && ci(s[0], 'i', 'I') && ci(s[1], 'n', 'N') && ci(s[2], 'f', 'F') && ci(
        s[3],
        'i',
        'I',
    ) && ci(s[4], 'n', 'N') && ci(s[5], 'i', 'I') && ci(s[6], 't', 'T') && ci(s[7], 'y', 'Y'))
    ||| (s.len() == 3 && ci(s[0], 'n', 'N') && ci(s[1], 'a', 'A') && ci(s[2], 'n', 'N'))
}

/// An exponent body: an optional sign followed by at least one digit.
pub open spec fn exp_ok(s: Seq<char>) -> bool {
    let t = if s.len() > 0 && (s[0] == '+' || s[0] == '-') {
        s.drop_first()
    } else {
        s
    };
    t.len() > 0 && all_digits(t)
}

/// A mantissa: digits, or digits around one decimal point with at least one
/// digit on some side.
pub open spec fn mantissa_ok(s: Seq<char>) -> bool {
    let d = first_idx2(s, '.', '.');
    if 0 <= d && d < s.len() {
        s.len() >= 2 && all_digits(s.take(d)) && all_digits(s.skip(d + 1))
    } else {
        s.len() > 0 && all_digits(s)
    }
}

/// A number: a mantissa, optionally followed by an exponent marker and body.
pub open spec fn number_ok(s: Seq<char>) -> bool {
    let e = first_idx2(s, 'e', 'E');
    if 0 <= e && e < s.len() {
        mantissa_ok(s.take(e)) && exp_ok(s.skip(e + 1))
    } else {
        mantissa_ok(s)
    }
}

/// The grammar that the standard library documents for parsing a 64-bit
/// float from a string: an optional sign, then an infinity or not-a-number
/// word or a number.
pub open spec fn is_float_token(s: Seq<char>) -> bool {
    let t = if s.len() > 0 && (s[0] == '+' || s[0] == '-') {
        s.drop_first()
    } else {
        s
    };
    is_inf_nan(t) || number_ok(t)
}

fn all_digits_range(v: &Vec<char>, a: usize, b: usize) -> (r: bool)
    requires
        a <= b <= v@.len(),
    ensures
        r == all_digits(v@.subrange(a as int, b as int)),
{
    let ghost sub = v@.subrange(a as int, b as int);
    let mut i: usize = a;
    while i < b
        invariant
            a <= i <= b <= v@.len(),
            sub == v@.subrange(a as int, b as int),
            forall|j: int| a <= j < i ==> is_digit(#[trigger] v@[j]),
        decreases b - i,
    {
        let c = v[i];
        if !('0' <= c && c <= '9') {
            proof {
                assert(sub[i - a as int] == v@[i as int]);
            }
            return false;
        }
        i = i + 1;
    }
    proof {
        assert forall|k: int| 0 <= k < sub.len() implies is_digit(#[trigger] sub[k]) by {
            assert(sub[k] == v@[a + k]);
        }
    }
    true
}

fn check_inf_nan(v: &Vec<char>, a: usize) -> (r: bool)
    requires
        a <= v@.len(),
    ensures
        r == is_inf_nan(v@.skip(a as int)),
{
    let ghost t = v@.skip(a as int);
    let n = v.len();
    let m = n - a;
    if m == 3 {
        let c0 = v[a];
        let c1 = v[a + 1];
        let c2 = v[a + 2];
        ((c0 == 'i' || c0 == 'I') && (c1 == 'n' || c1 == 'N') && (c2 == 'f' || c2 == 'F')) || ((c0
            == 'n' || c0 == 'N') && (c1 == 'a' || c1 == 'A') && (c2 == 'n' || c2 == 'N'))
    } else if m == 8 {
        let c0 = v[a];
        let c1 = v[a + 1];
        let c2 = v[a + 2];
        let c3 = v[a + 3];
        let c4 = v[a + 4];
        let c5 = v[a + 5];
        let c6 = v[a + 6];
        let c7 = v[a + 7];
        (c0 == 'i' || c0 == 'I') && (c1 == 'n' || c1 == 'N') && (c2 == 'f' || c2 == 'F') && (c3
            == 'i' || c3 == 'I') && (c4 == 'n' || c4 == 'N') && (c5 == 'i' || c5 == 'I') && (c6
            == 't' || c6 == 'T') && (c7 == 'y' || c7 == 'Y')
    } else {
        false
    }
}

fn check_exp(v: &Vec<char>, a: usize, b: usize) -> (r: bool)
    requires
        a <= b <= v@.len(),
    ensures
        r == exp_ok(v@.subrange(a as int, b as int)),
{
    let ghost sub = v@.subrange(a as int, b as int);
    let signed = a < b && (v[a] == '+' || v[a] == '-');
    let c = if signed {
        a + 1
    } else {
        a
    };
    proof {
        if signed {
            assert(sub.drop_first() =~= v@.subrange(a as int + 1, b as int));
        }
    }
    if c == b {
        false
    } else {
        all_digits_range(v, c, b)
    }
}

fn check_mantissa(v: &Vec<char>, a: usize, b: usize) -> (r: bool)
    requires
        a <= b <= v@.len(),
    ensures
        r == mantissa_ok(v@.subrange(a as int, b as int)),
{
    let ghost sub = v@.subrange(a as int, b as int);
    let mut di: usize = a;
    while di < b && v[di] != '.'
        invariant
            a <= di <= b <= v@.len(),
            forall|j: int| a <= j < di ==> #[trigger] v@[j] != '.',
        decreases b - di,
    {
        di = di + 1;
    }
    proof {
        assert forall|j: int| 0 <= j < di - a implies #[trigger] sub[j] != '.' && sub[j] != '.' by {
            assert(sub[j] == v@[a + j]);
        }
        if di < b {
            assert(sub[di - a as int] == v@[di as int]);
        }
        lemma_first_idx2(sub, '.', '.', di - a as int);
    }
    if di < b {
        if b - a < 2 {
            return false;
        }
        let r1 = all_digits_range(v, a, di);
        let r2 = all_digits_range(v, di + 1, b);
        proof {
            assert(sub.take(di - a as int) =~= v@.subrange(a as int, di as int));
            assert(sub.skip(di - a as int + 1) =~= v@.subrange(di as int + 1, b as int));
        }
        r1 && r2
    } else {
        if b == a {
            return false;
        }
        all_digits_range(v, a, b)
    }
}

fn check_number(v: &Vec<char>, a: usize) -> (r: bool)
    requires
        a <= v@.len(),
    ensures
        r == number_ok(v@.skip(a as int)),
{
    let ghost t = v@.skip(a as int);
    let n = v.len();
    let mut ei: usize = a;
    while ei < n && !(v[ei] == 'e' || v[ei] == 'E')
        invariant
            a <= ei <= n,
            n == v@.len(),
            forall|j: int| a <= j < ei ==> #[trigger] v@[j] != 'e' && v@[j] != 'E',
        decreases n - ei,
    {
        ei = ei + 1;
    }
    proof {
        assert forall|j: int| 0 <= j < ei - a implies #[trigger] t[j] != 'e' && t[j] != 'E' by {
            assert(t[j] == v@[a + j]);
        }
        if ei < n {
            assert(t[ei - a as int] == v@[ei as int]);
        }
        lemma_first_idx2(t, 'e', 'E', ei - a as int);
    }
    if ei < n {
        let r1 = check_mantissa(v, a, ei);
        let r2 = check_exp(v, ei + 1, n);
        proof {
            assert(t.take(ei - a as int) =~= v@.subrange(a as int, ei as int));
            assert(t.skip(ei - a as int + 1) =~= v@.subrange(ei as int + 1, n as int));
        }
        r1 && r2
    } else {
        let r1 = check_mantissa(v, a, n);
        proof {
            assert(t =~= v@.subrange(a as int, n as int));
        }
        r1
    }
}

/// Whether the characters form a token the standard float parser accepts.
pub fn check_float_token(v: &Vec<char>) -> (r: bool)
    ensures
        r == is_float_token(v@),
{
    let n = v.len();
    let signed = n > 0 && (v[0] == '+' || v[0] == '-');
    let start: usize = if signed {
        1
    } else {
        0
    };
    proof {
        if signed {
            assert(v@.drop_first() =~= v@.skip(1));
        } else {
            assert(v@.skip(0) =~= v@);
        }
    }
    if check_inf_nan(v, start) {
        return true;
    }
    check_number(v, start)
}

/// Splits on the backslash separator; always at least one piece.
pub fn split_backslash(v: &Vec<char>) -> (parts: Vec<Vec<char>>)
    ensures
        parts@.map_values(|t: Vec<char>| t@) == split_on(v@, '\\'),
{
    let n = v.len();
    let mut parts: Vec<Vec<char>> = Vec::new();
    let mut startpos: usize = 0;
    let mut i: usize = 0;
    proof {
        assert(v@.skip(0) =~= v@);
        assert(parts@.map_values(|t: Vec<char>| t@) =~= Seq::<Seq<char>>::empty());
    }
    while i < n
        invariant
            startpos <= i <= n,
            n == v@.len(),
            forall|j: int| startpos <= j < i ==> #[trigger] v@[j] != '\\',
            split_on(v@, '\\') == parts@.map_values(|t: Vec<char>| t@) + split_on(
                v@.skip(startpos as int),
                '\\',
            ),
        decreases n - i,
    {
        if v[i] == '\\' {
            let token = crate::util::subvec(v, startpos, i);
            proof {
                let rem = v@.skip(startpos as int);
                assert forall|j: int| 0 <= j < i - startpos implies #[trigger] rem[j] != '\\'
                    && rem[j] != '\\' by {
                    assert(rem[j] == v@[startpos + j]);
                }
                assert(rem[i - startpos as int] == v@[i as int]);
                lemma_first_idx2(rem, '\\', '\\', i - startpos as int);
                assert(rem.take(i - startpos as int) =~= v@.subrange(startpos as int, i as int));
                assert(rem.skip(i - startpos as int + 1) =~= v@.skip(i as int + 1));
            }
            parts.push(token);
            proof {
                assert(parts@.map_values(|t: Vec<char>| t@) =~= old_map_plus(parts@, token@));
            }
            startpos = i + 1;
            i = i + 1;
            proof {
                assert(split_on(v@, '\\') =~= parts@.map_values(|t: Vec<char>| t@) + split_on(
                    v@.skip(startpos as int),
                    '\\',
                ));
            }
        } else {
            i = i + 1;
        }
    }
    let token = crate::util::subvec(v, startpos, n);
    proof {
        let rem = v@.skip(startpos as int);
        assert forall|j: int| 0 <= j < rem.len() implies #[trigger] rem[j] != '\\' && rem[j]
            != '\\' by {
            assert(rem[j] == v@[startpos + j]);
        }
        lemma_first_idx2(rem, '\\', '\\', rem.len() as int);
        assert(rem =~= v@.subrange(startpos as int, n as int));
    }
    parts.push(token);
    proof {
        assert(parts@.map_values(|t: Vec<char>| t@) =~= old_map_plus(parts@, token@));
        assert(split_on(v@, '\\') =~= parts@.map_values(|t: Vec<char>| t@));
    }
    parts
}

/// The map of a pushed vector: the old map with the new view at the end.
pub open spec fn old_map_plus(parts: Seq<Vec<char>>, last: Seq<char>) -> Seq<Seq<char>> {
    parts.drop_last().map_values(|t: Vec<char>| t@).push(last)
}

/// The decimal-string tokens of a value window: decode with the fixed codec,
/// trim white space, split on the backslash.
pub open spec fn ds_tokens(bytes: Seq<u8>) -> Seq<Seq<char>> {
    split_on(ws_trimmed(gbk_chars(bytes)), '\\')
}

/// Whether every decimal-string token parses as a float.
pub open spec fn ds_ok(bytes: Seq<u8>) -> bool {
    forall|i: int| 0 <= i < ds_tokens(bytes).len() ==> is_float_token(#[trigger] ds_tokens(bytes)[i])
}

/// Decodes a decimal-string value window into its tokens; a token outside
/// the float grammar is a fatal error.
pub fn decode_ds(window: &[u8]) -> (r: Result<Vec<String>, DicomError>)
    ensures
        r is Ok <==> ds_ok(window@),
        r is Ok ==> r.unwrap()@.map_values(|s: String| s@) == ds_tokens(window@),
        r is Err ==> r.unwrap_err() is BadDecimal,
{
    let text = gbk_decode(window);
    let cs = chars_of(text.as_str());
    let trimmed = trim_chars(&cs);
    let parts = split_backslash(&trimmed);
    let ghost toks = ds_tokens(window@);
    proof {
        assert(parts@.map_values(|t: Vec<char>| t@) == toks);
    }
    let mut i: usize = 0;
    while i < parts.len()
        invariant
            i <= parts@.len(),
            toks == ds_tokens(window@),
            parts@.map_values(|t: Vec<char>| t@) == toks,
            forall|j: int| 0 <= j < i ==> is_float_token(#[trigger] toks[j]),
        decreases parts@.len() - i,
    {
        let p = vstd::slice::slice_index_get(parts.as_slice(), i);
        if !check_float_token(p) {
            proof {
                assert(toks[i as int] == parts@[i as int]@);
                assert(!is_float_token(ds_tokens(window@)[i as int]));
            }
            return Result::Err(DicomError::BadDecimal(string_of_chars(p)));
        }
        proof {
            assert(toks[i as int] == parts@[i as int]@);
        }
        i = i + 1;
    }
    let mut out: Vec<String> = Vec::new();
    let mut k: usize = 0;
    while k < parts.len()
        invariant
            k <= parts@.len(),
            toks == ds_tokens(window@),
            parts@.map_values(|t: Vec<char>| t@) == toks,
            out@.len() == k,
            forall|j: int| 0 <= j < k ==> (#[trigger] out@[j])@ == toks[j],
        decreases parts@.len() - k,
    {
        let p = vstd::slice::slice_index_get(parts.as_slice(), k);
        out.push(string_of_chars(p));
        proof {
            assert(toks[k as int] == parts@[k as int]@);
        }
        k = k + 1;
    }
    proof {
        assert(out@.map_values(|s: String| s@) =~= toks);
    }
    Result::Ok(out)
}

} // verus!
