//! Character classes and whitespace tokenisation.
//!
//! A sentence is divided into tokens exactly as `str::split_whitespace`
//! divides it: maximal runs of non-whitespace characters, where whitespace
//! means the Unicode `White_Space` code points.

use vstd::prelude::*;

verus! {

/// The Unicode `White_Space` code points.
pub open spec fn is_ws(c: char) -> bool {
    let u = c as u32;
    ||| u == 0x9
    ||| u == 0xA
    ||| u == 0xB
    ||| u == 0xC
    ||| u == 0xD
    ||| u == 0x20
    ||| u == 0x85
    ||| u == 0xA0
    ||| u == 0x1680
    ||| (0x2000 <= u && u <= 0x200A)
    ||| u == 0x2028
    ||| u == 0x2029
    ||| u == 0x202F
    ||| u == 0x205F
    ||| u == 0x3000
}

/// Whether `c` is a whitespace character.
pub fn ws_char(c: char) -> (r: bool)
    ensures
        r == is_ws(c),
{
    let u = c as u32;
    u == 0x9 || u == 0xA || u == 0xB || u == 0xC || u == 0xD || u == 0x20 || u == 0x85
        || u == 0xA0 || u == 0x1680 || (0x2000 <= u && u <= 0x200A) || u == 0x2028 || u == 0x2029
        || u == 0x202F || u == 0x205F || u == 0x3000
}

/// Length of the maximal non-whitespace prefix of `s`.
pub open spec fn token_len(s: Seq<char>) -> nat
    decreases s.len(),
{
    if s.len() == 0 || is_ws(s[0]) {
        0
    } else {
        1 + token_len(s.skip(1))
    }
}

pub proof fn lemma_token_len_le(s: Seq<char>)
    ensures
        token_len(s) <= s.len(),
    decreases s.len(),
{
    if s.len() > 0 && !is_ws(s[0]) {
        lemma_token_len_le(s.skip(1));
    }
}

/// `token_len` is the unique boundary: everything before it is non-whitespace
/// and it is either the end of the text or a whitespace character.
pub proof fn lemma_token_len_at(s: Seq<char>, l: int)
    requires
        0 <= l <= s.len(),
        forall|k: int| 0 <= k < l ==> !is_ws(s[k]),
        l == s.len() || is_ws(s[l]),
    ensures
        token_len(s) == l,
    decreases s.len(),
{
    if s.len() == 0 || is_ws(s[0]) {
    } else {
        assert(!is_ws(s[0]));
        assert(l >= 1);
        let t = s.skip(1);
        assert forall|k: int| 0 <= k < l - 1 implies !is_ws(t[k]) by {
            assert(t[k] == s[k + 1]);
        }
        if l < s.len() {
            assert(t[l - 1] == s[l]);
        }
        lemma_token_len_at(t, l - 1);
    }
}

/// The whitespace-separated tokens of `s`, in order.
pub open spec fn split_ws(s: Seq<char>) -> Seq<Seq<char>>
    decreases s.len(),
{
    if s.len() == 0 {
        Seq::empty()
    } else if is_ws(s[0]) {
        split_ws(s.skip(1))
    } else {
        proof {
            lemma_token_len_le(s);
        }
        seq![s.take(token_len(s) as int)] + split_ws(s.skip(token_len(s) as int))
    }
}

/// A token: non-empty, and free of whitespace.
pub open spec fn good_token(t: Seq<char>) -> bool {
    t.len() > 0 && forall|k: int| 0 <= k < t.len() ==> !is_ws(t[k])
}

/// Every token produced by `split_ws` is a non-empty run of non-whitespace
/// characters.
pub proof fn lemma_split_ws_tokens(s: Seq<char>)
    ensures
        forall|i: int| 0 <= i < split_ws(s).len() ==> good_token(#[trigger] split_ws(s)[i]),
    decreases s.len(),
{
    if s.len() == 0 {
    } else if is_ws(s[0]) {
        lemma_split_ws_tokens(s.skip(1));
        assert forall|i: int| 0 <= i < split_ws(s).len() implies good_token(
            #[trigger] split_ws(s)[i],
        ) by {
            assert(split_ws(s)[i] == split_ws(s.skip(1))[i]);
        }
    } else {
        lemma_token_len_le(s);
        let l = token_len(s) as int;
        lemma_split_ws_tokens(s.skip(l));
        let t0 = s.take(l);
        assert(l >= 1);
        assert forall|k: int| 0 <= k < t0.len() implies !is_ws(t0[k]) by {
            lemma_token_len_prefix(s, k);
        }
        assert(good_token(t0));
        assert forall|i: int| 0 <= i < split_ws(s).len() implies good_token(
            #[trigger] split_ws(s)[i],
        ) by {
            if i == 0 {
                assert(split_ws(s)[0] == t0);
            } else {
                assert(split_ws(s)[i] == split_ws(s.skip(l))[i - 1]);
            }
        }
    }
}

/// Characters strictly before the token boundary are non-whitespace.
pub proof fn lemma_token_len_prefix(s: Seq<char>, k: int)
    requires
        0 <= k < token_len(s),
    ensures
        !is_ws(s[k]),
    decreases k,
{
    lemma_token_len_le(s);
    if k > 0 {
        lemma_token_len_prefix(s.skip(1), k - 1);
        assert(s.skip(1)[k - 1] == s[k]);
    }
}

/// Splits `source` into whitespace-separated tokens.
pub fn tokenize(source: &str) -> (toks: Vec<String>)
    ensures
        toks.deep_view() == split_ws(source@),
{
    let n = source.unicode_len();
    let mut toks: Vec<String> = Vec::new();
    let mut i: usize = 0;
    proof {
        assert(source@.skip(0) =~= source@);
        assert(toks.deep_view() + split_ws(source@) =~= split_ws(source@));
    }
    while i < n
        invariant
            i <= n,
            n == source@.len(),
            toks.deep_view() + split_ws(source@.skip(i as int)) == split_ws(source@),
        decreases n - i,
    {
        let c = source.get_char(i);
        if ws_char(c) {
            proof {
                assert(source@.skip(i as int)[0] == source@[i as int]);
                assert(source@.skip(i as int).skip(1) =~= source@.skip(i + 1));
            }
            i = i + 1;
        } else {
            let ghost rest = source@.skip(i as int);
            let mut j: usize = i + 1;
            loop
                invariant
                    i < j <= n,
                    n == source@.len(),
                    !is_ws(source@[i as int]),
                    forall|k: int| i <= k < j ==> !is_ws(source@[k]),
                ensures
                    i < j <= n,
                    forall|k: int| i <= k < j ==> !is_ws(source@[k]),
                    j == n || is_ws(source@[j as int]),
                decreases n - j,
            {
                if j == n {
                    break ;
                }
                let cj = source.get_char(j);
                if ws_char(cj) {
                    break ;
                }
                j = j + 1;
            }
            proof {
                assert forall|k: int| 0 <= k < j - i implies !is_ws(rest[k]) by {
                    assert(rest[k] == source@[i + k]);
                }
                if j < n {
                    assert(rest[j - i] == source@[j as int]);
                }
                lemma_token_len_at(rest, j - i);
                assert(rest.take(j - i) =~= source@.subrange(i as int, j as int));
                assert(rest.skip(j - i) =~= source@.skip(j as int));
                assert(rest[0] == source@[i as int]);
            }
            let ghost pre = toks.deep_view();
            let piece = source.substring_char(i, j).to_owned();
            toks.push(piece);
            proof {
                assert(toks.deep_view() =~= pre + seq![source@.subrange(i as int, j as int)]);
                assert(split_ws(rest) == seq![rest.take(j - i)] + split_ws(rest.skip(j - i)));
                assert(toks.deep_view() + split_ws(source@.skip(j as int)) =~= split_ws(source@));
            }
            i = j;
        }
    }
    proof {
        assert(source@.skip(n as int) =~= Seq::<char>::empty());
        assert(toks.deep_view() =~= split_ws(source@));
    }
    toks
}

/// Whether the token ends in the case-suffix character `c`.
pub open spec fn ends_in(t: Seq<char>, c: char) -> bool {
    t.len() > 0 && t.last() == c
}

/// Whether the last character of `s` is `c`.
pub fn last_char_is(s: &String, c: char) -> (r: bool)
    ensures
        r == ends_in(s@, c),
{
    let n = s.as_str().unicode_len();
    if n == 0 {
        false
    } else {
        s.as_str().get_char(n - 1) == c
    }
}

/// `s` without its final character.
pub fn strip_last(s: &String) -> (r: String)
    requires
        s@.len() > 0,
    ensures
        r@ == s@.drop_last(),
{
    let n = s.as_str().unicode_len();
    let r = s.as_str().substring_char(0, n - 1).to_owned();
    proof {
        assert(s@.subrange(0, s@.len() - 1) =~= s@.drop_last());
    }
    r
}

/// Relies on `char::is_uppercase`: whether `c` has the Unicode `Uppercase`
/// property, a fixed attribute of the character alone.
pub uninterp spec fn is_upper(c: char) -> bool;

/// Relies on `char::is_uppercase`; the result is a function of `c` alone.
#[verifier::external_body]
pub fn upper_char(c: char) -> (r: bool)
    ensures
        r == is_upper(c),
{
    c.is_uppercase()
}

/// An ASCII decimal digit.
pub open spec fn is_digit(c: char) -> bool {
    0x30 <= c as u32 && c as u32 <= 0x39
}

/// Whether `c` is an ASCII decimal digit.
pub fn digit_char(c: char) -> (r: bool)
    ensures
        r == is_digit(c),
{
    let u = c as u32;
    0x30 <= u && u <= 0x39
}

pub open spec fn all_digits(s: Seq<char>) -> bool {
    forall|k: int| 0 <= k < s.len() ==> is_digit(s[k])
}

/// Index of the first character satisfying `p`, or -1 when there is none.
pub open spec fn first_where(s: Seq<char>, p: spec_fn(char) -> bool) -> int
    decreases s.len(),
{
    if s.len() == 0 {
        -1
    } else if p(s[0]) {
        0
    } else {
        let r = first_where(s.skip(1), p);
        if r < 0 {
            -1
        } else {
            1 + r
        }
    }
}

/// `first_where` is determined by where matches sit: no match before `j`, and
/// `j` is either the end (no match at all) or the first match.
pub proof fn lemma_first_where_at(s: Seq<char>, p: spec_fn(char) -> bool, j: int)
    requires
        0 <= j <= s.len(),
        forall|k: int| 0 <= k < j ==> !p(s[k]),
        j < s.len() ==> p(s[j]),
    ensures
        j < s.len() ==> first_where(s, p) == j,
        j == s.len() ==> first_where(s, p) == -1,
    decreases s.len(),
{
    if s.len() > 0 && !p(s[0]) {
        let t = s.skip(1);
        assert forall|k: int| 0 <= k < j - 1 implies !p(t[k]) by {
            assert(t[k] == s[k + 1]);
        }
        if j < s.len() {
            assert(t[j - 1] == s[j]);
        }
        lemma_first_where_at(t, p, if j == 0 { 0 } else { j - 1 });
    }
}

/// The three special floating-point words, compared without regard to ASCII
/// letter case.
pub open spec fn is_inf_word(s: Seq<char>) -> bool {
    s.len() == 3 && (s[0] == 'i' || s[0] == 'I') && (s[1] == 'n' || s[1] == 'N') && (s[2] == 'f'
        || s[2] == 'F')
}

pub open spec fn is_infinity_word(s: Seq<char>) -> bool {
    s.len() == 8 && (s[0] == 'i' || s[0] == 'I') && (s[1] == 'n' || s[1] == 'N') && (s[2] == 'f'
        || s[2] == 'F') && (s[3] == 'i' || s[3] == 'I') && (s[4] == 'n' || s[4] == 'N') && (s[5]
        == 'i' || s[5] == 'I') && (s[6] == 't' || s[6] == 'T') && (s[7] == 'y' || s[7] == 'Y')
}

pub open spec fn is_nan_word(s: Seq<char>) -> bool {
    s.len() == 3 && (s[0] == 'n' || s[0] == 'N') && (s[1] == 'a' || s[1] == 'A') && (s[2] == 'n'
        || s[2] == 'N')
}

/// Mantissa: digits, optionally with one decimal point, and at least one
/// digit overall.
pub open spec fn is_mantissa(s: Seq<char>) -> bool {
    let d = first_where(s, |c: char| c == '.');
    if d < 0 {
        s.len() > 0 && all_digits(s)
    } else {
        all_digits(s.take(d)) && all_digits(s.skip(d + 1)) && s.len() >= 2
    }
}

/// Exponent part after the `e`: an optional sign, then at least one digit.
pub open spec fn is_exp_body(s: Seq<char>) -> bool {
    let b = if s.len() > 0 && (s[0] == '+' || s[0] == '-') {
        s.skip(1)
    } else {
        s
    };
    b.len() > 0 && all_digits(b)
}

/// A decimal number with an optional exponent.
pub open spec fn is_decimal(s: Seq<char>) -> bool {
    let e = first_where(s, |c: char| c == 'e' || c == 'E');
    if e < 0 {
        is_mantissa(s)
    } else {
        is_mantissa(s.take(e)) && is_exp_body(s.skip(e + 1))
    }
}

/// The grammar that `str::parse::<f64>` documents: an optional sign, then
/// `inf`, `infinity`, `nan` (any letter case) or a decimal number with an
/// optional exponent.  A token of this shape is taken verbatim as a root
/// instead of being segmented.
pub open spec fn is_numeric(s: Seq<char>) -> bool {
    let body = if s.len() > 0 && (s[0] == '+' || s[0] == '-') {
        s.skip(1)
    } else {
        s
    };
    is_inf_word(body) || is_infinity_word(body) || is_nan_word(body) || is_decimal(body)
}

/// Whether the characters of `s` in `[a, b)` are all digits.
fn all_digits_range(s: &str, a: usize, b: usize) -> (r: bool)
    requires
        a <= b <= s@.len(),
    ensures
        r == all_digits(s@.subrange(a as int, b as int)),
{
    let ghost seg = s@.subrange(a as int, b as int);
    let mut k: usize = a;
    while k < b
        invariant
            a <= k <= b <= s@.len(),
            seg == s@.subrange(a as int, b as int),
            forall|m: int| 0 <= m < k - a ==> is_digit(seg[m]),
        decreases b - k,
    {
        let c = s.get_char(k);
        proof {
            assert(seg[k - a] == s@[k as int]);
        }
        if !digit_char(c) {
            return false;
        }
        k = k + 1;
    }
    true
}

/// First index in `[a, b)` whose character satisfies the given mark: a dot
/// when `dot` is set, otherwise an exponent letter.
fn find_mark(s: &str, a: usize, b: usize, dot: bool) -> (r: Option<usize>)
    requires
        a <= b <= s@.len(),
    ensures
        ({
            let p = if dot {
                |c: char| c == '.'
            } else {
                |c: char| c == 'e' || c == 'E'
            };
            let seg = s@.subrange(a as int, b as int);
            match r {
                Some(j) => a <= j < b && first_where(seg, p) == j - a,
                None => first_where(seg, p) == -1,
            }
        }),
{
    let ghost p = if dot {
        |c: char| c == '.'
    } else {
        |c: char| c == 'e' || c == 'E'
    };
    let ghost seg = s@.subrange(a as int, b as int);
    let mut k: usize = a;
    while k < b
        invariant
            a <= k <= b <= s@.len(),
            seg == s@.subrange(a as int, b as int),
            p == if dot {
                |c: char| c == '.'
            } else {
                |c: char| c == 'e' || c == 'E'
            },
            forall|m: int| 0 <= m < k - a ==> !p(seg[m]),
        decreases b - k,
    {
        let c = s.get_char(k);
        proof {
            assert(seg[k - a] == s@[k as int]);
        }
        let hit = if dot {
            c == '.'
        } else {
            c == 'e' || c == 'E'
        };
        if hit {
            proof {
                lemma_first_where_at(seg, p, k - a);
            }
            return Some(k);
        }
        k = k + 1;
    }
    proof {
        lemma_first_where_at(seg, p, b - a);
    }
    None
}

/// Whether `[a, b)` of `s` is a mantissa.
fn mantissa_range(s: &str, a: usize, b: usize) -> (r: bool)
    requires
        a <= b <= s@.len(),
    ensures
        r == is_mantissa(s@.subrange(a as int, b as int)),
{
    let ghost seg = s@.subrange(a as int, b as int);
    match find_mark(s, a, b, true) {
        None => b > a && all_digits_range(s, a, b),
        Some(j) => {
            proof {
                let d = first_where(seg, |c: char| c == '.');
                assert(seg.take(d) =~= s@.subrange(a as int, j as int));
                assert(seg.skip(d + 1) =~= s@.subrange(j + 1, b as int));
            }
            let front = all_digits_range(s, a, j);
            let back = all_digits_range(s, j + 1, b);
            front && back && b - a >= 2
        },
    }
}

/// Whether `[a, b)` of `s` is an exponent body: optional sign, then digits.
fn exp_body_range(s: &str, a: usize, b: usize) -> (r: bool)
    requires
        a <= b <= s@.len(),
    ensures
        r == is_exp_body(s@.subrange(a as int, b as int)),
{
    let ghost seg = s@.subrange(a as int, b as int);
    if a < b {
        let c = s.get_char(a);
        proof {
            assert(seg[0] == s@[a as int]);
        }
        if c == '+' || c == '-' {
            proof {
                assert(seg.skip(1) =~= s@.subrange(a + 1, b as int));
            }
            return b - a >= 2 && all_digits_range(s, a + 1, b);
        }
    }
    b > a && all_digits_range(s, a, b)
}

/// Whether `[a, b)` of `s` spells one of the special words, without regard to
/// ASCII letter case.
fn special_word_range(s: &str, a: usize, b: usize) -> (r: bool)
    requires
        a <= b <= s@.len(),
    ensures
        ({
            let seg = s@.subrange(a as int, b as int);
            r == (is_inf_word(seg) || is_infinity_word(seg) || is_nan_word(seg))
        }),
{
    let ghost seg = s@.subrange(a as int, b as int);
    proof {
        assert(forall|m: int| 0 <= m < b - a ==> seg[m] == s@[a + m]);
    }
    if b - a == 3 {
        let c0 = s.get_char(a);
        let c1 = s.get_char(a + 1);
        let c2 = s.get_char(a + 2);
        ((c0 == 'i' || c0 == 'I') && (c1 == 'n' || c1 == 'N') && (c2 == 'f' || c2 == 'F')) || ((c0
            == 'n' || c0 == 'N') && (c1 == 'a' || c1 == 'A') && (c2 == 'n' || c2 == 'N'))
    } else if b - a == 8 {
        let c0 = s.get_char(a);
        let c1 = s.get_char(a + 1);
        let c2 = s.get_char(a + 2);
        let c3 = s.get_char(a + 3);
        let c4 = s.get_char(a + 4);
        let c5 = s.get_char(a + 5);
        let c6 = s.get_char(a + 6);
        let c7 = s.get_char(a + 7);
        (c0 == 'i' || c0 == 'I') && (c1 == 'n' || c1 == 'N') && (c2 == 'f' || c2 == 'F') && (c3
            == 'i' || c3 == 'I') && (c4 == 'n' || c4 == 'N') && (c5 == 'i' || c5 == 'I') && (c6
            == 't' || c6 == 'T') && (c7 == 'y' || c7 == 'Y')
    } else {
        false
    }
}

/// Whether `s` matches the numeric-literal grammar of `str::parse::<f64>`.
pub fn numeric_token(s: &str) -> (r: bool)
    ensures
        r == is_numeric(s@),
{
    let n = s.unicode_len();
    let mut a: usize = 0;
    if n > 0 {
        let c = s.get_char(0);
        if c == '+' || c == '-' {
            a = 1;
        }
    }
    let ghost body = if s@.len() > 0 && (s@[0] == '+' || s@[0] == '-') {
        s@.skip(1)
    } else {
        s@
    };
    proof {
        assert(body =~= s@.subrange(a as int, n as int));
    }
    if special_word_range(s, a, n) {
        return true;
    }
    match find_mark(s, a, n, false) {
        None => mantissa_range(s, a, n),
        Some(j) => {
            proof {
                let e = first_where(body, |c: char| c == 'e' || c == 'E');
                assert(body.take(e) =~= s@.subrange(a as int, j as int));
                assert(body.skip(e + 1) =~= s@.subrange(j + 1, n as int));
            }
            let front = mantissa_range(s, a, j);
            let back = exp_body_range(s, j + 1, n);
            front && back
        },
    }
}

} // verus!
