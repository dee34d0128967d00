//! Character-level utilities shared by the codec, the comparator and the
//! renderer: character classes, trimming, repetition, substring replacement
//! and the locale-insensitive alphanumeric comparison.

use vstd::prelude::*;

verus! {

use core::cmp::Ordering;

// ---------------------------------------------------------------------------
// Character classes
// ---------------------------------------------------------------------------

pub open spec fn is_ascii_upper(c: char) -> bool {
    'A' <= c && c <= 'Z'
}

pub open spec fn is_ascii_lower(c: char) -> bool {
    'a' <= c && c <= 'z'
}

pub open spec fn is_ascii_digit_char(c: char) -> bool {
    '0' <= c && c <= '9'
}

/// Characters that survive the alphanumeric fold of the comparator.
pub open spec fn is_alphanumeric_char(c: char) -> bool {
    is_ascii_upper(c) || is_ascii_lower(c) || is_ascii_digit_char(c)
}

/// The whitespace characters `str::trim` removes: the Unicode white-space
/// set, from the ASCII controls and the space up to the ideographic space.
pub open spec fn is_space_char(c: char) -> bool {
    ||| c == ' ' || c == '\t' || c == '\n' || c == '\r'
    ||| c == '\u{000B}' || c == '\u{000C}' || c == '\u{0085}' || c == '\u{00A0}'
    ||| c == '\u{1680}' || ('\u{2000}' <= c && c <= '\u{200A}')
    ||| c == '\u{2028}' || c == '\u{2029}' || c == '\u{202F}' || c == '\u{205F}' || c
        == '\u{3000}'
}

/// ASCII upper-case letters fold to lower case; everything else is unchanged.
pub open spec fn to_lower_char(c: char) -> char {
    if is_ascii_upper(c) {
        ((c as u8) + 32) as char
    } else {
        c
    }
}

pub fn lower_char(c: char) -> (r: char)
    ensures
        r == to_lower_char(c),
{
    if 'A' <= c && c <= 'Z' {
        ((c as u8) + 32) as char
    } else {
        c
    }
}

// ---------------------------------------------------------------------------
// Strings and character vectors
// ---------------------------------------------------------------------------

/// Relies on `Iterator::collect` for `String` (`FromIterator<char>`): the
/// collected string holds exactly the characters of the vector, in order.
#[verifier::external_body]
pub fn chars_to_string(v: &Vec<char>) -> (s: String)
    ensures
        s@ == v@,
{
    v.iter().collect()
}

/// The characters of a string slice as a vector.
pub fn str_chars(s: &str) -> (r: Vec<char>)
    ensures
        r@ == s@,
{
    let n = s.unicode_len();
    let mut r: Vec<char> = Vec::new();
    let mut i: usize = 0;
    while i < n
        invariant
            n == s@.len(),
            i <= n,
            r@ == s@.subrange(0, i as int),
        decreases n - i,
    {
        r.push(s.get_char(i));
        i = i + 1;
        proof {
            assert(r@ =~= s@.subrange(0, i as int));
        }
    }
    proof {
        assert(r@ =~= s@);
    }
    r
}

/// Character-by-character string equality.
pub fn str_eq(a: &str, b: &str) -> (r: bool)
    ensures
        r == (a@ == b@),
{
    let an = a.unicode_len();
    let bn = b.unicode_len();
    if an != bn {
        proof {
            assert(a@.len() != b@.len());
        }
        return false;
    }
    let mut i: usize = 0;
    while i < an
        invariant
            an == a@.len(),
            an == b@.len(),
            i <= an,
            forall|j: int| 0 <= j < i ==> a@[j] == b@[j],
        decreases an - i,
    {
        if a.get_char(i) != b.get_char(i) {
            return false;
        }
        i = i + 1;
    }
    proof {
        assert(a@ =~= b@);
    }
    true
}

/// `n` copies of the character `c`.
pub open spec fn repeated(c: char, n: nat) -> Seq<char> {
    Seq::new(n, |i: int| c)
}

pub fn repeat_char(c: char, n: usize) -> (r: Vec<char>)
    ensures
        r@ == repeated(c, n as nat),
{
    let mut r: Vec<char> = Vec::new();
    let mut i: usize = 0;
    while i < n
        invariant
            i <= n,
            r@ == repeated(c, i as nat),
        decreases n - i,
    {
        r.push(c);
        i = i + 1;
        proof {
            assert(r@ =~= repeated(c, i as nat));
        }
    }
    r
}

// ---------------------------------------------------------------------------
// Lexicographic comparison of character sequences
// ---------------------------------------------------------------------------

/// Code-point by code-point comparison; a strict prefix sorts first.
pub open spec fn lex_cmp(a: Seq<char>, b: Seq<char>) -> Ordering
    decreases a.len() + b.len(),
{
    if a.len() == 0 && b.len() == 0 {
        Ordering::Equal
    } else if a.len() == 0 {
        Ordering::Less
    } else if b.len() == 0 {
        Ordering::Greater
    } else if a[0] < b[0] {
        Ordering::Less
    } else if b[0] < a[0] {
        Ordering::Greater
    } else {
        lex_cmp(a.drop_first(), b.drop_first())
    }
}

pub proof fn lemma_lex_cmp_refl(a: Seq<char>)
    ensures
        lex_cmp(a, a) == Ordering::Equal,
    decreases a.len(),
{
    if a.len() > 0 {
        lemma_lex_cmp_refl(a.drop_first());
    }
}

pub proof fn lemma_lex_cmp_equal_is_eq(a: Seq<char>, b: Seq<char>)
    requires
        lex_cmp(a, b) == Ordering::Equal,
    ensures
        a == b,
    decreases a.len(),
{
    if a.len() == 0 && b.len() == 0 {
        assert(a =~= b);
    } else {
        lemma_lex_cmp_equal_is_eq(a.drop_first(), b.drop_first());
        assert(a =~= seq![a[0]] + a.drop_first());
        assert(b =~= seq![b[0]] + b.drop_first());
    }
}

/// Exchanging the arguments exchanges `Less` and `Greater`.
pub proof fn lemma_lex_cmp_flip(a: Seq<char>, b: Seq<char>)
    ensures
        (lex_cmp(a, b) == Ordering::Less) <==> (lex_cmp(b, a) == Ordering::Greater),
    decreases a.len() + b.len(),
{
    if a.len() > 0 && b.len() > 0 && !(a[0] < b[0]) && !(b[0] < a[0]) {
        lemma_lex_cmp_flip(a.drop_first(), b.drop_first());
    }
}

pub proof fn lemma_lex_cmp_less_trans(a: Seq<char>, b: Seq<char>, c: Seq<char>)
    requires
        lex_cmp(a, b) == Ordering::Less,
        lex_cmp(b, c) == Ordering::Less,
    ensures
        lex_cmp(a, c) == Ordering::Less,
    decreases a.len() + b.len() + c.len(),
{
    if a.len() == 0 {
        // c is longer than b's shape demands nothing: a empty and c nonempty.
        assert(b.len() > 0 || c.len() > 0);
    } else {
        assert(b.len() > 0);
        assert(c.len() > 0);
        if !(a[0] < b[0]) && !(b[0] < a[0]) && !(b[0] < c[0]) && !(c[0] < b[0]) {
            lemma_lex_cmp_less_trans(a.drop_first(), b.drop_first(), c.drop_first());
        }
    }
}

/// `a` sorts no later than `b`.
pub open spec fn lex_le(a: Seq<char>, b: Seq<char>) -> bool {
    lex_cmp(a, b) != Ordering::Greater
}

pub proof fn lemma_lex_le_trans(a: Seq<char>, b: Seq<char>, c: Seq<char>)
    requires
        lex_le(a, b),
        lex_le(b, c),
    ensures
        lex_le(a, c),
{
    lemma_lex_cmp_flip(a, c);
    if lex_cmp(a, b) == Ordering::Equal {
        lemma_lex_cmp_equal_is_eq(a, b);
    }
    if lex_cmp(b, c) == Ordering::Equal {
        lemma_lex_cmp_equal_is_eq(b, c);
    }
    if lex_cmp(a, b) == Ordering::Less && lex_cmp(b, c) == Ordering::Less {
        lemma_lex_cmp_less_trans(a, b, c);
    }
    lemma_lex_cmp_flip(a, b);
    lemma_lex_cmp_flip(b, c);
}

/// Compares two character vectors lexicographically.
pub fn lex_compare(a: &Vec<char>, b: &Vec<char>) -> (r: Ordering)
    ensures
        r == lex_cmp(a@, b@),
{
    let mut i: usize = 0;
    let an = a.len();
    let bn = b.len();
    proof {
        assert(a@.skip(0) =~= a@);
        assert(b@.skip(0) =~= b@);
    }
    while i < an && i < bn
        invariant
            an == a@.len(),
            bn == b@.len(),
            i <= an,
            i <= bn,
            lex_cmp(a@, b@) == lex_cmp(a@.skip(i as int), b@.skip(i as int)),
        decreases an - i,
    {
        let ca = a[i];
        let cb = b[i];
        proof {
            assert(a@.skip(i as int)[0] == a@[i as int]);
            assert(b@.skip(i as int)[0] == b@[i as int]);
            assert(a@.skip(i as int).drop_first() =~= a@.skip(i as int + 1));
            assert(b@.skip(i as int).drop_first() =~= b@.skip(i as int + 1));
        }
        if ca < cb {
            return Ordering::Less;
        }
        if cb < ca {
            return Ordering::Greater;
        }
        i = i + 1;
    }
    proof {
        assert(a@.skip(i as int).len() == an - i);
        assert(b@.skip(i as int).len() == bn - i);
    }
    if an == bn {
        Ordering::Equal
    } else if an < bn {
        Ordering::Less
    } else {
        Ordering::Greater
    }
}

// ---------------------------------------------------------------------------
// The alphanumeric fold
// ---------------------------------------------------------------------------

/// The comparator's key: only ASCII letters and digits survive, letters
/// folded to lower case.
pub open spec fn normalize(s: Seq<char>) -> Seq<char>
    decreases s.len(),
{
    if s.len() == 0 {
        Seq::empty()
    } else {
        normalize(s.drop_last()) + if is_alphanumeric_char(s.last()) {
            seq![to_lower_char(s.last())]
        } else {
            Seq::empty()
        }
    }
}

pub fn normalized_chars(s: &str) -> (r: Vec<char>)
    ensures
        r@ == normalize(s@),
{
    let n = s.unicode_len();
    let mut r: Vec<char> = Vec::new();
    let mut i: usize = 0;
    while i < n
        invariant
            n == s@.len(),
            i <= n,
            r@ == normalize(s@.subrange(0, i as int)),
        decreases n - i,
    {
        let c = s.get_char(i);
        let alnum = ('A' <= c && c <= 'Z') || ('a' <= c && c <= 'z') || ('0' <= c && c <= '9');
        if alnum {
            r.push(lower_char(c));
        }
        i = i + 1;
        proof {
            let pre = s@.subrange(0, i as int);
            assert(pre.drop_last() =~= s@.subrange(0, i as int - 1));
            assert(pre.last() == c);
            if alnum {
                assert(r@ =~= normalize(pre.drop_last()) + seq![to_lower_char(c)]);
            } else {
                assert(r@ =~= normalize(pre.drop_last()) + Seq::<char>::empty());
            }
        }
    }
    proof {
        assert(s@.subrange(0, n as int) =~= s@);
    }
    r
}

/// How the comparator orders two strings: compare the alphanumeric folds.
pub open spec fn alpha_cmp(a: Seq<char>, b: Seq<char>) -> Ordering {
    lex_cmp(normalize(a), normalize(b))
}

/// `a` sorts no later than `b` under the alphanumeric comparator.
pub open spec fn alpha_le(a: Seq<char>, b: Seq<char>) -> bool {
    lex_le(normalize(a), normalize(b))
}

pub proof fn lemma_alpha_le_trans(a: Seq<char>, b: Seq<char>, c: Seq<char>)
    requires
        alpha_le(a, b),
        alpha_le(b, c),
    ensures
        alpha_le(a, c),
{
    lemma_lex_le_trans(normalize(a), normalize(b), normalize(c));
}


pub proof fn lemma_alpha_cmp_flip(a: Seq<char>, b: Seq<char>)
    ensures
        (alpha_cmp(a, b) == Ordering::Less) <==> (alpha_cmp(b, a) == Ordering::Greater),
{
    lemma_lex_cmp_flip(normalize(a), normalize(b));
}

/// A string that does not sort before another sorts at or after it.
pub proof fn lemma_alpha_not_less_le(a: Seq<char>, b: Seq<char>)
    requires
        alpha_cmp(a, b) != Ordering::Less,
    ensures
        alpha_le(b, a),
{
    lemma_alpha_cmp_flip(b, a);
    if alpha_cmp(a, b) == Ordering::Equal {
        lemma_lex_cmp_equal_is_eq(normalize(a), normalize(b));
        lemma_lex_cmp_refl(normalize(b));
    }
}

// ---------------------------------------------------------------------------
// Trimming
// ---------------------------------------------------------------------------

pub open spec fn trim_start_by(s: Seq<char>, p: spec_fn(char) -> bool) -> Seq<char>
    decreases s.len(),
{
    if s.len() > 0 && p(s[0]) {
        trim_start_by(s.drop_first(), p)
    } else {
        s
    }
}

pub open spec fn trim_end_by(s: Seq<char>, p: spec_fn(char) -> bool) -> Seq<char>
    decreases s.len(),
{
    if s.len() > 0 && p(s.last()) {
        trim_end_by(s.drop_last(), p)
    } else {
        s
    }
}

/// Characters satisfying `p` removed from both ends.
pub open spec fn trim_by(s: Seq<char>, p: spec_fn(char) -> bool) -> Seq<char> {
    trim_end_by(trim_start_by(s, p), p)
}

/// Leading and trailing whitespace removed.
pub open spec fn trim_spec(s: Seq<char>) -> Seq<char> {
    trim_by(s, |c: char| is_space_char(c))
}

pub proof fn lemma_trim_start_by_skip(s: Seq<char>, p: spec_fn(char) -> bool, k: int)
    requires
        0 <= k <= s.len(),
        forall|j: int| 0 <= j < k ==> p(s[j]),
    ensures
        trim_start_by(s, p) == trim_start_by(s.skip(k), p),
    decreases k,
{
    if k > 0 {
        assert(s.drop_first() =~= s.skip(1));
        lemma_trim_start_by_skip(s.skip(1), p, k - 1);
        assert(s.skip(1).skip(k - 1) =~= s.skip(k));
    } else {
        assert(s.skip(0) =~= s);
    }
}

pub proof fn lemma_trim_end_by_take(s: Seq<char>, p: spec_fn(char) -> bool, k: int)
    requires
        0 <= k <= s.len(),
        forall|j: int| k <= j < s.len() ==> p(s[j]),
    ensures
        trim_end_by(s, p) == trim_end_by(s.take(k), p),
    decreases s.len() - k,
{
    if k < s.len() {
        assert(p(s.last()));
        assert(s.drop_last() =~= s.take(s.len() - 1));
        lemma_trim_end_by_take(s.take(s.len() - 1), p, k);
        assert(s.take(s.len() - 1).take(k) =~= s.take(k));
    } else {
        assert(s.take(k) =~= s);
    }
}

pub(crate) fn is_space(c: char) -> (r: bool)
    ensures
        r == is_space_char(c),
{
    c == ' ' || c == '\t' || c == '\n' || c == '\r' || c == '\u{000B}' || c == '\u{000C}' || c
        == '\u{0085}' || c == '\u{00A0}' || c == '\u{1680}' || ('\u{2000}' <= c && c
        <= '\u{200A}') || c == '\u{2028}' || c == '\u{2029}' || c == '\u{202F}' || c
        == '\u{205F}' || c == '\u{3000}'
}

/// Leading and trailing whitespace removed, as `str::trim` does for the
/// whitespace characters this format can contain.
pub fn trim_str<'a>(s: &'a str) -> (r: &'a str)
    ensures
        r@ == trim_spec(s@),
{
    let ghost p = |c: char| is_space_char(c);
    let n = s.unicode_len();
    let mut start: usize = 0;
    while start < n && is_space(s.get_char(start))
        invariant
            n == s@.len(),
            start <= n,
            forall|j: int| 0 <= j < start ==> is_space_char(s@[j]),
        decreases n - start,
    {
        start = start + 1;
    }
    proof {
        lemma_trim_start_by_skip(s@, p, start as int);
    }
    if start == n {
        proof {
            assert(s@.skip(n as int) =~= Seq::<char>::empty());
        }
        let r = s.substring_char(n, n);
        proof {
            assert(r@ =~= Seq::<char>::empty());
        }
        return r;
    }
    let mut end: usize = n;
    while end > start && is_space(s.get_char(end - 1))
        invariant
            n == s@.len(),
            start <= end <= n,
            forall|j: int| end <= j < n ==> is_space_char(s@[j]),
        decreases end,
    {
        end = end - 1;
    }
    proof {
        let tail = s@.skip(start as int);
        // the first remaining character is not whitespace, so the front trim stops here
        assert(!p(tail[0]));
        assert(trim_start_by(s@, p) == tail);
        lemma_trim_end_by_take(tail, p, end - start);
        let kept = tail.take(end - start);
        assert(end > start);
        assert(!p(s@[end - 1]));
        assert(kept.len() > 0 && kept.last() == s@[end - 1]);
        assert(trim_end_by(kept, p) == kept);
        assert(kept =~= s@.subrange(start as int, end as int));
    }
    s.substring_char(start, end)
}

// ---------------------------------------------------------------------------
// Substring replacement
// ---------------------------------------------------------------------------

/// Every occurrence of `pat` replaced by `rep`, scanning left to right and
/// never rescanning replaced text, as `str::replace` does for a non-empty
/// pattern.
pub open spec fn replace_spec(s: Seq<char>, pat: Seq<char>, rep: Seq<char>) -> Seq<char>
    decreases s.len(),
{
    if pat.len() == 0 || s.len() == 0 {
        s
    } else if s.len() >= pat.len() && s.take(pat.len() as int) == pat {
        rep + replace_spec(s.skip(pat.len() as int), pat, rep)
    } else {
        seq![s[0]] + replace_spec(s.drop_first(), pat, rep)
    }
}

/// Whether `pat` occurs in `s` at position `i`.
fn window_matches(s: &Vec<char>, i: usize, pat: &Vec<char>) -> (r: bool)
    requires
        i <= s@.len(),
    ensures
        r == (i + pat@.len() <= s@.len() && s@.subrange(
            i as int,
            i as int + pat@.len() as int,
        ) == pat@),
{
    let pn = pat.len();
    let sn = s.len();
    if sn - i < pn {
        return false;
    }
    let mut k: usize = 0;
    while k < pn
        invariant
            pn == pat@.len(),
            sn == s@.len(),
            i + pn <= sn,
            k <= pn,
            forall|j: int| 0 <= j < k ==> s@[i + j] == pat@[j],
        decreases pn - k,
    {
        if s[i + k] != pat[k] {
            proof {
                assert(s@.subrange(i as int, i as int + pn as int)[k as int] != pat@[k as int]);
            }
            return false;
        }
        k = k + 1;
    }
    proof {
        assert(s@.subrange(i as int, i as int + pn as int) =~= pat@);
    }
    true
}

pub fn replace_all(s: &str, pat: &str, rep: &str) -> (r: String)
    requires
        pat@.len() > 0,
    ensures
        r@ == replace_spec(s@, pat@, rep@),
{
    let sv = str_chars(s);
    let pv = str_chars(pat);
    let rv = str_chars(rep);
    let n = sv.len();
    let pn = pv.len();
    let mut out: Vec<char> = Vec::new();
    let mut i: usize = 0;
    proof {
        assert(sv@.skip(0) =~= sv@);
    }
    while i < n
        invariant
            n == sv@.len(),
            pn == pv@.len(),
            pn > 0,
            sv@ == s@,
            pv@ == pat@,
            rv@ == rep@,
            i <= n,
            out@ + replace_spec(sv@.skip(i as int), pat@, rep@) == replace_spec(s@, pat@, rep@),
        decreases n - i,
    {
        let ghost tail = sv@.skip(i as int);
        let ghost out_before = out@;
        if window_matches(&sv, i, &pv) {
            let rn = rv.len();
            let mut k: usize = 0;
            while k < rn
                invariant
                    rn == rv@.len(),
                    k <= rn,
                    out@ == out_before + rv@.take(k as int),
                decreases rn - k,
            {
                out.push(rv[k]);
                k = k + 1;
                proof {
                    assert(out@ =~= out_before + rv@.take(k as int));
                }
            }
            proof {
                assert(rv@.take(rn as int) =~= rep@);
                assert(tail.take(pn as int) =~= sv@.subrange(i as int, i as int + pn as int));
                assert(replace_spec(tail, pat@, rep@) == rep@ + replace_spec(
                    tail.skip(pn as int),
                    pat@,
                    rep@,
                ));
                assert(tail.skip(pn as int) =~= sv@.skip(i as int + pn as int));
                assert(out@ + replace_spec(sv@.skip(i as int + pn as int), pat@, rep@) =~= out_before
                    + replace_spec(tail, pat@, rep@));
            }
            i = i + pn;
        } else {
            out.push(sv[i]);
            proof {
                assert(tail.len() > 0);
                if i + pn <= n {
                    assert(tail.take(pn as int) =~= sv@.subrange(i as int, i as int + pn as int));
                }
                assert(!(tail.len() >= pn && tail.take(pn as int) == pat@));
                assert(replace_spec(tail, pat@, rep@) == seq![tail[0]] + replace_spec(
                    tail.drop_first(),
                    pat@,
                    rep@,
                ));
                assert(tail[0] == sv@[i as int]);
                assert(tail.drop_first() =~= sv@.skip(i as int + 1));
                assert(out@ + replace_spec(sv@.skip(i as int + 1), pat@, rep@) =~= out_before
                    + replace_spec(tail, pat@, rep@));
            }
            i = i + 1;
        }
    }
    proof {
        assert(sv@.skip(n as int) =~= Seq::<char>::empty());
        assert(out@ + Seq::<char>::empty() =~= out@);
    }
    chars_to_string(&out)
}

// ---------------------------------------------------------------------------
// Decimal numbers
// ---------------------------------------------------------------------------

pub open spec fn digit_char(d: nat) -> char {
    (48 + d) as char
}

pub open spec fn digit_of(c: char) -> nat {
    (c as nat - 48) as nat
}

pub open spec fn all_digits(s: Seq<char>) -> bool {
    forall|i: int| 0 <= i < s.len() ==> is_ascii_digit_char(s[i])
}

/// The value of a digit string, most significant digit first.
pub open spec fn digits_val(s: Seq<char>) -> nat
    decreases s.len(),
{
    if s.len() == 0 {
        0
    } else {
        digits_val(s.drop_last()) * 10 + digit_of(s.last())
    }
}

/// The decimal representation of `n`, without sign or leading zeros.
pub open spec fn dec_rep(n: nat) -> Seq<char>
    decreases n,
{
    if n < 10 {
        seq![digit_char(n)]
    } else {
        dec_rep(n / 10).push(digit_char(n % 10))
    }
}

/// A longer digit string never has a smaller value.
pub proof fn lemma_digits_val_prefix(s: Seq<char>, k: int)
    requires
        0 <= k <= s.len(),
    ensures
        digits_val(s) >= digits_val(s.take(k)),
    decreases s.len() - k,
{
    if k < s.len() {
        lemma_digits_val_prefix(s, k + 1);
        assert(s.take(k + 1).drop_last() =~= s.take(k));
        assert(digits_val(s.take(k + 1)) >= digits_val(s.take(k)));
    } else {
        assert(s.take(k) =~= s);
    }
}

/// What `str::parse::<i32>` returns: an optional sign, then at least one
/// digit, and a value within the type's range.
pub open spec fn parse_i32_spec(s: Seq<char>) -> Option<i32> {
    let neg = s.len() > 0 && s[0] == '-';
    let ds = if s.len() > 0 && (s[0] == '+' || s[0] == '-') {
        s.skip(1)
    } else {
        s
    };
    if ds.len() == 0 || !all_digits(ds) {
        None
    } else if neg {
        if digits_val(ds) <= 0x8000_0000 {
            Some((0 - digits_val(ds) as int) as i32)
        } else {
            None
        }
    } else {
        if digits_val(ds) < 0x8000_0000 {
            Some(digits_val(ds) as i32)
        } else {
            None
        }
    }
}

/// What `str::parse::<u8>` returns: an optional plus sign, then at least one
/// digit, and a value of at most 255.
pub open spec fn parse_u8_spec(s: Seq<char>) -> Option<u8> {
    let ds = if s.len() > 0 && s[0] == '+' {
        s.skip(1)
    } else {
        s
    };
    if ds.len() == 0 || !all_digits(ds) {
        None
    } else if digits_val(ds) <= 255 {
        Some(digits_val(ds) as u8)
    } else {
        None
    }
}

pub fn parse_i32(s: &str) -> (r: Option<i32>)
    ensures
        r == parse_i32_spec(s@),
{
    let sv = str_chars(s);
    let n = sv.len();
    let signed = n > 0 && (sv[0] == '+' || sv[0] == '-');
    let neg = n > 0 && sv[0] == '-';
    let start: usize = if signed {
        1
    } else {
        0
    };
    let ghost ds = sv@.skip(start as int);
    proof {
        if !signed {
            assert(ds =~= s@);
        }
    }
    if start >= n {
        proof {
            assert(ds.len() == 0);
        }
        return None;
    }
    let mut acc: u64 = 0;
    let mut i: usize = start;
    while i < n
        invariant
            n == sv@.len(),
            sv@ == s@,
            ds == sv@.skip(start as int),
            signed == (s@.len() > 0 && (s@[0] == '+' || s@[0] == '-')),
            neg == (s@.len() > 0 && s@[0] == '-'),
            start == if signed { 1int } else { 0int },
            ds == if signed { s@.skip(1) } else { s@ },
            start <= i <= n,
            start < n,
            acc == digits_val(ds.take(i - start)),
            acc <= 0x8000_0000,
            forall|j: int| 0 <= j < i - start ==> is_ascii_digit_char(ds[j]),
        decreases n - i,
    {
        let c = sv[i];
        if !('0' <= c && c <= '9') {
            proof {
                assert(ds[i - start] == c);
                assert(!all_digits(ds));
            }
            return None;
        }
        let d: u64 = ((c as u32) - 48) as u64;
        acc = acc * 10 + d;
        i = i + 1;
        proof {
            assert(ds.take(i - start).drop_last() =~= ds.take(i - start - 1));
            assert(ds.take(i - start).last() == c);
        }
        if acc > 0x8000_0000 {
            proof {
                if all_digits(ds) {
                    lemma_digits_val_prefix(ds, i - start);
                }
            }
            return None;
        }
    }
    proof {
        assert(ds.take(n - start) =~= ds);
    }
    if neg {
        Some((-(acc as i64)) as i32)
    } else {
        if acc >= 0x8000_0000 {
            None
        } else {
            Some(acc as i32)
        }
    }
}

pub fn parse_u8(s: &str) -> (r: Option<u8>)
    ensures
        r == parse_u8_spec(s@),
{
    let sv = str_chars(s);
    let n = sv.len();
    let signed = n > 0 && sv[0] == '+';
    let start: usize = if signed {
        1
    } else {
        0
    };
    let ghost ds = sv@.skip(start as int);
    proof {
        if !signed {
            assert(ds =~= s@);
        }
    }
    if start >= n {
        proof {
            assert(ds.len() == 0);
        }
        return None;
    }
    let mut acc: u32 = 0;
    let mut i: usize = start;
    while i < n
        invariant
            n == sv@.len(),
            sv@ == s@,
            ds == sv@.skip(start as int),
            signed == (s@.len() > 0 && s@[0] == '+'),
            start == if signed { 1int } else { 0int },
            ds == if signed { s@.skip(1) } else { s@ },
            start <= i <= n,
            start < n,
            acc == digits_val(ds.take(i - start)),
            acc <= 255,
            forall|j: int| 0 <= j < i - start ==> is_ascii_digit_char(ds[j]),
        decreases n - i,
    {
        let c = sv[i];
        if !('0' <= c && c <= '9') {
            proof {
                assert(ds[i - start] == c);
                assert(!all_digits(ds));
            }
            return None;
        }
        let d: u32 = (c as u32) - 48;
        acc = acc * 10 + d;
        i = i + 1;
        proof {
            assert(ds.take(i - start).drop_last() =~= ds.take(i - start - 1));
            assert(ds.take(i - start).last() == c);
        }
        if acc > 255 {
            proof {
                if all_digits(ds) {
                    lemma_digits_val_prefix(ds, i - start);
                }
            }
            return None;
        }
    }
    proof {
        assert(ds.take(n - start) =~= ds);
    }
    Some(acc as u8)
}

fn digit_char_of(d: u8) -> (r: char)
    requires
        d < 10,
    ensures
        r == digit_char(d as nat),
{
    (48 + d) as char
}

/// The decimal text of a byte-sized number.
pub fn u8_to_string(n: u8) -> (r: String)
    ensures
        r@ == dec_rep(n as nat),
{
    let mut v: Vec<char> = Vec::new();
    if n >= 100 {
        v.push(digit_char_of(n / 100));
        v.push(digit_char_of((n / 10) % 10));
        v.push(digit_char_of(n % 10));
        proof {
            vstd::arithmetic::div_mod::lemma_div_denominator(n as int, 10, 10);
            assert(dec_rep((n / 100) as nat) == seq![digit_char((n / 100) as nat)]);
            assert(dec_rep((n / 10) as nat) == dec_rep((n / 100) as nat).push(
                digit_char(((n / 10) % 10) as nat),
            ));
            assert(v@ =~= dec_rep(n as nat));
        }
    } else if n >= 10 {
        v.push(digit_char_of(n / 10));
        v.push(digit_char_of(n % 10));
        proof {
            assert(dec_rep((n / 10) as nat) == seq![digit_char((n / 10) as nat)]);
            assert(v@ =~= dec_rep(n as nat));
        }
    } else {
        v.push(digit_char_of(n));
        proof {
            assert(v@ =~= dec_rep(n as nat));
        }
    }
    chars_to_string(&v)
}


// ---------------------------------------------------------------------------
// Line splitting
// ---------------------------------------------------------------------------

/// A carriage return at the end of a line is part of the line ending.
pub open spec fn strip_cr(l: Seq<char>) -> Seq<char> {
    if l.len() > 0 && l.last() == '\r' {
        l.drop_last()
    } else {
        l
    }
}

/// The position of the first newline, or the length if there is none.
pub open spec fn first_nl(s: Seq<char>) -> nat
    decreases s.len(),
{
    if s.len() == 0 {
        0
    } else if s[0] == '\n' {
        0
    } else {
        1 + first_nl(s.drop_first())
    }
}

/// A position scanned to be the first newline is `first_nl`.
pub proof fn lemma_first_nl_is(s: Seq<char>, k: int)
    requires
        0 <= k <= s.len(),
        forall|m: int| 0 <= m < k ==> s[m] != '\n',
        k == s.len() || s[k] == '\n',
    ensures
        first_nl(s) == k,
    decreases k,
{
    if k > 0 {
        assert(s.drop_first() =~= s.skip(1));
        lemma_first_nl_is(s.skip(1), k - 1);
    } else {
        if s.len() > 0 {
            assert(s[0] == '\n');
        }
    }
}

/// The lines of a text, as `str::lines` yields them: split at newlines, one
/// trailing carriage return removed per line, no final empty line.
pub open spec fn lines_of(s: Seq<char>) -> Seq<Seq<char>>
    decreases s.len(),
{
    if s.len() == 0 {
        Seq::empty()
    } else {
        let j = first_nl(s) as int;
        if j >= s.len() {
            seq![strip_cr(s)]
        } else {
            seq![strip_cr(s.take(j))] + lines_of(s.skip(j + 1))
        }
    }
}


/// No newline anywhere: the text cannot span lines.
pub open spec fn newline_free(s: Seq<char>) -> bool {
    forall|i: int| 0 <= i < s.len() ==> s[i] != '\n'
}

pub proof fn lemma_newline_free_concat(a: Seq<char>, b: Seq<char>)
    requires
        newline_free(a),
        newline_free(b),
    ensures
        newline_free(a + b),
{
    assert forall|i: int| 0 <= i < (a + b).len() implies (a + b)[i] != '\n' by {
        if i < a.len() {
            assert((a + b)[i] == a[i]);
        } else {
            assert((a + b)[i] == b[i - a.len()]);
        }
    }
}

/// A newline-terminated piece whose content holds no newline and does not end
/// in a carriage return contributes exactly its content as one line.
pub proof fn lemma_lines_of_one(content: Seq<char>, rest: Seq<char>)
    requires
        newline_free(content),
        content.len() > 0 ==> content.last() != '\r',
    ensures
        lines_of(content + seq!['\n'] + rest) == seq![content] + lines_of(rest),
{
    let s = content + seq!['\n'] + rest;
    assert forall|m: int| 0 <= m < content.len() implies s[m] != '\n' by {
        assert(s[m] == content[m]);
    }
    assert(s[content.len() as int] == '\n');
    lemma_first_nl_is(s, content.len() as int);
    assert(s.take(content.len() as int) =~= content);
    assert(strip_cr(content) == content);
    assert(s.skip(content.len() as int + 1) =~= rest);
    assert(lines_of(s) == seq![strip_cr(s.take(content.len() as int))] + lines_of(
        s.skip(content.len() as int + 1),
    ));
}

/// Splits a text into its lines.
pub fn split_lines(text: &str) -> (r: Vec<String>)
    ensures
        r.deep_view() == lines_of(text@),
{
    let tv = str_chars(text);
    let n = tv.len();
    let mut r: Vec<String> = Vec::new();
    let mut i: usize = 0;
    proof {
        assert(r.deep_view() =~~= Seq::<Seq<char>>::empty());
        assert(tv@.skip(0) =~= tv@);
    }
    while i < n
        invariant
            n == tv@.len(),
            tv@ == text@,
            i <= n,
            r.deep_view() + lines_of(tv@.skip(i as int)) == lines_of(text@),
        decreases n - i,
    {
        let ghost rest = tv@.skip(i as int);
        let ghost r_before = r.deep_view();
        let mut j: usize = i;
        while j < n && tv[j] != '\n'
            invariant
                n == tv@.len(),
                i <= j <= n,
                forall|k: int| i <= k < j ==> tv@[k] != '\n',
            decreases n - j,
        {
            j = j + 1;
        }
        proof {
            lemma_first_nl_is(rest, j - i);
        }
        let mut end = j;
        if end > i && tv[end - 1] == '\r' {
            end = end - 1;
        }
        let mut line: Vec<char> = Vec::new();
        let mut k: usize = i;
        while k < end
            invariant
                i <= k <= end <= n,
                n == tv@.len(),
                line@ == tv@.subrange(i as int, k as int),
            decreases end - k,
        {
            line.push(tv[k]);
            k = k + 1;
            proof {
                assert(line@ =~= tv@.subrange(i as int, k as int));
            }
        }
        let owned = chars_to_string(&line);
        r.push(owned);
        proof {
            let li = tv@.subrange(i as int, end as int);
            if j < n {
                assert(rest.take(j - i) =~= tv@.subrange(i as int, j as int));
                assert(strip_cr(rest.take(j - i)) =~= li);
                assert(rest.skip(j - i + 1) =~= tv@.skip(j as int + 1));
                assert(lines_of(rest) == seq![strip_cr(rest.take(j - i))] + lines_of(
                    rest.skip(j - i + 1),
                ));
                assert(r.deep_view() =~~= r_before.push(li));
                assert(r.deep_view() + lines_of(tv@.skip(j as int + 1)) =~~= lines_of(text@));
            } else {
                assert(first_nl(rest) >= rest.len());
                assert(strip_cr(rest) =~= li);
                assert(lines_of(rest) == seq![strip_cr(rest)]);
                assert(r.deep_view() =~~= r_before.push(li));
                assert(tv@.skip(n as int) =~= Seq::<char>::empty());
                assert(r.deep_view() + lines_of(tv@.skip(n as int)) =~~= lines_of(text@));
            }
        }
        if j < n {
            i = j + 1;
        } else {
            i = n;
        }
    }
    proof {
        assert(tv@.skip(n as int) =~= Seq::<char>::empty());
        assert(r.deep_view() + Seq::<Seq<char>>::empty() =~~= r.deep_view());
    }
    r
}

} // verus!
