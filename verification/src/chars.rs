//! Character classes, ASCII case folding, and small `Vec<char>` utilities
//! that the pattern compiler and the hyphenators build on.

use vstd::prelude::*;

verus! {

// --- character classes --------------------------------------------------

/// An ASCII decimal digit, `'0'` through `'9'`.
pub open spec fn is_dec_digit(c: char) -> bool {
    48 <= c as u32 && c as u32 <= 57
}

/// The numeric value of a decimal digit.
pub open spec fn digit_val(c: char) -> nat {
    (c as u32 - 48) as nat
}

/// A lower-case hexadecimal digit, `'0'`-`'9'` or `'a'`-`'f'`.
pub open spec fn is_hex_digit(c: char) -> bool {
    is_dec_digit(c) || (97 <= c as u32 && c as u32 <= 102)
}

/// The numeric value of a lower-case hexadecimal digit.
pub open spec fn hex_val(c: char) -> nat {
    if is_dec_digit(c) {
        digit_val(c)
    } else {
        (c as u32 - 87) as nat
    }
}

/// The character an escape `^^h1h2` stands for: the byte named by the two
/// hexadecimal digits, read as a code point.
pub open spec fn hex_char(h1: char, h2: char) -> char {
    ((hex_val(h1) * 16 + hex_val(h2)) as u8) as char
}

pub fn dec_digit(c: char) -> (r: bool)
    ensures
        r == is_dec_digit(c),
{
    let u = c as u32;
    48 <= u && u <= 57
}

pub fn dec_digit_value(c: char) -> (r: usize)
    requires
        is_dec_digit(c),
    ensures
        r == digit_val(c),
{
    (c as u32 - 48) as usize
}

pub fn hex_digit(c: char) -> (r: bool)
    ensures
        r == is_hex_digit(c),
{
    let u = c as u32;
    (48 <= u && u <= 57) || (97 <= u && u <= 102)
}

pub fn hex_char_value(h1: char, h2: char) -> (r: char)
    requires
        is_hex_digit(h1),
        is_hex_digit(h2),
    ensures
        r == hex_char(h1, h2),
{
    let a = if 48 <= h1 as u32 && h1 as u32 <= 57 {
        h1 as u32 - 48
    } else {
        h1 as u32 - 87
    };
    let b = if 48 <= h2 as u32 && h2 as u32 <= 57 {
        h2 as u32 - 48
    } else {
        h2 as u32 - 87
    };
    ((a * 16 + b) as u8) as char
}

// --- ASCII case folding ---------------------------------------------------

/// ASCII lower-casing of one character; anything outside `'A'`-`'Z'` is kept.
pub open spec fn lower_char(c: char) -> char {
    if 65 <= c as u32 && c as u32 <= 90 {
        ((c as u32 + 32) as u8) as char
    } else {
        c
    }
}

/// ASCII upper-casing of one character; anything outside `'a'`-`'z'` is kept.
pub open spec fn upper_char(c: char) -> char {
    if 97 <= c as u32 && c as u32 <= 122 {
        ((c as u32 - 32) as u8) as char
    } else {
        c
    }
}

/// ASCII lower-casing of a character sequence.
pub open spec fn lower_seq(s: Seq<char>) -> Seq<char> {
    s.map_values(|c: char| lower_char(c))
}

/// ASCII upper-casing of a character sequence.
pub open spec fn upper_seq(s: Seq<char>) -> Seq<char> {
    s.map_values(|c: char| upper_char(c))
}

/// Lower-casing is idempotent: folding an already folded word changes nothing.
pub proof fn lemma_lower_idempotent(s: Seq<char>)
    ensures
        lower_seq(lower_seq(s)) == lower_seq(s),
{
    assert(lower_seq(lower_seq(s)) =~= lower_seq(s));
}

/// An upper-cased character is fixed under upper-casing.
pub proof fn lemma_upper_fixed(c: char)
    ensures
        upper_char(upper_char(c)) == upper_char(c),
{
}

pub fn to_lower_char(c: char) -> (r: char)
    ensures
        r == lower_char(c),
{
    let u = c as u32;
    if 65 <= u && u <= 90 {
        ((u + 32) as u8) as char
    } else {
        c
    }
}

pub fn to_upper_char(c: char) -> (r: char)
    ensures
        r == upper_char(c),
{
    let u = c as u32;
    if 97 <= u && u <= 122 {
        ((u - 32) as u8) as char
    } else {
        c
    }
}

pub fn lower_chars(v: &Vec<char>) -> (r: Vec<char>)
    ensures
        r@ == lower_seq(v@),
{
    let mut r: Vec<char> = Vec::new();
    let mut i: usize = 0;
    while i < v.len()
        invariant
            i <= v@.len(),
            r@.len() == i,
            forall|k: int| 0 <= k < i ==> r@[k] == lower_char(v@[k]),
        decreases v@.len() - i,
    {
        r.push(to_lower_char(v[i]));
        i = i + 1;
    }
    assert(r@ =~= lower_seq(v@));
    r
}

pub fn upper_chars(v: &Vec<char>) -> (r: Vec<char>)
    ensures
        r@ == upper_seq(v@),
{
    let mut r: Vec<char> = Vec::new();
    let mut i: usize = 0;
    while i < v.len()
        invariant
            i <= v@.len(),
            r@.len() == i,
            forall|k: int| 0 <= k < i ==> r@[k] == upper_char(v@[k]),
        decreases v@.len() - i,
    {
        r.push(to_upper_char(v[i]));
        i = i + 1;
    }
    assert(r@ =~= upper_seq(v@));
    r
}

/// Whether a word is its own ASCII upper-casing, i.e. all upper case.
pub open spec fn is_upper_word(s: Seq<char>) -> bool {
    s == upper_seq(s)
}

pub fn all_upper(v: &Vec<char>) -> (r: bool)
    ensures
        r == is_upper_word(v@),
{
    let mut i: usize = 0;
    while i < v.len()
        invariant
            i <= v@.len(),
            forall|k: int| 0 <= k < i ==> v@[k] == upper_char(v@[k]),
        decreases v@.len() - i,
    {
        if v[i] != to_upper_char(v[i]) {
            assert(v@[i as int] != upper_seq(v@)[i as int]);
            return false;
        }
        i = i + 1;
    }
    assert(v@ =~= upper_seq(v@));
    true
}

// --- conversions between &str, String and Vec<char> -----------------------

pub fn str_to_chars(s: &str) -> (r: Vec<char>)
    ensures
        r@ == s@,
{
    let n = s.unicode_len();
    let mut r: Vec<char> = Vec::new();
    let mut i: usize = 0;
    while i < n
        invariant
            n == s@.len(),
            i <= n,
            r@.len() == i,
            forall|k: int| 0 <= k < i ==> r@[k] == s@[k],
        decreases n - i,
    {
        r.push(s.get_char(i));
        i = i + 1;
    }
    assert(r@ =~= s@);
    r
}

/// Relies on `String`'s `FromIterator<char>`: collecting characters yields a
/// string whose characters are exactly those collected, in order.
#[verifier::external_body]
pub(crate) fn chars_to_string(v: &Vec<char>) -> (r: String)
    ensures
        r@ == v@,
{
    v.iter().collect()
}

// --- small Vec<char> helpers ----------------------------------------------

pub fn sub_chars(v: &Vec<char>, i: usize, j: usize) -> (r: Vec<char>)
    requires
        i <= j <= v@.len(),
    ensures
        r@ == v@.subrange(i as int, j as int),
{
    let mut r: Vec<char> = Vec::new();
    let mut k: usize = i;
    while k < j
        invariant
            i <= k <= j <= v@.len(),
            r@.len() == k - i,
            forall|t: int| 0 <= t < k - i ==> r@[t] == v@[i + t],
        decreases j - k,
    {
        r.push(v[k]);
        k = k + 1;
    }
    assert(r@ =~= v@.subrange(i as int, j as int));
    r
}

pub fn push_all(dst: &mut Vec<char>, src: &Vec<char>)
    ensures
        final(dst)@ == old(dst)@ + src@,
{
    let mut k: usize = 0;
    while k < src.len()
        invariant
            k <= src@.len(),
            dst@ == old(dst)@ + src@.subrange(0, k as int),
        decreases src@.len() - k,
    {
        dst.push(src[k]);
        assert(dst@ =~= old(dst)@ + src@.subrange(0, k + 1));
        k = k + 1;
    }
    assert(dst@ =~= old(dst)@ + src@);
}

/// `v` with the characters at `[at, at + del)` replaced by `ins`.
pub fn splice_chars(v: &Vec<char>, at: usize, del: usize, ins: &Vec<char>) -> (r: Vec<char>)
    requires
        at + del <= v@.len(),
    ensures
        r@ == v@.subrange(0, at as int) + ins@ + v@.subrange(at + del, v@.len() as int),
{
    let n = v.len();
    let mut r = sub_chars(v, 0, at);
    push_all(&mut r, ins);
    let tail = sub_chars(v, at + del, n);
    push_all(&mut r, &tail);
    r
}

pub fn chars_equal(a: &Vec<char>, b: &Vec<char>) -> (r: bool)
    ensures
        r == (a@ == b@),
{
    if a.len() != b.len() {
        return false;
    }
    let mut t: usize = 0;
    while t < a.len()
        invariant
            t <= a@.len(),
            a@.len() == b@.len(),
            forall|u: int| 0 <= u < t ==> a@[u] == b@[u],
        decreases a@.len() - t,
    {
        if a[t] != b[t] {
            return false;
        }
        t = t + 1;
    }
    assert(a@ =~= b@);
    true
}

// --- locating a character --------------------------------------------------

/// The index of the first occurrence of `c` in `s`, if any.
pub open spec fn find_char(s: Seq<char>, c: char) -> Option<int>
    decreases s.len(),
{
    if s.len() == 0 {
        None
    } else if s[0] == c {
        Some(0int)
    } else {
        match find_char(s.drop_first(), c) {
            Some(j) => Some(j + 1),
            None => None,
        }
    }
}

/// What `find_char` returns: the first index holding `c`, or nothing.
pub proof fn lemma_find_char(s: Seq<char>, c: char)
    ensures
        match find_char(s, c) {
            Some(j) => 0 <= j < s.len() && s[j] == c && forall|k: int| 0 <= k < j ==> s[k] != c,
            None => forall|k: int| 0 <= k < s.len() ==> s[k] != c,
        },
    decreases s.len(),
{
    if s.len() > 0 && s[0] != c {
        let t = s.drop_first();
        lemma_find_char(t, c);
        assert(forall|k: int| 1 <= k < s.len() ==> s[k] == #[trigger] t[k - 1]);
        match find_char(t, c) {
            Some(j) => {
                assert(s[j + 1] == t[j]);
                assert forall|k: int| 0 <= k < j + 1 implies s[k] != c by {
                    if k >= 1 {
                        assert(s[k] == t[k - 1]);
                    }
                }
            },
            None => {
                assert forall|k: int| 0 <= k < s.len() implies s[k] != c by {
                    if k >= 1 {
                        assert(s[k] == t[k - 1]);
                    }
                }
            },
        }
    }
}

/// `find_char` answers `Some(k)` exactly when `k` is the first index holding `c`.
pub proof fn lemma_find_char_is(s: Seq<char>, c: char, k: int)
    requires
        0 <= k < s.len(),
        s[k] == c,
        forall|t: int| 0 <= t < k ==> s[t] != c,
    ensures
        find_char(s, c) == Some(k),
{
    lemma_find_char(s, c);
    match find_char(s, c) {
        Some(j) => {
            if j < k {
                assert(s[j] != c);
            }
            if j > k {
                assert(s[k] != c);
            }
        },
        None => {
            assert(s[k] != c);
        },
    }
}

/// `find_char` answers `None` exactly when no index holds `c`.
pub proof fn lemma_find_char_missing(s: Seq<char>, c: char)
    requires
        forall|t: int| 0 <= t < s.len() ==> s[t] != c,
    ensures
        find_char(s, c) is None,
{
    lemma_find_char(s, c);
    if find_char(s, c) is Some {
        let j = find_char(s, c)->Some_0;
        assert(s[j] == c);
    }
}

pub fn find_char_at(v: &Vec<char>, c: char) -> (r: Option<usize>)
    ensures
        match r {
            Some(j) => find_char(v@, c) == Some(j as int),
            None => find_char(v@, c) is None,
        },
{
    let mut i: usize = 0;
    while i < v.len()
        invariant
            i <= v@.len(),
            forall|k: int| 0 <= k < i ==> v@[k] != c,
        decreases v@.len() - i,
    {
        if v[i] == c {
            proof {
                lemma_find_char(v@, c);
                match find_char(v@, c) {
                    Some(j) => {
                        assert(v@[j] == c);
                        assert(j == i as int);
                    },
                    None => {
                        assert(v@[i as int] == c);
                    },
                }
            }
            return Some(i);
        }
        i = i + 1;
    }
    proof {
        lemma_find_char(v@, c);
        if find_char(v@, c) is Some {
            let j = find_char(v@, c)->Some_0;
            assert(v@[j] == c);
        }
    }
    None
}

// --- splitting on a separator ----------------------------------------------

/// The pieces of `s` between occurrences of `sep`, separators removed.
/// A sequence without a separator is one piece; `n` separators give `n + 1`
/// pieces, possibly empty ones.
pub open spec fn split_seq(s: Seq<char>, sep: char) -> Seq<Seq<char>>
    decreases s.len(),
{
    match find_char(s, sep) {
        None => seq![s],
        Some(i) => {
            if 0 <= i < s.len() {
                seq![s.subrange(0, i)] + split_seq(s.subrange(i + 1, s.len() as int), sep)
            } else {
                seq![s]
            }
        },
    }
}

/// The views of a vector of character vectors.
pub open spec fn piece_views(s: Seq<Vec<char>>) -> Seq<Seq<char>> {
    s.map_values(|p: Vec<char>| p@)
}

pub fn split_chars(v: &Vec<char>, sep: char) -> (r: Vec<Vec<char>>)
    ensures
        piece_views(r@) == split_seq(v@, sep),
{
    let mut done: Vec<Vec<char>> = Vec::new();
    let mut cur: Vec<char> = Vec::new();
    let mut start: usize = 0;
    let mut p: usize = 0;
    proof {
        assert(v@.subrange(0, v@.len() as int) =~= v@);
        assert(piece_views(done@) + split_seq(v@, sep) =~= split_seq(v@, sep));
    }
    while p < v.len()
        invariant
            start <= p <= v@.len(),
            cur@ == v@.subrange(start as int, p as int),
            forall|t: int| start <= t < p ==> v@[t] != sep,
            piece_views(done@) + split_seq(v@.subrange(start as int, v@.len() as int), sep)
                == split_seq(v@, sep),
        decreases v@.len() - p,
    {
        if v[p] == sep {
            proof {
                let rest = v@.subrange(start as int, v@.len() as int);
                assert(rest[p - start] == sep);
                assert(forall|t: int| 0 <= t < p - start ==> rest[t] != sep);
                lemma_find_char_is(rest, sep, p - start);
                assert(rest.subrange(0, p - start) =~= v@.subrange(start as int, p as int));
                assert(rest.subrange(p - start + 1, rest.len() as int) =~= v@.subrange(
                    p + 1,
                    v@.len() as int,
                ));
                assert(piece_views(done@.push(cur)) =~= piece_views(done@) + seq![cur@]);
                assert(piece_views(done@.push(cur)) + split_seq(
                    v@.subrange(p + 1, v@.len() as int),
                    sep,
                ) =~= split_seq(v@, sep));
            }
            done.push(cur);
            cur = Vec::new();
            start = p + 1;
            assert(cur@ =~= v@.subrange(start as int, p + 1));
        } else {
            cur.push(v[p]);
            assert(cur@ =~= v@.subrange(start as int, p + 1));
        }
        p = p + 1;
    }
    proof {
        let rest = v@.subrange(start as int, v@.len() as int);
        assert(forall|t: int| 0 <= t < rest.len() ==> rest[t] != sep);
        lemma_find_char_missing(rest, sep);
        assert(cur@ =~= rest);
        assert(piece_views(done@.push(cur)) =~= piece_views(done@) + seq![cur@]);
        assert(piece_views(done@.push(cur)) =~= split_seq(v@, sep));
    }
    done.push(cur);
    done
}

// --- decimal number parsing --------------------------------------------------

/// A non-empty run of decimal digits.
pub open spec fn is_digit_run(s: Seq<char>) -> bool {
    s.len() > 0 && forall|i: int| 0 <= i < s.len() ==> is_dec_digit(s[i])
}

/// The number a run of decimal digits names, most significant digit first.
pub open spec fn digits_val(s: Seq<char>) -> nat
    decreases s.len(),
{
    if s.len() == 0 {
        0
    } else {
        digits_val(s.drop_last()) * 10 + digit_val(s.last())
    }
}

/// A longer digit prefix never names a smaller number.
proof fn lemma_digits_val_grows(s: Seq<char>, i: int, j: int)
    requires
        0 <= i <= j <= s.len(),
    ensures
        digits_val(s.subrange(0, i)) <= digits_val(s.subrange(0, j)),
    decreases j - i,
{
    if i < j {
        lemma_digits_val_grows(s, i, j - 1);
        assert(s.subrange(0, j).drop_last() =~= s.subrange(0, j - 1));
        assert(digits_val(s.subrange(0, j)) == digits_val(s.subrange(0, j - 1)) * 10 + digit_val(
            s.subrange(0, j).last(),
        ));
        assert(digits_val(s.subrange(0, j - 1)) <= digits_val(s.subrange(0, j - 1)) * 10 + digit_val(
            s.subrange(0, j).last(),
        )) by (nonlinear_arith);
    }
}

/// Whether a field is a valid unsigned number: all digits, value in range.
pub open spec fn parse_usize_ok(s: Seq<char>) -> bool {
    is_digit_run(s) && digits_val(s) <= usize::MAX
}

pub fn parse_usize_chars(v: &Vec<char>) -> (r: Option<usize>)
    ensures
        r is Some <==> parse_usize_ok(v@),
        r is Some ==> r->Some_0 as nat == digits_val(v@),
{
    if v.len() == 0 {
        return None;
    }
    let mut acc: usize = 0;
    let mut i: usize = 0;
    while i < v.len()
        invariant
            0 < v@.len(),
            i <= v@.len(),
            forall|k: int| 0 <= k < i ==> is_dec_digit(v@[k]),
            acc as nat == digits_val(v@.subrange(0, i as int)),
        decreases v@.len() - i,
    {
        let c = v[i];
        if !dec_digit(c) {
            return None;
        }
        let d = dec_digit_value(c);
        if acc > (usize::MAX - d) / 10 {
            proof {
                assert(acc * 10 + d > usize::MAX) by (nonlinear_arith)
                    requires
                        acc > (usize::MAX - d) / 10,
                        d <= usize::MAX,
                ;
                assert(v@.subrange(0, i + 1).drop_last() =~= v@.subrange(0, i as int));
                assert(digits_val(v@.subrange(0, i + 1)) == acc * 10 + d);
                lemma_digits_val_grows(v@, i + 1, v@.len() as int);
                assert(v@.subrange(0, v@.len() as int) =~= v@);
            }
            return None;
        }
        proof {
            assert(acc * 10 + d <= usize::MAX) by (nonlinear_arith)
                requires
                    acc <= (usize::MAX - d) / 10,
                    d <= usize::MAX,
            ;
            assert(v@.subrange(0, i + 1).drop_last() =~= v@.subrange(0, i as int));
        }
        acc = acc * 10 + d;
        i = i + 1;
    }
    assert(v@.subrange(0, v@.len() as int) =~= v@);
    Some(acc)
}

/// Whether a field is a valid signed number: an optional sign, then digits,
/// with a value that fits the signed machine range.
pub open spec fn parse_isize_ok(s: Seq<char>) -> bool {
    if s.len() > 0 && (s[0] == '-' || s[0] == '+') {
        let m = s.drop_first();
        is_digit_run(m) && (if s[0] == '-' {
            digits_val(m) <= isize::MAX as nat + 1
        } else {
            digits_val(m) <= isize::MAX as nat
        })
    } else {
        is_digit_run(s) && digits_val(s) <= isize::MAX as nat
    }
}

/// The number a valid signed field names.
pub open spec fn parse_isize_val(s: Seq<char>) -> int {
    if s.len() > 0 && s[0] == '-' {
        -(digits_val(s.drop_first()) as int)
    } else if s.len() > 0 && s[0] == '+' {
        digits_val(s.drop_first()) as int
    } else {
        digits_val(s) as int
    }
}

pub fn parse_isize_chars(v: &Vec<char>) -> (r: Option<isize>)
    ensures
        r is Some <==> parse_isize_ok(v@),
        r is Some ==> r->Some_0 as int == parse_isize_val(v@),
{
    let n = v.len();
    if n == 0 {
        return None;
    }
    let first = v[0];
    let signed = first == '-' || first == '+';
    let mag_part = if signed {
        sub_chars(v, 1, n)
    } else {
        sub_chars(v, 0, n)
    };
    proof {
        if signed {
            assert(mag_part@ =~= v@.drop_first());
        } else {
            assert(mag_part@ =~= v@);
        }
    }
    let mag = match parse_usize_chars(&mag_part) {
        Some(m) => m,
        None => {
            proof {
                if parse_isize_ok(v@) {
                    assert(digits_val(mag_part@) <= usize::MAX) by {
                        assert(isize::MAX as nat + 1 <= usize::MAX);
                    }
                }
            }
            return None;
        },
    };
    if first == '-' {
        if mag <= isize::MAX as usize {
            Some(-(mag as isize))
        } else if mag == isize::MAX as usize + 1 {
            Some(isize::MIN)
        } else {
            None
        }
    } else {
        if mag <= isize::MAX as usize {
            Some(mag as isize)
        } else {
            None
        }
    }
}

} // verus!
