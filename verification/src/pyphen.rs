//! The hyphenator: a compiled pattern table together with the minimum number
//! of characters that must remain before and after any accepted break point,
//! and the word-rewriting operations built on the break points.

use vstd::prelude::*;

use crate::chars;
use crate::data_int::{di_views, DataInt, DataIntV};
use crate::hyph_dict::{spec_positions, HyphDict, HyphDictV};

pub mod builder;
pub mod iter;

verus! {

/// Hyphenation class, with methods to hyphenate strings in various ways.
pub struct Pyphen {
    left: usize,
    right: usize,
    hd: HyphDict,
}

/// The mathematical value of a [`Pyphen`].
#[verifier::ext_equal]
pub ghost struct PyphenV {
    pub left: nat,
    pub right: nat,
    pub dict: HyphDictV,
}

impl View for Pyphen {
    type V = PyphenV;

    closed spec fn view(&self) -> PyphenV {
        PyphenV { left: self.left as nat, right: self.right as nat, dict: self.hd@ }
    }
}

/// The break points kept by the boundary filter: at least `left` characters
/// before the break and at least `right` after it.
pub open spec fn filter_pos(ps: Seq<DataIntV>, left: nat, right: nat, wlen: nat) -> Seq<DataIntV>
    decreases ps.len(),
{
    if ps.len() == 0 {
        Seq::empty()
    } else {
        (if left <= ps[0].value && ps[0].value + right <= wlen {
            seq![ps[0]]
        } else {
            Seq::<DataIntV>::empty()
        }) + filter_pos(ps.drop_first(), left, right, wlen)
    }
}

/// The filtered break points of a word under a hyphenator.
pub open spec fn spec_pyphen_positions(v: PyphenV, w: Seq<char>) -> Seq<DataIntV> {
    filter_pos(spec_positions(v.dict, w), v.left, v.right, w.len())
}

/// The filter keeps only in-range break points and preserves strict ascent.
proof fn lemma_filter_props(ps: Seq<DataIntV>, left: nat, right: nat, wlen: nat)
    requires
        forall|a: int, b: int| 0 <= a < b < ps.len() ==> ps[a].value < ps[b].value,
    ensures
        forall|t: int|
            0 <= t < filter_pos(ps, left, right, wlen).len() ==> left <= (#[trigger] filter_pos(
                ps,
                left,
                right,
                wlen,
            )[t]).value && filter_pos(ps, left, right, wlen)[t].value + right <= wlen,
        forall|a: int, b: int|
            0 <= a < b < filter_pos(ps, left, right, wlen).len() ==> filter_pos(
                ps,
                left,
                right,
                wlen,
            )[a].value < filter_pos(ps, left, right, wlen)[b].value,
        forall|t: int|
            0 <= t < filter_pos(ps, left, right, wlen).len() ==> ps.len() > 0 && ps[0].value
                <= (#[trigger] filter_pos(ps, left, right, wlen)[t]).value,
    decreases ps.len(),
{
    if ps.len() > 0 {
        let tail = ps.drop_first();
        assert(forall|a: int| 0 <= a < tail.len() ==> #[trigger] tail[a] == ps[a + 1]);
        lemma_filter_props(tail, left, right, wlen);
        let ft = filter_pos(tail, left, right, wlen);
        let f = filter_pos(ps, left, right, wlen);
        if left <= ps[0].value && ps[0].value + right <= wlen {
            assert(f[0] == ps[0]);
            assert(forall|a: int| 1 <= a < f.len() ==> #[trigger] f[a] == ft[a - 1]);
            assert(forall|t: int|
                0 <= t < ft.len() ==> ps[0].value < (#[trigger] ft[t]).value);
        } else {
            assert(f =~= ft);
            assert(forall|t: int|
                0 <= t < ft.len() ==> ps[0].value < (#[trigger] ft[t]).value);
        }
    }
}

// --- resolving a nonstandard rule against a word -----------------------------

/// The substitution text split at its first `=`: the part before it, and the
/// part between the first `=` and the next one (or the end).  Text without an
/// `=` keeps its whole self as the first part.
pub open spec fn split_first_eq(ch: Seq<char>) -> (Seq<char>, Seq<char>) {
    match chars::find_char(ch, '=') {
        Option::None => (ch, Seq::<char>::empty()),
        Option::Some(i) => {
            let rest = ch.subrange(i + 1, ch.len() as int);
            let c2 = match chars::find_char(rest, '=') {
                Option::None => rest,
                Option::Some(j) => rest.subrange(0, j),
            };
            (ch.subrange(0, i), c2)
        },
    }
}

/// Where a rule's substitution lands: the index offset is added to the break
/// position, and a negative result counts from the end of the word.
pub open spec fn resolve_at(value: nat, index: int, len: nat) -> int {
    let r0 = value + index;
    if r0 < 0 {
        len + r0
    } else {
        r0
    }
}

/// The substitution text in the case class of the word.
pub open spec fn cased_change(change: Seq<char>, up: bool) -> Seq<char> {
    if up {
        chars::upper_seq(change)
    } else {
        change
    }
}

/// The (prefix, suffix) candidate one break point yields.  A plain point
/// splits the word there.  A ruled point splices the two halves of the
/// substitution text around the resolved index, deleting `cut` characters; a
/// rule that resolves outside the word falls back to the plain split.
pub open spec fn spec_pair(w: Seq<char>, p: DataIntV, up: bool) -> (Seq<char>, Seq<char>) {
    match p.data {
        Option::None => (
            w.subrange(0, p.value as int),
            w.subrange(p.value as int, w.len() as int),
        ),
        Option::Some(rule) => {
            let ch = cased_change(rule.change, up);
            let parts = split_first_eq(ch);
            let rs = resolve_at(p.value, rule.index, w.len());
            if 0 <= rs && rs + rule.cut <= w.len() {
                (
                    w.subrange(0, rs) + parts.0,
                    parts.1 + w.subrange(rs + rule.cut, w.len() as int),
                )
            } else {
                (w.subrange(0, p.value as int), w.subrange(p.value as int, w.len() as int))
            }
        },
    }
}

pub(crate) fn resolve_index(value: usize, index: isize, len: usize) -> (r: Option<usize>)
    ensures
        match r {
            Option::Some(rs) => 0 <= resolve_at(value as nat, index as int, len as nat)
                <= len as int && rs as int == resolve_at(value as nat, index as int, len as nat),
            Option::None => !(0 <= resolve_at(value as nat, index as int, len as nat)
                <= len as int),
        },
{
    let mut rv: i128 = value as i128 + index as i128;
    if rv < 0 {
        rv = len as i128 + rv;
    }
    if 0 <= rv && rv <= len as i128 {
        Some(rv as usize)
    } else {
        None
    }
}

fn split_eq(ch: &Vec<char>) -> (r: (Vec<char>, Vec<char>))
    ensures
        (r.0@, r.1@) == split_first_eq(ch@),
{
    match chars::find_char_at(ch, '=') {
        None => {
            let n = ch.len();
            let c1 = chars::sub_chars(ch, 0, n);
            proof {
                assert(c1@ =~= ch@);
            }
            (c1, Vec::new())
        },
        Some(i) => {
            proof {
                chars::lemma_find_char(ch@, '=');
            }
            let n = ch.len();
            let c1 = chars::sub_chars(ch, 0, i);
            let rest = chars::sub_chars(ch, i + 1, n);
            let c2 = match chars::find_char_at(&rest, '=') {
                None => rest,
                Some(j) => {
                    proof {
                        chars::lemma_find_char(rest@, '=');
                    }
                    chars::sub_chars(&rest, 0, j)
                },
            };
            (c1, c2)
        },
    }
}

/// The candidate pair one break point yields, as strings.
pub(crate) fn make_pair(word: &Vec<char>, p: &DataInt, up: bool) -> (r: (String, String))
    requires
        p@.value <= word@.len(),
    ensures
        (r.0@, r.1@) == spec_pair(word@, p@, up),
{
    let n = word.len();
    match &p.data {
        None => {
            let a = chars::sub_chars(word, 0, p.value);
            let b = chars::sub_chars(word, p.value, n);
            (chars::chars_to_string(&a), chars::chars_to_string(&b))
        },
        Some(rule) => {
            let chv = chars::str_to_chars(rule.change.as_str());
            let ch = if up {
                chars::upper_chars(&chv)
            } else {
                chv
            };
            let parts = split_eq(&ch);
            match resolve_index(p.value, rule.index, n) {
                Some(rs) => {
                    if rule.cut <= n - rs {
                        let mut a = chars::sub_chars(word, 0, rs);
                        chars::push_all(&mut a, &parts.0);
                        let mut b = parts.1;
                        let tail = chars::sub_chars(word, rs + rule.cut, n);
                        chars::push_all(&mut b, &tail);
                        (chars::chars_to_string(&a), chars::chars_to_string(&b))
                    } else {
                        let a = chars::sub_chars(word, 0, p.value);
                        let b = chars::sub_chars(word, p.value, n);
                        (chars::chars_to_string(&a), chars::chars_to_string(&b))
                    }
                },
                None => {
                    let a = chars::sub_chars(word, 0, p.value);
                    let b = chars::sub_chars(word, p.value, n);
                    (chars::chars_to_string(&a), chars::chars_to_string(&b))
                },
            }
        },
    }
}

// --- insertion and wrapping ----------------------------------------------------

/// The substitution text with every `=` replaced by the hyphen text.
pub open spec fn replace_eq(s: Seq<char>, h: Seq<char>) -> Seq<char>
    decreases s.len(),
{
    if s.len() == 0 {
        Seq::empty()
    } else {
        (if s[0] == '=' {
            h
        } else {
            seq![s[0]]
        }) + replace_eq(s.drop_first(), h)
    }
}

fn replace_eq_chars(s: &Vec<char>, h: &Vec<char>) -> (r: Vec<char>)
    ensures
        r@ == replace_eq(s@, h@),
{
    let mut r: Vec<char> = Vec::new();
    let mut t: usize = 0;
    proof {
        assert(s@.subrange(0, s@.len() as int) =~= s@);
        assert(r@ + replace_eq(s@, h@) =~= replace_eq(s@, h@));
    }
    while t < s.len()
        invariant
            t <= s@.len(),
            replace_eq(s@, h@) == r@ + replace_eq(s@.subrange(t as int, s@.len() as int), h@),
        decreases s@.len() - t,
    {
        let ghost rest = s@.subrange(t as int, s@.len() as int);
        proof {
            assert(rest[0] == s@[t as int]);
            assert(rest.drop_first() =~= s@.subrange(t + 1, s@.len() as int));
        }
        if s[t] == '=' {
            chars::push_all(&mut r, h);
        } else {
            r.push(s[t]);
            proof {
                assert(r@ =~= r@.drop_last() + seq![s@[t as int]]);
            }
        }
        t = t + 1;
    }
    assert(s@.subrange(s@.len() as int, s@.len() as int) =~= Seq::<char>::empty());
    assert(r@ =~= r@ + replace_eq(Seq::<char>::empty(), h@));
    r
}

/// One break applied to the evolving word: a plain point inserts the hyphen
/// text at its offset; a ruled point splices in the substitution text, with
/// `=` replaced by the hyphen text, deleting `cut` characters at the resolved
/// index.  A break that no longer fits the evolving word leaves it unchanged.
pub open spec fn apply_one(cur: Seq<char>, p: DataIntV, h: Seq<char>, up: bool) -> Seq<char> {
    match p.data {
        Option::None => {
            if p.value <= cur.len() {
                cur.subrange(0, p.value as int) + h + cur.subrange(
                    p.value as int,
                    cur.len() as int,
                )
            } else {
                cur
            }
        },
        Option::Some(rule) => {
            let ch = cased_change(rule.change, up);
            let rs = resolve_at(p.value, rule.index, cur.len());
            if 0 <= rs && rs + rule.cut <= cur.len() {
                cur.subrange(0, rs) + replace_eq(ch, h) + cur.subrange(
                    rs + rule.cut,
                    cur.len() as int,
                )
            } else {
                cur
            }
        },
    }
}

/// All breaks applied, the largest offset first, so an earlier splice does not
/// shift a break not yet applied.
pub open spec fn apply_breaks(w: Seq<char>, ps: Seq<DataIntV>, h: Seq<char>, up: bool) -> Seq<
    char,
>
    decreases ps.len(),
{
    if ps.len() == 0 {
        w
    } else {
        apply_one(apply_breaks(w, ps.drop_first(), h, up), ps[0], h, up)
    }
}

/// The word with every break applied, hyphen text `h`.
pub open spec fn spec_inserted(v: PyphenV, w: Seq<char>, h: Seq<char>) -> Seq<char> {
    apply_breaks(w, spec_pyphen_positions(v, w), h, chars::is_upper_word(w))
}

/// The first candidate, walking the break points from the largest offset
/// down, whose prefix fits in `avail` characters; the hyphen text is already
/// appended to the prefix.
pub open spec fn wrap_scan(
    w: Seq<char>,
    ps: Seq<DataIntV>,
    avail: int,
    up: bool,
    h: Seq<char>,
) -> Option<(Seq<char>, Seq<char>)>
    decreases ps.len(),
{
    if ps.len() == 0 {
        Option::None
    } else {
        let pr = spec_pair(w, ps.last(), up);
        if pr.0.len() <= avail {
            Option::Some((pr.0 + h, pr.1))
        } else {
            wrap_scan(w, ps.drop_last(), avail, up, h)
        }
    }
}

/// What wrapping yields: nothing when the width cannot even hold the hyphen
/// text, else the longest-prefix candidate that fits in `width` with the
/// hyphen appended.
pub open spec fn spec_wrap(v: PyphenV, w: Seq<char>, width: int, h: Seq<char>) -> Option<
    (Seq<char>, Seq<char>),
> {
    if width < h.len() {
        Option::None
    } else {
        wrap_scan(w, spec_pyphen_positions(v, w), width - h.len(), chars::is_upper_word(w), h)
    }
}

// --- stated laws ---------------------------------------------------------------

/// Strictly ascending break offsets.
pub open spec fn ascending(ps: Seq<DataIntV>) -> bool {
    forall|a: int, b: int| 0 <= a < b < ps.len() ==> ps[a].value < ps[b].value
}

/// Break points without rule metadata.
pub open spec fn all_plain(ps: Seq<DataIntV>) -> bool {
    forall|t: int| 0 <= t < ps.len() ==> (#[trigger] ps[t]).data is None
}

/// Iteration order: with strictly ascending break points, the point visited
/// next (the last remaining one) lies strictly above every point left after
/// it, so the candidates come in strictly descending offset order.
pub proof fn lemma_iterate_descending(ps: Seq<DataIntV>)
    requires
        ascending(ps),
        ps.len() > 0,
    ensures
        forall|t: int|
            0 <= t < ps.drop_last().len() ==> (#[trigger] ps.drop_last()[t]).value
                < ps.last().value,
{
}

/// A sequence with `h` inserted at `at` and removed there again is itself.
pub open spec fn remove_at(s: Seq<char>, at: int, k: int) -> Seq<char> {
    s.subrange(0, at) + s.subrange(at + k, s.len() as int)
}

/// The inverse of applying the breaks: remove the hyphen-sized slice at each
/// break offset, front to back.
pub open spec fn strip_breaks(s: Seq<char>, ps: Seq<DataIntV>, h: Seq<char>) -> Seq<char>
    decreases ps.len(),
{
    if ps.len() == 0 {
        s
    } else {
        strip_breaks(remove_at(s, ps[0].value as int, h.len() as int), ps.drop_first(), h)
    }
}

/// With only plain break points every insertion goes through, so each break
/// adds exactly one hyphen's worth of characters.
proof fn lemma_apply_breaks_plain_len(w: Seq<char>, ps: Seq<DataIntV>, h: Seq<char>, up: bool)
    requires
        all_plain(ps),
        forall|t: int| 0 <= t < ps.len() ==> (#[trigger] ps[t]).value <= w.len(),
    ensures
        apply_breaks(w, ps, h, up).len() == w.len() + ps.len() * h.len(),
    decreases ps.len(),
{
    if ps.len() == 0 {
        assert(ps.len() * h.len() == 0) by (nonlinear_arith)
            requires
                ps.len() == 0,
        ;
    } else {
        let tail = ps.drop_first();
        assert(forall|t: int| 0 <= t < tail.len() ==> #[trigger] tail[t] == ps[t + 1]);
        lemma_apply_breaks_plain_len(w, tail, h, up);
        let q = apply_breaks(w, tail, h, up);
        assert(tail.len() * h.len() >= 0) by (nonlinear_arith);
        assert(ps[0].value <= q.len());
        assert(q.len() + h.len() == w.len() + ps.len() * h.len()) by (nonlinear_arith)
            requires
                q.len() == w.len() + tail.len() * h.len(),
                tail.len() + 1 == ps.len(),
        ;
    }
}

/// Round-trip insertion: with only plain break points, removing the inserted
/// hyphen slice at each break offset, front to back, reconstructs the word
/// exactly.
pub proof fn lemma_round_trip_insertion(w: Seq<char>, ps: Seq<DataIntV>, h: Seq<char>, up: bool)
    requires
        all_plain(ps),
        forall|t: int| 0 <= t < ps.len() ==> (#[trigger] ps[t]).value <= w.len(),
    ensures
        strip_breaks(apply_breaks(w, ps, h, up), ps, h) == w,
    decreases ps.len(),
{
    if ps.len() > 0 {
        let tail = ps.drop_first();
        assert(forall|t: int| 0 <= t < tail.len() ==> #[trigger] tail[t] == ps[t + 1]);
        lemma_round_trip_insertion(w, tail, h, up);
        lemma_apply_breaks_plain_len(w, tail, h, up);
        let q = apply_breaks(w, tail, h, up);
        let v = ps[0].value as int;
        assert(tail.len() * h.len() >= 0) by (nonlinear_arith);
        assert(v <= q.len());
        let r = apply_breaks(w, ps, h, up);
        assert(r == q.subrange(0, v) + h + q.subrange(v, q.len() as int));
        assert(remove_at(r, v, h.len() as int) =~= q);
    }
}

/// No candidate fits: scanning answers nothing.
proof fn lemma_wrap_scan_none(w: Seq<char>, ps: Seq<DataIntV>, avail: int, up: bool, h: Seq<char>)
    requires
        forall|t: int|
            0 <= t < ps.len() ==> spec_pair(w, #[trigger] ps[t], up).0.len() > avail,
    ensures
        wrap_scan(w, ps, avail, up, h) is None,
    decreases ps.len(),
{
    if ps.len() > 0 {
        assert(forall|t: int| 0 <= t < ps.len() - 1 ==> #[trigger] ps.drop_last()[t] == ps[t]);
        lemma_wrap_scan_none(w, ps.drop_last(), avail, up, h);
    }
}

/// Some candidate fits: scanning answers a pair.
proof fn lemma_wrap_scan_some(w: Seq<char>, ps: Seq<DataIntV>, avail: int, up: bool, h: Seq<char>)
    requires
        exists|t: int| 0 <= t < ps.len() && spec_pair(w, #[trigger] ps[t], up).0.len() <= avail,
    ensures
        wrap_scan(w, ps, avail, up, h) is Some,
    decreases ps.len(),
{
    if ps.len() > 0 {
        let pr = spec_pair(w, ps.last(), up);
        if pr.0.len() > avail {
            let t = choose|t: int|
                0 <= t < ps.len() && spec_pair(w, #[trigger] ps[t], up).0.len() <= avail;
            assert(t < ps.len() - 1);
            assert(ps.drop_last()[t] == ps[t]);
            lemma_wrap_scan_some(w, ps.drop_last(), avail, up, h);
        }
    }
}

/// Case class of candidates: for an all-upper-case word every candidate pair
/// is all upper case too — the substitution text is upper-cased along with
/// the word.
pub proof fn lemma_pair_case_class(w: Seq<char>, p: DataIntV)
    requires
        chars::is_upper_word(w),
        p.value <= w.len(),
    ensures
        chars::is_upper_word(spec_pair(w, p, true).0),
        chars::is_upper_word(spec_pair(w, p, true).1),
{
    assert(forall|k: int|
        0 <= k < w.len() ==> w[k] == chars::upper_char(#[trigger] w[k])) by {
        assert(forall|k: int|
            0 <= k < w.len() ==> #[trigger] w[k] == chars::upper_seq(w)[k]);
    }
    assert forall|c: char| #[trigger]
        chars::upper_char(chars::upper_char(c)) == chars::upper_char(c) by {
        chars::lemma_upper_fixed(c);
    }
    let pr = spec_pair(w, p, true);
    match p.data {
        Option::None => {
            assert(pr.0 =~= chars::upper_seq(pr.0));
            assert(pr.1 =~= chars::upper_seq(pr.1));
        },
        Option::Some(rule) => {
            let ch = chars::upper_seq(rule.change);
            assert(forall|k: int|
                0 <= k < ch.len() ==> ch[k] == chars::upper_char(#[trigger] ch[k]));
            chars::lemma_find_char(ch, '=');
            if chars::find_char(ch, '=') is Some {
                let i = chars::find_char(ch, '=')->Some_0;
                chars::lemma_find_char(ch.subrange(i + 1, ch.len() as int), '=');
            }
            let parts = split_first_eq(ch);
            assert(forall|k: int|
                0 <= k < parts.0.len() ==> parts.0[k] == chars::upper_char(
                    #[trigger] parts.0[k],
                ));
            assert(forall|k: int|
                0 <= k < parts.1.len() ==> parts.1[k] == chars::upper_char(
                    #[trigger] parts.1[k],
                ));
            assert(pr.0 =~= chars::upper_seq(pr.0));
            assert(pr.1 =~= chars::upper_seq(pr.1));
        },
    }
}

/// Wrap monotonicity, failing side: when the width is below every candidate's
/// prefix-plus-hyphen length, wrapping answers nothing.
pub proof fn lemma_wrap_none(v: PyphenV, w: Seq<char>, width: int, h: Seq<char>)
    requires
        forall|t: int|
            0 <= t < spec_pyphen_positions(v, w).len() ==> spec_pair(
                w,
                #[trigger] spec_pyphen_positions(v, w)[t],
                chars::is_upper_word(w),
            ).0.len() + h.len() > width,
    ensures
        spec_wrap(v, w, width, h) is None,
{
    if width >= h.len() {
        lemma_wrap_scan_none(
            w,
            spec_pyphen_positions(v, w),
            width - h.len(),
            chars::is_upper_word(w),
            h,
        );
    }
}

/// Wrap monotonicity, succeeding side: a word with at least one plain break
/// point wraps at any width of at least the word's length plus the hyphen's.
pub proof fn lemma_wrap_some(v: PyphenV, w: Seq<char>, width: int, h: Seq<char>, t: int)
    requires
        0 <= t < spec_pyphen_positions(v, w).len(),
        spec_pyphen_positions(v, w)[t].data is None,
        spec_pyphen_positions(v, w)[t].value <= w.len(),
        width >= w.len() + h.len(),
    ensures
        spec_wrap(v, w, width, h) is Some,
{
    let ps = spec_pyphen_positions(v, w);
    let up = chars::is_upper_word(w);
    assert(spec_pair(w, ps[t], up).0.len() <= w.len());
    lemma_wrap_scan_some(w, ps, width - h.len(), up, h);
}

impl Pyphen {
    /// A hyphenator over a compiled dictionary with the given minimum
    /// syllable lengths.
    pub fn new(hd: HyphDict, left: usize, right: usize) -> (r: Pyphen)
        ensures
            r@ == (PyphenV { left: left as nat, right: right as nat, dict: hd@ }),
    {
        Pyphen { left, right, hd }
    }

    /// Get a list of positions where the word can be hyphenated.  The points
    /// that are too far to the left or right are removed; what remains is
    /// strictly ascending, and every offset keeps at least `left` characters
    /// before it and `right` after it.
    pub fn positions(&self, word: &str) -> (r: Vec<DataInt>)
        requires
            word@.len() + 3 <= usize::MAX,
        ensures
            di_views(r@) == spec_pyphen_positions(self@, word@),
            forall|t: int|
                0 <= t < r@.len() ==> self@.left <= (#[trigger] r@[t])@.value && (r@[t])@.value
                    + self@.right <= word@.len(),
            forall|a: int, b: int| 0 <= a < b < r@.len() ==> (r@[a])@.value < (r@[b])@.value,
    {
        let base = self.hd.positions(word);
        let ghost bv = di_views(base@);
        let wlen = word.unicode_len();
        let mut out: Vec<DataInt> = Vec::new();
        let mut t: usize = 0;
        let n = base.len();
        proof {
            assert(bv.subrange(0, n as int) =~= bv);
            assert(di_views(out@) + filter_pos(
                bv.subrange(0, n as int),
                self@.left,
                self@.right,
                word@.len(),
            ) =~= filter_pos(bv, self@.left, self@.right, word@.len()));
        }
        while t < n
            invariant
                t <= n,
                n == base@.len(),
                wlen == word@.len(),
                bv == di_views(base@),
                di_views(out@) + filter_pos(
                    bv.subrange(t as int, n as int),
                    self@.left,
                    self@.right,
                    word@.len(),
                ) == filter_pos(bv, self@.left, self@.right, word@.len()),
            decreases n - t,
        {
            let ghost rest = bv.subrange(t as int, n as int);
            proof {
                assert(rest[0] == bv[t as int]);
                assert(rest.drop_first() =~= bv.subrange(t + 1, n as int));
            }
            let v = base[t].value;
            if v >= self.left && v <= wlen && self.right <= wlen - v {
                let nv = DataInt::with_ref(v, &base[t]);
                out.push(nv);
                proof {
                    assert(nv@ =~= bv[t as int]);
                    assert(di_views(out@) =~= di_views(out@.drop_last()) + seq![nv@]);
                    assert(di_views(out@) + filter_pos(
                        bv.subrange(t + 1, n as int),
                        self@.left,
                        self@.right,
                        word@.len(),
                    ) =~= filter_pos(bv, self@.left, self@.right, word@.len()));
                }
            } else {
                proof {
                    assert(di_views(out@) + filter_pos(
                        bv.subrange(t + 1, n as int),
                        self@.left,
                        self@.right,
                        word@.len(),
                    ) =~= filter_pos(bv, self@.left, self@.right, word@.len()));
                }
            }
            t = t + 1;
        }
        proof {
            assert(bv.subrange(n as int, n as int) =~= Seq::<DataIntV>::empty());
            assert(di_views(out@) =~= filter_pos(bv, self@.left, self@.right, word@.len()));
            crate::hyph_dict::lemma_points_from_ascending(
                crate::hyph_dict::scanned(self@.dict, chars::lower_seq(word@)),
                1,
            );
            lemma_filter_props(bv, self@.left, self@.right, word@.len());
            assert(forall|u: int|
                0 <= u < out@.len() ==> (#[trigger] out@[u])@ == di_views(out@)[u]);
        }
        out
    }

    /// Iterate over all hyphenation possibilities, the longest first.
    pub fn iterate(&self, word: &str) -> (r: crate::pyphen::iter::Iter)
        requires
            word@.len() + 3 <= usize::MAX,
        ensures
            r.word_v() == word@,
            r.upper_v() == chars::is_upper_word(word@),
            r.remaining() == spec_pyphen_positions(self@, word@),
    {
        let ps = self.positions(word);
        let wchars = chars::str_to_chars(word);
        let up = chars::all_upper(&wchars);
        crate::pyphen::iter::Iter::make(wchars, up, ps)
    }

    /// Get the longest possible first part and the last part of a word; the
    /// first part has the hyphen already attached.  Answers nothing when no
    /// candidate prefix, hyphen included, fits within `width`.
    pub fn wrap_with(&self, word: &str, width: usize, hyphen: &str) -> (r: Option<
        (String, String),
    >)
        requires
            word@.len() + 3 <= usize::MAX,
        ensures
            match r {
                Option::Some(p) => spec_wrap(self@, word@, width as int, hyphen@) == Option::Some(
                    (p.0@, p.1@),
                ),
                Option::None => spec_wrap(self@, word@, width as int, hyphen@) is None,
            },
    {
        let hlen = hyphen.unicode_len();
        if width < hlen {
            return None;
        }
        let avail = width - hlen;
        let ps = self.positions(word);
        let ghost pv = di_views(ps@);
        let wchars = chars::str_to_chars(word);
        let up = chars::all_upper(&wchars);
        let mut t = ps.len();
        proof {
            assert(pv.take(t as int) =~= pv);
        }
        while t > 0
            invariant
                t <= ps@.len(),
                pv == di_views(ps@),
                pv == spec_pyphen_positions(self@, word@),
                wchars@ == word@,
                up == chars::is_upper_word(word@),
                hlen <= width,
                avail == width - hlen,
                hlen == hyphen@.len(),
                forall|u: int| 0 <= u < ps@.len() ==> (#[trigger] ps@[u])@.value <= word@.len(),
                wrap_scan(word@, pv.take(t as int), avail as int, up, hyphen@) == wrap_scan(
                    word@,
                    pv,
                    avail as int,
                    up,
                    hyphen@,
                ),
            decreases t,
        {
            t = t - 1;
            proof {
                assert(pv.take(t + 1).last() == ps@[t as int]@);
                assert(pv.take(t + 1).drop_last() =~= pv.take(t as int));
            }
            let pair = make_pair(&wchars, &ps[t], up);
            if pair.0.unicode_len() <= avail {
                let joined = pair.0.concat(hyphen);
                proof {
                    let pr = spec_pair(word@, pv.take(t + 1).last(), up);
                    assert(pr.0.len() <= avail as int);
                    assert(wrap_scan(word@, pv.take(t + 1), avail as int, up, hyphen@)
                        == Option::Some((pr.0 + hyphen@, pr.1)));
                    assert(joined@ == pr.0 + hyphen@);
                    assert(spec_wrap(self@, word@, width as int, hyphen@) == Option::Some(
                        (pr.0 + hyphen@, pr.1),
                    ));
                }
                return Some((joined, pair.1));
            }
        }
        proof {
            assert(pv.take(0) =~= Seq::<DataIntV>::empty());
        }
        None
    }

    /// Get the longest possible first part and the last part of a word, with
    /// `"-"` as the hyphen.
    pub fn wrap(&self, word: &str, width: usize) -> (r: Option<(String, String)>)
        requires
            word@.len() + 3 <= usize::MAX,
        ensures
            match r {
                Option::Some(p) => spec_wrap(self@, word@, width as int, seq!['-']) == Option::Some(
                    (p.0@, p.1@),
                ),
                Option::None => spec_wrap(self@, word@, width as int, seq!['-']) is None,
            },
    {
        let hyphen = "-";
        proof {
            reveal_strlit("-");
            assert(hyphen@ =~= seq!['-']);
        }
        self.wrap_with(word, width, hyphen)
    }

    /// Get the word as a string with all the possible hyphens inserted.
    pub fn inserted_with(&self, word: &str, hyphen: &str) -> (r: String)
        requires
            word@.len() + 3 <= usize::MAX,
        ensures
            r@ == spec_inserted(self@, word@, hyphen@),
    {
        let ps = self.positions(word);
        let ghost pv = di_views(ps@);
        let mut wl = chars::str_to_chars(word);
        let up = chars::all_upper(&wl);
        let hv = chars::str_to_chars(hyphen);
        let n = ps.len();
        let mut t = n;
        proof {
            assert(pv.subrange(t as int, n as int) =~= Seq::<DataIntV>::empty());
        }
        while t > 0
            invariant
                t <= n,
                n == ps@.len(),
                pv == di_views(ps@),
                up == chars::is_upper_word(word@),
                hv@ == hyphen@,
                wl@ == apply_breaks(word@, pv.subrange(t as int, n as int), hyphen@, up),
            decreases t,
        {
            t = t - 1;
            let ghost prev = wl@;
            let p = &ps[t];
            match &p.data {
                None => {
                    if p.value <= wl.len() {
                        wl = chars::splice_chars(&wl, p.value, 0, &hv);
                    }
                },
                Some(rule) => {
                    let chv = chars::str_to_chars(rule.change.as_str());
                    let ch = if up {
                        chars::upper_chars(&chv)
                    } else {
                        chv
                    };
                    let repl = replace_eq_chars(&ch, &hv);
                    let len = wl.len();
                    match resolve_index(p.value, rule.index, len) {
                        Some(rs) => {
                            if rule.cut <= len - rs {
                                wl = chars::splice_chars(&wl, rs, rule.cut, &repl);
                            }
                        },
                        None => {},
                    }
                },
            }
            proof {
                assert(wl@ == apply_one(prev, pv[t as int], hyphen@, up));
                assert(pv.subrange(t as int, n as int)[0] == pv[t as int]);
                assert(pv.subrange(t as int, n as int).drop_first() =~= pv.subrange(
                    t + 1,
                    n as int,
                ));
            }
        }
        proof {
            assert(pv.subrange(0, n as int) =~= pv);
        }
        chars::chars_to_string(&wl)
    }

    /// Get the word as a string with all the possible hyphens inserted, with
    /// `"-"` as the hyphen.
    pub fn inserted(&self, word: &str) -> (r: String)
        requires
            word@.len() + 3 <= usize::MAX,
        ensures
            r@ == spec_inserted(self@, word@, seq!['-']),
    {
        let hyphen = "-";
        proof {
            reveal_strlit("-");
            assert(hyphen@ =~= seq!['-']);
        }
        self.inserted_with(word, hyphen)
    }
}

} // verus!
