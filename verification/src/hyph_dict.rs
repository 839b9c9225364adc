//! Hyphenation patterns: compiling a dictionary text into a lookup table and
//! scanning words against it.
//!
//! A dictionary line is a pattern: literal characters with decimal digit
//! weights between them (an absent digit is weight zero).  A line may carry a
//! `/change,index,cut` suffix describing nonstandard hyphenation.  Compilation
//! trims the all-zero borders of each weight sequence and keys the rest by the
//! pattern's literal text; scanning overlays every matching substring of the
//! dot-padded word, keeping the greater weight at each slot, and the positions
//! with an odd final weight are the break points.

use vstd::prelude::*;

use crate::alternative_parser::{alt_ok, alt_parser_v, AlternativeParser, AlternativeParserV};
use crate::chars;
use crate::data_int::{di_views, DataInt, DataIntV, RuleV};

verus! {

// --- the table ------------------------------------------------------------

/// One compiled pattern: the literal key, how many leading zero weights were
/// trimmed, and the surviving weight sequence.
pub struct PatternEntry {
    pub key: Vec<char>,
    pub offset: usize,
    pub values: Vec<DataInt>,
}

/// The mathematical value of a compiled pattern.
#[verifier::ext_equal]
pub ghost struct PatternV {
    pub offset: nat,
    pub values: Seq<DataIntV>,
}

/// The mathematical value of a [`PatternEntry`].
pub open spec fn entry_v(e: PatternEntry) -> PatternV {
    PatternV { offset: e.offset as nat, values: di_views(e.values@) }
}

/// Compiled hyphenation patterns.
pub struct HyphDict {
    entries: Vec<PatternEntry>,
    maxlen: usize,
}

/// The mathematical value of a [`HyphDict`]: a map from pattern keys to
/// compiled patterns, and the length of the longest key, which bounds the
/// scanning window.
#[verifier::ext_equal]
pub ghost struct HyphDictV {
    pub pmap: Map<Seq<char>, PatternV>,
    pub maxlen: nat,
}

/// The map a sequence of entries denotes; a later entry with the same key
/// replaces an earlier one.
pub open spec fn entries_map(s: Seq<PatternEntry>) -> Map<Seq<char>, PatternV>
    decreases s.len(),
{
    if s.len() == 0 {
        Map::empty()
    } else {
        entries_map(s.drop_last()).insert(s.last().key@, entry_v(s.last()))
    }
}

/// No two entries share a key.
pub open spec fn unique_keys(s: Seq<PatternEntry>) -> bool {
    forall|i: int, j: int| 0 <= i < j < s.len() ==> s[i].key@ != s[j].key@
}

impl View for HyphDict {
    type V = HyphDictV;

    closed spec fn view(&self) -> HyphDictV {
        HyphDictV { pmap: entries_map(self.entries@), maxlen: self.maxlen as nat }
    }
}

impl HyphDict {
    #[verifier::type_invariant]
    closed spec fn inv(&self) -> bool {
        &&& unique_keys(self.entries@)
        &&& forall|i: int|
            0 <= i < self.entries@.len() ==> self.entries@[i].key@.len() <= self.maxlen as nat
    }
}

/// With unique keys, the denoted map holds exactly the entries' keys, each
/// bound to its own entry.
proof fn lemma_entries_map(s: Seq<PatternEntry>)
    requires
        unique_keys(s),
    ensures
        forall|k: Seq<char>|
            entries_map(s).contains_key(k) <==> exists|i: int| 0 <= i < s.len() && s[i].key@ == k,
        forall|i: int|
            0 <= i < s.len() ==> entries_map(s).contains_key(#[trigger] s[i].key@)
                && entries_map(s)[s[i].key@] == entry_v(s[i]),
    decreases s.len(),
{
    if s.len() > 0 {
        let t = s.drop_last();
        assert(unique_keys(t)) by {
            assert(forall|i: int, j: int|
                0 <= i < j < t.len() ==> #[trigger] t[i] == s[i] && #[trigger] t[j] == s[j]);
        }
        lemma_entries_map(t);
        assert forall|k: Seq<char>| entries_map(s).contains_key(k) implies exists|i: int|
            0 <= i < s.len() && s[i].key@ == k by {
            if k != s.last().key@ {
                assert(entries_map(t).contains_key(k));
                let i = choose|i: int| 0 <= i < t.len() && t[i].key@ == k;
                assert(t[i] == s[i]);
                assert(s[i].key@ == k);
            } else {
                assert(s[s.len() - 1].key@ == k);
            }
        }
        assert forall|i: int| 0 <= i < s.len() implies entries_map(s).contains_key(
            #[trigger] s[i].key@,
        ) && entries_map(s)[s[i].key@] == entry_v(s[i]) by {
            if i < s.len() - 1 {
                assert(t[i] == s[i]);
                assert(s[i].key@ != s.last().key@);
            }
        }
    }
}

// --- line grammar -----------------------------------------------------------

/// What one dictionary line yields: a malformed alternative suffix, nothing
/// (a comment, a blank, or a pattern with only zero weights), or a compiled
/// entry.
#[verifier::ext_equal]
pub ghost enum LineParse {
    Bad,
    Skip,
    Entry { key: Seq<char>, offset: nat, values: Seq<DataIntV> },
}

/// A line with every `^^hh` escape (two lower-case hex digits) replaced by the
/// character it names, scanning left to right.
pub open spec fn hex_unescape(s: Seq<char>) -> Seq<char>
    decreases s.len(),
{
    if s.len() == 0 {
        Seq::empty()
    } else if s.len() >= 4 && s[0] == '^' && s[1] == '^' && chars::is_hex_digit(s[2])
        && chars::is_hex_digit(s[3]) {
        seq![chars::hex_char(s[2], s[3])] + hex_unescape(s.subrange(4, s.len() as int))
    } else {
        seq![s[0]] + hex_unescape(s.drop_first())
    }
}

/// The alternating (digit, literal) pairs of a base pattern from position `p`
/// on: a digit (defaulting to zero) followed by at most one literal character,
/// closed by one final empty pair.
pub open spec fn pairs_from(b: Seq<char>, p: int) -> Seq<(nat, Option<char>)>
    decreases b.len() - p,
{
    if p >= b.len() {
        seq![(0nat, Option::<char>::None)]
    } else if chars::is_dec_digit(b[p]) {
        if p + 1 < b.len() && !chars::is_dec_digit(b[p + 1]) {
            seq![(chars::digit_val(b[p]), Option::Some(b[p + 1]))] + pairs_from(b, p + 2)
        } else {
            seq![(chars::digit_val(b[p]), Option::<char>::None)] + pairs_from(b, p + 1)
        }
    } else {
        seq![(0nat, Option::Some(b[p]))] + pairs_from(b, p + 1)
    }
}

/// The literal characters of the pairs, concatenated: the pattern's key.
pub open spec fn key_of(ps: Seq<(nat, Option<char>)>) -> Seq<char>
    decreases ps.len(),
{
    if ps.len() == 0 {
        Seq::empty()
    } else {
        key_of(ps.drop_last()) + (match ps.last().1 {
            Option::Some(c) => seq![c],
            Option::None => Seq::<char>::empty(),
        })
    }
}

/// The countdown value an alternative parser holds after `k` calls.
pub open spec fn counted_down(start: int, k: int) -> int {
    if start - k > isize::MIN as int {
        start - k
    } else {
        isize::MIN as int
    }
}

/// The weights of the pairs.  With an alternative parser active, the `n`-th
/// pair's odd digit carries the rule, tagged with the countdown value after
/// `n + 1` calls.
pub open spec fn token_values(
    ps: Seq<(nat, Option<char>)>,
    alt: Option<AlternativeParserV>,
) -> Seq<DataIntV> {
    Seq::new(
        ps.len(),
        |n: int|
            DataIntV {
                value: ps[n].0,
                data: match alt {
                    Option::Some(a) => {
                        if ps[n].0 % 2 == 1 {
                            Option::Some(
                                RuleV {
                                    change: a.change,
                                    index: counted_down(a.index, n + 1),
                                    cut: a.cut,
                                },
                            )
                        } else {
                            Option::None
                        }
                    },
                    Option::None => Option::None,
                },
            },
    )
}

/// All weights zero: the pattern carries no information.
pub open spec fn all_zero(vs: Seq<DataIntV>) -> bool {
    forall|n: int| 0 <= n < vs.len() ==> vs[n].value == 0
}

/// The index of the first nonzero weight.
pub open spec fn first_nonzero(vs: Seq<DataIntV>) -> int
    decreases vs.len(),
{
    if vs.len() == 0 {
        0
    } else if vs[0].value != 0 {
        0
    } else {
        1 + first_nonzero(vs.drop_first())
    }
}

/// The index of the last nonzero weight, or `-1` if there is none.
pub open spec fn last_nonzero(vs: Seq<DataIntV>) -> int
    decreases vs.len(),
{
    if vs.len() == 0 {
        -1
    } else if vs.last().value != 0 {
        vs.len() - 1
    } else {
        last_nonzero(vs.drop_last())
    }
}

/// Trim the all-zero borders of the weight sequence; a pattern that is all
/// zeros is dropped.
pub open spec fn trim_entry(key: Seq<char>, vs: Seq<DataIntV>) -> LineParse {
    if all_zero(vs) {
        LineParse::Skip
    } else {
        LineParse::Entry {
            key,
            offset: first_nonzero(vs) as nat,
            values: vs.subrange(first_nonzero(vs), last_nonzero(vs) + 1),
        }
    }
}

/// Tokenize a base pattern under an optional alternative parser and trim it.
pub open spec fn tokenized(base: Seq<char>, alt: Option<AlternativeParserV>) -> LineParse {
    trim_entry(key_of(pairs_from(base, 0)), token_values(pairs_from(base, 0), alt))
}

/// What one dictionary line yields.  Comments and blanks are skipped; escapes
/// are substituted first; text after the first `/` is the alternative suffix,
/// which must be well formed; the base pattern before it is tokenized.
pub open spec fn parse_line(l: Seq<char>) -> LineParse {
    if l.len() == 0 || l[0] == '%' || l[0] == '#' {
        LineParse::Skip
    } else {
        let h = hex_unescape(l);
        match chars::find_char(h, '/') {
            Option::Some(ix) => {
                let base = h.subrange(0, ix);
                let alt = h.subrange(ix + 1, h.len() as int);
                if alt_ok(base, alt) {
                    tokenized(base, Option::Some(alt_parser_v(base, alt)))
                } else {
                    LineParse::Bad
                }
            },
            Option::None => tokenized(h, Option::None),
        }
    }
}

// --- line parsing, executable ------------------------------------------------

fn hex_unescape_exec(l: &Vec<char>) -> (r: Vec<char>)
    ensures
        r@ == hex_unescape(l@),
{
    let mut r: Vec<char> = Vec::new();
    let mut p: usize = 0;
    proof {
        assert(l@.subrange(0, l@.len() as int) =~= l@);
    }
    while p < l.len()
        invariant
            p <= l@.len(),
            hex_unescape(l@) == r@ + hex_unescape(l@.subrange(p as int, l@.len() as int)),
        decreases l@.len() - p,
    {
        let ghost rest = l@.subrange(p as int, l@.len() as int);
        if l.len() - p > 3 && l[p] == '^' && l[p + 1] == '^' && chars::hex_digit(l[p + 2])
            && chars::hex_digit(l[p + 3]) {
            r.push(chars::hex_char_value(l[p + 2], l[p + 3]));
            proof {
                assert(rest.subrange(4, rest.len() as int) =~= l@.subrange(
                    p + 4,
                    l@.len() as int,
                ));
                assert(r@ + hex_unescape(l@.subrange(p + 4, l@.len() as int)) =~= (r@.drop_last()
                    + seq![chars::hex_char(rest[2], rest[3])]) + hex_unescape(
                    rest.subrange(4, rest.len() as int),
                ));
            }
            p = p + 4;
        } else {
            r.push(l[p]);
            proof {
                assert(rest.drop_first() =~= l@.subrange(p + 1, l@.len() as int));
                assert(r@ + hex_unescape(l@.subrange(p + 1, l@.len() as int)) =~= (r@.drop_last()
                    + seq![rest[0]]) + hex_unescape(rest.drop_first()));
            }
            p = p + 1;
        }
    }
    assert(l@.subrange(l@.len() as int, l@.len() as int) =~= Seq::<char>::empty());
    assert(r@ =~= r@ + hex_unescape(Seq::<char>::empty()));
    r
}

/// Tokenize a base pattern with an active alternative parser.
fn tokenize_with(base: &Vec<char>, ap: &mut AlternativeParser) -> (r: (Vec<char>, Vec<DataInt>))
    ensures
        r.0@ == key_of(pairs_from(base@, 0)),
        di_views(r.1@) == token_values(pairs_from(base@, 0), Option::Some(old(ap)@)),
{
    let ghost a0 = ap@;
    let ghost ps = pairs_from(base@, 0);
    let ghost tv = token_values(ps, Option::Some(a0));
    let mut key: Vec<char> = Vec::new();
    let mut values: Vec<DataInt> = Vec::new();
    let ghost mut done: Seq<(nat, Option<char>)> = Seq::empty();
    let mut p: usize = 0;
    proof {
        ap.lemma_index_in_range();
        assert(done + pairs_from(base@, 0) =~= ps);
    }
    while p < base.len()
        invariant
            p <= base@.len(),
            ps == done + pairs_from(base@, p as int),
            tv == token_values(ps, Option::Some(a0)),
            key@ == key_of(done),
            values@.len() == done.len(),
            done.len() <= ps.len(),
            forall|n: int| 0 <= n < done.len() ==> (#[trigger] values@[n])@ == tv[n],
            ap@.change == a0.change,
            ap@.cut == a0.cut,
            ap@.index == counted_down(a0.index, done.len() as int),
        decreases base@.len() - p,
    {
        let c = base[p];
        let d: usize;
        let text: Option<char>;
        if chars::dec_digit(c) {
            d = chars::dec_digit_value(c);
            if p + 1 < base.len() && !chars::dec_digit(base[p + 1]) {
                text = Some(base[p + 1]);
                p = p + 2;
            } else {
                text = None;
                p = p + 1;
            }
        } else {
            d = 0;
            text = Some(c);
            p = p + 1;
        }
        let ghost pr = (d as nat, text);
        let ghost n = done.len() as int;
        proof {
            assert(ps[n] == pr);
        }
        let value = ap.call(&DataInt::new(d, None));
        values.push(value);
        match text {
            Some(t) => key.push(t),
            None => (),
        }
        proof {
            let done0 = done;
            done = done.push(pr);
            assert(ps =~= done + pairs_from(base@, p as int));
            assert(done.drop_last() =~= done0);
            assert(done.last() == pr);
            assert(key@ =~= key_of(done));
            assert(value@ == tv[n]);
        }
    }
    // the final empty pair
    let ghost pr = (0nat, Option::<char>::None);
    let ghost n = done.len() as int;
    proof {
        assert(pairs_from(base@, p as int) =~= seq![pr]);
        assert(ps =~= done.push(pr));
        assert(ps[n] == pr);
    }
    let value = ap.call(&DataInt::new(0, None));
    values.push(value);
    proof {
        let done0 = done;
        done = done.push(pr);
        assert(done.drop_last() =~= done0);
        assert(done.last() == pr);
        assert(key@ =~= key_of(done));
        assert(value@ == tv[n]);
        assert(di_views(values@) =~= tv);
    }
    (key, values)
}

/// Tokenize a base pattern without an alternative suffix.
fn tokenize_plain(base: &Vec<char>) -> (r: (Vec<char>, Vec<DataInt>))
    ensures
        r.0@ == key_of(pairs_from(base@, 0)),
        di_views(r.1@) == token_values(pairs_from(base@, 0), Option::<AlternativeParserV>::None),
{
    let ghost ps = pairs_from(base@, 0);
    let ghost tv = token_values(ps, Option::<AlternativeParserV>::None);
    let mut key: Vec<char> = Vec::new();
    let mut values: Vec<DataInt> = Vec::new();
    let ghost mut done: Seq<(nat, Option<char>)> = Seq::empty();
    let mut p: usize = 0;
    proof {
        assert(done + pairs_from(base@, 0) =~= ps);
    }
    while p < base.len()
        invariant
            p <= base@.len(),
            ps == done + pairs_from(base@, p as int),
            tv == token_values(ps, Option::<AlternativeParserV>::None),
            key@ == key_of(done),
            values@.len() == done.len(),
            done.len() <= ps.len(),
            forall|n: int| 0 <= n < done.len() ==> (#[trigger] values@[n])@ == tv[n],
        decreases base@.len() - p,
    {
        let c = base[p];
        let d: usize;
        let text: Option<char>;
        if chars::dec_digit(c) {
            d = chars::dec_digit_value(c);
            if p + 1 < base.len() && !chars::dec_digit(base[p + 1]) {
                text = Some(base[p + 1]);
                p = p + 2;
            } else {
                text = None;
                p = p + 1;
            }
        } else {
            d = 0;
            text = Some(c);
            p = p + 1;
        }
        let ghost pr = (d as nat, text);
        let ghost n = done.len() as int;
        proof {
            assert(ps[n] == pr);
        }
        let value = DataInt::new(d, None);
        values.push(value);
        match text {
            Some(t) => key.push(t),
            None => (),
        }
        proof {
            let done0 = done;
            done = done.push(pr);
            assert(ps =~= done + pairs_from(base@, p as int));
            assert(done.drop_last() =~= done0);
            assert(done.last() == pr);
            assert(key@ =~= key_of(done));
            assert(value@ == tv[n]);
        }
    }
    let ghost pr = (0nat, Option::<char>::None);
    let ghost n = done.len() as int;
    proof {
        assert(pairs_from(base@, p as int) =~= seq![pr]);
        assert(ps =~= done.push(pr));
        assert(ps[n] == pr);
    }
    let value = DataInt::new(0, None);
    values.push(value);
    proof {
        let done0 = done;
        done = done.push(pr);
        assert(done.drop_last() =~= done0);
        assert(done.last() == pr);
        assert(key@ =~= key_of(done));
        assert(value@ == tv[n]);
        assert(di_views(values@) =~= tv);
    }
    (key, values)
}

/// `first_nonzero` names the first index whose weight is nonzero.
proof fn lemma_first_nonzero_is(vs: Seq<DataIntV>, i: int)
    requires
        0 <= i < vs.len(),
        vs[i].value != 0,
        forall|k: int| 0 <= k < i ==> vs[k].value == 0,
    ensures
        first_nonzero(vs) == i,
    decreases i,
{
    if i > 0 {
        let t = vs.drop_first();
        assert(forall|k: int| 0 <= k < i - 1 ==> #[trigger] t[k].value == vs[k + 1].value);
        lemma_first_nonzero_is(t, i - 1);
    }
}

/// `last_nonzero` names the last index whose weight is nonzero.
proof fn lemma_last_nonzero_is(vs: Seq<DataIntV>, j: int)
    requires
        0 <= j < vs.len(),
        vs[j].value != 0,
        forall|k: int| j < k < vs.len() ==> vs[k].value == 0,
    ensures
        last_nonzero(vs) == j,
    decreases vs.len() - j,
{
    if j < vs.len() - 1 {
        let t = vs.drop_last();
        assert(forall|k: int| 0 <= k < t.len() ==> #[trigger] t[k].value == vs[k].value);
        lemma_last_nonzero_is(t, j);
    }
}

/// Copy a slice of weights, sharing the rule metadata.
fn sub_values(v: &Vec<DataInt>, i: usize, j: usize) -> (r: Vec<DataInt>)
    requires
        i <= j <= v@.len(),
    ensures
        di_views(r@) == di_views(v@).subrange(i as int, j as int),
{
    let mut r: Vec<DataInt> = Vec::new();
    let mut k: usize = i;
    while k < j
        invariant
            i <= k <= j <= v@.len(),
            r@.len() == k - i,
            forall|t: int| 0 <= t < k - i ==> (#[trigger] r@[t])@ == v@[i + t]@,
        decreases j - k,
    {
        r.push(DataInt::with_ref(v[k].value, &v[k]));
        k = k + 1;
    }
    assert(di_views(r@) =~= di_views(v@).subrange(i as int, j as int));
    r
}

/// Trim the tokenized weights and build the entry, or nothing for an all-zero
/// pattern.
fn finish_entry(key: Vec<char>, values: Vec<DataInt>) -> (r: Option<PatternEntry>)
    ensures
        match r {
            Option::Some(e) => trim_entry(key@, di_views(values@)) == (LineParse::Entry {
                key: e.key@,
                offset: e.offset as nat,
                values: di_views(e.values@),
            }),
            Option::None => trim_entry(key@, di_views(values@)) is Skip,
        },
{
    let ghost vs = di_views(values@);
    let n = values.len();
    let mut s: usize = 0;
    while s < n && values[s].value == 0
        invariant
            s <= n,
            n == values@.len(),
            vs == di_views(values@),
            forall|k: int| 0 <= k < s ==> vs[k].value == 0,
        decreases n - s,
    {
        s = s + 1;
    }
    if s == n {
        assert(all_zero(vs));
        return None;
    }
    proof {
        lemma_first_nonzero_is(vs, s as int);
    }
    let mut e: usize = n;
    while e > s + 1 && values[e - 1].value == 0
        invariant
            s < e <= n,
            n == values@.len(),
            vs == di_views(values@),
            vs[s as int].value != 0,
            forall|k: int| e <= k < n ==> vs[k].value == 0,
        decreases e,
    {
        e = e - 1;
    }
    proof {
        lemma_last_nonzero_is(vs, e - 1);
    }
    let trimmed = sub_values(&values, s, e);
    Some(PatternEntry { key, offset: s, values: trimmed })
}

/// Parse one dictionary line into an entry, nothing, or a malformed-line
/// error.
fn parse_line_exec(l: &Vec<char>) -> (r: Result<Option<PatternEntry>, ()>)
    ensures
        match r {
            Result::Ok(Option::Some(e)) => parse_line(l@) == (LineParse::Entry {
                key: e.key@,
                offset: e.offset as nat,
                values: di_views(e.values@),
            }),
            Result::Ok(Option::None) => parse_line(l@) is Skip,
            Result::Err(_) => parse_line(l@) is Bad,
        },
{
    if l.len() == 0 {
        return Ok(None);
    }
    let c0 = l[0];
    if c0 == '%' || c0 == '#' {
        return Ok(None);
    }
    let h = hex_unescape_exec(l);
    match chars::find_char_at(&h, '/') {
        Some(ix) => {
            proof {
                chars::lemma_find_char(h@, '/');
            }
            let base = chars::sub_chars(&h, 0, ix);
            let hn = h.len();
            let alt = chars::sub_chars(&h, ix + 1, hn);
            match AlternativeParser::new(&base, &alt) {
                Some(mut ap) => {
                    let ghost a0 = ap@;
                    let (key, values) = tokenize_with(&base, &mut ap);
                    let r = finish_entry(key, values);
                    proof {
                        assert(parse_line(l@) == tokenized(base@, Option::Some(a0)));
                    }
                    Ok(r)
                },
                None => Err(()),
            }
        },
        None => {
            let (key, values) = tokenize_plain(&h);
            Ok(finish_entry(key, values))
        },
    }
}

// --- the scan ------------------------------------------------------------------

/// The default weight of a slot: zero, no rule.
pub open spec fn zero_v() -> DataIntV {
    DataIntV { value: 0, data: Option::None }
}

/// The word with the synthetic boundary markers around it.
pub open spec fn padded(w: Seq<char>) -> Seq<char> {
    seq!['.'] + w + seq!['.']
}

/// Overlay one pattern's weights onto the slot vector, starting at slot `at`:
/// a strictly greater weight overwrites, a tie keeps what is there.
pub open spec fn apply_pattern(refs: Seq<DataIntV>, at: int, vals: Seq<DataIntV>) -> Seq<
    DataIntV,
> {
    Seq::new(
        refs.len(),
        |k: int|
            if at <= k < at + vals.len() && vals[k - at].value > refs[k].value {
                vals[k - at]
            } else {
                refs[k]
            },
    )
}

/// Overlay the pattern stored under `pw[i..j]`, if any.
pub open spec fn apply_lookup(
    m: Map<Seq<char>, PatternV>,
    pw: Seq<char>,
    i: int,
    j: int,
    refs: Seq<DataIntV>,
) -> Seq<DataIntV> {
    let key = pw.subrange(i, j);
    if m.contains_key(key) {
        apply_pattern(refs, i + m[key].offset, m[key].values)
    } else {
        refs
    }
}

/// Overlay every substring starting at `i`, end indices `j` up to `jend`.
pub open spec fn scan_row(
    m: Map<Seq<char>, PatternV>,
    pw: Seq<char>,
    i: int,
    j: int,
    jend: int,
    refs: Seq<DataIntV>,
) -> Seq<DataIntV>
    decreases jend - j,
{
    if j >= jend {
        refs
    } else {
        scan_row(m, pw, i, j + 1, jend, apply_lookup(m, pw, i, j, refs))
    }
}

/// Where a row of the scan stops: the window is bounded by the longest key.
pub open spec fn row_end(i: int, maxlen: nat, pwlen: int) -> int {
    if i + maxlen < pwlen + 1 {
        i + maxlen
    } else {
        pwlen + 1
    }
}

/// Overlay every substring window, start indices `i` up to `iend`.
pub open spec fn scan_rows(
    m: Map<Seq<char>, PatternV>,
    maxlen: nat,
    pw: Seq<char>,
    i: int,
    iend: int,
    refs: Seq<DataIntV>,
) -> Seq<DataIntV>
    decreases iend - i,
{
    if i >= iend {
        refs
    } else {
        scan_rows(
            m,
            maxlen,
            pw,
            i + 1,
            iend,
            scan_row(m, pw, i, i + 1, row_end(i, maxlen, pw.len() as int), refs),
        )
    }
}

/// The final slot weights of a lower-cased word: every substring of the padded
/// word is looked up and overlaid, in increasing start index and increasing
/// length order.
pub open spec fn scanned(d: HyphDictV, w: Seq<char>) -> Seq<DataIntV> {
    let pw = padded(w);
    scan_rows(
        d.pmap,
        d.maxlen,
        pw,
        0,
        pw.len() - 1,
        Seq::new((pw.len() + 1) as nat, |k: int| zero_v()),
    )
}

/// The break points among the slots from `k` on: the positions with an odd
/// weight, each re-expressed as an offset into the unpadded word.
pub open spec fn points_from(refs: Seq<DataIntV>, k: int) -> Seq<DataIntV>
    decreases refs.len() - k,
{
    if k < 1 || k >= refs.len() {
        Seq::empty()
    } else {
        (if refs[k].value % 2 == 1 {
            seq![DataIntV { value: (k - 1) as nat, data: refs[k].data }]
        } else {
            Seq::<DataIntV>::empty()
        }) + points_from(refs, k + 1)
    }
}

/// The hyphenation points of a word: the word is lower-cased, scanned, and the
/// odd-weighted slots are kept, in ascending order of offset.
pub open spec fn spec_positions(d: HyphDictV, w: Seq<char>) -> Seq<DataIntV> {
    points_from(scanned(d, chars::lower_seq(w)), 1)
}

/// Determinism: what `positions` answers is a function of the dictionary and
/// the word alone, so two results for the same pair agree.
pub proof fn lemma_positions_deterministic(
    d: HyphDictV,
    w: Seq<char>,
    r1: Seq<DataIntV>,
    r2: Seq<DataIntV>,
)
    requires
        r1 == spec_positions(d, w),
        r2 == spec_positions(d, w),
    ensures
        r1 == r2,
{
}

/// Case invariance: a word and its lower-cased form have the same break
/// points, offsets and rules alike.
pub proof fn lemma_positions_case_invariant(d: HyphDictV, w: Seq<char>)
    ensures
        spec_positions(d, chars::lower_seq(w)) == spec_positions(d, w),
{
    chars::lemma_lower_idempotent(w);
}

/// The break points are strictly ascending, and all lie at slot `k` or later.
pub proof fn lemma_points_from_ascending(refs: Seq<DataIntV>, k: int)
    requires
        k >= 1,
    ensures
        forall|a: int|
            0 <= a < points_from(refs, k).len() ==> (#[trigger] points_from(refs, k)[a]).value + 1
                >= k,
        forall|a: int, b: int|
            0 <= a < b < points_from(refs, k).len() ==> points_from(refs, k)[a].value < points_from(
                refs,
                k,
            )[b].value,
    decreases refs.len() - k,
{
    if 1 <= k < refs.len() {
        lemma_points_from_ascending(refs, k + 1);
        let tail = points_from(refs, k + 1);
        let cur = points_from(refs, k);
        if refs[k].value % 2 == 1 {
            assert(cur[0].value == (k - 1) as nat);
            assert(forall|a: int| 1 <= a < cur.len() ==> #[trigger] cur[a] == tail[a - 1]);
        } else {
            assert(cur =~= tail);
        }
    }
}

// --- compilation --------------------------------------------------------------

/// Compilation failed: the pattern line at this index (counting from zero)
/// carries a malformed alternative suffix.
#[derive(Debug)]
pub struct CompileError {
    pub line: usize,
}

/// A line with one trailing carriage return removed.
pub open spec fn strip_cr(l: Seq<char>) -> Seq<char> {
    if l.len() > 0 && l.last() == '\r' {
        l.drop_last()
    } else {
        l
    }
}

/// The lines of a dictionary text: split on newlines, carriage returns
/// stripped.
pub open spec fn spec_lines(t: Seq<char>) -> Seq<Seq<char>> {
    chars::split_seq(t, '\n').map_values(|l: Seq<char>| strip_cr(l))
}

/// The empty pattern table.
pub open spec fn empty_dict_v() -> HyphDictV {
    HyphDictV { pmap: Map::empty(), maxlen: 0 }
}

/// A table extended by one compiled pattern; a pattern with a known key
/// replaces the earlier one.
pub open spec fn with_entry(
    acc: HyphDictV,
    key: Seq<char>,
    offset: nat,
    values: Seq<DataIntV>,
) -> HyphDictV {
    HyphDictV {
        pmap: acc.pmap.insert(key, PatternV { offset, values }),
        maxlen: if key.len() > acc.maxlen {
            key.len()
        } else {
            acc.maxlen
        },
    }
}

/// Folding the lines from index `k` on into the table, or the index of the
/// first malformed line.
pub open spec fn compile_from(lines: Seq<Seq<char>>, k: int, acc: HyphDictV) -> Result<
    HyphDictV,
    int,
>
    decreases lines.len() - k,
{
    if k < 0 || k >= lines.len() {
        Result::Ok(acc)
    } else {
        match parse_line(lines[k]) {
            LineParse::Bad => Result::Err(k),
            LineParse::Skip => compile_from(lines, k + 1, acc),
            LineParse::Entry { key, offset, values } => compile_from(
                lines,
                k + 1,
                with_entry(acc, key, offset, values),
            ),
        }
    }
}

/// What compiling a dictionary text yields: the pattern table, or the index
/// of the first malformed line.
pub open spec fn spec_compile(t: Seq<char>) -> Result<HyphDictV, int> {
    compile_from(spec_lines(t), 0, empty_dict_v())
}

/// Replacing the entry that holds a key re-binds that key in the denoted map.
proof fn lemma_entries_map_update(s: Seq<PatternEntry>, i: int, e: PatternEntry)
    requires
        unique_keys(s),
        0 <= i < s.len(),
        s[i].key@ == e.key@,
    ensures
        entries_map(s.update(i, e)) == entries_map(s).insert(e.key@, entry_v(e)),
        unique_keys(s.update(i, e)),
    decreases s.len(),
{
    let su = s.update(i, e);
    assert(unique_keys(su)) by {
        assert(forall|a: int|
            0 <= a < s.len() ==> (#[trigger] su[a]).key@ == (if a == i {
                e.key@
            } else {
                s[a].key@
            }));
    }
    if i == s.len() - 1 {
        assert(su.drop_last() =~= s.drop_last());
        assert(su.last() == e);
        assert(entries_map(su) =~= entries_map(s).insert(e.key@, entry_v(e)));
    } else {
        let t = s.drop_last();
        assert(unique_keys(t)) by {
            assert(forall|a: int, b: int|
                0 <= a < b < t.len() ==> #[trigger] t[a] == s[a] && #[trigger] t[b] == s[b]);
        }
        assert(t[i] == s[i]);
        lemma_entries_map_update(t, i, e);
        assert(su.drop_last() =~= t.update(i, e));
        assert(su.last() == s.last());
        assert(s[i].key@ != s.last().key@);
        assert(entries_map(su) =~= entries_map(s).insert(e.key@, entry_v(e)));
    }
}

/// Appending an entry with a fresh key binds that key in the denoted map.
proof fn lemma_entries_map_push(s: Seq<PatternEntry>, e: PatternEntry)
    requires
        unique_keys(s),
        forall|i: int| 0 <= i < s.len() ==> (#[trigger] s[i]).key@ != e.key@,
    ensures
        entries_map(s.push(e)) == entries_map(s).insert(e.key@, entry_v(e)),
        unique_keys(s.push(e)),
{
    assert(s.push(e).drop_last() =~= s);
    assert(s.push(e).last() == e);
    assert(unique_keys(s.push(e))) by {
        assert(forall|a: int| 0 <= a < s.len() ==> #[trigger] s.push(e)[a] == s[a]);
    }
}

fn find_key_index(entries: &Vec<PatternEntry>, key: &Vec<char>) -> (r: Option<usize>)
    ensures
        match r {
            Option::Some(i) => 0 <= i < entries@.len() && entries@[i as int].key@ == key@,
            Option::None => forall|i: int|
                0 <= i < entries@.len() ==> (#[trigger] entries@[i]).key@ != key@,
        },
{
    let mut t: usize = 0;
    while t < entries.len()
        invariant
            t <= entries@.len(),
            forall|u: int| 0 <= u < t ==> (#[trigger] entries@[u]).key@ != key@,
        decreases entries@.len() - t,
    {
        if chars::chars_equal(&entries[t].key, key) {
            return Some(t);
        }
        t = t + 1;
    }
    None
}

impl HyphDict {
    /// Compile a dictionary text, one pattern per line.  Lines that are empty
    /// or start with `%` or `#` are comments; a pattern whose weights are all
    /// zero is dropped; on the first line with a malformed alternative suffix
    /// the whole compilation fails with that line's index.
    pub fn new(dictionary: &str) -> (r: Result<HyphDict, CompileError>)
        ensures
            r is Ok <==> spec_compile(dictionary@) is Ok,
            r matches Ok(d) ==> spec_compile(dictionary@) == Result::<HyphDictV, int>::Ok(d@),
            r matches Err(e) ==> spec_compile(dictionary@) == Result::<HyphDictV, int>::Err(
                e.line as int,
            ),
    {
        let text = chars::str_to_chars(dictionary);
        let raw_lines = chars::split_chars(&text, '\n');
        let ghost sl = spec_lines(dictionary@);
        proof {
            assert(sl.len() == raw_lines@.len());
            assert(forall|t: int|
                0 <= t < sl.len() ==> sl[t] == strip_cr(
                    (#[trigger] raw_lines@[t])@,
                ));
        }
        let mut entries: Vec<PatternEntry> = Vec::new();
        let mut maxlen: usize = 0;
        let mut k: usize = 0;
        while k < raw_lines.len()
            invariant
                k <= raw_lines@.len(),
                raw_lines@.len() == sl.len(),
                forall|t: int|
                    0 <= t < sl.len() ==> sl[t] == strip_cr((#[trigger] raw_lines@[t])@),
                unique_keys(entries@),
                forall|i: int|
                    0 <= i < entries@.len() ==> (#[trigger] entries@[i]).key@.len()
                        <= maxlen as nat,
                compile_from(
                    sl,
                    k as int,
                    HyphDictV { pmap: entries_map(entries@), maxlen: maxlen as nat },
                ) == spec_compile(dictionary@),
            decreases raw_lines@.len() - k,
        {
            let rl = &raw_lines[k];
            let n = rl.len();
            let stripped = if n > 0 && rl[n - 1] == '\r' {
                chars::sub_chars(rl, 0, n - 1)
            } else {
                chars::sub_chars(rl, 0, n)
            };
            proof {
                assert(rl@.subrange(0, n as int) =~= rl@);
                if n > 0 && rl@[n - 1] == '\r' {
                    assert(rl@.subrange(0, n - 1) =~= rl@.drop_last());
                }
                assert(stripped@ == sl[k as int]);
            }
            let ghost acc = HyphDictV { pmap: entries_map(entries@), maxlen: maxlen as nat };
            match parse_line_exec(&stripped) {
                Err(_) => {
                    return Err(CompileError { line: k });
                },
                Ok(None) => {},
                Ok(Some(entry)) => {
                    let klen = entry.key.len();
                    let ghost ev = entry_v(entry);
                    let ghost keyv = entry.key@;
                    match find_key_index(&entries, &entry.key) {
                        Some(i) => {
                            proof {
                                lemma_entries_map_update(entries@, i as int, entry);
                            }
                            entries.set(i, entry);
                        },
                        None => {
                            proof {
                                lemma_entries_map_push(entries@, entry);
                            }
                            entries.push(entry);
                        },
                    }
                    if klen > maxlen {
                        maxlen = klen;
                    }
                    proof {
                        assert(entries_map(entries@) == acc.pmap.insert(
                            keyv,
                            PatternV { offset: ev.offset, values: ev.values },
                        ));
                        assert(HyphDictV {
                            pmap: entries_map(entries@),
                            maxlen: maxlen as nat,
                        } =~= with_entry(acc, keyv, ev.offset, ev.values));
                    }
                },
            }
            k = k + 1;
        }
        Ok(HyphDict { entries, maxlen })
    }

    /// Get the list of positions where the word can be hyphenated, each an
    /// offset into the word (the synthetic leading boundary already removed),
    /// carrying the rule metadata of the winning pattern, in ascending order.
    pub fn positions(&self, word: &str) -> (r: Vec<DataInt>)
        requires
            word@.len() + 3 <= usize::MAX,
        ensures
            di_views(r@) == spec_positions(self@, word@),
    {
        let wl = chars::lower_chars(&chars::str_to_chars(word));
        let mut pw: Vec<char> = Vec::new();
        pw.push('.');
        chars::push_all(&mut pw, &wl);
        pw.push('.');
        proof {
            assert(pw@ =~= padded(chars::lower_seq(word@)));
        }
        let pwlen = pw.len();
        let ghost m = self@.pmap;
        let ghost ml = self@.maxlen;

        let mut refs: Vec<DataInt> = Vec::new();
        let mut z: usize = 0;
        while z < pwlen + 1
            invariant
                pwlen + 1 <= usize::MAX,
                z <= pwlen + 1,
                refs@.len() == z,
                forall|t: int| 0 <= t < z ==> (#[trigger] refs@[t])@ == zero_v(),
            decreases pwlen + 1 - z,
        {
            refs.push(DataInt::new(0, None));
            z = z + 1;
        }
        proof {
            assert(di_views(refs@) =~= Seq::new((pwlen + 1) as nat, |t: int| zero_v()));
        }
        let ghost target = scanned(self@, chars::lower_seq(word@));
        proof {
            assert(scan_rows(m, ml, pw@, 0, pwlen - 1, di_views(refs@)) == target);
        }

        let mut i: usize = 0;
        while i < pwlen - 1
            invariant
                pwlen == pw@.len(),
                pwlen + 1 <= usize::MAX,
                2 <= pwlen,
                i <= pwlen - 1,
                refs@.len() == pwlen + 1,
                m == self@.pmap,
                ml == self@.maxlen,
                scan_rows(m, ml, pw@, i as int, pwlen - 1, di_views(refs@)) == target,
            decreases pwlen - 1 - i,
        {
            let jend = if self.maxlen < pwlen + 1 - i {
                i + self.maxlen
            } else {
                pwlen + 1
            };
            proof {
                assert(jend as int == row_end(i as int, ml, pwlen as int));
                assert(scan_rows(m, ml, pw@, i as int, pwlen - 1, di_views(refs@))
                    == scan_rows(
                    m,
                    ml,
                    pw@,
                    i + 1,
                    pwlen - 1,
                    scan_row(m, pw@, i as int, i + 1, jend as int, di_views(refs@)),
                ));
            }
            let mut j = i + 1;
            while j < jend
                invariant
                    pwlen == pw@.len(),
                    pwlen + 1 <= usize::MAX,
                    i < pwlen - 1,
                    i + 1 <= j,
                    jend <= pwlen + 1,
                    j <= jend || j == i + 1,
                    refs@.len() == pwlen + 1,
                    m == self@.pmap,
                    ml == self@.maxlen,
                    scan_rows(
                        m,
                        ml,
                        pw@,
                        i + 1,
                        pwlen - 1,
                        scan_row(m, pw@, i as int, j as int, jend as int, di_views(refs@)),
                    ) == target,
                decreases jend - j,
            {
                let ghost orig = di_views(refs@);
                match self.find_pattern(&pw, i, j) {
                    Some(e) => {
                        let ghost vals = di_views(e.values@);
                        let rl = refs.len();
                        if e.offset < rl - i {
                            let start = i + e.offset;
                            let ghost at = start as int;
                            let vlen = e.values.len();
                            let mut s: usize = 0;
                            while s < vlen && s < rl - start
                                invariant
                                    rl == refs@.len(),
                                    rl == orig.len(),
                                    start < rl,
                                    at == start as int,
                                    vlen == e.values@.len(),
                                    vals == di_views(e.values@),
                                    s <= vlen,
                                    start + s <= rl,
                                    di_views(refs@) == Seq::new(
                                        orig.len(),
                                        |kk: int|
                                            if at <= kk < at + s && vals[kk - at].value
                                                > orig[kk].value {
                                                vals[kk - at]
                                            } else {
                                                orig[kk]
                                            },
                                    ),
                                decreases vlen - s,
                            {
                                let idx = start + s;
                                let ghost pre = di_views(refs@);
                                proof {
                                    assert(pre[idx as int] == orig[idx as int]);
                                    assert(refs@[idx as int]@ == pre[idx as int]);
                                }
                                if e.values[s].value > refs[idx].value {
                                    let nv = DataInt::with_ref(e.values[s].value, &e.values[s]);
                                    proof {
                                        assert(e.values@[s as int]@ == vals[s as int]);
                                        assert(nv@ =~= vals[s as int]);
                                    }
                                    refs.set(idx, nv);
                                }
                                proof {
                                    let next = Seq::new(
                                        orig.len(),
                                        |kk: int|
                                            if at <= kk < at + (s + 1) && vals[kk - at].value
                                                > orig[kk].value {
                                                vals[kk - at]
                                            } else {
                                                orig[kk]
                                            },
                                    );
                                    assert forall|kk: int| 0 <= kk < orig.len() implies di_views(
                                        refs@,
                                    )[kk] == next[kk] by {
                                        assert(di_views(refs@)[kk] == refs@[kk]@);
                                        if kk != idx as int {
                                            assert(di_views(refs@)[kk] == pre[kk]);
                                        }
                                    }
                                    assert(di_views(refs@) =~= next);
                                }
                                s = s + 1;
                            }
                            proof {
                                assert(di_views(refs@) =~= apply_pattern(orig, at, vals));
                                assert(di_views(refs@) == apply_lookup(
                                    m,
                                    pw@,
                                    i as int,
                                    j as int,
                                    orig,
                                ));
                            }
                        } else {
                            proof {
                                assert(apply_pattern(orig, i + e.offset, vals) =~= orig);
                                assert(di_views(refs@) == apply_lookup(
                                    m,
                                    pw@,
                                    i as int,
                                    j as int,
                                    orig,
                                ));
                            }
                        }
                    },
                    None => {
                        proof {
                            assert(di_views(refs@) == apply_lookup(m, pw@, i as int, j as int, orig));
                        }
                    },
                }
                proof {
                    assert(scan_row(m, pw@, i as int, j as int, jend as int, orig) == scan_row(
                        m,
                        pw@,
                        i as int,
                        j + 1,
                        jend as int,
                        di_views(refs@),
                    ));
                }
                j = j + 1;
            }
            i = i + 1;
        }

        // collect the odd-weighted positions, shifted past the leading marker
        let mut out: Vec<DataInt> = Vec::new();
        let mut k: usize = 1;
        let rl = refs.len();
        proof {
            assert(di_views(refs@) == target);
            assert(points_from(target, 1) == spec_positions(self@, word@));
        }
        while k < rl
            invariant
                rl == refs@.len(),
                1 <= k <= rl,
                di_views(refs@) == target,
                di_views(out@) + points_from(target, k as int) == points_from(target, 1),
            decreases rl - k,
        {
            if refs[k].value % 2 == 1 {
                let nv = DataInt::with_ref(k - 1, &refs[k]);
                out.push(nv);
                proof {
                    assert(nv@ =~= (DataIntV {
                        value: (k - 1) as nat,
                        data: target[k as int].data,
                    }));
                    assert(di_views(out@) =~= di_views(out@.drop_last()) + seq![nv@]);
                    assert(di_views(out@) + points_from(target, k + 1) =~= points_from(target, 1));
                }
            } else {
                proof {
                    assert(di_views(out@) + points_from(target, k + 1) =~= points_from(target, 1));
                }
            }
            k = k + 1;
        }
        proof {
            assert(points_from(target, rl as int) =~= Seq::<DataIntV>::empty());
            assert(di_views(out@) =~= points_from(target, 1));
        }
        out
    }

    /// Look the substring `pw[i..j]` up in the table.
    fn find_pattern(&self, pw: &Vec<char>, i: usize, j: usize) -> (r: Option<&PatternEntry>)
        requires
            i <= j <= pw@.len(),
        ensures
            match r {
                Option::Some(e) => self@.pmap.contains_key(pw@.subrange(i as int, j as int))
                    && self@.pmap[pw@.subrange(i as int, j as int)] == entry_v(*e),
                Option::None => !self@.pmap.contains_key(pw@.subrange(i as int, j as int)),
            },
    {
        let key = chars::sub_chars(pw, i, j);
        proof {
            use_type_invariant(self);
            lemma_entries_map(self.entries@);
        }
        match find_key_index(&self.entries, &key) {
            Some(t) => Some(&self.entries[t]),
            None => None,
        }
    }
}

} // verus!
