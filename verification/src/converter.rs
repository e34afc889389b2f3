use crate::dictionary::{DictionaryEntry, EntryModel};
use crate::text::{
    is_prefix_of, lex_le, lower, lower_str, push_char, starts_with_at, str_lex_le,
};
use crate::tokenizer::{Token, TokenModel};
use vstd::prelude::*;
use vstd::string::*;

verus! {

/// One romaji-to-kana rule: a pattern, its output, and (optionally) how many
/// input characters the rule consumes instead of the pattern's own length.
#[derive(Debug)]
pub struct KanaMapping {
    pub from: String,
    pub to: String,
    pub consume_chars: Option<usize>,
}

/// The mathematical shape of a kana rule.
pub struct KanaMappingModel {
    pub from: Seq<char>,
    pub to: Seq<char>,
    pub consume_chars: Option<int>,
}

impl View for KanaMapping {
    type V = KanaMappingModel;

    open spec fn view(&self) -> KanaMappingModel {
        KanaMappingModel {
            from: self.from@,
            to: self.to@,
            consume_chars: match self.consume_chars {
                Some(k) => Some(k as int),
                None => None,
            },
        }
    }
}

/// How many input characters a rule consumes on a hit.
pub open spec fn mapping_advance(m: KanaMappingModel) -> int {
    match m.consume_chars {
        Some(k) => k,
        None => m.from.len() as int,
    }
}

/// A rule that consumes at least one character; a table of such rules makes
/// the conversion algorithm advance on every step.
pub open spec fn mapping_productive(m: KanaMappingModel) -> bool {
    mapping_advance(m) >= 1
}

pub open spec fn table_wf(t: Seq<KanaMappingModel>) -> bool {
    forall|i: int| 0 <= i < t.len() ==> mapping_productive(#[trigger] t[i])
}

/// The index of the rule the algorithm picks for the text `s`: scanning the
/// table from its last entry towards its first, the first rule whose `from`
/// is a prefix of `s`; `-1` when no rule matches.
pub open spec fn match_idx(t: Seq<KanaMappingModel>, s: Seq<char>) -> int
    decreases t.len(),
{
    if t.len() == 0 {
        -1
    } else if is_prefix_of(t.last().from, s) {
        t.len() - 1
    } else {
        match_idx(t.drop_last(), s)
    }
}

pub proof fn lemma_match_idx_bounds(t: Seq<KanaMappingModel>, s: Seq<char>)
    ensures
        -1 <= match_idx(t, s) < t.len(),
        match_idx(t, s) >= 0 ==> is_prefix_of(t[match_idx(t, s)].from, s),
    decreases t.len(),
{
    if t.len() > 0 && !is_prefix_of(t.last().from, s) {
        lemma_match_idx_bounds(t.drop_last(), s);
        if match_idx(t, s) >= 0 {
            assert(t.drop_last()[match_idx(t, s)] == t[match_idx(t, s)]);
        }
    }
}

pub proof fn lemma_match_idx_unique(t: Seq<KanaMappingModel>, s: Seq<char>, k: int)
    requires
        0 <= k < t.len(),
        is_prefix_of(t[k].from, s),
        forall|i: int| k < i < t.len() ==> !is_prefix_of(#[trigger] t[i].from, s),
    ensures
        match_idx(t, s) == k,
    decreases t.len(),
{
    if k == t.len() - 1 {
    } else {
        assert(!is_prefix_of(t.last().from, s));
        assert(t.drop_last()[k] == t[k]);
        assert forall|i: int| k < i < t.drop_last().len() implies !is_prefix_of(
            #[trigger] t.drop_last()[i].from,
            s,
        ) by {
            assert(t.drop_last()[i] == t[i]);
        }
        lemma_match_idx_unique(t.drop_last(), s, k);
    }
}

pub proof fn lemma_match_idx_none(t: Seq<KanaMappingModel>, s: Seq<char>)
    requires
        forall|i: int| 0 <= i < t.len() ==> !is_prefix_of(#[trigger] t[i].from, s),
    ensures
        match_idx(t, s) == -1,
    decreases t.len(),
{
    if t.len() > 0 {
        assert forall|i: int| 0 <= i < t.drop_last().len() implies !is_prefix_of(
            #[trigger] t.drop_last()[i].from,
            s,
        ) by {
            assert(t.drop_last()[i] == t[i]);
        }
        lemma_match_idx_none(t.drop_last(), s);
    }
}

/// The Kana Conversion Algorithm over an already lower-cased text: while text
/// remains, the table is scanned from its greatest entry down; the first rule
/// whose `from` is a prefix of the remaining text emits its `to` and advances
/// by what the rule consumes (at most to the end of the text); when no rule
/// matches, the next character passes through unchanged.
pub open spec fn kana_spec(t: Seq<KanaMappingModel>, s: Seq<char>) -> Seq<char>
    decreases s.len(),
        when table_wf(t)
        via kana_spec_decreases
{
    if s.len() == 0 {
        Seq::empty()
    } else {
        let j = match_idx(t, s);
        if j >= 0 {
            let adv0 = mapping_advance(t[j]);
            let adv = if adv0 <= s.len() {
                adv0
            } else {
                s.len() as int
            };
            t[j].to + kana_spec(t, s.skip(adv))
        } else {
            seq![s[0]] + kana_spec(t, s.skip(1))
        }
    }
}

#[via_fn]
proof fn kana_spec_decreases(t: Seq<KanaMappingModel>, s: Seq<char>) {
    if table_wf(t) && s.len() > 0 {
        lemma_match_idx_bounds(t, s);
    }
}

/// Where a rule stands once sorted: after every entry whose `from` does not
/// exceed its own, so that entries with equal `from` keep their insertion
/// order.
pub open spec fn insert_sorted(m: KanaMappingModel, t: Seq<KanaMappingModel>) -> Seq<
    KanaMappingModel,
>
    decreases t.len(),
{
    if t.len() == 0 {
        seq![m]
    } else if lex_le(t.last().from, m.from) {
        t.push(m)
    } else {
        insert_sorted(m, t.drop_last()).push(t.last())
    }
}

/// The table in ascending lexicographic order of `from`, duplicates retained
/// in insertion order.
pub open spec fn spec_sort(t: Seq<KanaMappingModel>) -> Seq<KanaMappingModel>
    decreases t.len(),
{
    if t.len() == 0 {
        Seq::empty()
    } else {
        insert_sorted(t.last(), spec_sort(t.drop_last()))
    }
}

proof fn lemma_insert_sorted_at(t: Seq<KanaMappingModel>, m: KanaMappingModel, j: int)
    requires
        0 <= j <= t.len(),
        j > 0 ==> lex_le(t[j - 1].from, m.from),
        forall|i: int| j <= i < t.len() ==> !lex_le(#[trigger] t[i].from, m.from),
    ensures
        insert_sorted(m, t) == t.insert(j, m),
    decreases t.len(),
{
    if t.len() == 0 {
        assert(insert_sorted(m, t) =~= t.insert(0, m));
    } else if j == t.len() {
        assert(lex_le(t.last().from, m.from));
        assert(t.push(m) =~= t.insert(j, m));
    } else {
        assert(!lex_le(t[t.len() - 1].from, m.from));
        assert forall|i: int| j <= i < t.drop_last().len() implies !lex_le(
            #[trigger] t.drop_last()[i].from,
            m.from,
        ) by {
            assert(t.drop_last()[i] == t[i]);
        }
        if j > 0 {
            assert(t.drop_last()[j - 1] == t[j - 1]);
        }
        lemma_insert_sorted_at(t.drop_last(), m, j);
        assert(insert_sorted(m, t) == t.drop_last().insert(j, m).push(t.last()));
        assert(t.drop_last().insert(j, m).push(t.last()) =~= t.insert(j, m));
    }
}

/// Inserting a productive rule into a table of productive rules keeps every
/// rule productive.
proof fn lemma_insert_sorted_productive(t: Seq<KanaMappingModel>, m: KanaMappingModel)
    requires
        table_wf(t),
        mapping_productive(m),
    ensures
        table_wf(insert_sorted(m, t)),
    decreases t.len(),
{
    if t.len() == 0 {
        assert forall|i: int| 0 <= i < insert_sorted(m, t).len() implies mapping_productive(
            #[trigger] insert_sorted(m, t)[i],
        ) by {
            assert(insert_sorted(m, t)[i] == m);
        }
    } else if lex_le(t.last().from, m.from) {
        assert forall|i: int| 0 <= i < t.push(m).len() implies mapping_productive(
            #[trigger] t.push(m)[i],
        ) by {
            if i < t.len() {
                assert(t.push(m)[i] == t[i]);
            }
        }
    } else {
        assert forall|i: int| 0 <= i < t.drop_last().len() implies mapping_productive(
            #[trigger] t.drop_last()[i],
        ) by {
            assert(t.drop_last()[i] == t[i]);
        }
        lemma_insert_sorted_productive(t.drop_last(), m);
        let inner = insert_sorted(m, t.drop_last());
        assert forall|i: int| 0 <= i < inner.push(t.last()).len() implies mapping_productive(
            #[trigger] inner.push(t.last())[i],
        ) by {
            if i < inner.len() {
                assert(inner.push(t.last())[i] == inner[i]);
            }
        }
    }
}

pub proof fn lemma_spec_sort_productive(t: Seq<KanaMappingModel>)
    requires
        table_wf(t),
    ensures
        table_wf(spec_sort(t)),
    decreases t.len(),
{
    if t.len() > 0 {
        assert forall|i: int| 0 <= i < t.drop_last().len() implies mapping_productive(
            #[trigger] t.drop_last()[i],
        ) by {
            assert(t.drop_last()[i] == t[i]);
        }
        lemma_spec_sort_productive(t.drop_last());
        assert(mapping_productive(t.last()));
        lemma_insert_sorted_productive(spec_sort(t.drop_last()), t.last());
    }
}

/// One ordered rule table for a single script, scanned greatest-`from`-first
/// at conversion time.
#[derive(Debug)]
pub struct KanaConverter {
    mappings: Vec<KanaMapping>,
}

impl View for KanaConverter {
    type V = Seq<KanaMappingModel>;

    closed spec fn view(&self) -> Seq<KanaMappingModel> {
        self.mappings@.map(|_i: int, m: KanaMapping| m@)
    }
}

impl Default for KanaConverter {
    fn default() -> (r: KanaConverter)
        ensures
            r@ == Seq::<KanaMappingModel>::empty(),
    {
        let r = KanaConverter { mappings: Vec::new() };
        proof {
            assert(r@ =~= Seq::<KanaMappingModel>::empty());
        }
        r
    }
}

impl KanaConverter {
    /// Appends one rule; construction never discards records.
    pub fn insert_mapping(&mut self, from: String, to: String, consume_chars: Option<usize>)
        ensures
            final(self)@ == old(self)@.push(
                KanaMappingModel {
                    from: from@,
                    to: to@,
                    consume_chars: match consume_chars {
                        Some(k) => Some(k as int),
                        None => None,
                    },
                },
            ),
    {
        let ghost before = self@;
        let m = KanaMapping { from, to, consume_chars };
        let ghost mv = m@;
        self.mappings.push(m);
        proof {
            assert(self@ =~= before.push(mv));
        }
    }

    /// Sorts the table ascending by `from`, keeping duplicates in insertion
    /// order, as the conversion algorithm's tie-break demands.
    pub fn finish(&mut self)
        ensures
            final(self)@ == spec_sort(old(self)@),
    {
        let ghost orig = self@;
        let mut sorted: Vec<KanaMapping> = Vec::new();
        proof {
            assert(sorted@.map(|_i: int, m: KanaMapping| m@) =~= Seq::<KanaMappingModel>::empty());
            assert(orig.take(0) =~= Seq::<KanaMappingModel>::empty());
        }
        let ghost mut k: int = 0;
        while self.mappings.len() > 0
            invariant
                0 <= k <= orig.len(),
                orig.len() - k == self.mappings@.len(),
                self.mappings@.map(|_i: int, m: KanaMapping| m@) =~= orig.skip(k),
                sorted@.map(|_i: int, m: KanaMapping| m@) == spec_sort(orig.take(k)),
            decreases self.mappings@.len(),
        {
            let ghost rem = self.mappings@.map(|_i: int, m: KanaMapping| m@);
            let ghost sortedv = sorted@.map(|_i: int, m: KanaMapping| m@);
            let ghost vec_before = self.mappings@;
            let m = self.mappings.remove(0);
            proof {
                assert(m@ == rem[0]);
                assert(m@ == orig[k]);
                let newrem = self.mappings@.map(|_i: int, m: KanaMapping| m@);
                assert forall|i: int| 0 <= i < newrem.len() implies #[trigger] newrem[i]
                    == orig.skip(k + 1)[i] by {
                    assert(self.mappings@[i] == vec_before[i + 1]);
                    assert(newrem[i] == self.mappings@[i]@);
                    assert(rem[i + 1] == vec_before[i + 1]@);
                    assert(rem[i + 1] == orig.skip(k)[i + 1]);
                    assert(orig.skip(k)[i + 1] == orig[k + 1 + i]);
                }
                assert(newrem =~= orig.skip(k + 1));
            }
            let mut j: usize = sorted.len();
            while j > 0 && !str_lex_le(sorted[j - 1].from.as_str(), m.from.as_str())
                invariant
                    j <= sorted@.len(),
                    sortedv == sorted@.map(|_i: int, m: KanaMapping| m@),
                    forall|i: int|
                        j <= i < sortedv.len() ==> !lex_le(#[trigger] sortedv[i].from, m@.from),
                decreases j,
            {
                j = j - 1;
                proof {
                    assert(sortedv[j as int] == sorted@[j as int]@);
                }
            }
            proof {
                if j > 0 {
                    assert(sortedv[j - 1] == sorted@[j - 1]@);
                }
                lemma_insert_sorted_at(sortedv, m@, j as int);
            }
            let ghost mv = m@;
            sorted.insert(j, m);
            proof {
                assert(sorted@.map(|_i: int, m: KanaMapping| m@) =~= sortedv.insert(j as int, mv));
                assert(orig.take(k + 1).drop_last() =~= orig.take(k));
                assert(orig.take(k + 1).last() == orig[k]);
                assert(spec_sort(orig.take(k + 1)) == insert_sorted(mv, spec_sort(orig.take(k))));
            }
            proof {
                k = k + 1;
            }
        }
        proof {
            assert(orig.take(k) =~= orig);
        }
        self.mappings = sorted;
    }

    /// The rule the algorithm picks for the lowered text from position `pos`:
    /// the last table entry whose `from` is a prefix of what remains.
    fn find_match(&self, low: &str, pos: usize) -> (r: Option<usize>)
        requires
            pos <= low@.len(),
        ensures
            match r {
                Some(k) => k < self.mappings@.len() && match_idx(self@, low@.skip(pos as int))
                    == k as int,
                None => match_idx(self@, low@.skip(pos as int)) == -1,
            },
    {
        let ghost t = self@;
        let ghost s = low@.skip(pos as int);
        let mut k: usize = self.mappings.len();
        while k > 0
            invariant
                k <= self.mappings@.len(),
                t == self@,
                s == low@.skip(pos as int),
                pos <= low@.len(),
                forall|i: int| k <= i < t.len() ==> !is_prefix_of(#[trigger] t[i].from, s),
            decreases k,
        {
            k = k - 1;
            if starts_with_at(low, pos, self.mappings[k].from.as_str()) {
                proof {
                    assert(t[k as int] == self.mappings@[k as int]@);
                    lemma_match_idx_unique(t, s, k as int);
                }
                return Some(k);
            }
            proof {
                assert(t[k as int] == self.mappings@[k as int]@);
            }
        }
        proof {
            lemma_match_idx_none(t, s);
        }
        None
    }

    /// Renders `text` through this table and appends the result: the text is
    /// lower-cased, then converted by the Kana Conversion Algorithm.
    pub fn convert(&self, out: &mut String, text: &str)
        requires
            table_wf(self@),
        ensures
            final(out)@ == old(out)@ + kana_spec(self@, lower(text@)),
    {
        let ghost t = self@;
        let low = lower_str(text);
        let n: usize = low.as_str().unicode_len();
        let mut pos: usize = 0;
        proof {
            assert(low@.skip(0) =~= low@);
        }
        while pos < n
            invariant
                pos <= n,
                n == low@.len(),
                low@ == lower(text@),
                t == self@,
                table_wf(t),
                old(out)@ + kana_spec(t, low@) == out@ + kana_spec(t, low@.skip(pos as int)),
            decreases n - pos,
        {
            let ghost s = low@.skip(pos as int);
            let ghost out_before = out@;
            match self.find_match(low.as_str(), pos) {
                Some(j) => {
                    proof {
                        lemma_match_idx_bounds(t, s);
                        assert(t[j as int] == self.mappings@[j as int]@);
                    }
                    out.append(self.mappings[j].to.as_str());
                    let adv0: usize = match self.mappings[j].consume_chars {
                        Some(c) => c,
                        None => self.mappings[j].from.as_str().unicode_len(),
                    };
                    let adv: usize = if adv0 > n - pos {
                        n - pos
                    } else {
                        adv0
                    };
                    proof {
                        assert(mapping_advance(t[j as int]) == adv0);
                        assert(mapping_productive(t[j as int]));
                        assert(s.skip(
                            if adv0 as int <= s.len() {
                                adv0 as int
                            } else {
                                s.len() as int
                            },
                        ) =~= low@.skip(pos + adv));
                        assert(kana_spec(t, s) == t[j as int].to + kana_spec(
                            t,
                            low@.skip(pos + adv),
                        ));
                        assert(out@ + kana_spec(t, low@.skip(pos + adv)) =~= out_before
                            + kana_spec(t, s));
                    }
                    pos = pos + adv;
                },
                None => {
                    let c = low.as_str().get_char(pos);
                    push_char(out, c);
                    proof {
                        assert(s[0] == c);
                        assert(s.skip(1) =~= low@.skip(pos + 1));
                        assert(kana_spec(t, s) == seq![s[0]] + kana_spec(t, low@.skip(pos + 1)));
                        assert(out@ + kana_spec(t, low@.skip(pos + 1)) =~= out_before + kana_spec(
                            t,
                            s,
                        ));
                    }
                    pos = pos + 1;
                },
            }
        }
        proof {
            assert(low@.skip(n as int) =~= Seq::<char>::empty());
        }
    }
}


/// Kanji candidate lists keyed by hiragana reading; for a reading recorded
/// twice, the last record wins, as map insertion does.
pub open spec fn kanji_map_of(ps: Seq<(String, Vec<String>)>) -> Map<Seq<char>, Seq<Seq<char>>>
    decreases ps.len(),
{
    if ps.len() == 0 {
        Map::empty()
    } else {
        kanji_map_of(ps.drop_last()).insert(ps.last().0@, ps.last().1.deep_view())
    }
}

/// Literal replacements keyed by literal text; last record wins.
pub open spec fn henkan_map_of(ps: Seq<(String, String)>) -> Map<Seq<char>, Seq<char>>
    decreases ps.len(),
{
    if ps.len() == 0 {
        Map::empty()
    } else {
        henkan_map_of(ps.drop_last()).insert(ps.last().0@, ps.last().1@)
    }
}

proof fn lemma_kanji_map_of_found(ps: Seq<(String, Vec<String>)>, key: Seq<char>, k: int)
    requires
        0 <= k < ps.len(),
        ps[k].0@ == key,
        forall|i: int| k < i < ps.len() ==> (#[trigger] ps[i]).0@ != key,
    ensures
        kanji_map_of(ps).contains_key(key),
        kanji_map_of(ps)[key] == ps[k].1.deep_view(),
    decreases ps.len(),
{
    if k < ps.len() - 1 {
        assert(ps[ps.len() - 1].0@ != key);
        assert(ps.drop_last()[k] == ps[k]);
        assert forall|i: int| k < i < ps.drop_last().len() implies (#[trigger] ps.drop_last()[i]).0@
            != key by {
            assert(ps.drop_last()[i] == ps[i]);
        }
        lemma_kanji_map_of_found(ps.drop_last(), key, k);
    }
}

proof fn lemma_kanji_map_of_absent(ps: Seq<(String, Vec<String>)>, key: Seq<char>)
    requires
        forall|i: int| 0 <= i < ps.len() ==> (#[trigger] ps[i]).0@ != key,
    ensures
        !kanji_map_of(ps).contains_key(key),
    decreases ps.len(),
{
    if ps.len() > 0 {
        assert(ps[ps.len() - 1].0@ != key);
        assert forall|i: int| 0 <= i < ps.drop_last().len() implies (#[trigger] ps.drop_last()[i]).0@
            != key by {
            assert(ps.drop_last()[i] == ps[i]);
        }
        lemma_kanji_map_of_absent(ps.drop_last(), key);
    }
}

proof fn lemma_henkan_map_of_found(ps: Seq<(String, String)>, key: Seq<char>, k: int)
    requires
        0 <= k < ps.len(),
        ps[k].0@ == key,
        forall|i: int| k < i < ps.len() ==> (#[trigger] ps[i]).0@ != key,
    ensures
        henkan_map_of(ps).contains_key(key),
        henkan_map_of(ps)[key] == ps[k].1@,
    decreases ps.len(),
{
    if k < ps.len() - 1 {
        assert(ps[ps.len() - 1].0@ != key);
        assert(ps.drop_last()[k] == ps[k]);
        assert forall|i: int| k < i < ps.drop_last().len() implies (#[trigger] ps.drop_last()[i]).0@
            != key by {
            assert(ps.drop_last()[i] == ps[i]);
        }
        lemma_henkan_map_of_found(ps.drop_last(), key, k);
    }
}

proof fn lemma_henkan_map_of_absent(ps: Seq<(String, String)>, key: Seq<char>)
    requires
        forall|i: int| 0 <= i < ps.len() ==> (#[trigger] ps[i]).0@ != key,
    ensures
        !henkan_map_of(ps).contains_key(key),
    decreases ps.len(),
{
    if ps.len() > 0 {
        assert(ps[ps.len() - 1].0@ != key);
        assert forall|i: int| 0 <= i < ps.drop_last().len() implies (#[trigger] ps.drop_last()[i]).0@
            != key by {
            assert(ps.drop_last()[i] == ps[i]);
        }
        lemma_henkan_map_of_absent(ps.drop_last(), key);
    }
}

/// The `<text>` marker emitted when a lookup misses, so the user sees which
/// word failed to resolve.
pub open spec fn fallback_marker(text: Seq<char>) -> Seq<char> {
    seq!['<'] + text + seq!['>']
}

/// What a kanji span renders to: the candidate at `index` for the normalized
/// reading, cut down by `count` — or, when the reading is unknown or the
/// index out of range, the original (pre-normalization) span text in angle
/// brackets.
pub open spec fn kanji_out(
    m: Map<Seq<char>, Seq<Seq<char>>>,
    reading: Seq<char>,
    original: Seq<char>,
    index: int,
    count: Option<int>,
) -> Seq<char> {
    if m.contains_key(reading) && 0 <= index < m[reading].len() {
        truncate_candidate(m[reading][index], count)
    } else {
        fallback_marker(original)
    }
}

/// The slice of a candidate selected by an optional signed count: the first
/// `n` characters for `n >= 0`, the last `|n|` for `n < 0`, and the whole
/// candidate when it is shorter — saturating, never an error.
pub open spec fn truncate_candidate(c: Seq<char>, count: Option<int>) -> Seq<char> {
    match count {
        None => c,
        Some(n) => if n >= 0 {
            if n <= c.len() {
                c.take(n)
            } else {
                c
            }
        } else {
            if -n <= c.len() {
                c.skip(c.len() + n)
            } else {
                c
            }
        },
    }
}

/// Appends `<text>` to the output.
fn append_fallback(out: &mut String, text: &str)
    ensures
        final(out)@ == old(out)@ + fallback_marker(text@),
{
    proof {
        reveal_strlit("<");
        reveal_strlit(">");
        assert("<"@ =~= seq!['<']);
        assert(">"@ =~= seq!['>']);
    }
    out.append("<");
    out.append(text);
    out.append(">");
    proof {
        assert(old(out)@ + "<"@ + text@ + ">"@ =~= old(out)@ + fallback_marker(text@));
    }
}

/// Appends the candidate, cut down by the optional signed count.
fn append_truncated(out: &mut String, cand: &String, count: Option<i64>)
    ensures
        final(out)@ == old(out)@ + truncate_candidate(
            cand@,
            match count {
                Some(n) => Some(n as int),
                None => None,
            },
        ),
{
    match count {
        None => {
            out.append(cand.as_str());
        },
        Some(nn) => {
            let len: usize = cand.as_str().unicode_len();
            if nn >= 0 {
                let k: usize = if nn as u64 >= len as u64 {
                    len
                } else {
                    nn as usize
                };
                proof {
                    if nn as u64 >= len as u64 {
                        assert(cand@.take(len as int) =~= cand@);
                    }
                }
                out.append(cand.as_str().substring_char(0, k));
            } else {
                let m: u64 = if nn == i64::MIN {
                    9223372036854775808u64
                } else {
                    (-nn) as u64
                };
                proof {
                    assert(m as int == -(nn as int));
                }
                let k: usize = if m >= len as u64 {
                    len
                } else {
                    m as usize
                };
                proof {
                    if m >= len as u64 {
                        assert(cand@.skip(0) =~= cand@);
                    }
                }
                out.append(cand.as_str().substring_char(len - k, len));
            }
        },
    }
}

/// Kanji candidate lists by hiragana reading.
#[derive(Debug)]
pub struct KanjiConverter {
    mappings: Vec<(String, Vec<String>)>,
}

impl View for KanjiConverter {
    type V = Map<Seq<char>, Seq<Seq<char>>>;

    closed spec fn view(&self) -> Map<Seq<char>, Seq<Seq<char>>> {
        kanji_map_of(self.mappings@)
    }
}

impl Default for KanjiConverter {
    fn default() -> (r: KanjiConverter)
        ensures
            r@ == Map::<Seq<char>, Seq<Seq<char>>>::empty(),
    {
        KanjiConverter { mappings: Vec::new() }
    }
}

impl KanjiConverter {
    /// Records a reading's candidate list; a reading recorded before is
    /// overwritten.
    pub fn insert_mapping(&mut self, from: String, to: Vec<String>)
        ensures
            final(self)@ == old(self)@.insert(from@, to.deep_view()),
    {
        let ghost fromv = from@;
        let ghost tov = to.deep_view();
        let ghost before = self.mappings@;
        self.mappings.push((from, to));
        proof {
            assert(self.mappings@.drop_last() =~= before);
        }
    }

    /// The candidate list for a reading, scanning the records from the most
    /// recent: `None` exactly when no record has this reading.
    fn lookup<'a>(&'a self, key: &String) -> (r: Option<&'a Vec<String>>)
        ensures
            match r {
                Some(v) => self@.contains_key(key@) && v.deep_view() == self@[key@],
                None => !self@.contains_key(key@),
            },
    {
        let mut k: usize = self.mappings.len();
        while k > 0
            invariant
                k <= self.mappings@.len(),
                forall|i: int|
                    k <= i < self.mappings@.len() ==> (#[trigger] self.mappings@[i]).0@ != key@,
            decreases k,
        {
            k = k - 1;
            if self.mappings[k].0 == *key {
                proof {
                    lemma_kanji_map_of_found(self.mappings@, key@, k as int);
                }
                return Some(&self.mappings[k].1);
            }
        }
        proof {
            lemma_kanji_map_of_absent(self.mappings@, key@);
        }
        None
    }

    /// Appends the candidate selected by the normalized reading and the
    /// span's index, cut down by the span's count; on a missing reading or an
    /// out-of-range index, appends the original span text as `<text>`.
    pub fn convert(
        &self,
        out: &mut String,
        reading: &String,
        original: &str,
        index: usize,
        count: Option<i64>,
    )
        ensures
            final(out)@ == old(out)@ + kanji_out(
                self@,
                reading@,
                original@,
                index as int,
                match count {
                    Some(n) => Some(n as int),
                    None => None,
                },
            ),
    {
        match self.lookup(reading) {
            Some(v) => {
                if index < v.len() {
                    proof {
                        assert(v.deep_view()[index as int] == v@[index as int]@);
                    }
                    append_truncated(out, &v[index], count);
                } else {
                    append_fallback(out, original);
                }
            },
            None => {
                append_fallback(out, original);
            },
        }
    }
}

/// Literal substitutions by literal key.
#[derive(Debug)]
pub struct HenkanConverter {
    mappings: Vec<(String, String)>,
}

impl View for HenkanConverter {
    type V = Map<Seq<char>, Seq<char>>;

    closed spec fn view(&self) -> Map<Seq<char>, Seq<char>> {
        henkan_map_of(self.mappings@)
    }
}

impl Default for HenkanConverter {
    fn default() -> (r: HenkanConverter)
        ensures
            r@ == Map::<Seq<char>, Seq<char>>::empty(),
    {
        HenkanConverter { mappings: Vec::new() }
    }
}

impl HenkanConverter {
    /// Records a key's replacement; a key recorded before is overwritten.
    pub fn insert_mapping(&mut self, from: String, to: String)
        ensures
            final(self)@ == old(self)@.insert(from@, to@),
    {
        let ghost before = self.mappings@;
        self.mappings.push((from, to));
        proof {
            assert(self.mappings@.drop_last() =~= before);
        }
    }

    /// Appends the replacement for the span's literal text, or `<text>` when
    /// no record has that key.
    pub fn convert(&self, out: &mut String, text: &String)
        ensures
            final(out)@ == old(out)@ + (if self@.contains_key(text@) {
                self@[text@]
            } else {
                fallback_marker(text@)
            }),
    {
        let mut k: usize = self.mappings.len();
        while k > 0
            invariant
                k <= self.mappings@.len(),
                out@ == old(out)@,
                forall|i: int|
                    k <= i < self.mappings@.len() ==> (#[trigger] self.mappings@[i]).0@ != text@,
            decreases k,
        {
            k = k - 1;
            if self.mappings[k].0 == *text {
                proof {
                    lemma_henkan_map_of_found(self.mappings@, text@, k as int);
                }
                out.append(self.mappings[k].1.as_str());
                return ;
            }
        }
        proof {
            lemma_henkan_map_of_absent(self.mappings@, text@);
        }
        append_fallback(out, text.as_str());
    }
}


/// The four rule tables a converter holds, in mathematical form.
pub struct ConverterModel {
    pub hiragana: Seq<KanaMappingModel>,
    pub katakana: Seq<KanaMappingModel>,
    pub kanji: Map<Seq<char>, Seq<Seq<char>>>,
    pub henkan: Map<Seq<char>, Seq<char>>,
}

/// The hiragana rules of a record sequence, in delivery order.
pub open spec fn build_hiragana(es: Seq<EntryModel>) -> Seq<KanaMappingModel>
    decreases es.len(),
{
    if es.len() == 0 {
        Seq::empty()
    } else {
        let pre = build_hiragana(es.drop_last());
        match es.last() {
            EntryModel::Hiragana { from, to, consume_chars } => pre.push(
                KanaMappingModel { from, to, consume_chars },
            ),
            _ => pre,
        }
    }
}

/// The katakana rules of a record sequence, in delivery order.
pub open spec fn build_katakana(es: Seq<EntryModel>) -> Seq<KanaMappingModel>
    decreases es.len(),
{
    if es.len() == 0 {
        Seq::empty()
    } else {
        let pre = build_katakana(es.drop_last());
        match es.last() {
            EntryModel::Katakana { from, to, consume_chars } => pre.push(
                KanaMappingModel { from, to, consume_chars },
            ),
            _ => pre,
        }
    }
}

/// The kanji table of a record sequence; a later record for the same reading
/// overwrites an earlier one.
pub open spec fn build_kanji(es: Seq<EntryModel>) -> Map<Seq<char>, Seq<Seq<char>>>
    decreases es.len(),
{
    if es.len() == 0 {
        Map::empty()
    } else {
        let pre = build_kanji(es.drop_last());
        match es.last() {
            EntryModel::Kanji { from, to } => pre.insert(from, to),
            _ => pre,
        }
    }
}

/// The henkan table of a record sequence; last record wins on duplicate keys.
pub open spec fn build_henkan(es: Seq<EntryModel>) -> Map<Seq<char>, Seq<char>>
    decreases es.len(),
{
    if es.len() == 0 {
        Map::empty()
    } else {
        let pre = build_henkan(es.drop_last());
        match es.last() {
            EntryModel::Henkan { from, to } => pre.insert(from, to),
            _ => pre,
        }
    }
}

/// A kana record whose rule consumes at least one character. Any other kind
/// of record is unconstrained.
pub open spec fn entry_productive(e: EntryModel) -> bool {
    match e {
        EntryModel::Hiragana { from, to, consume_chars } => mapping_productive(
            KanaMappingModel { from, to, consume_chars },
        ),
        EntryModel::Katakana { from, to, consume_chars } => mapping_productive(
            KanaMappingModel { from, to, consume_chars },
        ),
        _ => true,
    }
}

/// The record construction rejects: a kana rule that would consume no input,
/// which would make conversion loop forever. `index` is the offending
/// record's position in delivery order, counted from zero.
#[derive(Clone, Copy, Debug, PartialEq, Eq, Structural)]
pub struct UnproductiveRule {
    pub index: usize,
}

/// What one span renders to, given the four tables.
pub open spec fn spec_convert_token(m: ConverterModel, tok: TokenModel) -> Seq<char> {
    match tok {
        TokenModel::Sonomama { text } => text,
        TokenModel::Hiragana { text } => kana_spec(m.hiragana, lower(text)),
        TokenModel::Katakana { text } => kana_spec(m.katakana, lower(text)),
        TokenModel::Kanji { text, index, count } => kanji_out(
            m.kanji,
            kana_spec(m.hiragana, lower(text)),
            text,
            index,
            count,
        ),
        TokenModel::Henkan { text } => if m.henkan.contains_key(text) {
            m.henkan[text]
        } else {
            fallback_marker(text)
        },
    }
}

fn clone_string_vec(v: &Vec<String>) -> (r: Vec<String>)
    ensures
        r@ == v@,
{
    let mut r: Vec<String> = Vec::new();
    let mut i: usize = 0;
    while i < v.len()
        invariant
            i <= v@.len(),
            r@ == v@.take(i as int),
        decreases v@.len() - i,
    {
        r.push(v[i].clone());
        proof {
            assert(r@ =~= v@.take(i + 1));
        }
        i = i + 1;
    }
    proof {
        assert(v@.take(v@.len() as int) =~= v@);
    }
    r
}

/// Holds the four rule tables, built once from the dictionary's records, and
/// renders one span per call, appending to an output string.
#[derive(Debug)]
pub struct Converter {
    hiragana: KanaConverter,
    katakana: KanaConverter,
    kanji: KanjiConverter,
    henkan: HenkanConverter,
}

impl View for Converter {
    type V = ConverterModel;

    closed spec fn view(&self) -> ConverterModel {
        ConverterModel {
            hiragana: self.hiragana@,
            katakana: self.katakana@,
            kanji: self.kanji@,
            henkan: self.henkan@,
        }
    }
}

impl Converter {
    /// Both kana tables advance on every rule, so conversion terminates.
    #[verifier::type_invariant]
    spec fn wf(self) -> bool {
        table_wf(self.hiragana@) && table_wf(self.katakana@)
    }

    /// Builds the four tables from the delivered records in one pass:
    /// kana rules are collected in order and then sorted ascending by
    /// `from` (stably), kanji and henkan records fill their maps with
    /// last-record-wins. Fails exactly on the first kana rule that would
    /// consume no input.
    pub fn new(entries: &Vec<DictionaryEntry>) -> (r: Result<Converter, UnproductiveRule>)
        ensures
            (r is Ok) == (forall|j: int|
                0 <= j < entries.deep_view().len() ==> entry_productive(
                    #[trigger] entries.deep_view()[j],
                )),
            r is Ok ==> r.unwrap()@.hiragana == spec_sort(build_hiragana(entries.deep_view())),
            r is Ok ==> r.unwrap()@.katakana == spec_sort(build_katakana(entries.deep_view())),
            r is Ok ==> r.unwrap()@.kanji == build_kanji(entries.deep_view()),
            r is Ok ==> r.unwrap()@.henkan == build_henkan(entries.deep_view()),
            r matches Err(e) ==> {
                &&& 0 <= e.index < entries.deep_view().len()
                &&& !entry_productive(entries.deep_view()[e.index as int])
                &&& forall|j: int|
                    0 <= j < e.index ==> entry_productive(#[trigger] entries.deep_view()[j])
            },
    {
        let ghost dv = entries.deep_view();
        let mut hiragana = KanaConverter::default();
        let mut katakana = KanaConverter::default();
        let mut kanji = KanjiConverter::default();
        let mut henkan = HenkanConverter::default();
        let mut i: usize = 0;
        proof {
            assert(dv.take(0) =~= Seq::<EntryModel>::empty());
        }
        while i < entries.len()
            invariant
                i <= entries@.len(),
                dv == entries.deep_view(),
                dv.len() == entries@.len(),
                hiragana@ == build_hiragana(dv.take(i as int)),
                katakana@ == build_katakana(dv.take(i as int)),
                kanji@ == build_kanji(dv.take(i as int)),
                henkan@ == build_henkan(dv.take(i as int)),
                forall|j: int| 0 <= j < i ==> entry_productive(#[trigger] dv[j]),
                table_wf(hiragana@),
                table_wf(katakana@),
            decreases entries@.len() - i,
        {
            proof {
                assert(dv[i as int] == entries@[i as int].deep_view());
                assert(dv.take(i + 1).drop_last() =~= dv.take(i as int));
                assert(dv.take(i + 1).last() == dv[i as int]);
            }
            match &entries[i] {
                DictionaryEntry::Hiragana { from, to, consume_chars } => {
                    let productive: bool = match consume_chars {
                        Some(c) => *c >= 1,
                        None => from.as_str().unicode_len() >= 1,
                    };
                    if !productive {
                        proof {
                            assert(!entry_productive(dv[i as int]));
                        }
                        return Err(UnproductiveRule { index: i });
                    }
                    let ghost before = hiragana@;
                    hiragana.insert_mapping(from.clone(), to.clone(), *consume_chars);
                    proof {
                        assert forall|j: int| 0 <= j < hiragana@.len() implies mapping_productive(
                            #[trigger] hiragana@[j],
                        ) by {
                            if j < before.len() {
                                assert(hiragana@[j] == before[j]);
                            }
                        }
                    }
                },
                DictionaryEntry::Katakana { from, to, consume_chars } => {
                    let productive: bool = match consume_chars {
                        Some(c) => *c >= 1,
                        None => from.as_str().unicode_len() >= 1,
                    };
                    if !productive {
                        proof {
                            assert(!entry_productive(dv[i as int]));
                        }
                        return Err(UnproductiveRule { index: i });
                    }
                    let ghost before = katakana@;
                    katakana.insert_mapping(from.clone(), to.clone(), *consume_chars);
                    proof {
                        assert forall|j: int| 0 <= j < katakana@.len() implies mapping_productive(
                            #[trigger] katakana@[j],
                        ) by {
                            if j < before.len() {
                                assert(katakana@[j] == before[j]);
                            }
                        }
                    }
                },
                DictionaryEntry::Kanji { from, to } => {
                    let cloned_to = clone_string_vec(to);
                    proof {
                        assert(cloned_to.deep_view() =~= to.deep_view());
                    }
                    kanji.insert_mapping(from.clone(), cloned_to);
                },
                DictionaryEntry::Henkan { from, to } => {
                    henkan.insert_mapping(from.clone(), to.clone());
                },
            }
            i = i + 1;
        }
        proof {
            assert(dv.take(i as int) =~= dv);
            lemma_spec_sort_productive(hiragana@);
            lemma_spec_sort_productive(katakana@);
        }
        hiragana.finish();
        katakana.finish();
        Ok(Converter { hiragana, katakana, kanji, henkan })
    }

    /// Renders one span and appends the result to `out`: as-is spans pass
    /// through unchanged, kana spans go through their table's conversion
    /// algorithm, kanji spans are normalized to a reading and looked up, and
    /// henkan spans are replaced verbatim — lookup misses degrade to the
    /// `<text>` marker rather than failing.
    pub fn convert(&self, out: &mut String, token: &Token)
        ensures
            final(out)@ == old(out)@ + spec_convert_token(self@, token@),
    {
        proof {
            use_type_invariant(self);
        }
        match token {
            Token::Sonomama { text } => {
                out.append(text.as_str());
            },
            Token::Hiragana { text } => {
                self.hiragana.convert(out, text.as_str());
            },
            Token::Katakana { text } => {
                self.katakana.convert(out, text.as_str());
            },
            Token::Kanji { text, index, count } => {
                let mut reading = String::new();
                self.hiragana.convert(&mut reading, text.as_str());
                proof {
                    assert(Seq::<char>::empty() + kana_spec(self@.hiragana, lower(text@)) =~= kana_spec(
                        self@.hiragana,
                        lower(text@),
                    ));
                }
                self.kanji.convert(out, &reading, text.as_str(), *index, *count);
            },
            Token::Henkan { text } => {
                self.henkan.convert(out, text);
            },
        }
    }
}

/// The output units of one conversion, one per loop step: a matched rule's
/// `to`, or a single passed-through character.
pub open spec fn kana_units(t: Seq<KanaMappingModel>, s: Seq<char>) -> Seq<Seq<char>>
    decreases s.len(),
        when table_wf(t)
        via kana_units_decreases
{
    if s.len() == 0 {
        Seq::empty()
    } else {
        let j = match_idx(t, s);
        if j >= 0 {
            let adv0 = mapping_advance(t[j]);
            let adv = if adv0 <= s.len() {
                adv0
            } else {
                s.len() as int
            };
            seq![t[j].to] + kana_units(t, s.skip(adv))
        } else {
            seq![seq![s[0]]] + kana_units(t, s.skip(1))
        }
    }
}

#[via_fn]
proof fn kana_units_decreases(t: Seq<KanaMappingModel>, s: Seq<char>) {
    if table_wf(t) && s.len() > 0 {
        lemma_match_idx_bounds(t, s);
    }
}

/// A unit the algorithm may emit: one passed-through character, or the `to`
/// of some rule in the table.
pub open spec fn unit_shape_ok(t: Seq<KanaMappingModel>, u: Seq<char>) -> bool {
    u.len() == 1 || exists|j: int| 0 <= j < t.len() && u == (#[trigger] t[j]).to
}

/// Over a table whose rules all consume input, the Kana Conversion Algorithm
/// is total and accounts for its output exactly: the output is the
/// concatenation of one unit per loop step, each unit is a single
/// passed-through character or one rule's `to`, there are no more steps than
/// input characters, and empty input yields empty output.
pub proof fn lemma_kana_conversion_accounting(t: Seq<KanaMappingModel>, s: Seq<char>)
    requires
        table_wf(t),
    ensures
        kana_spec(t, s) == kana_units(t, s).flatten(),
        kana_units(t, s).len() <= s.len(),
        s.len() == 0 ==> kana_spec(t, s) == Seq::<char>::empty(),
        forall|i: int|
            0 <= i < kana_units(t, s).len() ==> unit_shape_ok(t, #[trigger] kana_units(t, s)[i]),
    decreases s.len(),
{
    if s.len() == 0 {
        assert(kana_units(t, s).flatten() =~= Seq::<char>::empty());
    } else {
        lemma_match_idx_bounds(t, s);
        let j = match_idx(t, s);
        let u0: Seq<char> = if j >= 0 {
            t[j].to
        } else {
            seq![s[0]]
        };
        let rest: Seq<char> = if j >= 0 {
            let adv0 = mapping_advance(t[j]);
            s.skip(
                if adv0 <= s.len() {
                    adv0
                } else {
                    s.len() as int
                },
            )
        } else {
            s.skip(1)
        };
        lemma_kana_conversion_accounting(t, rest);
        let units = kana_units(t, s);
        assert(units == seq![u0] + kana_units(t, rest));
        assert(units.len() > 0);
        assert(units.first() == u0);
        assert(units.drop_first() =~= kana_units(t, rest));
        assert(units.flatten() == u0 + kana_units(t, rest).flatten());
        assert(unit_shape_ok(t, u0));
        assert forall|i: int| 0 <= i < units.len() implies unit_shape_ok(
            t,
            #[trigger] units[i],
        ) by {
            if i > 0 {
                assert(units[i] == kana_units(t, rest)[i - 1]);
            }
        }
    }
}

/// Converting an as-is span is the identity on its text, for every converter
/// and every input.
pub proof fn lemma_sonomama_identity(m: ConverterModel, text: Seq<char>)
    ensures
        spec_convert_token(m, TokenModel::Sonomama { text }) == text,
{
}


} // verus!
