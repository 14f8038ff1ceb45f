//! Settings blob parser: reconstructs a key/value mapping from the
//! comma-delimited body of a client-configuration message, although values
//! may themselves contain commas inside brace groups.
//!
//! The text is first split on every comma and each fragment trimmed; a
//! fragment that looks like a fresh `key=value` start (letters, then `=`,
//! and not ending in `}`) opens a new pair, and any other fragment is glued
//! onto the value of the most recent pair. The comma consumed by the split
//! is not reinserted when gluing; that lossy behaviour is kept deliberately,
//! because the baseline table of known default values records values in the
//! same comma-dropped form.

use vstd::prelude::*;
use vstd::string::StrSliceExecFns;
use vstd::string::StringExecFns;
use crate::text::{
    find_char_from, find_char_at, lemma_find_char_from, first_non_alpha, scan_alpha_end, trim,
    trim_spec, str_eq,
};

verus! {

/// Pieces of `s` in `[from, s.len())` between literal commas, in order.
pub open spec fn split_commas_from(s: Seq<char>, from: int) -> Seq<Seq<char>>
    recommends
        0 <= from <= s.len(),
    decreases s.len() - from,
{
    match find_char_from(s, ',', from) {
        Option::Some(i) => {
            if from <= i < s.len() {
                seq![s.subrange(from, i)] + split_commas_from(s, i + 1)
            } else {
                seq![s.subrange(from, s.len() as int)]
            }
        },
        Option::None => seq![s.subrange(from, s.len() as int)],
    }
}

/// Pieces of `s` between literal commas: one piece per comma, plus the tail.
pub open spec fn split_commas(s: Seq<char>) -> Seq<Seq<char>> {
    split_commas_from(s, 0)
}

/// Each fragment with its surrounding whitespace removed.
pub open spec fn trim_all(frags: Seq<Seq<char>>) -> Seq<Seq<char>> {
    frags.map_values(|f: Seq<char>| trim_spec(f))
}

/// The trimmed comma-fragments of a settings blob.
pub open spec fn trimmed_fragments(s: Seq<char>) -> Seq<Seq<char>> {
    trim_all(split_commas(s))
}

/// A fragment that opens a new pair: one or more ASCII letters, then `=`,
/// and the fragment does not end with `}`.
pub open spec fn is_fresh_pair(f: Seq<char>) -> bool {
    let a = first_non_alpha(f, 0);
    1 <= a < f.len() && f[a] == '=' && f.last() != '}'
}

/// Fold the trimmed fragments into reconstructed pairs, in order: a fresh
/// `key=value` fragment appends a new pair, split at its first `=`; any
/// other fragment is appended verbatim onto the last pair's value, or
/// discarded when no pair exists yet.
pub open spec fn merge_fragments(frags: Seq<Seq<char>>) -> Seq<(Seq<char>, Seq<char>)>
    decreases frags.len(),
{
    if frags.len() == 0 {
        Seq::empty()
    } else {
        let prev = merge_fragments(frags.drop_last());
        let f = frags.last();
        if is_fresh_pair(f) {
            let a = first_non_alpha(f, 0);
            prev.push((f.subrange(0, a), f.subrange(a + 1, f.len() as int)))
        } else if prev.len() == 0 {
            prev
        } else {
            prev.update(prev.len() - 1, (prev.last().0, prev.last().1 + f))
        }
    }
}

/// The ordered (key, value) pairs reconstructed from a settings blob,
/// duplicates still present.
pub open spec fn parse_blob_pairs(s: Seq<char>) -> Seq<(Seq<char>, Seq<char>)> {
    merge_fragments(trimmed_fragments(s))
}

/// Least index at or after `from` whose pair carries key `k`, if any.
pub open spec fn first_key_index(
    ps: Seq<(Seq<char>, Seq<char>)>,
    k: Seq<char>,
    from: int,
) -> Option<int>
    recommends
        0 <= from,
    decreases ps.len() - from,
{
    if from >= ps.len() {
        None
    } else if ps[from].0 == k {
        Some(from)
    } else {
        first_key_index(ps, k, from + 1)
    }
}

/// What `first_key_index` returns: the least index carrying the key, or
/// `None` when no pair does.
pub proof fn lemma_first_key_index(ps: Seq<(Seq<char>, Seq<char>)>, k: Seq<char>, from: int)
    requires
        0 <= from,
    ensures
        match first_key_index(ps, k, from) {
            Some(i) => from <= i < ps.len() && ps[i].0 == k && (forall|j: int|
                from <= j < i ==> ps[j].0 != k),
            None => forall|j: int| from <= j < ps.len() ==> ps[j].0 != k,
        },
    decreases ps.len() - from,
{
    if from >= ps.len() {
    } else if ps[from].0 == k {
    } else {
        lemma_first_key_index(ps, k, from + 1);
    }
}

/// Insert with last-write-wins: replace the value of the pair already
/// carrying the key, else append a new pair.
pub open spec fn upsert_pair(
    ps: Seq<(Seq<char>, Seq<char>)>,
    p: (Seq<char>, Seq<char>),
) -> Seq<(Seq<char>, Seq<char>)> {
    match first_key_index(ps, p.0, 0) {
        Some(i) => ps.update(i, p),
        None => ps.push(p),
    }
}

/// Collapse duplicate keys, later occurrences winning, keeping the position
/// of the first occurrence.
pub open spec fn dedup_pairs(ps: Seq<(Seq<char>, Seq<char>)>) -> Seq<(Seq<char>, Seq<char>)>
    decreases ps.len(),
{
    if ps.len() == 0 {
        Seq::empty()
    } else {
        upsert_pair(dedup_pairs(ps.drop_last()), ps.last())
    }
}

/// No two pairs carry the same key.
pub open spec fn wf_pairs(ps: Seq<(Seq<char>, Seq<char>)>) -> bool {
    forall|i: int, j: int| 0 <= i < j < ps.len() ==> ps[i].0 != ps[j].0
}

pub proof fn lemma_upsert_wf(ps: Seq<(Seq<char>, Seq<char>)>, p: (Seq<char>, Seq<char>))
    requires
        wf_pairs(ps),
    ensures
        wf_pairs(upsert_pair(ps, p)),
{
    lemma_first_key_index(ps, p.0, 0);
    match first_key_index(ps, p.0, 0) {
        Some(i) => {
            let r = ps.update(i, p);
            assert forall|x: int, y: int| 0 <= x < y < r.len() implies r[x].0 != r[y].0 by {
                if x != i && y != i {
                    assert(ps[x].0 != ps[y].0);
                }
            }
        },
        None => {
            let r = ps.push(p);
            assert forall|x: int, y: int| 0 <= x < y < r.len() implies r[x].0 != r[y].0 by {
                if y == ps.len() {
                    assert(ps[x].0 != p.0);
                }
            }
        },
    }
}

/// Views of a sequence of owned strings.
pub open spec fn string_views(v: Seq<String>) -> Seq<Seq<char>> {
    v.map_values(|s: String| s@)
}

/// Views of a sequence of owned pairs.
pub open spec fn pair_views(v: Seq<(String, String)>) -> Seq<(Seq<char>, Seq<char>)> {
    v.map_values(|p: (String, String)| (p.0@, p.1@))
}

/// Split `input` on every comma and trim each fragment.
fn split_and_trim(input: &str) -> (r: Vec<String>)
    ensures
        string_views(r@) == trimmed_fragments(input@),
{
    let len = input.unicode_len();
    let mut frags: Vec<String> = Vec::new();
    let mut offset: usize = 0;
    proof {
        assert(string_views(frags@) + trim_all(split_commas_from(input@, 0)) =~= trim_all(
            split_commas_from(input@, 0),
        ));
    }
    loop
        invariant_except_break
            trimmed_fragments(input@) == string_views(frags@) + trim_all(
                split_commas_from(input@, offset as int),
            ),
        invariant
            len == input@.len(),
            offset <= len,
        ensures
            string_views(frags@) == trimmed_fragments(input@),
        decreases len - offset,
    {
        match find_char_at(input, ',', offset) {
            Some(i) => {
                proof {
                    lemma_find_char_from(input@, ',', offset as int);
                }
                let piece = input.substring_char(offset, i);
                let t = trim(piece);
                frags.push(t);
                proof {
                    let s = input@;
                    let rest = split_commas_from(s, i + 1);
                    assert(split_commas_from(s, offset as int) == seq![
                        s.subrange(offset as int, i as int),
                    ] + rest);
                    assert(trim_all(seq![s.subrange(offset as int, i as int)] + rest) =~= seq![
                        trim_spec(s.subrange(offset as int, i as int)),
                    ] + trim_all(rest));
                    assert(string_views(frags@) =~= string_views(frags@.drop_last()) + seq![
                        t@,
                    ]);
                    assert(string_views(frags@.drop_last()) + seq![t@] + trim_all(rest)
                        =~= string_views(frags@.drop_last()) + (seq![t@] + trim_all(rest)));
                }
                offset = i + 1;
            },
            None => {
                let piece = input.substring_char(offset, len);
                let t = trim(piece);
                frags.push(t);
                proof {
                    let s = input@;
                    assert(split_commas_from(s, offset as int) == seq![
                        s.subrange(offset as int, s.len() as int),
                    ]);
                    assert(trim_all(seq![s.subrange(offset as int, s.len() as int)]) =~= seq![
                        trim_spec(s.subrange(offset as int, s.len() as int)),
                    ]);
                    assert(string_views(frags@) =~= string_views(frags@.drop_last()) + seq![
                        t@,
                    ]);
                }
                break;
            },
        }
    }
    frags
}

/// When `f` opens a fresh pair, the length of its key (the leading letter
/// run); `None` otherwise.
fn fresh_key_len(f: &str) -> (r: Option<usize>)
    ensures
        match r {
            Some(a) => is_fresh_pair(f@) && a == first_non_alpha(f@, 0),
            None => !is_fresh_pair(f@),
        },
{
    let flen = f.unicode_len();
    let a = scan_alpha_end(f, 0);
    if 1 <= a && a < flen && f.get_char(a) == '=' && f.get_char(flen - 1) != '}' {
        Some(a)
    } else {
        None
    }
}

/// Fold trimmed fragments into reconstructed pairs.
fn merge_fragment_list(frags: &Vec<String>) -> (r: Vec<(String, String)>)
    ensures
        pair_views(r@) == merge_fragments(string_views(frags@)),
{
    let mut pairs: Vec<(String, String)> = Vec::new();
    let mut n: usize = 0;
    while n < frags.len()
        invariant
            n <= frags.len(),
            pair_views(pairs@) == merge_fragments(string_views(frags@).subrange(0, n as int)),
        decreases frags.len() - n,
    {
        let f: &String = &frags[n];
        proof {
            let pref = string_views(frags@).subrange(0, n as int);
            let pref1 = string_views(frags@).subrange(0, n + 1);
            assert(pref1.drop_last() =~= pref);
            assert(pref1.last() == f@);
        }
        match fresh_key_len(f.as_str()) {
            Some(a) => {
                let flen = f.as_str().unicode_len();
                let key = f.as_str().substring_char(0, a).to_owned();
                let val = f.as_str().substring_char(a + 1, flen).to_owned();
                pairs.push((key, val));
                proof {
                    assert(pair_views(pairs@) =~= pair_views(pairs@.drop_last()).push(
                        (pairs@.last().0@, pairs@.last().1@),
                    ));
                }
            },
            None => {
                if pairs.len() > 0 {
                    let (k, mut v) = pairs.pop().unwrap();
                    v.append(f.as_str());
                    pairs.push((k, v));
                    proof {
                        let prev = merge_fragments(string_views(frags@).subrange(0, n as int));
                        assert(pair_views(pairs@) =~= prev.update(
                            prev.len() - 1,
                            (prev.last().0, prev.last().1 + f@),
                        ));
                    }
                }
            },
        }
        n += 1;
    }
    proof {
        assert(string_views(frags@).subrange(0, frags@.len() as int) =~= string_views(frags@));
    }
    pairs
}

/// A client-configuration snapshot: a mapping from setting name to raw
/// textual value, keys unique, insertion order not significant.
#[derive(Debug)]
pub struct ClientSettings {
    inner: Vec<(String, String)>,
}

impl ClientSettings {
    /// The (key, value) pairs held, as views, in storage order.
    pub closed spec fn pairs(&self) -> Seq<(Seq<char>, Seq<char>)> {
        pair_views(self.inner@)
    }

    /// Keys are unique.
    pub open spec fn wf(&self) -> bool {
        wf_pairs(self.pairs())
    }

    /// An empty snapshot.
    pub fn new() -> (r: ClientSettings)
        ensures
            r.pairs() == Seq::<(Seq<char>, Seq<char>)>::empty(),
            r.wf(),
    {
        let r = ClientSettings { inner: Vec::new() };
        proof {
            assert(r.pairs() =~= Seq::<(Seq<char>, Seq<char>)>::empty());
        }
        r
    }

    /// How many settings are held.
    pub fn len(&self) -> (n: usize)
        ensures
            n == self.pairs().len(),
    {
        self.inner.len()
    }

    /// Insert with last-write-wins: a pair already carrying the key has its
    /// value replaced in place; otherwise the pair is appended.
    pub fn insert(&mut self, key: String, value: String)
        ensures
            final(self).pairs() == upsert_pair(old(self).pairs(), (key@, value@)),
            old(self).wf() ==> final(self).wf(),
    {
        proof {
            lemma_first_key_index(self.pairs(), key@, 0);
            if old(self).wf() {
                lemma_upsert_wf(old(self).pairs(), (key@, value@));
            }
        }
        let n = self.inner.len();
        let mut i: usize = 0;
        loop
            invariant
                n == self.inner.len(),
                i <= n,
                self == old(self),
                first_key_index(self.pairs(), key@, 0) == first_key_index(
                    self.pairs(),
                    key@,
                    i as int,
                ),
            ensures
                self == old(self),
                match first_key_index(old(self).pairs(), key@, 0) {
                    Some(idx) => i < n && i == idx,
                    None => i == n,
                },
            decreases n - i,
        {
            if i < n {
                if str_eq(self.inner[i].0.as_str(), key.as_str()) {
                    break;
                }
                i += 1;
            } else {
                break;
            }
        }
        if i < n {
            self.inner.remove(i);
            self.inner.insert(i, (key, value));
            proof {
                assert(self.pairs() =~= upsert_pair(old(self).pairs(), (key@, value@)));
            }
        } else {
            self.inner.push((key, value));
            proof {
                assert(self.pairs() =~= upsert_pair(old(self).pairs(), (key@, value@)));
            }
        }
    }

    /// The pair at position `i`, copied out.
    pub fn pair_at(&self, i: usize) -> (r: (String, String))
        requires
            i < self.pairs().len(),
        ensures
            (r.0@, r.1@) == self.pairs()[i as int],
    {
        (self.inner[i].0.clone(), self.inner[i].1.clone())
    }

    /// Append a pair at the end, blind to the keys already held.
    pub(crate) fn push_pair(&mut self, key: String, value: String)
        ensures
            final(self).pairs() == old(self).pairs().push((key@, value@)),
    {
        self.inner.push((key, value));
        proof {
            assert(self.pairs() =~= old(self).pairs().push((key@, value@)));
        }
    }

    /// The value held for `key`, if any.
    pub fn get(&self, key: &str) -> (r: Option<String>)
        ensures
            match first_key_index(self.pairs(), key@, 0) {
                Some(i) => r matches Some(v) && v@ == self.pairs()[i].1,
                None => r is None,
            },
            self.wf() ==> match r {
                Some(v) => self.as_map().contains_key(key@) && v@ == self.as_map()[key@],
                None => !self.as_map().contains_key(key@),
            },
    {
        proof {
            if self.wf() {
                lemma_lookup_matches_map(self.pairs(), key@);
            }
        }
        let n = self.inner.len();
        let mut i: usize = 0;
        loop
            invariant
                n == self.inner.len(),
                i <= n,
                first_key_index(self.pairs(), key@, 0) == first_key_index(
                    self.pairs(),
                    key@,
                    i as int,
                ),
            ensures
                match first_key_index(self.pairs(), key@, 0) {
                    Some(idx) => i < n && i == idx,
                    None => i == n,
                },
            decreases n - i,
        {
            if i < n {
                if str_eq(self.inner[i].0.as_str(), key) {
                    break;
                }
                i += 1;
            } else {
                break;
            }
        }
        if i < n {
            Some(self.inner[i].1.clone())
        } else {
            None
        }
    }
}

/// Reconstruct a settings mapping from the text between the outer braces of
/// a client-configuration message.
pub fn extract_client_details(input: &str) -> (r: ClientSettings)
    ensures
        r.pairs() == dedup_pairs(parse_blob_pairs(input@)),
        r.as_map() == pairs_to_map(parse_blob_pairs(input@)),
        r.wf(),
{
    proof {
        lemma_dedup_preserves_map(parse_blob_pairs(input@));
    }
    let frags = split_and_trim(input);
    let merged = merge_fragment_list(&frags);
    let mut cs = ClientSettings::new();
    let mut n: usize = 0;
    while n < merged.len()
        invariant
            n <= merged.len(),
            pair_views(merged@) == parse_blob_pairs(input@),
            cs.pairs() == dedup_pairs(pair_views(merged@).subrange(0, n as int)),
            cs.wf(),
        decreases merged.len() - n,
    {
        proof {
            let ps = pair_views(merged@);
            assert(ps.subrange(0, n + 1).drop_last() =~= ps.subrange(0, n as int));
            assert(ps.subrange(0, n + 1).last() == ps[n as int]);
        }
        let key = merged[n].0.clone();
        let val = merged[n].1.clone();
        cs.insert(key, val);
        n += 1;
    }
    proof {
        let ps = pair_views(merged@);
        assert(ps.subrange(0, ps.len() as int) =~= ps);
    }
    cs
}


/// Commas in `s` at or after `from`.
pub open spec fn count_commas_from(s: Seq<char>, from: int) -> int
    recommends
        0 <= from,
    decreases s.len() - from,
{
    if from >= s.len() {
        0
    } else {
        (if s[from] == ',' {
            1int
        } else {
            0int
        }) + count_commas_from(s, from + 1)
    }
}

/// Commas in `s`.
pub open spec fn count_commas(s: Seq<char>) -> int {
    count_commas_from(s, 0)
}

proof fn lemma_count_zero(s: Seq<char>, from: int)
    requires
        0 <= from <= s.len(),
        forall|j: int| from <= j < s.len() ==> s[j] != ',',
    ensures
        count_commas_from(s, from) == 0,
    decreases s.len() - from,
{
    if from < s.len() {
        lemma_count_zero(s, from + 1);
    }
}

proof fn lemma_count_step(s: Seq<char>, from: int, i: int)
    requires
        0 <= from <= i < s.len(),
        forall|j: int| from <= j < i ==> s[j] != ',',
        s[i] == ',',
    ensures
        count_commas_from(s, from) == 1 + count_commas_from(s, i + 1),
    decreases i - from,
{
    if from == i {
    } else {
        lemma_count_step(s, from + 1, i);
    }
}

proof fn lemma_split_count(s: Seq<char>, from: int)
    requires
        0 <= from <= s.len(),
    ensures
        split_commas_from(s, from).len() == count_commas_from(s, from) + 1,
    decreases s.len() - from,
{
    lemma_find_char_from(s, ',', from);
    match find_char_from(s, ',', from) {
        Option::None => {
            lemma_count_zero(s, from);
        },
        Option::Some(i) => {
            lemma_count_step(s, from, i);
            lemma_split_count(s, i + 1);
        },
    }
}

/// The pair a fresh fragment opens: split at its first `=`.
pub open spec fn pair_of_fragment(f: Seq<char>) -> (Seq<char>, Seq<char>) {
    let a = first_non_alpha(f, 0);
    (f.subrange(0, a), f.subrange(a + 1, f.len() as int))
}

proof fn lemma_merge_all_fresh(frags: Seq<Seq<char>>)
    requires
        forall|i: int| 0 <= i < frags.len() ==> is_fresh_pair(#[trigger] frags[i]),
    ensures
        merge_fragments(frags).len() == frags.len(),
        forall|i: int|
            0 <= i < frags.len() ==> #[trigger] merge_fragments(frags)[i] == pair_of_fragment(
                frags[i],
            ),
    decreases frags.len(),
{
    if frags.len() > 0 {
        assert(forall|i: int|
            0 <= i < frags.len() - 1 ==> #[trigger] frags.drop_last()[i] == frags[i]);
        lemma_merge_all_fresh(frags.drop_last());
        assert(is_fresh_pair(frags.last()));
    }
}

/// A settings blob whose trimmed comma-fragments each open a fresh
/// `key=value` pair reconstructs into exactly one pair per fragment: as
/// many pairs as commas plus one, with every key and value taken verbatim
/// from its fragment, split at the fragment's first `=`.
pub proof fn lemma_simple_blob(s: Seq<char>)
    requires
        forall|i: int|
            0 <= i < trimmed_fragments(s).len() ==> is_fresh_pair(
                #[trigger] trimmed_fragments(s)[i],
            ),
    ensures
        parse_blob_pairs(s).len() == count_commas(s) + 1,
        forall|i: int|
            0 <= i < parse_blob_pairs(s).len() ==> #[trigger] parse_blob_pairs(s)[i]
                == pair_of_fragment(trimmed_fragments(s)[i]),
{
    lemma_split_count(s, 0);
    lemma_merge_all_fresh(trimmed_fragments(s));
}


/// The mapping an ordered pair list denotes: later occurrences of a key
/// win.
pub open spec fn pairs_to_map(ps: Seq<(Seq<char>, Seq<char>)>) -> Map<Seq<char>, Seq<char>>
    decreases ps.len(),
{
    if ps.len() == 0 {
        Map::empty()
    } else {
        pairs_to_map(ps.drop_last()).insert(ps.last().0, ps.last().1)
    }
}

proof fn lemma_update_map(qs: Seq<(Seq<char>, Seq<char>)>, i: int, p: (Seq<char>, Seq<char>))
    requires
        wf_pairs(qs),
        0 <= i < qs.len(),
        qs[i].0 == p.0,
    ensures
        pairs_to_map(qs.update(i, p)) == pairs_to_map(qs).insert(p.0, p.1),
    decreases qs.len(),
{
    let r = qs.update(i, p);
    let n = qs.len() as int;
    if i == n - 1 {
        assert(r.drop_last() =~= qs.drop_last());
        assert(r.last() == p);
        assert(qs.last().0 == p.0);
        assert(pairs_to_map(qs.drop_last()).insert(qs.last().0, qs.last().1).insert(p.0, p.1)
            =~= pairs_to_map(qs.drop_last()).insert(p.0, p.1));
    } else {
        assert(r.last() == qs.last());
        assert(r.drop_last() =~= qs.drop_last().update(i, p));
        assert(wf_pairs(qs.drop_last())) by {
            assert(forall|x: int|
                0 <= x < qs.len() - 1 ==> #[trigger] qs.drop_last()[x] == qs[x]);
        }
        assert(qs.drop_last()[i] == qs[i]);
        lemma_update_map(qs.drop_last(), i, p);
        // the updated key and the last pair's key differ, so the two
        // inserts commute
        assert(qs.last() == qs[n - 1]);
        assert(qs[i].0 != qs[n - 1].0);
        assert(pairs_to_map(qs.drop_last()).insert(p.0, p.1).insert(
            qs.last().0,
            qs.last().1,
        ) =~= pairs_to_map(qs.drop_last()).insert(qs.last().0, qs.last().1).insert(
            p.0,
            p.1,
        ));
    }
}

proof fn lemma_upsert_map(qs: Seq<(Seq<char>, Seq<char>)>, p: (Seq<char>, Seq<char>))
    requires
        wf_pairs(qs),
    ensures
        pairs_to_map(upsert_pair(qs, p)) == pairs_to_map(qs).insert(p.0, p.1),
{
    lemma_first_key_index(qs, p.0, 0);
    match first_key_index(qs, p.0, 0) {
        Some(i) => {
            lemma_update_map(qs, i, p);
        },
        None => {
            assert(qs.push(p).drop_last() =~= qs);
            assert(qs.push(p).last() == p);
        },
    }
}

/// Duplicate keys never change the mapping: collapsing them with
/// last-write-wins denotes the same map as the raw pair list.
pub proof fn lemma_dedup_preserves_map(ps: Seq<(Seq<char>, Seq<char>)>)
    ensures
        wf_pairs(dedup_pairs(ps)),
        pairs_to_map(dedup_pairs(ps)) == pairs_to_map(ps),
    decreases ps.len(),
{
    if ps.len() == 0 {
        assert(wf_pairs(dedup_pairs(ps)));
    } else {
        lemma_dedup_preserves_map(ps.drop_last());
        lemma_upsert_wf(dedup_pairs(ps.drop_last()), ps.last());
        lemma_upsert_map(dedup_pairs(ps.drop_last()), ps.last());
    }
}

impl ClientSettings {
    /// The mapping held: each key to its value.
    pub open spec fn as_map(&self) -> Map<Seq<char>, Seq<char>> {
        pairs_to_map(self.pairs())
    }
}


/// With unique keys, position-based lookup and the mapping agree: the
/// first pair carrying a key holds exactly the mapped value, and a key no
/// pair carries is not in the mapping.
pub proof fn lemma_lookup_matches_map(ps: Seq<(Seq<char>, Seq<char>)>, k: Seq<char>)
    requires
        wf_pairs(ps),
    ensures
        match first_key_index(ps, k, 0) {
            Some(i) => pairs_to_map(ps).contains_key(k) && pairs_to_map(ps)[k] == ps[i].1,
            None => !pairs_to_map(ps).contains_key(k),
        },
    decreases ps.len(),
{
    lemma_first_key_index(ps, k, 0);
    if ps.len() == 0 {
    } else {
        let dl = ps.drop_last();
        let n = ps.len() as int;
        assert(wf_pairs(dl)) by {
            assert(forall|x: int| 0 <= x < n - 1 ==> #[trigger] dl[x] == ps[x]);
        }
        lemma_lookup_matches_map(dl, k);
        lemma_first_key_index(dl, k, 0);
        if ps.last().0 == k {
            assert(ps[n - 1].0 == k);
            match first_key_index(ps, k, 0) {
                Some(i) => {
                    // unique keys: the only pair carrying `k` is the last
                    assert(i == n - 1);
                },
                None => {
                    // contradicts the last pair carrying `k`
                    assert(ps[n - 1].0 != k);
                },
            }
        } else {
            assert(forall|x: int| 0 <= x < n - 1 ==> #[trigger] dl[x] == ps[x]);
            match first_key_index(ps, k, 0) {
                Some(i) => {
                    assert(i < n - 1);
                    match first_key_index(dl, k, 0) {
                        Some(i2) => {
                            assert(i2 == i);
                        },
                        None => {
                            // contradicts the pair at `i` carrying `k`
                            assert(dl[i] == ps[i]);
                            assert(dl[i].0 != k);
                        },
                    }
                },
                None => {
                    assert(first_key_index(dl, k, 0) is None) by {
                        if first_key_index(dl, k, 0) is Some {
                            let i2 = first_key_index(dl, k, 0)->Some_0;
                            assert(ps[i2].0 == k);
                        }
                    }
                },
            }
        }
    }
}

} // verus!