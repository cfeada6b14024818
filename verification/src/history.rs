//! The history index: every title ever logged, most recent first, each kept
//! once, with a keyword search over them. The search itself is indicium's;
//! its index is held behind trusted declarations that promise only which keys
//! it can hand back.

use indicium::simple::SearchIndex;
use indicium::simple::SearchIndexBuilder;
use indicium::simple::SearchType;
use vstd::prelude::*;

use crate::entries::{Entry, EntryTitle};

verus! {

#[verifier::external_type_specification]
#[verifier::external_body]
#[verifier::reject_recursive_types(K)]
pub struct ExSearchIndex<K: Ord>(SearchIndex<K>);

#[verifier::external_type_specification]
#[verifier::external_body]
#[verifier::reject_recursive_types(B)]
pub struct ExKStringBase<B>(kstring::KStringBase<B>);

/// The set of keys ever inserted into an indicium search index.
pub uninterp spec fn index_keys(idx: SearchIndex<usize>) -> Set<usize>;

/// The keys a search of the index returns for a query, in order; indicium's
/// search reads only the index and the query text, so the result is a
/// function of the two.
pub uninterp spec fn index_results(idx: SearchIndex<usize>, query: Seq<char>) -> Seq<usize>;

/// The index's configuration as the contracts need it: built for live
/// search, with the all-records dump keyword `\0` configured.
pub uninterp spec fn live_dump_index(idx: SearchIndex<usize>) -> bool;

/// Relies on indicium's `SearchIndexBuilder`: a freshly built index maps no
/// keyword to any key, performs live searches, and keeps the builder's
/// default dump keyword `\0`.
#[verifier::external_body]
fn new_live_index() -> (r: SearchIndex<usize>)
    ensures
        index_keys(r) == Set::<usize>::empty(),
        live_dump_index(r),
{
    SearchIndexBuilder::default().search_type(SearchType::Live).build()
}

/// Relies on indicium's `SearchIndex::insert`: it files the given key under
/// the value's keywords and never stores any other key; with a dump keyword
/// configured the key is always filed under it (the per-keyword cap does not
/// apply to the dump keyword); the configuration is left alone.
#[verifier::external_body]
fn index_insert(idx: &mut SearchIndex<usize>, key: usize, title: &String)
    ensures
        index_keys(*old(idx)).subset_of(index_keys(*final(idx))),
        index_keys(*final(idx)).subset_of(index_keys(*old(idx)).insert(key)),
        live_dump_index(*old(idx)) ==> index_keys(*final(idx)).contains(key),
        live_dump_index(*final(idx)) == live_dump_index(*old(idx)),
{
    idx.insert(&key, title)
}

/// Relies on indicium's `SearchIndex::search`: every result is a key the
/// index holds. On a live index, a search for the dump keyword `\0` walks
/// the keyword map's ordered key sets whole: it lists exactly the held keys,
/// in ascending order.
#[verifier::external_body]
fn index_search(idx: &SearchIndex<usize>, query: &str) -> (r: Vec<usize>)
    ensures
        r@ == index_results(*idx, query@),
        forall|i: int| 0 <= i < r@.len() ==> index_keys(*idx).contains(#[trigger] r@[i]),
        live_dump_index(*idx) && query@ == seq!['\0'] ==> {
            &&& forall|i: int, j: int| 0 <= i < j < r@.len() ==> r@[i] < r@[j]
            &&& forall|k: usize|
                index_keys(*idx).contains(k) <==> exists|i: int|
                    0 <= i < r@.len() && (#[trigger] r@[i]) == k
        },
{
    idx.search(query).into_iter().map(|k| *k).collect()
}

/// Relies on indicium's `SearchIndex::dump_keyword`: the keyword configured
/// to return every record; on a live index as built here it is `\0`.
#[verifier::external_body]
fn index_dump_keyword(idx: &SearchIndex<usize>) -> (r: Option<String>)
    ensures
        live_dump_index(*idx) ==> r is Some && r->Some_0@ == seq!['\0'],
{
    idx.dump_keyword().map(|s| s.to_string())
}

/// Deduplication keeping first occurrences: each text is kept where it first
/// appears and dropped wherever it appears again.
pub open spec fn dedup_first(s: Seq<Seq<char>>, seen: Set<Seq<char>>) -> Seq<Seq<char>>
    decreases s.len(),
{
    if s.len() == 0 {
        Seq::empty()
    } else if seen.contains(s[0]) {
        dedup_first(s.drop_first(), seen)
    } else {
        seq![s[0]] + dedup_first(s.drop_first(), seen.insert(s[0]))
    }
}

/// The searchable history: all titles of the log, most recent first, each
/// once, and indicium's index over them keyed by position.
pub struct HistoryIndex {
    pub titles: Vec<EntryTitle>,
    pub index: SearchIndex<usize>,
}

impl HistoryIndex {
    /// The index holds exactly the titles' positions as keys, and is built
    /// for live search with the dump keyword in place.
    pub open spec fn wf(self) -> bool {
        &&& live_dump_index(self.index)
        &&& forall|k: usize|
            index_keys(self.index).contains(k) <==> (k as int) < self.titles@.len()
    }

    /// The match list for a query: the index's results, the dump listing for
    /// an empty query.
    pub open spec fn spec_matches(self, query: Seq<char>) -> Seq<usize> {
        if query.len() == 0 {
            index_results(self.index, seq!['\0'])
        } else {
            index_results(self.index, query)
        }
    }

    /// The titles as text, in order.
    pub open spec fn spec_titles(self) -> Seq<Seq<char>> {
        Seq::new(self.titles@.len(), |i: int| self.titles@[i].0@)
    }

    /// An empty history.
    pub fn new() -> (r: HistoryIndex)
        ensures
            r.wf(),
            r.spec_titles() == Seq::<Seq<char>>::empty(),
    {
        let r = HistoryIndex { titles: Vec::new(), index: new_live_index() };
        proof {
            assert(r.spec_titles() =~= Seq::<Seq<char>>::empty());
        }
        r
    }

    /// Builds the history from the log's entries, oldest first: titles are
    /// taken most recent first and deduplicated so that the newest occurrence
    /// of each title wins.
    pub fn build(entries: &Vec<Entry>) -> (r: HistoryIndex)
        ensures
            r.wf(),
            r.spec_titles() == dedup_first(
                Seq::new(
                    entries@.len(),
                    |i: int|
                        crate::entries::spec_title(
                            entries@[entries@.len() - 1 - i].project@,
                            entries@[entries@.len() - 1 - i].activity@,
                        ),
                ),
                Set::empty(),
            ),
    {
        let ghost rev_titles = Seq::new(
            entries@.len(),
            |i: int|
                crate::entries::spec_title(
                    entries@[entries@.len() - 1 - i].project@,
                    entries@[entries@.len() - 1 - i].activity@,
                ),
        );
        // most recent first
        let mut reversed: Vec<String> = Vec::new();
        let mut i: usize = entries.len();
        while i > 0
            invariant
                i <= entries@.len(),
                reversed@.len() == entries@.len() - i,
                rev_titles == Seq::new(
                    entries@.len(),
                    |j: int|
                        crate::entries::spec_title(
                            entries@[entries@.len() - 1 - j].project@,
                            entries@[entries@.len() - 1 - j].activity@,
                        ),
                ),
                forall|j: int|
                    0 <= j < reversed@.len() ==> (#[trigger] reversed@[j])@ == rev_titles[j],
            decreases i,
        {
            i -= 1;
            reversed.push(entries[i].display_sans_time());
        }
        // dedup keeping first occurrences
        let mut titles: Vec<EntryTitle> = Vec::new();
        let ghost seen: Set<Seq<char>> = Set::empty();
        let mut k: usize = 0;
        proof {
            assert(dedup_first(rev_titles, Set::empty()) == Seq::new(
                titles@.len(),
                |i: int| titles@[i].0@,
            ) + dedup_first(suffix_of(rev_titles, 0), Set::empty())) by {
                assert(suffix_of(rev_titles, 0) =~= rev_titles);
                assert(Seq::new(titles@.len(), |i: int| titles@[i].0@) =~= Seq::<
                    Seq<char>,
                >::empty());
            }
        }
        let mut seen_texts: Vec<String> = Vec::new();
        while k < reversed.len()
            invariant
                k <= reversed@.len(),
                forall|j: int|
                    0 <= j < reversed@.len() ==> (#[trigger] reversed@[j])@ == rev_titles[j],
                reversed@.len() == rev_titles.len(),
                seen_texts@.len() == titles@.len(),
                forall|j: int| 0 <= j < titles@.len() ==> (#[trigger] seen_texts@[j])@
                    == titles@[j].0@,
                seen == Set::new(|t: Seq<char>| exists|j: int| 0 <= j < titles@.len() && (#[trigger] titles@[j].0@) == t),
                dedup_first(rev_titles, Set::empty()) == Seq::new(
                    titles@.len(),
                    |i: int| titles@[i].0@,
                ) + dedup_first(suffix_of(rev_titles, k as int), seen),
            decreases reversed@.len() - k,
        {
            let t = &reversed[k];
            let mut dup = false;
            let mut m: usize = 0;
            while m < seen_texts.len()
                invariant
                    m <= seen_texts@.len(),
                    dup <==> exists|j: int| 0 <= j < m && (#[trigger] seen_texts@[j])@ == t@,
                decreases seen_texts@.len() - m,
            {
                if seen_texts[m].eq(t) {
                    dup = true;
                    proof {
                        assert(seen_texts@[m as int]@ == t@);
                    }
                    m = seen_texts.len();
                } else {
                    proof {
                        if exists|j: int| 0 <= j < m + 1 && (#[trigger] seen_texts@[j])@ == t@ {
                            let j = choose|j: int|
                                0 <= j < m + 1 && (#[trigger] seen_texts@[j])@ == t@;
                            assert(j == m ==> false);
                        }
                    }
                    m += 1;
                }
            }
            let ghost suf = suffix_of(rev_titles, k as int);
            proof {
                assert(suf[0] == rev_titles[k as int]);
                assert(suf.drop_first() =~= suffix_of(rev_titles, k + 1));
                assert(t@ == rev_titles[k as int]);
                assert(dup <==> seen.contains(suf[0])) by {
                    if dup {
                        let j = choose|j: int|
                            0 <= j < seen_texts@.len() && (#[trigger] seen_texts@[j])@ == t@;
                        assert(titles@[j].0@ == t@);
                        assert(seen.contains(t@));
                    }
                    if seen.contains(suf[0]) {
                        let j = choose|j: int|
                            0 <= j < titles@.len() && (#[trigger] titles@[j].0@) == suf[0];
                        assert(seen_texts@[j]@ == t@);
                    }
                }
            }
            if !dup {
                let ghost titles_old = titles@;
                let ghost seen_old = seen;
                titles.push(EntryTitle(t.clone()));
                seen_texts.push(t.clone());
                proof {
                    seen = seen.insert(t@);
                    assert(seen =~= Set::new(
                        |x: Seq<char>|
                            exists|j: int|
                                0 <= j < titles@.len() && (#[trigger] titles@[j].0@) == x,
                    )) by {
                        assert forall|x: Seq<char>|
                            seen_old.insert(t@).contains(x) <==> exists|j: int|
                                0 <= j < titles@.len() && (#[trigger] titles@[j].0@) == x by {
                            if seen_old.insert(t@).contains(x) {
                                if x == t@ {
                                    assert(titles@[titles@.len() - 1].0@ == x);
                                } else {
                                    let j = choose|j: int|
                                        0 <= j < titles_old.len() && (
                                        #[trigger] titles_old[j].0@) == x;
                                    assert(titles@[j].0@ == x);
                                }
                            }
                            if exists|j: int|
                                0 <= j < titles@.len() && (#[trigger] titles@[j].0@) == x {
                                let j = choose|j: int|
                                    0 <= j < titles@.len() && (#[trigger] titles@[j].0@) == x;
                                if j < titles_old.len() {
                                    assert(titles_old[j].0@ == x);
                                }
                            }
                        }
                    }
                    assert(dedup_first(suf, seen_old) == seq![suf[0]] + dedup_first(
                        suffix_of(rev_titles, k + 1),
                        seen,
                    ));
                    assert(Seq::new(titles@.len(), |i: int| titles@[i].0@) =~= Seq::new(
                        titles_old.len(),
                        |i: int| titles_old[i].0@,
                    ) + seq![t@]);
                    assert(dedup_first(rev_titles, Set::empty()) =~= Seq::new(
                        titles@.len(),
                        |i: int| titles@[i].0@,
                    ) + dedup_first(suffix_of(rev_titles, k + 1), seen));
                }
            } else {
                proof {
                    assert(dedup_first(suf, seen) == dedup_first(
                        suffix_of(rev_titles, k + 1),
                        seen,
                    ));
                }
            }
            k += 1;
        }
        proof {
            assert(suffix_of(rev_titles, rev_titles.len() as int) =~= Seq::<Seq<char>>::empty());
            assert(dedup_first(rev_titles, Set::empty()) =~= Seq::new(
                titles@.len(),
                |i: int| titles@[i].0@,
            ));
        }
        // index each title under its position
        let mut index = new_live_index();
        let mut c: usize = 0;
        while c < titles.len()
            invariant
                c <= titles@.len(),
                live_dump_index(index),
                forall|k2: usize| index_keys(index).contains(k2) <==> (k2 as int) < c,
            decreases titles@.len() - c,
        {
            index_insert(&mut index, c, titles[c].text());
            c += 1;
        }
        let r = HistoryIndex { titles, index };
        proof {
            assert(r.spec_titles() =~= Seq::new(r.titles@.len(), |i: int| r.titles@[i].0@));
        }
        r
    }

    /// The keys whose records match the query; with an empty query, every
    /// title in recency order (positions ascending, the most recent first).
    /// Every key names a title.
    pub fn search(&self, query: &String) -> (r: Vec<usize>)
        requires
            self.wf(),
        ensures
            r@ == self.spec_matches(query@),
            forall|i: int| 0 <= i < r@.len() ==> (#[trigger] r@[i]) < self.titles@.len(),
            query@.len() == 0 ==> r@.len() == self.titles@.len() && (forall|i: int|
                0 <= i < r@.len() ==> (#[trigger] r@[i]) == i),
    {
        let keys: Vec<usize> = if query.as_str().is_empty() {
            match index_dump_keyword(&self.index) {
                Some(k) => {
                    let r = index_search(&self.index, k.as_str());
                    let n_titles = self.titles.len();
                    proof {
                        assert(n_titles == self.titles@.len());
                        lemma_ascending_complete(*self, r@);
                    }
                    r
                },
                None => {
                    proof {
                        assert(false);
                    }
                    Vec::new()
                },
            }
        } else {
            index_search(&self.index, query.as_str())
        };
        keys
    }

    /// The title a search key names.
    pub fn title_at(&self, key: usize) -> (r: &EntryTitle)
        requires
            key < self.titles@.len(),
        ensures
            r.0@ == self.spec_titles()[key as int],
    {
        &self.titles[key]
    }

    pub fn len(&self) -> (r: usize)
        ensures
            r == self.titles@.len(),
    {
        self.titles.len()
    }
}

/// The suffix of a sequence from position `k`.
pub open spec fn suffix_of(s: Seq<Seq<char>>, k: int) -> Seq<Seq<char>> {
    s.subrange(k, s.len() as int)
}

/// A strictly ascending listing of exactly the positions below the title
/// count is the identity enumeration.
proof fn lemma_ascending_complete(h: HistoryIndex, r: Seq<usize>)
    requires
        h.titles@.len() <= usize::MAX,
        h.wf(),
        forall|i: int, j: int| 0 <= i < j < r.len() ==> r[i] < r[j],
        forall|k: usize|
            index_keys(h.index).contains(k) <==> exists|i: int|
                0 <= i < r.len() && (#[trigger] r[i]) == k,
    ensures
        r.len() == h.titles@.len(),
        forall|i: int| 0 <= i < r.len() ==> (#[trigger] r[i]) == i,
{
    let n = h.titles@.len() as int;
    assert forall|i: int| 0 <= i < r.len() implies ((#[trigger] r[i]) as int) < n by {
        let k = r[i];
        assert(exists|j: int| 0 <= j < r.len() && (#[trigger] r[j]) == k) by {
            assert(r[i] == k);
        }
        assert(index_keys(h.index).contains(k));
    }
    assert forall|i: int| 0 <= i < r.len() implies (#[trigger] r[i]) == i by {
        lemma_ascending_lower_bound(r, i);
        lemma_ascending_upper_bound(h, r, i);
    }
    if r.len() > n {
        assert(r[n] == n);
        assert((r[n] as int) < n);
    }
    if r.len() < n {
        // the position right past the listing is a held key, yet every slot
        // holds its own position
        let k: usize = r.len() as usize;
        assert((k as int) < n);
        assert(index_keys(h.index).contains(k));
        let j = choose|j: int| 0 <= j < r.len() && (#[trigger] r[j]) == k;
        assert(r[j] == j);
    }
}

proof fn lemma_ascending_lower_bound(r: Seq<usize>, i: int)
    requires
        forall|a: int, b: int| 0 <= a < b < r.len() ==> r[a] < r[b],
        0 <= i < r.len(),
    ensures
        r[i] >= i,
    decreases i,
{
    if i > 0 {
        lemma_ascending_lower_bound(r, i - 1);
    }
}

proof fn lemma_ascending_upper_bound(h: HistoryIndex, r: Seq<usize>, i: int)
    requires
        h.titles@.len() <= usize::MAX,
        h.wf(),
        forall|a: int, b: int| 0 <= a < b < r.len() ==> r[a] < r[b],
        forall|k: usize|
            index_keys(h.index).contains(k) <==> exists|j: int|
                0 <= j < r.len() && (#[trigger] r[j]) == k,
        0 <= i < r.len(),
    ensures
        r[i] <= i,
    decreases i,
{
    if r[i] > i {
        // the position just below r[i] is a held key, so it is listed; by
        // ascent it sits before slot i, where positions are at most i - 1
        assert((r[i] as int) < h.titles@.len()) by {
            let k = r[i];
            assert(exists|j: int| 0 <= j < r.len() && (#[trigger] r[j]) == k) by {
                assert(r[i] == k);
            }
            assert(index_keys(h.index).contains(k));
        }
        let missing: usize = (r[i] - 1) as usize;
        assert((missing as int) < h.titles@.len());
        assert(index_keys(h.index).contains(missing));
        let j = choose|j: int| 0 <= j < r.len() && (#[trigger] r[j]) == missing;
        assert(j < i);
        if i == 0 {
            assert(false);
        } else {
            lemma_ascending_upper_bound(h, r, i - 1);
            if j == i - 1 {
                assert(r[i - 1] == missing);
                assert((missing as int) >= i);
                assert(false);
            } else {
                assert(j < i - 1);
                assert(r[j] < r[i - 1]);
                assert((missing as int) < i - 1);
                assert((missing as int) >= i);
                assert(false);
            }
        }
    }
}

} // verus!
