//! The in-memory index: a document table and, for every word, the documents
//! it occurs in with the offsets of its occurrences.
use vstd::prelude::*;
use vstd::hash_map::StringHashMap;
use std::collections::HashMap;
use crate::doctable::{DocID, DocTable};
use crate::parser::{lists_map, parse_spec, parse_text, Offset};
use crate::search::{
    distinct_docs, first_ranks, is_ranking, law_hit_counts_ascending, lemma_first_ranks_distinct, lemma_hit_counts_combine,
    lemma_next_ranks, lemma_ranks_over_permutation, lists_view, rank_documents, ranked_documents, ranks_over,
    Rank, SearchIndex,
};

verus! {

/// The occurrences of one word: document number to offsets.
pub type WordTable = Map<DocID, Seq<Offset>>;

/// What an index holds: its documents in order of their numbers, and for
/// each word the documents it occurs in with the offsets of its occurrences.
pub struct MemIndexView {
    pub docs: Seq<Seq<char>>,
    pub index: Map<Seq<char>, WordTable>,
}

/// The occurrences recorded in one table.
pub open spec fn table_view(t: HashMap<DocID, Vec<Offset>>) -> WordTable {
    t@.map_values(|v: Vec<Offset>| v@)
}

/// The occurrences of `w` in `index`, or none.
pub open spec fn table_or_empty(index: Map<Seq<char>, WordTable>, w: Seq<char>) -> WordTable {
    if index.contains_key(w) { index[w] } else { Map::empty() }
}

/// `index` after adding document `id`, whose words are `words` (each with
/// the offsets of its occurrences).
pub open spec fn index_with_doc(
    index: Map<Seq<char>, WordTable>,
    id: DocID,
    words: Map<Seq<char>, Seq<Offset>>,
) -> Map<Seq<char>, WordTable> {
    Map::new(
        |w: Seq<char>| index.contains_key(w) || words.contains_key(w),
        |w: Seq<char>|
            if words.contains_key(w) {
                table_or_empty(index, w).insert(id, words[w])
            } else {
                index[w]
            },
    )
}

/// The words of `m` that no entry before position `n` of `e` names.
spec fn words_after(m: Map<Seq<char>, Seq<Offset>>, e: Seq<(String, Vec<Offset>)>, n: int) -> Map<Seq<char>, Seq<Offset>> {
    m.restrict(Set::new(|w: Seq<char>| m.contains_key(w) && forall|j: int| 0 <= j < n ==> #[trigger] e[j].0@ != w))
}

/// For one word: each document it occurs in with its number of occurrences.
pub open spec fn table_hits(index: Map<Seq<char>, WordTable>, w: Seq<char>) -> Map<DocID, usize> {
    table_or_empty(index, w).map_values(|ps: Seq<Offset>| ps.len() as usize)
}

/// For a query: each document that contains every query word, with the
/// total number of occurrences of the query words in it (saturating at
/// `usize::MAX`). An empty query matches no document.
pub open spec fn query_hits(index: Map<Seq<char>, WordTable>, q: Seq<Seq<char>>) -> Map<DocID, usize>
    decreases q.len(),
{
    if q.len() == 0 {
        Map::empty()
    } else if q.len() == 1 {
        table_hits(index, q[0])
    } else {
        let m = query_hits(index, q.drop_last());
        let t = table_hits(index, q.last());
        Map::new(|d: DocID| m.contains_key(d) && t.contains_key(d), |d: DocID| t[d].spec_combine(m[d]))
    }
}

/// The words of a query as character sequences.
pub open spec fn query_view(query: Seq<&str>) -> Seq<Seq<char>> {
    query.map_values(|w: &str| w@)
}

/// Every document number recorded for a word names a document of the table.
pub open spec fn ids_in_range(v: MemIndexView) -> bool {
    forall|w: Seq<char>, d: DocID|
        #[trigger] v.index.contains_key(w) && #[trigger] v.index[w].contains_key(d) ==> d < v.docs.len()
}

/// The table names every document that the query matches.
pub open spec fn matches_named(v: MemIndexView, q: Seq<Seq<char>>) -> bool {
    forall|d: DocID| #[trigger] query_hits(v.index, q).contains_key(d) ==> d < v.docs.len()
}

/// An index whose recorded document numbers all name documents names the
/// matches of every query.
pub proof fn lemma_ids_in_range_names_matches(v: MemIndexView, q: Seq<Seq<char>>)
    requires
        ids_in_range(v),
    ensures
        matches_named(v, q),
{
    assert forall|d: DocID| #[trigger] query_hits(v.index, q).contains_key(d) implies d < v.docs.len() by {
        lemma_query_hits_first(v.index, q, d);
        assert(v.index.contains_key(q[0]) && v.index[q[0]].contains_key(d));
    }
}

/// A document that a query matches contains the query's first word.
pub proof fn lemma_query_hits_first(index: Map<Seq<char>, WordTable>, q: Seq<Seq<char>>, d: DocID)
    requires
        query_hits(index, q).contains_key(d),
    ensures
        q.len() > 0,
        table_or_empty(index, q[0]).contains_key(d),
    decreases q.len(),
{
    if q.len() > 1 {
        lemma_query_hits_first(index, q.drop_last(), d);
    }
}

/// Rank lists that hold, word by word, the hit counts of the query words
/// combine to the hits of the query.
proof fn lemma_ranked_query(index: Map<Seq<char>, WordTable>, q: Seq<Seq<char>>, ls: Seq<Seq<(DocID, usize)>>)
    requires
        ls.len() == q.len(),
        forall|i: int| 0 <= i < ls.len() ==> distinct_docs(#[trigger] ls[i]),
        forall|i: int| 0 <= i < ls.len() ==> first_ranks(#[trigger] ls[i]) == table_hits(index, q[i]),
    ensures
        ranked_documents(ls) == query_hits(index, q),
    decreases q.len(),
{
    if q.len() > 1 {
        let ls0 = ls.drop_last();
        let q0 = q.drop_last();
        assert forall|i: int| 0 <= i < ls0.len() implies distinct_docs(#[trigger] ls0[i]) by {
            assert(ls0[i] == ls[i]);
        }
        assert forall|i: int| 0 <= i < ls0.len() implies first_ranks(#[trigger] ls0[i]) == table_hits(index, q0[i]) by {
            assert(ls0[i] == ls[i]);
        }
        lemma_ranked_query(index, q0, ls0);
        assert(distinct_docs(ls[ls.len() - 1]));
        assert(first_ranks(ls[ls.len() - 1]) == table_hits(index, q[q.len() - 1]));
        lemma_next_ranks(ranked_documents(ls0), ls.last());
        assert(ranked_documents(ls) =~= query_hits(index, q));
    } else if q.len() == 1 {
        assert(first_ranks(ls[0]) == table_hits(index, q[0]));
    }
}

/// An inverted index held in memory.
pub struct MemIndex {
    pub(crate) doctable: DocTable,
    /// Each word mapped to the position of its table in `tables`.
    pub(crate) words: StringHashMap<usize>,
    pub(crate) tables: Vec<HashMap<DocID, Vec<Offset>>>,
    /// The word that owns each table.
    pub(crate) word_list: Vec<String>,
}

impl View for MemIndex {
    type V = MemIndexView;

    closed spec fn view(&self) -> MemIndexView {
        MemIndexView {
            docs: self.doctable@,
            index: Map::new(
                |w: Seq<char>| self.words@.contains_key(w),
                |w: Seq<char>| table_view(self.tables@[self.words@[w] as int]),
            ),
        }
    }
}

impl MemIndex {
    /// The document table is well formed and every word has a table of its
    /// own.
    pub closed spec fn wf(&self) -> bool {
        &&& self.doctable.wf()
        &&& forall|w: Seq<char>| #[trigger] self.words@.contains_key(w) ==> self.words@[w] < self.tables@.len()
        &&& forall|w1: Seq<char>, w2: Seq<char>|
            #[trigger] self.words@.contains_key(w1) && #[trigger] self.words@.contains_key(w2) && w1 != w2
                ==> self.words@[w1] != self.words@[w2]
        &&& self.word_list@.len() == self.tables@.len()
        &&& forall|k: int| 0 <= k < self.tables@.len() ==> {
            &&& self.words@.contains_key(#[trigger] self.word_list@[k]@)
            &&& self.words@[self.word_list@[k]@] == k
        }
    }

    /// What the well-formedness and the view say of the fields.
    pub(crate) proof fn lemma_reveal(&self)
        requires
            self.wf(),
        ensures
            self.doctable.wf(),
            self@.docs == self.doctable@,
            self.word_list@.len() == self.tables@.len(),
            forall|k: int| 0 <= k < self.tables@.len() ==> {
                &&& self.words@.contains_key(#[trigger] self.word_list@[k]@)
                &&& self.words@[self.word_list@[k]@] == k
            },
            forall|w: Seq<char>| #[trigger] self@.index.contains_key(w) <==> self.words@.contains_key(w),
            forall|w: Seq<char>| #[trigger] self.words@.contains_key(w) ==> {
                &&& self.words@[w] < self.tables@.len()
                &&& self@.index[w] == table_view(self.tables@[self.words@[w] as int])
                &&& self.word_list@[self.words@[w] as int]@ == w
            },
    {
        assert forall|w: Seq<char>| #[trigger] self.words@.contains_key(w) implies self.word_list@[self.words@[w] as int]@ == w by {
            let k = self.words@[w] as int;
            let w2 = self.word_list@[k]@;
            assert(self.words@.contains_key(w2) && self.words@[w2] == k);
        }
    }

    /// An empty index.
    pub fn new() -> (m: MemIndex)
        ensures
            m.wf(),
            m@.docs == Seq::<Seq<char>>::empty(),
            m@.index == Map::<Seq<char>, WordTable>::empty(),
            ids_in_range(m@),
    {
        let m = MemIndex {
            doctable: DocTable::new(),
            words: StringHashMap::new(),
            tables: Vec::new(),
            word_list: Vec::new(),
        };
        assert(m@.index =~= Map::<Seq<char>, WordTable>::empty());
        m
    }

    /// Records that `word` occurs in document `id` at `positions`, replacing
    /// what was recorded for that word and document before.
    pub fn insert(&mut self, id: DocID, word: String, positions: Vec<Offset>)
        requires
            old(self).wf(),
        ensures
            final(self).wf(),
            final(self)@.docs == old(self)@.docs,
            final(self)@.index == old(self)@.index.insert(word@, table_or_empty(old(self)@.index, word@).insert(id, positions@)),
    {
        broadcast use vstd::std_specs::hash::group_hash_axioms;
        let ghost old_index = self@.index;
        let ghost new_table = table_or_empty(old_index, word@).insert(id, positions@);
        match self.words.get(word.as_str()) {
            Some(slot) => {
                let slot: usize = *slot;
                let ghost old_t = self.tables@[slot as int];
                self.tables[slot].insert(id, positions);
                proof {
                    assert(table_view(self.tables@[slot as int]) =~= new_table);
                    assert forall|w: Seq<char>| #[trigger] self.words@.contains_key(w) && w != word@ implies self.tables@[self.words@[w] as int] == old(self).tables@[self.words@[w] as int] by {}
                    assert(self@.index =~= old_index.insert(word@, new_table));
                }
            }
            None => {
                let mut t: HashMap<DocID, Vec<Offset>> = HashMap::new();
                t.insert(id, positions);
                let slot: usize = self.tables.len();
                self.tables.push(t);
                self.word_list.push(word.clone());
                self.words.insert(word, slot);
                proof {
                    assert forall|k: int| 0 <= k < self.tables@.len() implies {
                        &&& self.words@.contains_key(#[trigger] self.word_list@[k]@)
                        &&& self.words@[self.word_list@[k]@] == k
                    } by {
                        if k < slot {
                            assert(self.word_list@[k] == old(self).word_list@[k]);
                            assert(old(self).words@.contains_key(old(self).word_list@[k]@));
                        }
                    }
                    assert(table_view(self.tables@[slot as int]) =~= new_table);
                    assert(self@.index =~= old_index.insert(word@, new_table));
                }
            }
        }
    }

    /// Adds a document with path `path` and contents `text`: the document
    /// gets the next number, and every word of the text is recorded with the
    /// offsets of its occurrences in it.
    pub fn add_document(&mut self, path: String, text: &str) -> (id: DocID)
        requires
            old(self).wf(),
            old(self)@.docs.len() < u32::MAX,
        ensures
            final(self).wf(),
            id == old(self)@.docs.len(),
            final(self)@.docs == old(self)@.docs.push(path@),
            final(self)@.index == index_with_doc(old(self)@.index, id, parse_spec(text@)),
            forall|w: Seq<char>| #[trigger] parse_spec(text@).contains_key(w) ==> {
                &&& final(self)@.index.contains_key(w)
                &&& final(self)@.index[w].contains_key(id)
                &&& final(self)@.index[w][id] == parse_spec(text@)[w]
                &&& forall|d: DocID| d != id ==> (#[trigger] final(self)@.index[w].contains_key(d)
                    <==> old(self)@.index.contains_key(w) && old(self)@.index[w].contains_key(d))
                &&& forall|d: DocID| d != id && #[trigger] final(self)@.index[w].contains_key(d)
                    ==> final(self)@.index[w][d] == old(self)@.index[w][d]
            },
            forall|w: Seq<char>| !parse_spec(text@).contains_key(w) ==> {
                &&& (#[trigger] final(self)@.index.contains_key(w) <==> old(self)@.index.contains_key(w))
                &&& final(self)@.index.contains_key(w) ==> final(self)@.index[w] == old(self)@.index[w]
            },
            ids_in_range(old(self)@) ==> ids_in_range(final(self)@),
    {
        let ghost old_index = self@.index;
        let id = self.doctable.insert(path);
        let entries = parse_text(text);
        let ghost e = entries@;
        let ghost m = parse_spec(text@);
        let mut rest = entries;
        proof {
            assert(index_with_doc(old_index, id, words_after(m, e, e.len() as int)) =~= old_index);
            assert(rest@ == e.take(rest@.len() as int));
        }
        while rest.len() > 0
            invariant
                self.wf(),
                self@.docs == old(self)@.docs.push(path@),
                lists_map(e, m),
                rest@ == e.take(rest@.len() as int),
                rest@.len() <= e.len(),
                self@.index == index_with_doc(old_index, id, words_after(m, e, rest@.len() as int)),
            decreases rest@.len(),
        {
            let n: usize = rest.len();
            let (w, ps) = rest.pop().unwrap();
            proof {
                assert(e[n - 1].0@ == w@ && e[n - 1].1@ == ps@);
                assert(rest@ =~= e.take(n - 1));
                let before = words_after(m, e, n as int);
                let after = words_after(m, e, n - 1);
                assert forall|j: int| 0 <= j < n - 1 implies #[trigger] e[j].0@ != w@ by {
                    assert(e[j].0@ != e[n - 1].0@);
                }
                assert(after =~= before.insert(w@, ps@));
                assert(!before.contains_key(w@));
                assert(table_or_empty(index_with_doc(old_index, id, before), w@) == table_or_empty(old_index, w@));
                assert(index_with_doc(old_index, id, before).insert(w@, table_or_empty(old_index, w@).insert(id, ps@))
                    =~= index_with_doc(old_index, id, after));
            }
            self.insert(id, w, ps);
        }
        proof {
            assert(words_after(m, e, 0) =~= m);
            if ids_in_range(old(self)@) {
                assert forall|w: Seq<char>, d: DocID|
                    #[trigger] self@.index.contains_key(w) && #[trigger] self@.index[w].contains_key(d) implies d < self@.docs.len() by {
                    if m.contains_key(w) && d != id {
                        assert(old_index.contains_key(w) && old_index[w].contains_key(d));
                    }
                }
            }
        }
        id
    }

    /// The number of documents.
    pub fn num_docs(&self) -> (n: usize)
        ensures
            n == self@.docs.len(),
    {
        self.doctable.len()
    }

    /// Whether every document number recorded for a word names a document
    /// of the table (so that the index can answer queries).
    pub fn ids_valid(&self) -> (b: bool)
        requires
            self.wf(),
        ensures
            b == ids_in_range(self@),
    {
        broadcast use vstd::std_specs::hash::group_hash_axioms;
        let n: usize = self.doctable.len();
        let mut k: usize = 0;
        while k < self.tables.len()
            invariant
                self.wf(),
                n == self@.docs.len(),
                k <= self.tables@.len(),
                forall|j: int, d: DocID| 0 <= j < k && #[trigger] self.tables@[j]@.contains_key(d) ==> d < n,
            decreases self.tables@.len() - k,
        {
            let t: &HashMap<DocID, Vec<Offset>> = &self.tables[k];
            let ghost v = vstd::std_specs::iter::IteratorSpec::remaining(&vstd::std_specs::hash::spec_hash_map_iter(t));
            for pair in it: t.iter()
                invariant
                    it.seq() == v,
                    *t == self.tables@[k as int],
                    n == self@.docs.len(),
                    self.wf(),
                    k < self.tables@.len(),
                    forall|i: int| 0 <= i < it.index() ==> (*(#[trigger] v[i]).0 as int) < n,
            {
                let (id, _ps) = pair;
                if *id as usize >= n {
                    proof {
                        assert(t@.contains_key(*id));
                        let w = self.word_list@[k as int]@;
                        assert(self@.index[w] == table_view(self.tables@[k as int]));
                        assert(self@.index.contains_key(w) && self@.index[w].contains_key(*id));
                        assert(!(*id < self@.docs.len()));
                        assert(!ids_in_range(self@));
                    }
                    return false;
                }
            }
            proof {
                assert forall|d: DocID| #[trigger] t@.contains_key(d) implies d < n by {
                    assert(v.contains((&d, &t@[d])));
                    let i = choose|i: int| 0 <= i < v.len() && v[i] == (&d, &t@[d]);
                    assert((*v[i].0 as int) < n);
                }
            }
            k = k + 1;
        }
        proof {
            assert forall|w: Seq<char>, d: DocID|
                #[trigger] self@.index.contains_key(w) && #[trigger] self@.index[w].contains_key(d) implies d < self@.docs.len() by {
                let j = self.words@[w] as int;
                assert(self.tables@[j]@.contains_key(d));
            }
        }
        true
    }

    /// For one word: each document it occurs in with its number of
    /// occurrences, each document once.
    fn word_ranks(&self, w: &str) -> (l: Vec<(DocID, usize)>)
        requires
            self.wf(),
        ensures
            distinct_docs(l@),
            first_ranks(l@) == table_hits(self@.index, w@),
    {
        broadcast use vstd::std_specs::hash::group_hash_axioms;
        let mut l: Vec<(DocID, usize)> = Vec::new();
        match self.words.get(w) {
            None => {
                assert(table_hits(self@.index, w@) =~= Map::<DocID, usize>::empty());
            }
            Some(slot) => {
                let t: &HashMap<DocID, Vec<Offset>> = &self.tables[*slot];
                let ghost v = vstd::std_specs::iter::IteratorSpec::remaining(&vstd::std_specs::hash::spec_hash_map_iter(t));
                for pair in it: t.iter()
                    invariant
                        it.seq() == v,
                        l@.len() == it.index(),
                        forall|i: int| 0 <= i < it.index() ==> #[trigger] l@[i] == (*it.seq()[i].0, it.seq()[i].1@.len() as usize),
                {
                    let (id, ps) = pair;
                    l.push((*id, ps.len()));
                }
                proof {
                    assert(distinct_docs(l@)) by {
                        assert forall|i: int, j: int| 0 <= i < l@.len() && 0 <= j < l@.len() && i != j implies #[trigger] l@[i].0 != #[trigger] l@[j].0 by {
                            if l@[i].0 == l@[j].0 {
                                assert(t@.contains_key(*v[i].0) && t@[*v[i].0] == *v[i].1);
                                assert(t@.contains_key(*v[j].0) && t@[*v[j].0] == *v[j].1);
                                assert(v[i] == v[j]);
                            }
                        }
                    }
                    lemma_first_ranks_distinct(l@);
                    let th = table_hits(self@.index, w@);
                    assert(table_or_empty(self@.index, w@) == table_view(*t));
                    assert forall|d: DocID| #[trigger] first_ranks(l@).contains_key(d) <==> th.contains_key(d) by {
                        if th.contains_key(d) {
                            assert(v.contains((&d, &t@[d])));
                            let i = choose|i: int| 0 <= i < v.len() && v[i] == (&d, &t@[d]);
                            assert(l@[i].0 == d);
                        }
                        if first_ranks(l@).contains_key(d) {
                            let i = choose|i: int| 0 <= i < l@.len() && l@[i].0 == d;
                            assert(t@.contains_key(*v[i].0));
                        }
                    }
                    assert forall|d: DocID| #[trigger] first_ranks(l@).contains_key(d) implies first_ranks(l@)[d] == th[d] by {
                        let i = choose|i: int| 0 <= i < l@.len() && l@[i].0 == d;
                        assert(t@.contains_key(*v[i].0) && t@[*v[i].0] == *v[i].1);
                    }
                    assert(first_ranks(l@) =~= th);
                }
            }
        }
        l
    }
}

impl MemIndex {
    /// The documents that contain every word of the query, by number, each
    /// with the total number of occurrences of the query words in it, in
    /// ascending order of that count.
    pub fn rank_query(&self, query: &Vec<&str>) -> (ranked: Vec<(DocID, usize)>)
        requires
            self.wf(),
        ensures
            is_ranking(ranked@, query_hits(self@.index, query_view(query@))),
            forall|i: int, j: int| 0 <= i <= j < ranked@.len() ==> #[trigger] ranked@[i].1 <= #[trigger] ranked@[j].1,
    {
        let ghost q = query_view(query@);
        let mut lists: Vec<Vec<(DocID, usize)>> = Vec::new();
        let mut i: usize = 0;
        while i < query.len()
            invariant
                self.wf(),
                i <= query.len(),
                q == query_view(query@),
                lists@.len() == i,
                forall|j: int| 0 <= j < i ==> distinct_docs(#[trigger] lists@[j]@),
                forall|j: int| 0 <= j < i ==> first_ranks(#[trigger] lists@[j]@) == table_hits(self@.index, q[j]),
            decreases query.len() - i,
        {
            let l = self.word_ranks(query[i]);
            lists.push(l);
            i = i + 1;
        }
        let ranked = rank_documents(&lists);
        proof {
            let ls = lists_view(lists@);
            assert forall|j: int| 0 <= j < ls.len() implies distinct_docs(#[trigger] ls[j]) by {
                assert(ls[j] == lists@[j]@);
            }
            assert forall|j: int| 0 <= j < ls.len() implies first_ranks(#[trigger] ls[j]) == table_hits(self@.index, q[j]) by {
                assert(ls[j] == lists@[j]@);
            }
            lemma_ranked_query(self@.index, q, ls);
            law_hit_counts_ascending(ranked@, query_hits(self@.index, q));
        }
        ranked
    }

    /// Whether the table names every document that the query matches, so
    /// that the index can answer the query.
    pub fn can_answer(&self, query: &Vec<&str>) -> (b: bool)
        requires
            self.wf(),
        ensures
            b == self.can_search(query@),
    {
        let ranked = self.rank_query(query);
        let ghost hits = query_hits(self@.index, query_view(query@));
        let n: usize = self.doctable.len();
        let mut k: usize = 0;
        while k < ranked.len()
            invariant
                self.wf(),
                n == self@.docs.len(),
                hits == query_hits(self@.index, query_view(query@)),
                is_ranking(ranked@, hits),
                k <= ranked.len(),
                forall|i: int| 0 <= i < k ==> (#[trigger] ranked@[i]).0 < n,
            decreases ranked.len() - k,
        {
            let (id, _hits) = ranked[k];
            if id as usize >= n {
                proof {
                    assert(hits.contains_key(ranked@[k as int].0));
                    assert(query_hits(self@.index, query_view(query@)).contains_key(id));
                    assert(!matches_named(self@, query_view(query@)));
                }
                return false;
            }
            k = k + 1;
        }
        proof {
            assert forall|d: DocID| #[trigger] hits.contains_key(d) implies d < self@.docs.len() by {
                let i = choose|i: int| 0 <= i < ranked@.len() && ranked@[i].0 == d;
                assert(ranked@[i].0 < n);
            }
        }
        true
    }
}

impl SearchIndex<(String, usize)> for MemIndex {
    open spec fn can_search(&self, query: Seq<&str>) -> bool {
        self.wf() && matches_named(self@, query_view(query))
    }

    /// The documents that contain every word of the query, each with the
    /// total number of occurrences of the query words in it, in ascending
    /// order of that count.
    fn search(&self, query: &Vec<&str>) -> (r: Vec<(String, usize)>)
        ensures
            exists|ranked: Seq<(DocID, usize)>| {
                &&& is_ranking(ranked, query_hits(self@.index, query_view(query@)))
                &&& r@.len() == ranked.len()
                &&& forall|i: int| 0 <= i < ranked.len() ==> {
                    &&& #[trigger] r@[i].0@ == self@.docs[ranked[i].0 as int]
                    &&& r@[i].1 == ranked[i].1
                }
            },
            forall|i: int, j: int| 0 <= i <= j < r@.len() ==> #[trigger] r@[i].1 <= #[trigger] r@[j].1,
    {
        let ghost q = query_view(query@);
        let ranked = self.rank_query(query);
        let ghost hits = query_hits(self@.index, q);
        let mut r: Vec<(String, usize)> = Vec::new();
        let mut k: usize = 0;
        while k < ranked.len()
            invariant
                k <= ranked.len(),
                self.can_search(query@),
                q == query_view(query@),
                is_ranking(ranked@, hits),
                hits == query_hits(self@.index, q),
                r@.len() == k,
                forall|i: int| 0 <= i < k ==> {
                    &&& #[trigger] r@[i].0@ == self@.docs[ranked@[i].0 as int]
                    &&& r@[i].1 == ranked@[i].1
                },
            decreases ranked.len() - k,
        {
            let (id, n) = ranked[k];
            proof {
                assert(hits.contains_key(ranked@[k as int].0));
                assert(query_hits(self@.index, query_view(query@)).contains_key(id));
            }
            let p = self.doctable.doc(id).unwrap().clone();
            r.push((p, n));
            k = k + 1;
        }
        let ghost rk = ranked@;
        assert({
            &&& is_ranking(rk, query_hits(self@.index, query_view(query@)))
            &&& r@.len() == rk.len()
            &&& forall|i: int| 0 <= i < rk.len() ==> {
                &&& #[trigger] r@[i].0@ == self@.docs[rk[i].0 as int]
                &&& r@[i].1 == rk[i].1
            }
        });
        assert forall|i: int, j: int| 0 <= i <= j < r@.len() implies #[trigger] r@[i].1 <= #[trigger] r@[j].1 by {
            assert(r@[i].0@ == self@.docs[rk[i].0 as int]);
            assert(r@[j].0@ == self@.docs[rk[j].0 as int]);
            assert(rk[i].1 <= rk[j].1);
        }
        r
    }
}

/// The total number of occurrences of the query words in a document whose
/// words are `words` (saturating at `usize::MAX`).
pub open spec fn occurrences_of_query(words: Map<Seq<char>, Seq<Offset>>, q: Seq<Seq<char>>) -> usize
    decreases q.len(),
{
    if q.len() == 0 {
        0
    } else if q.len() == 1 {
        words[q[0]].len() as usize
    } else {
        (words[q.last()].len() as usize).spec_combine(occurrences_of_query(words, q.drop_last()))
    }
}

/// A document that has just been added is found by every non-empty query
/// all of whose words occur in it, with the total number of occurrences of
/// the query words as its hit count.
pub proof fn law_added_document_found(
    index: Map<Seq<char>, WordTable>,
    id: DocID,
    words: Map<Seq<char>, Seq<Offset>>,
    q: Seq<Seq<char>>,
)
    requires
        q.len() > 0,
        forall|i: int| 0 <= i < q.len() ==> words.contains_key(#[trigger] q[i]),
    ensures
        query_hits(index_with_doc(index, id, words), q).contains_key(id),
        query_hits(index_with_doc(index, id, words), q)[id] == occurrences_of_query(words, q),
    decreases q.len(),
{
    let ix = index_with_doc(index, id, words);
    if q.len() == 1 {
        assert(words.contains_key(q[0]));
        assert(ix.contains_key(q[0]));
    } else {
        let q0 = q.drop_last();
        assert forall|i: int| 0 <= i < q0.len() implies words.contains_key(#[trigger] q0[i]) by {
            assert(q0[i] == q[i]);
        }
        law_added_document_found(index, id, words, q0);
        assert(words.contains_key(q[q.len() - 1]));
        assert(ix.contains_key(q.last()));
    }
}

/// Adding a word to a non-empty query never adds a document to its
/// results.
pub proof fn law_more_words_fewer_results(index: Map<Seq<char>, WordTable>, q: Seq<Seq<char>>, w: Seq<char>, d: DocID)
    requires
        q.len() > 0,
        query_hits(index, q.push(w)).contains_key(d),
    ensures
        query_hits(index, q).contains_key(d),
        table_or_empty(index, w).contains_key(d),
{
    assert(q.push(w).drop_last() =~= q);
}

/// A query with a word that the index does not hold matches no document.
pub proof fn law_unknown_word_matches_nothing(index: Map<Seq<char>, WordTable>, q: Seq<Seq<char>>, i: int)
    requires
        0 <= i < q.len(),
        !index.contains_key(q[i]),
    ensures
        query_hits(index, q) == Map::<DocID, usize>::empty(),
    decreases q.len(),
{
    if q.len() == 1 {
        assert(query_hits(index, q) =~= Map::<DocID, usize>::empty());
    } else if i == q.len() - 1 {
        assert(query_hits(index, q) =~= Map::<DocID, usize>::empty());
    } else {
        let q0 = q.drop_last();
        assert(q0[i] == q[i]);
        law_unknown_word_matches_nothing(index, q0, i);
        assert(query_hits(index, q) =~= Map::<DocID, usize>::empty());
    }
}

/// The hits of a query are the hit counts of its words, ranked over the
/// words.
proof fn lemma_query_hits_over(index: Map<Seq<char>, WordTable>, q: Seq<Seq<char>>)
    ensures
        query_hits(index, q) == ranks_over(q, |w: Seq<char>| table_hits(index, w)),
    decreases q.len(),
{
    if q.len() > 1 {
        lemma_query_hits_over(index, q.drop_last());
    }
}

/// The order of the words of a query does not change the documents it
/// matches nor their hit counts.
pub proof fn law_query_order_irrelevant_hits(index: Map<Seq<char>, WordTable>, q: Seq<Seq<char>>, q2: Seq<Seq<char>>)
    requires
        q2.to_multiset() == q.to_multiset(),
    ensures
        query_hits(index, q2) == query_hits(index, q),
{
    lemma_query_hits_over(index, q);
    lemma_query_hits_over(index, q2);
    lemma_hit_counts_combine();
    lemma_ranks_over_permutation(q, q2, |w: Seq<char>| table_hits(index, w));
}

/// The empty query matches no document, so every ranking of its results
/// is empty.
pub proof fn law_empty_query(index: Map<Seq<char>, WordTable>, r: Seq<(DocID, usize)>)
    requires
        is_ranking(r, query_hits(index, Seq::empty())),
    ensures
        r.len() == 0,
{
    if r.len() > 0 {
        assert(query_hits(index, Seq::empty()).contains_key(r[0].0));
    }
}

} // verus!
