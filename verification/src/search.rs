//! Ranking the documents that match every word of a query.
//!
//! For each query word a list of `(document, rank)` pairs is given. The
//! documents of the first list are the candidates; every further list keeps
//! only the candidates it mentions, combining its rank with the rank so far.
//! The surviving documents are returned in ascending order of rank.
use vstd::prelude::*;
use std::collections::HashMap;
use crate::doctable::DocID;

verus! {

/// A rank that can be combined with another rank and compared with one.
pub trait Rank: Copy + Sized {
    /// The rank of a document that matches one more word with rank `self`,
    /// given its rank `other` so far.
    spec fn spec_combine(self, other: Self) -> Self;

    /// `self` sorts strictly before `other`.
    spec fn spec_precedes(self, other: Self) -> bool;

    proof fn lemma_precedes_irreflexive(a: Self)
        ensures
            !a.spec_precedes(a),
    ;

    proof fn lemma_precedes_transitive(a: Self, b: Self, c: Self)
        requires
            a.spec_precedes(b),
            b.spec_precedes(c),
        ensures
            a.spec_precedes(c),
    ;

    fn combine(&self, other: &Self) -> (r: Self)
        ensures
            r == self.spec_combine(*other),
    ;

    fn precedes(&self, other: &Self) -> (r: bool)
        ensures
            r == self.spec_precedes(*other),
    ;
}

/// Hit counts: combined by addition (saturating at `usize::MAX`, which no
/// real count reaches) and ordered ascending.
impl Rank for usize {
    open spec fn spec_combine(self, other: Self) -> Self {
        if self + other <= usize::MAX { (self + other) as usize } else { usize::MAX }
    }

    open spec fn spec_precedes(self, other: Self) -> bool {
        self < other
    }

    proof fn lemma_precedes_irreflexive(a: Self) {
    }

    proof fn lemma_precedes_transitive(a: Self, b: Self, c: Self) {
    }

    fn combine(&self, other: &Self) -> (r: Self) {
        if *self <= usize::MAX - *other { *self + *other } else { usize::MAX }
    }

    fn precedes(&self, other: &Self) -> (r: bool) {
        *self < *other
    }
}

/// The ranks of the first list: each document with the rank of its last
/// pair in the list.
pub open spec fn first_ranks<R>(l: Seq<(DocID, R)>) -> Map<DocID, R>
    decreases l.len(),
{
    if l.len() == 0 {
        Map::empty()
    } else {
        first_ranks(l.drop_last()).insert(l.last().0, l.last().1)
    }
}

/// The documents of `prev` that list `l` mentions, each with the rank of its
/// last pair in `l` combined with its rank in `prev`.
pub open spec fn next_ranks<R: Rank>(prev: Map<DocID, R>, l: Seq<(DocID, R)>) -> Map<DocID, R>
    decreases l.len(),
{
    if l.len() == 0 {
        Map::empty()
    } else {
        let m = next_ranks(prev, l.drop_last());
        let (d, v) = l.last();
        if prev.contains_key(d) {
            m.insert(d, v.spec_combine(prev[d]))
        } else {
            m
        }
    }
}

/// The documents that every list mentions, with their combined ranks.
pub open spec fn ranked_documents<R: Rank>(lists: Seq<Seq<(DocID, R)>>) -> Map<DocID, R>
    decreases lists.len(),
{
    if lists.len() == 0 {
        Map::empty()
    } else if lists.len() == 1 {
        first_ranks(lists[0])
    } else {
        next_ranks(ranked_documents(lists.drop_last()), lists.last())
    }
}

/// `r` lists every document of `m` exactly once with its rank, in an order
/// where no entry's rank precedes the rank of an entry before it.
pub open spec fn is_ranking<R: Rank>(r: Seq<(DocID, R)>, m: Map<DocID, R>) -> bool {
    &&& forall|i: int, j: int| 0 <= i < r.len() && 0 <= j < r.len() && i != j ==> #[trigger] r[i].0 != #[trigger] r[j].0
    &&& forall|i: int| 0 <= i < r.len() ==> m.contains_key(#[trigger] r[i].0) && m[r[i].0] == r[i].1
    &&& forall|d: DocID| #[trigger] m.contains_key(d) ==> exists|i: int| 0 <= i < r.len() && r[i].0 == d
    &&& forall|i: int, j: int| 0 <= i < j < r.len() ==> !(#[trigger] r[j].1).spec_precedes(#[trigger] r[i].1)
}

/// The lists as sequences.
pub open spec fn lists_view<R>(lists: Seq<Vec<(DocID, R)>>) -> Seq<Seq<(DocID, R)>> {
    lists.map_values(|l: Vec<(DocID, R)>| l@)
}

/// `keys` names each key of `m` once.
spec fn keys_of<R>(keys: Seq<DocID>, m: Map<DocID, R>) -> bool {
    &&& keys.no_duplicates()
    &&& forall|d: DocID| #[trigger] m.contains_key(d) <==> keys.contains(d)
}

proof fn lemma_keys_of_insert<R>(keys: Seq<DocID>, m: Map<DocID, R>, d: DocID, v: R)
    requires
        keys_of(keys, m),
    ensures
        m.contains_key(d) ==> keys_of(keys, m.insert(d, v)),
        !m.contains_key(d) ==> keys_of(keys.push(d), m.insert(d, v)),
{
    if m.contains_key(d) {
        assert forall|e: DocID| #[trigger] m.insert(d, v).contains_key(e) <==> keys.contains(e) by {
            assert(m.insert(d, v).contains_key(e) <==> m.contains_key(e));
        }
    } else {
        let ks = keys.push(d);
        assert forall|e: DocID| #[trigger] m.insert(d, v).contains_key(e) <==> ks.contains(e) by {
            if e == d {
                assert(ks[keys.len() as int] == d);
            } else {
                if m.contains_key(e) {
                    let k = choose|k: int| 0 <= k < keys.len() && keys[k] == e;
                    assert(ks[k] == e);
                }
                if ks.contains(e) {
                    let k = choose|k: int| 0 <= k < ks.len() && ks[k] == e;
                    assert(k < keys.len());
                    assert(keys[k] == e);
                }
            }
        }
        assert forall|i: int, j: int| 0 <= i < ks.len() && 0 <= j < ks.len() && i != j implies ks[i] != ks[j] by {
            if i == keys.len() {
                assert(!keys.contains(d));
            } else if j == keys.len() {
                assert(!keys.contains(d));
            }
        }
    }
}

/// The ranks of one list, with their documents named once each.
fn first_list_ranks<R: Rank>(l: &Vec<(DocID, R)>) -> (res: (HashMap<DocID, R>, Vec<DocID>))
    ensures
        res.0@ == first_ranks(l@),
        keys_of(res.1@, res.0@),
{
    broadcast use vstd::std_specs::hash::group_hash_axioms;
    let mut documents: HashMap<DocID, R> = HashMap::new();
    let mut keys: Vec<DocID> = Vec::new();
    let mut j: usize = 0;
    while j < l.len()
        invariant
            j <= l.len(),
            documents@ == first_ranks(l@.take(j as int)),
            keys_of(keys@, documents@),
        decreases l.len() - j,
    {
        let (d, v) = l[j];
        proof {
            assert(l@.take(j + 1).drop_last() =~= l@.take(j as int));
            lemma_keys_of_insert(keys@, documents@, d, v);
        }
        if !documents.contains_key(&d) {
            keys.push(d);
        }
        documents.insert(d, v);
        j = j + 1;
    }
    assert(l@.take(l@.len() as int) =~= l@);
    (documents, keys)
}

/// The documents of `prev` that `l` mentions, with combined ranks.
fn next_list_ranks<R: Rank>(prev: &HashMap<DocID, R>, l: &Vec<(DocID, R)>) -> (res: (HashMap<DocID, R>, Vec<DocID>))
    ensures
        res.0@ == next_ranks(prev@, l@),
        keys_of(res.1@, res.0@),
{
    broadcast use vstd::std_specs::hash::group_hash_axioms;
    let mut candidates: HashMap<DocID, R> = HashMap::new();
    let mut keys: Vec<DocID> = Vec::new();
    let mut j: usize = 0;
    while j < l.len()
        invariant
            j <= l.len(),
            candidates@ == next_ranks(prev@, l@.take(j as int)),
            keys_of(keys@, candidates@),
        decreases l.len() - j,
    {
        let (d, v) = l[j];
        proof {
            assert(l@.take(j + 1).drop_last() =~= l@.take(j as int));
        }
        match prev.get(&d) {
            Some(old) => {
                let nv = v.combine(old);
                proof {
                    lemma_keys_of_insert(keys@, candidates@, d, nv);
                }
                if !candidates.contains_key(&d) {
                    keys.push(d);
                }
                candidates.insert(d, nv);
            }
            None => {}
        }
        j = j + 1;
    }
    assert(l@.take(l@.len() as int) =~= l@);
    (candidates, keys)
}

/// No entry's rank precedes the rank of an entry before it.
pub open spec fn sorted_by_rank<R: Rank>(r: Seq<(DocID, R)>) -> bool {
    forall|i: int, j: int| 0 <= i < j < r.len() ==> !(#[trigger] r[j].1).spec_precedes(#[trigger] r[i].1)
}

/// The first position in the sorted `r` whose rank `x` precedes, or the end.
fn insertion_point<R: Rank>(r: &Vec<(DocID, R)>, x: &R) -> (p: usize)
    ensures
        p <= r.len(),
        forall|i: int| 0 <= i < p ==> !x.spec_precedes(#[trigger] r@[i].1),
        p < r.len() ==> x.spec_precedes(r@[p as int].1),
{
    let mut p: usize = 0;
    while p < r.len()
        invariant
            p <= r.len(),
            forall|i: int| 0 <= i < p ==> !x.spec_precedes(#[trigger] r@[i].1),
        decreases r.len() - p,
    {
        if x.precedes(&r[p].1) {
            return p;
        }
        p = p + 1;
    }
    p
}

/// Inserts an entry into a sorted vector, keeping it sorted.
fn insert_sorted<R: Rank>(r: &mut Vec<(DocID, R)>, d: DocID, v: R) -> (p: usize)
    requires
        sorted_by_rank(old(r)@),
    ensures
        p <= old(r)@.len(),
        final(r)@ == old(r)@.insert(p as int, (d, v)),
        sorted_by_rank(final(r)@),
{
    let p = insertion_point(r, &v);
    let ghost old_r = r@;
    r.insert(p, (d, v));
    proof {
        assert forall|i: int| 0 <= i < r.len() implies #[trigger] r@[i] == if i < p { old_r[i] } else if i == p { (d, v) } else { old_r[i - 1] } by {}
        assert forall|i: int, j: int| 0 <= i < j < r.len() implies !(#[trigger] r@[j].1).spec_precedes(#[trigger] r@[i].1) by {
            if i == p {
                if r@[j].1.spec_precedes(v) {
                    R::lemma_precedes_transitive(r@[j].1, v, old_r[p as int].1);
                    if j - 1 == p {
                        R::lemma_precedes_irreflexive(old_r[p as int].1);
                    } else {
                        assert(!old_r[j - 1].1.spec_precedes(old_r[p as int].1));
                    }
                }
            } else if j == p {
            } else {
                let i0 = if i < p { i } else { i - 1 };
                let j0 = if j < p { j } else { j - 1 };
                assert(r@[i] == old_r[i0] && r@[j] == old_r[j0]);
            }
        }
    }
    p
}

/// `r` holds, each once, the entries of `m` for the first `k` keys; `src`
/// gives for each entry the position of its key, `pos` for each key the
/// position of its entry.
spec fn placed<R>(r: Seq<(DocID, R)>, keys: Seq<DocID>, m: Map<DocID, R>, k: int, src: Seq<int>, pos: Seq<int>) -> bool {
    &&& forall|i: int, j: int| 0 <= i < r.len() && 0 <= j < r.len() && i != j ==> #[trigger] r[i].0 != #[trigger] r[j].0
    &&& forall|i: int| 0 <= i < r.len() ==> m.contains_key(#[trigger] r[i].0) && m[r[i].0] == r[i].1
    &&& src.len() == r.len()
    &&& forall|i: int| 0 <= i < r.len() ==> 0 <= #[trigger] src[i] < k && keys[src[i]] == r[i].0
    &&& pos.len() == k
    &&& forall|t: int| 0 <= t < k ==> 0 <= #[trigger] pos[t] < r.len() && r[pos[t]].0 == keys[t]
}

proof fn lemma_placed_step<R>(
    old_r: Seq<(DocID, R)>,
    r: Seq<(DocID, R)>,
    keys: Seq<DocID>,
    m: Map<DocID, R>,
    k: int,
    p: int,
    src: Seq<int>,
    pos: Seq<int>,
) -> (res: (Seq<int>, Seq<int>))
    requires
        0 <= k < keys.len(),
        keys.no_duplicates(),
        m.contains_key(keys[k]),
        placed(old_r, keys, m, k, src, pos),
        0 <= p <= old_r.len(),
        r == old_r.insert(p, (keys[k], m[keys[k]])),
    ensures
        placed(r, keys, m, k + 1, res.0, res.1),
{
    let d = keys[k];
    let src2 = src.insert(p, k);
    let pos2 = Seq::new(k as nat, |t: int| if pos[t] >= p { pos[t] + 1 } else { pos[t] }).push(p);
    assert forall|i: int| 0 <= i < r.len() implies #[trigger] r[i] == if i < p { old_r[i] } else if i == p { (d, m[d]) } else { old_r[i - 1] } by {}
    assert forall|i: int| 0 <= i < r.len() implies #[trigger] src2[i] == if i < p { src[i] } else if i == p { k } else { src[i - 1] } by {}
    assert forall|i: int| 0 <= i < old_r.len() implies old_r[i].0 != d by {
        let t = src[i];
        assert(keys[t] == keys[k] ==> t == k);
    }
    assert forall|t: int| 0 <= t < k + 1 implies 0 <= #[trigger] pos2[t] < r.len() && r[pos2[t]].0 == keys[t] by {
        if t < k {
            let i = pos[t];
            if i >= p {
                assert(r[i + 1] == old_r[i]);
            } else {
                assert(r[i] == old_r[i]);
            }
        }
    }
    (src2, pos2)
}

proof fn lemma_placed_all<R: Rank>(r: Seq<(DocID, R)>, keys: Seq<DocID>, m: Map<DocID, R>, src: Seq<int>, pos: Seq<int>)
    requires
        keys_of(keys, m),
        placed(r, keys, m, keys.len() as int, src, pos),
        sorted_by_rank(r),
    ensures
        is_ranking(r, m),
{
    assert forall|d: DocID| #[trigger] m.contains_key(d) implies exists|i: int| 0 <= i < r.len() && r[i].0 == d by {
        assert(keys.contains(d));
        let t = choose|t: int| 0 <= t < keys.len() && keys[t] == d;
        assert(r[pos[t]].0 == keys[t]);
    }
}

/// The entries of a rank map, in ascending order of rank.
fn sort_by_rank<R: Rank>(m: &HashMap<DocID, R>, keys: &Vec<DocID>) -> (r: Vec<(DocID, R)>)
    requires
        keys_of(keys@, m@),
    ensures
        is_ranking(r@, m@),
{
    broadcast use vstd::std_specs::hash::group_hash_axioms;
    let mut r: Vec<(DocID, R)> = Vec::new();
    let ghost mut src: Seq<int> = Seq::empty();
    let ghost mut pos: Seq<int> = Seq::empty();
    let mut k: usize = 0;
    while k < keys.len()
        invariant
            k <= keys.len(),
            keys_of(keys@, m@),
            placed(r@, keys@, m@, k as int, src, pos),
            sorted_by_rank(r@),
        decreases keys.len() - k,
    {
        let d = keys[k];
        proof {
            assert(keys@.contains(d));
        }
        let v: R = *m.get(&d).unwrap();
        let ghost old_r = r@;
        let p = insert_sorted(&mut r, d, v);
        proof {
            let res = lemma_placed_step(old_r, r@, keys@, m@, k as int, p as int, src, pos);
            src = res.0;
            pos = res.1;
        }
        k = k + 1;
    }
    proof {
        lemma_placed_all(r@, keys@, m@, src, pos);
    }
    r
}

/// Combines the rank lists of the query words and returns the matching
/// documents in ascending order of rank.
pub fn rank_documents<R: Rank>(lists: &Vec<Vec<(DocID, R)>>) -> (r: Vec<(DocID, R)>)
    ensures
        is_ranking(r@, ranked_documents(lists_view(lists@))),
{
    let ghost ls = lists_view(lists@);
    if lists.len() == 0 {
        return Vec::new();
    }
    let (mut documents, mut keys) = first_list_ranks(&lists[0]);
    let mut w: usize = 1;
    while w < lists.len()
        invariant
            1 <= w <= lists.len(),
            ls == lists_view(lists@),
            documents@ == ranked_documents(ls.take(w as int)),
            keys_of(keys@, documents@),
        decreases lists.len() - w,
    {
        let (candidates, ckeys) = next_list_ranks(&documents, &lists[w]);
        proof {
            assert(ls.take(w + 1).drop_last() =~= ls.take(w as int));
        }
        documents = candidates;
        keys = ckeys;
        w = w + 1;
    }
    proof {
        assert(ls.take(ls.len() as int) =~= ls);
    }
    sort_by_rank(&documents, &keys)
}

/// Ranks the documents that match every word of `query`: `ranks` gives, for
/// one word, the documents it occurs in with their ranks. An empty query
/// matches nothing.
pub fn search<R: Rank, F: Fn(&str) -> Vec<(DocID, R)>>(query: &Vec<&str>, ranks: F) -> (r: Vec<(DocID, R)>)
    requires
        forall|w: &str| call_requires(ranks, (w,)),
    ensures
        exists|ls: Seq<Vec<(DocID, R)>>| {
            &&& ls.len() == query@.len()
            &&& forall|i: int| 0 <= i < ls.len() ==> call_ensures(ranks, (query@[i],), #[trigger] ls[i])
            &&& is_ranking(r@, ranked_documents(lists_view(ls)))
        },
{
    let mut lists: Vec<Vec<(DocID, R)>> = Vec::new();
    let mut i: usize = 0;
    while i < query.len()
        invariant
            i <= query.len(),
            lists@.len() == i,
            forall|w: &str| call_requires(ranks, (w,)),
            forall|j: int| 0 <= j < i ==> call_ensures(ranks, (query@[j],), #[trigger] lists@[j]),
        decreases query.len() - i,
    {
        let l = ranks(query[i]);
        lists.push(l);
        i = i + 1;
    }
    let r = rank_documents(&lists);
    assert(lists@.len() == query@.len());
    r
}

/// An index that answers word queries.
pub trait SearchIndex<R> {
    /// The index is in a state in which it can answer the query.
    spec fn can_search(&self, query: Seq<&str>) -> bool;

    /// The results for a query of words.
    fn search(&self, query: &Vec<&str>) -> (r: Vec<R>)
        requires
            self.can_search(query@),
    ;
}

/// No document occurs twice in the list.
pub open spec fn distinct_docs<R>(l: Seq<(DocID, R)>) -> bool {
    forall|i: int, j: int| 0 <= i < l.len() && 0 <= j < l.len() && i != j ==> #[trigger] l[i].0 != #[trigger] l[j].0
}

/// In a list without repeated documents, `first_ranks` gives each listed
/// document its rank and holds no other document.
pub proof fn lemma_first_ranks_distinct<R>(l: Seq<(DocID, R)>)
    requires
        distinct_docs(l),
    ensures
        forall|i: int| 0 <= i < l.len() ==> first_ranks(l).contains_key(#[trigger] l[i].0) && first_ranks(l)[l[i].0] == l[i].1,
        forall|d: DocID| #[trigger] first_ranks(l).contains_key(d) ==> exists|i: int| 0 <= i < l.len() && l[i].0 == d,
    decreases l.len(),
{
    if l.len() > 0 {
        let l0 = l.drop_last();
        lemma_first_ranks_distinct(l0);
        assert forall|i: int| 0 <= i < l.len() implies first_ranks(l).contains_key(#[trigger] l[i].0) && first_ranks(l)[l[i].0] == l[i].1 by {
            if i < l.len() - 1 {
                assert(l0[i] == l[i]);
                assert(l[i].0 != l[l.len() - 1].0);
            }
        }
        assert forall|d: DocID| #[trigger] first_ranks(l).contains_key(d) implies exists|i: int| 0 <= i < l.len() && l[i].0 == d by {
            if d != l.last().0 {
                assert(first_ranks(l) == first_ranks(l0).insert(l.last().0, l.last().1));
                assert(first_ranks(l0).contains_key(d));
                let i = choose|i: int| 0 <= i < l0.len() && l0[i].0 == d;
                assert(l[i].0 == d);
            } else {
                assert(l[l.len() - 1].0 == d);
            }
        }
    }
}

/// The documents kept from `prev` are those the list mentions, each with
/// the rank of its last pair in the list combined with its rank in `prev`.
pub proof fn lemma_next_ranks<R: Rank>(prev: Map<DocID, R>, l: Seq<(DocID, R)>)
    ensures
        next_ranks(prev, l) == Map::new(
            |d: DocID| prev.contains_key(d) && first_ranks(l).contains_key(d),
            |d: DocID| first_ranks(l)[d].spec_combine(prev[d]),
        ),
    decreases l.len(),
{
    if l.len() > 0 {
        lemma_next_ranks(prev, l.drop_last());
    }
    assert(next_ranks(prev, l) =~= Map::new(
        |d: DocID| prev.contains_key(d) && first_ranks(l).contains_key(d),
        |d: DocID| first_ranks(l)[d].spec_combine(prev[d]),
    ));
}

/// The list has a pair for document `d`.
pub open spec fn mentions<R>(l: Seq<(DocID, R)>, d: DocID) -> bool {
    exists|j: int| 0 <= j < l.len() && l[j].0 == d
}

/// `first_ranks` holds exactly the documents the list mentions.
pub proof fn lemma_first_ranks_domain<R>(l: Seq<(DocID, R)>, d: DocID)
    ensures
        first_ranks(l).contains_key(d) <==> mentions(l, d),
    decreases l.len(),
{
    if l.len() > 0 {
        let l0 = l.drop_last();
        lemma_first_ranks_domain(l0, d);
        if mentions(l0, d) {
            let j = choose|j: int| 0 <= j < l0.len() && l0[j].0 == d;
            assert(l[j].0 == d);
        }
        if l.last().0 == d {
            assert(l[l.len() - 1].0 == d);
        } else if mentions(l, d) {
            let j = choose|j: int| 0 <= j < l.len() && l[j].0 == d;
            assert(l0[j].0 == d);
        }
    }
}

/// A document is ranked exactly when there is at least one list and every
/// list mentions it.
pub proof fn law_ranked_documents_domain<R: Rank>(ls: Seq<Seq<(DocID, R)>>, d: DocID)
    ensures
        ranked_documents(ls).contains_key(d) <==> ls.len() > 0 && forall|i: int| 0 <= i < ls.len() ==> mentions(#[trigger] ls[i], d),
    decreases ls.len(),
{
    if ls.len() == 1 {
        lemma_first_ranks_domain(ls[0], d);
    } else if ls.len() > 1 {
        let ls0 = ls.drop_last();
        law_ranked_documents_domain(ls0, d);
        lemma_next_ranks(ranked_documents(ls0), ls.last());
        lemma_first_ranks_domain(ls.last(), d);
        if forall|i: int| 0 <= i < ls.len() ==> mentions(#[trigger] ls[i], d) {
            assert forall|i: int| 0 <= i < ls0.len() implies mentions(#[trigger] ls0[i], d) by {
                assert(ls0[i] == ls[i]);
            }
            assert(mentions(ls[ls.len() - 1], d));
        }
        if ranked_documents(ls).contains_key(d) {
            assert forall|i: int| 0 <= i < ls.len() implies mentions(#[trigger] ls[i], d) by {
                if i < ls0.len() {
                    assert(ls0[i] == ls[i]);
                }
            }
        }
    }
}

/// A ranking `r` lists document `d`.
pub open spec fn ranks_document<R>(r: Seq<(DocID, R)>, d: DocID) -> bool {
    exists|i: int| 0 <= i < r.len() && r[i].0 == d
}

/// Adding a word to a query that has one only removes documents from the
/// result: every document ranked for the lists `ls` followed by `l` is ranked
/// for `ls` alone.
pub proof fn law_more_words_fewer_documents<R: Rank>(
    ls: Seq<Seq<(DocID, R)>>,
    l: Seq<(DocID, R)>,
    r1: Seq<(DocID, R)>,
    r2: Seq<(DocID, R)>,
    d: DocID,
)
    requires
        ls.len() > 0,
        is_ranking(r1, ranked_documents(ls)),
        is_ranking(r2, ranked_documents(ls.push(l))),
        ranks_document(r2, d),
    ensures
        ranks_document(r1, d),
{
    let i = choose|i: int| 0 <= i < r2.len() && r2[i].0 == d;
    assert(ranked_documents(ls.push(l)).contains_key(r2[i].0));
    law_ranked_documents_domain(ls.push(l), d);
    law_ranked_documents_domain(ls, d);
    assert forall|k: int| 0 <= k < ls.len() implies mentions(#[trigger] ls[k], d) by {
        assert(ls.push(l)[k] == ls[k]);
    }
    assert(ranked_documents(ls).contains_key(d));
}

/// The documents that every item ranks, each item ranking documents by
/// `f`: the ranks of the first item, narrowed by each further item to the
/// documents it ranks too, its rank combined with the rank so far.
pub open spec fn ranks_over<T, R: Rank>(s: Seq<T>, f: spec_fn(T) -> Map<DocID, R>) -> Map<DocID, R>
    decreases s.len(),
{
    if s.len() == 0 {
        Map::empty()
    } else if s.len() == 1 {
        f(s[0])
    } else {
        let prev = ranks_over(s.drop_last(), f);
        let m = f(s.last());
        Map::new(|d: DocID| prev.contains_key(d) && m.contains_key(d), |d: DocID| m[d].spec_combine(prev[d]))
    }
}

/// Ranking by lists is ranking over the lists by their first ranks.
pub proof fn lemma_ranked_documents_over<R: Rank>(ls: Seq<Seq<(DocID, R)>>)
    ensures
        ranked_documents(ls) == ranks_over(ls, |l: Seq<(DocID, R)>| first_ranks(l)),
    decreases ls.len(),
{
    if ls.len() > 1 {
        lemma_ranked_documents_over(ls.drop_last());
        lemma_next_ranks(ranked_documents(ls.drop_last()), ls.last());
    }
}

/// A document is ranked over the items exactly when there is an item and
/// every item ranks it.
proof fn lemma_ranks_over_domain<T, R: Rank>(s: Seq<T>, f: spec_fn(T) -> Map<DocID, R>, d: DocID)
    ensures
        ranks_over(s, f).contains_key(d) <==> s.len() > 0 && forall|i: int| 0 <= i < s.len() ==> #[trigger] f(s[i]).contains_key(d),
    decreases s.len(),
{
    if s.len() > 1 {
        let s0 = s.drop_last();
        lemma_ranks_over_domain(s0, f, d);
        if forall|i: int| 0 <= i < s.len() ==> #[trigger] f(s[i]).contains_key(d) {
            assert forall|i: int| 0 <= i < s0.len() implies #[trigger] f(s0[i]).contains_key(d) by {
                assert(s0[i] == s[i]);
            }
            assert(f(s[s.len() - 1]).contains_key(d));
        }
        if ranks_over(s, f).contains_key(d) {
            assert forall|i: int| 0 <= i < s.len() implies #[trigger] f(s[i]).contains_key(d) by {
                if i < s0.len() {
                    assert(s0[i] == s[i]);
                }
            }
        }
    }
}

/// The rank of document `d` combined over the items: the last item's rank
/// combined with the rank over the items before.
pub open spec fn combined_rank<T, R: Rank>(s: Seq<T>, f: spec_fn(T) -> Map<DocID, R>, d: DocID) -> R
    decreases s.len(),
{
    if s.len() <= 1 {
        f(s[0])[d]
    } else {
        f(s.last())[d].spec_combine(combined_rank(s.drop_last(), f, d))
    }
}

/// Every document ranked over the items has its combined rank.
proof fn lemma_ranks_over_value<T, R: Rank>(s: Seq<T>, f: spec_fn(T) -> Map<DocID, R>, d: DocID)
    requires
        ranks_over(s, f).contains_key(d),
    ensures
        ranks_over(s, f)[d] == combined_rank(s, f, d),
    decreases s.len(),
{
    if s.len() > 1 {
        lemma_ranks_over_value(s.drop_last(), f, d);
    }
}

/// Combining ranks does not depend on the order of the two ranks.
pub open spec fn combine_commutes<R: Rank>() -> bool {
    forall|a: R, b: R| #[trigger] a.spec_combine(b) == b.spec_combine(a)
}

/// Combining ranks does not depend on how three ranks are grouped.
pub open spec fn combine_associates<R: Rank>() -> bool {
    forall|a: R, b: R, c: R|
        #![trigger a.spec_combine(b.spec_combine(c))]
        #![trigger a.spec_combine(b).spec_combine(c)]
        a.spec_combine(b.spec_combine(c)) == a.spec_combine(b).spec_combine(c)
}

/// Saturating addition of hit counts commutes and associates.
pub proof fn lemma_hit_counts_combine()
    ensures
        combine_commutes::<usize>(),
        combine_associates::<usize>(),
{
}

/// With a commutative and associative combination, the combined rank is the
/// rank of any one item combined with the rank over the others.
proof fn lemma_combined_rank_extract<T, R: Rank>(s: Seq<T>, f: spec_fn(T) -> Map<DocID, R>, k: int, d: DocID)
    requires
        combine_commutes::<R>(),
        combine_associates::<R>(),
        s.len() >= 2,
        0 <= k < s.len(),
    ensures
        combined_rank(s, f, d) == f(s[k])[d].spec_combine(combined_rank(s.remove(k), f, d)),
    decreases s.len(),
{
    let n = s.len() as int;
    let s0 = s.drop_last();
    if k == n - 1 {
        assert(s.remove(k) =~= s0);
    } else if n == 2 {
        let c0 = f(s[0])[d];
        let c1 = f(s[1])[d];
        assert(s.remove(0) =~= seq![s[1]]);
        assert(s0 =~= seq![s[0]]);
        assert(combined_rank(s0, f, d) == c0);
        assert(combined_rank(s.remove(0), f, d) == c1);
        assert(combined_rank(s, f, d) == c1.spec_combine(c0));
        assert(c1.spec_combine(c0) == c0.spec_combine(c1));
    } else {
        lemma_combined_rank_extract(s0, f, k, d);
        let rk = s.remove(k);
        assert(rk.drop_last() =~= s0.remove(k));
        assert(rk.last() == s.last());
        let x = combined_rank(s0.remove(k), f, d);
        let a = f(s.last())[d];
        let b = f(s[k])[d];
        assert(s0[k] == s[k]);
        assert(a.spec_combine(b.spec_combine(x)) == a.spec_combine(b).spec_combine(x));
        assert(b.spec_combine(a.spec_combine(x)) == b.spec_combine(a).spec_combine(x));
        assert(a.spec_combine(b) == b.spec_combine(a));
        assert(combined_rank(s0, f, d) == b.spec_combine(x));
        assert(combined_rank(rk, f, d) == a.spec_combine(x));
        assert(combined_rank(s, f, d) == a.spec_combine(b.spec_combine(x)));
    }
}

/// With a commutative and associative combination, items in another order
/// give every document the same combined rank.
proof fn lemma_combined_rank_permutation<T, R: Rank>(s: Seq<T>, s2: Seq<T>, f: spec_fn(T) -> Map<DocID, R>, d: DocID)
    requires
        combine_commutes::<R>(),
        combine_associates::<R>(),
        s.len() >= 1,
        s2.to_multiset() == s.to_multiset(),
    ensures
        combined_rank(s2, f, d) == combined_rank(s, f, d),
    decreases s.len(),
{
    broadcast use vstd::seq_lib::group_to_multiset_ensures, vstd::multiset::group_multiset_axioms;
    let n = s.len() as int;
    let x = s.last();
    let s0 = s.drop_last();
    assert(s0.push(x) =~= s);
    assert(s.to_multiset().count(x) > 0);
    assert(s2.contains(x));
    let k = choose|k: int| 0 <= k < s2.len() && s2[k] == x;
    vstd::seq_lib::to_multiset_len(s);
    vstd::seq_lib::to_multiset_len(s2);
    if n == 1 {
        assert(s2.len() == 1);
        assert(s2[0] == s[0]);
    } else {
        lemma_combined_rank_extract(s2, f, k, d);
        assert(s2.remove(k).to_multiset() =~= s0.to_multiset());
        lemma_combined_rank_permutation(s0, s2.remove(k), f, d);
    }
}

/// With a commutative and associative combination, ranking over the items
/// does not depend on their order.
pub proof fn lemma_ranks_over_permutation<T, R: Rank>(s: Seq<T>, s2: Seq<T>, f: spec_fn(T) -> Map<DocID, R>)
    requires
        combine_commutes::<R>(),
        combine_associates::<R>(),
        s2.to_multiset() == s.to_multiset(),
    ensures
        ranks_over(s2, f) == ranks_over(s, f),
{
    broadcast use vstd::seq_lib::group_to_multiset_ensures;
    vstd::seq_lib::to_multiset_len(s);
    vstd::seq_lib::to_multiset_len(s2);
    assert(s2.len() == s.len());
    assert forall|d: DocID| ranks_over(s2, f).contains_key(d) <==> #[trigger] ranks_over(s, f).contains_key(d) by {
        lemma_ranks_over_domain(s, f, d);
        lemma_ranks_over_domain(s2, f, d);
        if s.len() > 0 && forall|i: int| 0 <= i < s.len() ==> #[trigger] f(s[i]).contains_key(d) {
            assert forall|i: int| 0 <= i < s2.len() implies #[trigger] f(s2[i]).contains_key(d) by {
                assert(s2.to_multiset().count(s2[i]) > 0);
                assert(s.contains(s2[i]));
            }
        }
        if s2.len() > 0 && forall|i: int| 0 <= i < s2.len() ==> #[trigger] f(s2[i]).contains_key(d) {
            assert forall|i: int| 0 <= i < s.len() implies #[trigger] f(s[i]).contains_key(d) by {
                assert(s.to_multiset().count(s[i]) > 0);
                assert(s2.contains(s[i]));
            }
        }
    }
    assert forall|d: DocID| #[trigger] ranks_over(s, f).contains_key(d) implies ranks_over(s2, f)[d] == ranks_over(s, f)[d] by {
        lemma_ranks_over_value(s, f, d);
        lemma_ranks_over_value(s2, f, d);
        lemma_ranks_over_domain(s, f, d);
        lemma_combined_rank_permutation(s, s2, f, d);
    }
    assert(ranks_over(s2, f).dom() =~= ranks_over(s, f).dom());
    assert(ranks_over(s2, f) =~= ranks_over(s, f));
}

/// The order of the words of a query does not change its result, as far as
/// the combination of ranks does not depend on order: lists in another order
/// rank the same documents, with the same ranks.
pub proof fn law_query_order_irrelevant<R: Rank>(ls: Seq<Seq<(DocID, R)>>, ls2: Seq<Seq<(DocID, R)>>)
    requires
        combine_commutes::<R>(),
        combine_associates::<R>(),
        ls2.to_multiset() == ls.to_multiset(),
    ensures
        ranked_documents(ls2) == ranked_documents(ls),
{
    lemma_ranked_documents_over(ls);
    lemma_ranked_documents_over(ls2);
    lemma_ranks_over_permutation(ls, ls2, |l: Seq<(DocID, R)>| first_ranks(l));
}

/// Ranking over items that are the images of other items under `g` is
/// ranking over those other items.
proof fn lemma_ranks_over_images<T, U, R: Rank>(s: Seq<T>, s2: Seq<U>, g: spec_fn(T) -> U, f: spec_fn(U) -> Map<DocID, R>)
    requires
        s2.len() == s.len(),
        forall|i: int| 0 <= i < s.len() ==> #[trigger] s2[i] == g(s[i]),
    ensures
        ranks_over(s2, f) == ranks_over(s, |x: T| f(g(x))),
    decreases s.len(),
{
    if s.len() == 1 {
        assert(s2[0] == g(s[0]));
    } else if s.len() > 1 {
        let s0 = s.drop_last();
        let t0 = s2.drop_last();
        assert forall|i: int| 0 <= i < s0.len() implies #[trigger] t0[i] == g(s0[i]) by {
            assert(s2[i] == g(s[i]));
        }
        lemma_ranks_over_images(s0, t0, g, f);
        assert(s2[s2.len() - 1] == g(s[s.len() - 1]));
    }
}

/// The list that the rank source gives for a word.
pub open spec fn list_for<R: Rank, F: Fn(&str) -> Vec<(DocID, R)>>(ranks: F, w: &str) -> Seq<(DocID, R)> {
    (choose|l: Vec<(DocID, R)>| call_ensures(ranks, (w,), l))@
}

/// The rank source gives one list per word, whenever it is asked.
pub open spec fn gives_one_list<R: Rank, F: Fn(&str) -> Vec<(DocID, R)>>(ranks: F) -> bool {
    forall|w: &str, a: Vec<(DocID, R)>, b: Vec<(DocID, R)>|
        #[trigger] call_ensures(ranks, (w,), a) && #[trigger] call_ensures(ranks, (w,), b) ==> a@ == b@
}

/// Two searches with the same rank source, which gives one list per word,
/// for queries whose words are the same up to order, with a commutative and
/// associative combination of ranks: lists `ls` and `ls2` the source gave for
/// the two queries (as `search` states) rank the same documents with the
/// same ranks, so the two results hold the same (document, rank) pairs.
pub proof fn law_search_query_order<R: Rank, F: Fn(&str) -> Vec<(DocID, R)>>(
    ranks: F,
    q: Seq<&str>,
    q2: Seq<&str>,
    ls: Seq<Vec<(DocID, R)>>,
    ls2: Seq<Vec<(DocID, R)>>,
    r: Seq<(DocID, R)>,
    r2: Seq<(DocID, R)>,
)
    requires
        combine_commutes::<R>(),
        combine_associates::<R>(),
        gives_one_list(ranks),
        q2.to_multiset() == q.to_multiset(),
        ls.len() == q.len(),
        forall|i: int| 0 <= i < ls.len() ==> call_ensures(ranks, (q[i],), #[trigger] ls[i]),
        ls2.len() == q2.len(),
        forall|i: int| 0 <= i < ls2.len() ==> call_ensures(ranks, (q2[i],), #[trigger] ls2[i]),
        is_ranking(r, ranked_documents(lists_view(ls))),
        is_ranking(r2, ranked_documents(lists_view(ls2))),
    ensures
        ranked_documents(lists_view(ls2)) == ranked_documents(lists_view(ls)),
        forall|i: int| 0 <= i < r2.len() ==> r.contains(#[trigger] r2[i]),
        forall|i: int| 0 <= i < r.len() ==> r2.contains(#[trigger] r[i]),
{
    let g = |w: &str| list_for(ranks, w);
    let f = |l: Seq<(DocID, R)>| first_ranks(l);
    let v = lists_view(ls);
    let v2 = lists_view(ls2);
    assert forall|i: int| 0 <= i < q.len() implies #[trigger] v[i] == g(q[i]) by {
        assert(call_ensures(ranks, (q[i],), ls[i]));
        let c = choose|l: Vec<(DocID, R)>| call_ensures(ranks, (q[i],), l);
        assert(call_ensures(ranks, (q[i],), c));
    }
    assert forall|i: int| 0 <= i < q2.len() implies #[trigger] v2[i] == g(q2[i]) by {
        assert(call_ensures(ranks, (q2[i],), ls2[i]));
        let c = choose|l: Vec<(DocID, R)>| call_ensures(ranks, (q2[i],), l);
        assert(call_ensures(ranks, (q2[i],), c));
    }
    lemma_ranked_documents_over(v);
    lemma_ranked_documents_over(v2);
    lemma_ranks_over_images(q, v, g, f);
    lemma_ranks_over_images(q2, v2, g, f);
    lemma_ranks_over_permutation(q, q2, |x: &str| f(g(x)));
    let m = ranked_documents(v);
    assert(ranked_documents(v2) == m);
    assert forall|i: int| 0 <= i < r2.len() implies r.contains(#[trigger] r2[i]) by {
        assert(m.contains_key(r2[i].0));
        let j = choose|j: int| 0 <= j < r.len() && r[j].0 == r2[i].0;
        assert(m.contains_key(r[j].0));
        assert(r[j] == r2[i]);
    }
    assert forall|i: int| 0 <= i < r.len() implies r2.contains(#[trigger] r[i]) by {
        assert(m.contains_key(r[i].0));
        let j = choose|j: int| 0 <= j < r2.len() && r2[j].0 == r[i].0;
        assert(m.contains_key(r2[j].0));
        assert(r2[j] == r[i]);
    }
}

/// Hit counts come out in ascending order: in every ranking of hit counts
/// an entry's count is at most the count of every entry after it.
pub proof fn law_hit_counts_ascending(r: Seq<(DocID, usize)>, m: Map<DocID, usize>)
    requires
        is_ranking(r, m),
    ensures
        forall|i: int, j: int| 0 <= i <= j < r.len() ==> #[trigger] r[i].1 <= #[trigger] r[j].1,
{
    assert forall|i: int, j: int| 0 <= i <= j < r.len() implies #[trigger] r[i].1 <= #[trigger] r[j].1 by {
        if i < j {
            assert(!r[j].1.spec_precedes(r[i].1));
        }
    }
}

} // verus!
