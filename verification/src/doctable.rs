//! The document table: documents are numbered in the order they are added,
//! and each document path can be looked up by number and back.
use vstd::prelude::*;
use vstd::hash_map::StringHashMap;

verus! {

/// The number given to a document.
pub type DocID = u32;

/// The position of the last document in `docs` equal to `p`, if any.
pub open spec fn last_index_of(docs: Seq<Seq<char>>, p: Seq<char>) -> Option<int>
    decreases docs.len(),
{
    if docs.len() == 0 {
        None
    } else if docs.last() == p {
        Some(docs.len() - 1)
    } else {
        last_index_of(docs.drop_last(), p)
    }
}

/// Adding `p` at the end makes `p` found at the new last position and
/// leaves every other path where it was.
pub proof fn lemma_last_index_of_push(docs: Seq<Seq<char>>, p: Seq<char>, q: Seq<char>)
    ensures
        last_index_of(docs.push(p), q) == if q == p { Some(docs.len() as int) } else { last_index_of(docs, q) },
{
    assert(docs.push(p).drop_last() =~= docs);
}

/// The number that looking a path up gives names a document with that path.
pub proof fn law_id_names_document(docs: Seq<Seq<char>>, p: Seq<char>)
    ensures
        last_index_of(docs, p) matches Some(i) ==> 0 <= i < docs.len() && docs[i] == p,
    decreases docs.len(),
{
    if docs.len() > 0 && docs.last() != p {
        law_id_names_document(docs.drop_last(), p);
    }
}

/// Numbers documents in the order they are inserted and maps each document
/// back to the number it was last given.
pub struct DocTable {
    pub(crate) id_to_doc: Vec<String>,
    pub(crate) doc_to_id: StringHashMap<DocID>,
}

impl View for DocTable {
    type V = Seq<Seq<char>>;

    /// The documents, in the order of their numbers.
    closed spec fn view(&self) -> Seq<Seq<char>> {
        self.id_to_doc@.map_values(|p: String| p@)
    }
}

impl DocTable {
    /// The path map agrees with the document sequence: a path maps to the
    /// number of its last occurrence.
    pub closed spec fn wf(&self) -> bool {
        &&& self@.len() <= u32::MAX
        &&& forall|p: Seq<char>| #[trigger] self.doc_to_id@.contains_key(p) <==> last_index_of(self@, p) is Some
        &&& forall|p: Seq<char>|
            #[trigger] self.doc_to_id@.contains_key(p) ==> last_index_of(self@, p) == Some(self.doc_to_id@[p] as int)
    }

    /// The view lists the paths of `id_to_doc`, and the path map holds the
    /// number of each path's last occurrence.
    pub(crate) proof fn lemma_reveal(&self)
        requires
            self.wf(),
        ensures
            self@.len() == self.id_to_doc@.len(),
            self@.len() <= u32::MAX,
            forall|k: int| 0 <= k < self@.len() ==> #[trigger] self@[k] == self.id_to_doc@[k]@,
            forall|p: Seq<char>| #[trigger] self.doc_to_id@.contains_key(p) <==> last_index_of(self@, p) is Some,
            forall|p: Seq<char>|
                #[trigger] self.doc_to_id@.contains_key(p) ==> last_index_of(self@, p) == Some(self.doc_to_id@[p] as int),
    {
    }

    /// An empty table.
    pub fn new() -> (t: DocTable)
        ensures
            t.wf(),
            t@ == Seq::<Seq<char>>::empty(),
    {
        let t = DocTable { id_to_doc: Vec::new(), doc_to_id: StringHashMap::new() };
        assert(t@ =~= Seq::<Seq<char>>::empty());
        t
    }

    /// The number of documents.
    pub fn len(&self) -> (n: usize)
        ensures
            n == self@.len(),
    {
        self.id_to_doc.len()
    }

    /// Adds a document and returns its number: the count of documents
    /// before it.
    pub fn insert(&mut self, s: String) -> (id: DocID)
        requires
            old(self).wf(),
            old(self)@.len() < u32::MAX,
        ensures
            final(self).wf(),
            final(self)@ == old(self)@.push(s@),
            id == old(self)@.len(),
    {
        let id: DocID = self.id_to_doc.len() as DocID;
        self.doc_to_id.insert(s.clone(), id);
        self.id_to_doc.push(s);
        proof {
            assert(self@ =~= old(self)@.push(s@));
            assert forall|p: Seq<char>| #[trigger] self.doc_to_id@.contains_key(p) <==> last_index_of(self@, p) is Some by {
                lemma_last_index_of_push(old(self)@, s@, p);
            }
            assert forall|p: Seq<char>| #[trigger] self.doc_to_id@.contains_key(p) implies last_index_of(self@, p) == Some(self.doc_to_id@[p] as int) by {
                lemma_last_index_of_push(old(self)@, s@, p);
            }
        }
        id
    }

    /// The number last given to the document `s`, if it was ever added.
    pub fn id(&self, s: &String) -> (r: Option<DocID>)
        requires
            self.wf(),
        ensures
            match last_index_of(self@, s@) {
                Some(i) => r == Some(i as DocID),
                None => r is None,
            },
    {
        match self.doc_to_id.get(s.as_str()) {
            Some(x) => Some(*x),
            None => None,
        }
    }

    /// The document with number `i`, if there is one.
    pub fn doc(&self, i: DocID) -> (r: Option<&String>)
        ensures
            match r {
                Some(p) => i < self@.len() && p@ == self@[i as int],
                None => i >= self@.len(),
            },
    {
        let k: usize = i as usize;
        if k < self.id_to_doc.len() {
            Some(&self.id_to_doc[k])
        } else {
            None
        }
    }
}

/// A document added to the table gets the number equal to the count of
/// documents before it; looking that number up gives the document back, and
/// looking the document up gives that number back. Every other document
/// keeps its number.
pub proof fn law_insert_then_lookup(docs: Seq<Seq<char>>, p: Seq<char>, q: Seq<char>)
    ensures
        docs.push(p)[docs.len() as int] == p,
        last_index_of(docs.push(p), p) == Some(docs.len() as int),
        q != p ==> last_index_of(docs.push(p), q) == last_index_of(docs, q),
        forall|i: int| 0 <= i < docs.len() ==> docs.push(p)[i] == docs[i],
{
    lemma_last_index_of_push(docs, p, p);
    lemma_last_index_of_push(docs, p, q);
}

} // verus!
