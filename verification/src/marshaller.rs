//! The on-disk layout of an index, built in memory as bytes.
//!
//! A file starts with a canary and a checksum word, followed by the document
//! table and the word index. All numbers are 8-byte big-endian words, except
//! document numbers inside the tables (4 bytes); all offsets are absolute
//! positions in the file. A hash table is written as: its number of buckets;
//! for every bucket the offset of the bucket and the length of its chain;
//! then the buckets, each a list of the offsets of its elements followed by
//! the elements, each element being the length of its key, the length of its
//! value, the key bytes and the value bytes. An element lands in the bucket
//! given by the hash of its key modulo the number of buckets, and chains keep
//! the order in which the elements are given. Keys are hashed with the
//! default hasher the way their type hashes them: a word by its UTF-8 bytes
//! followed by the byte `0xFF`, a document number by its 4 bytes in the
//! machine's byte order, a path as `std::path::Path` hashes it.
use vstd::prelude::*;
use std::collections::hash_map::DefaultHasher;
use std::hash::{Hash, Hasher};
use vstd::std_specs::hash::DefaultHasherAdditionalSpecFns;
use std::collections::HashMap;
use crate::doctable::{last_index_of, DocID, DocTable};
use crate::memindex::{table_view, MemIndex, WordTable};
use crate::parser::Offset;

verus! {

/// The first word of every index file.
pub const CANARY: u64 = 0xDEADBEEF;

/// The second word of every index file.
pub const CHECKSUM: u64 = 0xCAFECAFE;

/// The 8-byte big-endian encoding of `x`.
pub open spec fn be8(x: u64) -> Seq<u8> {
    seq![
        (x >> 56u64) as u8,
        (x >> 48u64) as u8,
        (x >> 40u64) as u8,
        (x >> 32u64) as u8,
        (x >> 24u64) as u8,
        (x >> 16u64) as u8,
        (x >> 8u64) as u8,
        x as u8,
    ]
}

/// The 4-byte big-endian encoding of `x`.
pub open spec fn be4(x: u32) -> Seq<u8> {
    seq![(x >> 24u32) as u8, (x >> 16u32) as u8, (x >> 8u32) as u8, x as u8]
}

/// The number whose 8-byte big-endian encoding starts `b`.
pub open spec fn from_be8(b: Seq<u8>) -> u64 {
    ((b[0] as u64) << 56u64) | ((b[1] as u64) << 48u64) | ((b[2] as u64) << 40u64) | ((b[3] as u64) << 32u64)
        | ((b[4] as u64) << 24u64) | ((b[5] as u64) << 16u64) | ((b[6] as u64) << 8u64) | (b[7] as u64)
}

/// Decoding an encoded word gives the word back.
pub proof fn law_be8_roundtrip(x: u64)
    ensures
        be8(x).len() == 8,
        from_be8(be8(x)) == x,
{
    let b = be8(x);
    let (b0, b1, b2, b3, b4, b5, b6, b7) = (b[0], b[1], b[2], b[3], b[4], b[5], b[6], b[7]);
    assert(b0 == (x >> 56u64) as u8 && b1 == (x >> 48u64) as u8 && b2 == (x >> 40u64) as u8 && b3 == (x >> 32u64) as u8);
    assert(b4 == (x >> 24u64) as u8 && b5 == (x >> 16u64) as u8 && b6 == (x >> 8u64) as u8 && b7 == x as u8);
    assert(((b0 as u64) << 56u64) | ((b1 as u64) << 48u64) | ((b2 as u64) << 40u64) | ((b3 as u64) << 32u64)
        | ((b4 as u64) << 24u64) | ((b5 as u64) << 16u64) | ((b6 as u64) << 8u64) | (b7 as u64) == x) by (bit_vector)
        requires
            b0 == (x >> 56u64) as u8,
            b1 == (x >> 48u64) as u8,
            b2 == (x >> 40u64) as u8,
            b3 == (x >> 32u64) as u8,
            b4 == (x >> 24u64) as u8,
            b5 == (x >> 16u64) as u8,
            b6 == (x >> 8u64) as u8,
            b7 == x as u8,
    ;
}

/// Appends the 8-byte big-endian encoding of `x`.
pub fn push_be8(out: &mut Vec<u8>, x: u64)
    ensures
        final(out)@ == old(out)@ + be8(x),
{
    out.push((x >> 56u64) as u8);
    out.push((x >> 48u64) as u8);
    out.push((x >> 40u64) as u8);
    out.push((x >> 32u64) as u8);
    out.push((x >> 24u64) as u8);
    out.push((x >> 16u64) as u8);
    out.push((x >> 8u64) as u8);
    out.push(x as u8);
    assert(out@ =~= old(out)@ + be8(x));
}

/// Appends the 4-byte big-endian encoding of `x`.
pub fn push_be4(out: &mut Vec<u8>, x: u32)
    ensures
        final(out)@ == old(out)@ + be4(x),
{
    out.push((x >> 24u32) as u8);
    out.push((x >> 16u32) as u8);
    out.push((x >> 8u32) as u8);
    out.push(x as u8);
    assert(out@ =~= old(out)@ + be4(x));
}

/// Appends bytes.
pub fn push_bytes(out: &mut Vec<u8>, b: &[u8])
    ensures
        final(out)@ == old(out)@ + b@,
{
    let mut i: usize = 0;
    while i < b.len()
        invariant
            i <= b@.len(),
            out@ == old(out)@ + b@.take(i as int),
        decreases b@.len() - i,
    {
        out.push(b[i]);
        i = i + 1;
        assert(out@ =~= old(out)@ + b@.take(i as int));
    }
    assert(b@.take(b@.len() as int) =~= b@);
}

/// The 16 bytes every index file starts with.
pub open spec fn file_header() -> Seq<u8> {
    be8(CANARY) + be8(CHECKSUM)
}

/// Reads the 8-byte big-endian word at `pos`.
pub fn read_be8(b: &[u8], pos: usize) -> (x: u64)
    requires
        pos + 8 <= b@.len(),
    ensures
        x == from_be8(b@.subrange(pos as int, pos + 8)),
{
    ((b[pos] as u64) << 56u64) | ((b[pos + 1] as u64) << 48u64) | ((b[pos + 2] as u64) << 40u64)
        | ((b[pos + 3] as u64) << 32u64) | ((b[pos + 4] as u64) << 24u64) | ((b[pos + 5] as u64) << 16u64)
        | ((b[pos + 6] as u64) << 8u64) | (b[pos + 7] as u64)
}

/// The bytes start with an index file's canary and checksum.
pub open spec fn header_ok(b: Seq<u8>) -> bool {
    b.len() >= 16 && from_be8(b.subrange(0, 8)) == CANARY && from_be8(b.subrange(8, 16)) == CHECKSUM
}

/// Whether the first 16 bytes of a file are an index file's canary and
/// checksum.
pub fn check_header(b: &[u8]) -> (ok: bool)
    ensures
        ok == header_ok(b@),
{
    if b.len() < 16 {
        return false;
    }
    let canary = read_be8(b, 0);
    if canary != CANARY {
        return false;
    }
    let checksum = read_be8(b, 8);
    checksum == CHECKSUM
}

/// Every file that starts with the header written by the marshaller passes
/// the reader's header check.
pub proof fn law_header_accepted(b: Seq<u8>)
    requires
        b.len() >= 16,
        b.subrange(0, 16) == file_header(),
    ensures
        from_be8(b.subrange(0, 8)) == CANARY,
        from_be8(b.subrange(8, 16)) == CHECKSUM,
{
    law_be8_roundtrip(CANARY);
    law_be8_roundtrip(CHECKSUM);
    assert(b.subrange(0, 8) =~= b.subrange(0, 16).subrange(0, 8));
    assert(b.subrange(8, 16) =~= b.subrange(0, 16).subrange(8, 16));
    assert(file_header().subrange(0, 8) =~= be8(CANARY));
    assert(file_header().subrange(8, 16) =~= be8(CHECKSUM));
}

/// A hash table to be written at position `at`: the number of buckets, and
/// for every element the hash of its key, its key bytes and its value bytes.
pub struct Layout {
    pub at: int,
    pub nb: nat,
    pub hashes: Seq<u64>,
    pub keys: Seq<Seq<u8>>,
    pub vals: Seq<Seq<u8>>,
}

impl Layout {
    pub open spec fn n(self) -> int {
        self.hashes.len() as int
    }

    /// The elements are given consistently.
    pub open spec fn wf(self) -> bool {
        &&& self.keys.len() == self.hashes.len()
        &&& self.vals.len() == self.hashes.len()
        &&& (self.nb == 0 ==> self.hashes.len() == 0)
        &&& self.hashes.len() <= usize::MAX
    }

    /// The bucket of element `i`: the hash of its key (as a `usize`) modulo the
    /// number of buckets.
    pub open spec fn bucket_of(self, i: int) -> int {
        (self.hashes[i] as usize) as int % (self.nb as int)
    }

    /// The elements among the first `m` that fall in bucket `b`, in order.
    pub open spec fn chain_upto(self, b: int, m: int) -> Seq<usize>
        decreases m,
    {
        if m <= 0 {
            Seq::empty()
        } else if self.bucket_of(m - 1) == b {
            self.chain_upto(b, m - 1).push((m - 1) as usize)
        } else {
            self.chain_upto(b, m - 1)
        }
    }

    /// The chain of bucket `b`.
    pub open spec fn chain(self, b: int) -> Seq<usize> {
        self.chain_upto(b, self.n())
    }

    /// The length of the image of element `i`.
    pub open spec fn elem_len(self, i: int) -> int {
        16 + self.keys[i].len() as int + self.vals[i].len() as int
    }

    /// The total length of the images of the elements of `c`.
    pub open spec fn elems_len(self, c: Seq<usize>) -> int
        decreases c.len(),
    {
        if c.len() == 0 {
            0
        } else {
            self.elems_len(c.drop_last()) + self.elem_len(c.last() as int)
        }
    }

    /// The length of bucket `b`: its element offsets and its elements.
    pub open spec fn bucket_len(self, b: int) -> int {
        8 * self.chain(b).len() + self.elems_len(self.chain(b))
    }

    /// The total length of the buckets before bucket `b`.
    pub open spec fn buckets_len(self, b: int) -> int
        decreases b,
    {
        if b <= 0 {
            0
        } else {
            self.buckets_len(b - 1) + self.bucket_len(b - 1)
        }
    }

    /// The length of the table header: the bucket count and a record per bucket.
    pub open spec fn header_len(self) -> int {
        8 + 16 * (self.nb as int)
    }

    /// The position of bucket `b`.
    pub open spec fn bucket_start(self, b: int) -> int {
        self.at + self.header_len() + self.buckets_len(b)
    }

    /// The position of the `j`th element of the chain of bucket `b`.
    pub open spec fn elem_start(self, b: int, j: int) -> int {
        self.bucket_start(b) + 8 * self.chain(b).len() + self.elems_len(self.chain(b).take(j))
    }

    /// The length of the whole table.
    pub open spec fn table_len(self) -> int {
        self.header_len() + self.buckets_len(self.nb as int)
    }

    /// Every offset of the table fits in a word.
    pub open spec fn fits(self) -> bool {
        self.at + self.table_len() <= u64::MAX
    }

    /// The header records of the buckets before `b`: offset and chain length.
    pub open spec fn header_records(self, b: int) -> Seq<u8>
        decreases b,
    {
        if b <= 0 {
            Seq::empty()
        } else {
            self.header_records(b - 1) + be8(self.bucket_start(b - 1) as u64) + be8(self.chain(b - 1).len() as u64)
        }
    }

    /// The offsets of the first `j` elements of bucket `b`.
    pub open spec fn elem_offsets(self, b: int, j: int) -> Seq<u8>
        decreases j,
    {
        if j <= 0 {
            Seq::empty()
        } else {
            self.elem_offsets(b, j - 1) + be8(self.elem_start(b, j - 1) as u64)
        }
    }

    /// The image of element `i`: key length, value length, key, value.
    pub open spec fn elem_image(self, i: int) -> Seq<u8> {
        be8(self.keys[i].len() as u64) + be8(self.vals[i].len() as u64) + self.keys[i] + self.vals[i]
    }

    /// The images of the elements of `c`, in order.
    pub open spec fn elems_image(self, c: Seq<usize>) -> Seq<u8>
        decreases c.len(),
    {
        if c.len() == 0 {
            Seq::empty()
        } else {
            self.elems_image(c.drop_last()) + self.elem_image(c.last() as int)
        }
    }

    /// The image of bucket `b`.
    pub open spec fn bucket_image(self, b: int) -> Seq<u8> {
        self.elem_offsets(b, self.chain(b).len() as int) + self.elems_image(self.chain(b))
    }

    /// The images of the buckets before `b`.
    pub open spec fn buckets_image(self, b: int) -> Seq<u8>
        decreases b,
    {
        if b <= 0 {
            Seq::empty()
        } else {
            self.buckets_image(b - 1) + self.bucket_image(b - 1)
        }
    }

    /// The bytes of the table.
    pub open spec fn image(self) -> Seq<u8> {
        be8(self.nb as u64) + self.header_records(self.nb as int) + self.buckets_image(self.nb as int)
    }
}

/// The bytes of each byte vector.
pub open spec fn byte_seqs(v: Seq<Vec<u8>>) -> Seq<Seq<u8>> {
    v.map_values(|b: Vec<u8>| b@)
}

/// The layout of a table with these buckets and elements at position `at`.
pub open spec fn layout_of(at: u64, nb: usize, hashes: Seq<u64>, keys: Seq<Vec<u8>>, vals: Seq<Vec<u8>>) -> Layout {
    Layout { at: at as int, nb: nb as nat, hashes, keys: byte_seqs(keys), vals: byte_seqs(vals) }
}

proof fn lemma_elems_len_take(lay: Layout, c: Seq<usize>, j: int)
    requires
        0 <= j <= c.len(),
    ensures
        0 <= lay.elems_len(c.take(j)) <= lay.elems_len(c),
        j < c.len() ==> lay.elems_len(c.take(j + 1)) == lay.elems_len(c.take(j)) + lay.elem_len(c[j] as int),
    decreases c.len(),
{
    if j < c.len() {
        assert(c.take(j + 1).drop_last() =~= c.take(j));
    }
    if c.len() > 0 {
        if j == c.len() {
            assert(c.take(j) =~= c);
            lemma_elems_len_take(lay, c.drop_last(), j - 1);
        } else {
            lemma_elems_len_take(lay, c.drop_last(), j);
            assert(c.drop_last().take(j) =~= c.take(j));
        }
    }
}

proof fn lemma_buckets_len_mono(lay: Layout, b1: int, b2: int)
    requires
        0 <= b1 <= b2,
    ensures
        0 <= lay.buckets_len(b1) <= lay.buckets_len(b2),
    decreases b2,
{
    if b2 > 0 {
        if b1 < b2 {
            lemma_buckets_len_mono(lay, b1, b2 - 1);
        }
        lemma_elems_len_take(lay, lay.chain(b2 - 1), 0);
        lemma_buckets_len_mono(lay, 0, b2 - 1);
    }
}

/// For each bucket, the elements that fall in it, in order.
fn build_chains(hashes: &Vec<u64>, nb: usize, Ghost(lay): Ghost<Layout>) -> (chains: Vec<Vec<usize>>)
    requires
        lay.wf(),
        lay.hashes == hashes@,
        lay.nb == nb,
    ensures
        chains@.len() == nb,
        forall|b: int| 0 <= b < nb ==> (#[trigger] chains@[b])@ == lay.chain(b),
{
    let mut chains: Vec<Vec<usize>> = Vec::new();
    let mut b: usize = 0;
    while b < nb
        invariant
            b <= nb,
            chains@.len() == b,
            forall|c: int| 0 <= c < b ==> (#[trigger] chains@[c])@ == lay.chain_upto(c, 0),
        decreases nb - b,
    {
        chains.push(Vec::new());
        b = b + 1;
    }
    let mut i: usize = 0;
    while i < hashes.len()
        invariant
            lay.wf(),
            lay.hashes == hashes@,
            lay.nb == nb,
            i <= hashes@.len(),
            chains@.len() == nb,
            forall|c: int| 0 <= c < nb ==> (#[trigger] chains@[c])@ == lay.chain_upto(c, i as int),
        decreases hashes@.len() - i,
    {
        let bi: usize = (hashes[i] as usize) % nb;
        let ghost old_chains = chains@;
        chains[bi].push(i);
        proof {
            assert(lay.bucket_of(i as int) == bi);
            assert forall|c: int| 0 <= c < nb implies (#[trigger] chains@[c])@ == lay.chain_upto(c, i + 1) by {
                if c != bi {
                    assert(chains@[c] == old_chains[c]);
                }
            }
        }
        i = i + 1;
    }
    chains
}

/// The positions of the buckets and of their elements, or `None` when some
/// position of the table does not fit in a word.
fn plan_table(
    at: u64,
    nb: usize,
    chains: &Vec<Vec<usize>>,
    klens: &Vec<usize>,
    vlens: &Vec<usize>,
    Ghost(lay): Ghost<Layout>,
) -> (r: Option<(Vec<u64>, Vec<Vec<u64>>, u64)>)
    requires
        lay.wf(),
        lay.at == at,
        lay.nb == nb,
        klens@.len() == lay.n(),
        vlens@.len() == lay.n(),
        forall|i: int| 0 <= i < lay.n() ==> #[trigger] klens@[i] == lay.keys[i].len(),
        forall|i: int| 0 <= i < lay.n() ==> #[trigger] vlens@[i] == lay.vals[i].len(),
        chains@.len() == nb,
        forall|b: int| 0 <= b < nb ==> (#[trigger] chains@[b])@ == lay.chain(b),
    ensures
        r is Some <==> lay.fits(),
        r matches Some((bs, es, end)) ==> {
            &&& end == lay.at + lay.table_len()
            &&& bs@.len() == nb
            &&& es@.len() == nb
            &&& forall|b: int| 0 <= b < nb ==> #[trigger] bs@[b] == lay.bucket_start(b)
            &&& forall|b: int| 0 <= b < nb ==> (#[trigger] es@[b])@.len() == lay.chain(b).len()
            &&& forall|b: int, j: int| 0 <= b < nb && 0 <= j < lay.chain(b).len() ==> #[trigger] es@[b]@[j] == lay.elem_start(b, j)
        },
{
    let max: u128 = u64::MAX as u128;
    let hl: u128 = 8 + 16 * (nb as u128);
    proof {
        lemma_buckets_len_mono(lay, 0, nb as int);
    }
    if at as u128 + hl > max {
        return None;
    }
    let mut pos: u64 = (at as u128 + hl) as u64;
    let mut bs: Vec<u64> = Vec::new();
    let mut es: Vec<Vec<u64>> = Vec::new();
    let mut b: usize = 0;
    while b < nb
        invariant
            lay.wf(),
            lay.at == at,
            lay.nb == nb,
            klens@.len() == lay.n(),
            vlens@.len() == lay.n(),
            forall|i: int| 0 <= i < lay.n() ==> #[trigger] klens@[i] == lay.keys[i].len(),
            forall|i: int| 0 <= i < lay.n() ==> #[trigger] vlens@[i] == lay.vals[i].len(),
            chains@.len() == nb,
            forall|c: int| 0 <= c < nb ==> (#[trigger] chains@[c])@ == lay.chain(c),
            b <= nb,
            max == u64::MAX,
            pos == lay.bucket_start(b as int),
            bs@.len() == b,
            es@.len() == b,
            forall|c: int| 0 <= c < b ==> #[trigger] bs@[c] == lay.bucket_start(c),
            forall|c: int| 0 <= c < b ==> (#[trigger] es@[c])@.len() == lay.chain(c).len(),
            forall|c: int, j: int| 0 <= c < b && 0 <= j < lay.chain(c).len() ==> #[trigger] es@[c]@[j] == lay.elem_start(c, j),
        decreases nb - b,
    {
        bs.push(pos);
        let c: &Vec<usize> = &chains[b];
        let ghost ch = lay.chain(b as int);
        proof {
            lemma_buckets_len_mono(lay, b + 1, nb as int);
            lemma_elems_len_take(lay, ch, ch.len() as int);
            assert(ch.take(ch.len() as int) =~= ch);
        }
        let cl: usize = c.len();
        if pos as u128 + 8 * (cl as u128) > max {
            proof {
                lemma_elems_len_take(lay, ch, 0);
            }
            return None;
        }
        let mut e: u64 = (pos as u128 + 8 * (cl as u128)) as u64;
        let mut starts: Vec<u64> = Vec::new();
        let mut j: usize = 0;
        proof {
            assert(ch.take(0) =~= Seq::<usize>::empty());
        }
        while j < cl
            invariant
                lay.wf(),
                klens@.len() == lay.n(),
                vlens@.len() == lay.n(),
                forall|i: int| 0 <= i < lay.n() ==> #[trigger] klens@[i] == lay.keys[i].len(),
                forall|i: int| 0 <= i < lay.n() ==> #[trigger] vlens@[i] == lay.vals[i].len(),
                c@ == ch,
                ch == lay.chain(b as int),
                cl == ch.len(),
                b < nb,
                max == u64::MAX,
                j <= cl,
                pos == lay.bucket_start(b as int),
                e == lay.elem_start(b as int, j as int),
                lay.bucket_start(b as int) + lay.bucket_len(b as int) == lay.bucket_start(b + 1),
                lay.bucket_start(b + 1) <= lay.at + lay.table_len(),
                starts@.len() == j,
                forall|k: int| 0 <= k < j ==> #[trigger] starts@[k] == lay.elem_start(b as int, k),
            decreases cl - j,
        {
            starts.push(e);
            let i: usize = c[j];
            proof {
                lemma_elems_len_take(lay, ch, j as int);
                lemma_elems_len_take(lay, ch, j + 1);
                assert(ch[j as int] == i);
                assert(0 <= i < lay.n()) by {
                    lemma_chain_elems(lay, b as int, lay.n());
                }
            }
            let next: u128 = e as u128 + 16 + (klens[i] as u128) + (vlens[i] as u128);
            if next > max {
                return None;
            }
            e = next as u64;
            j = j + 1;
        }
        es.push(starts);
        proof {
            assert(ch.take(cl as int) =~= ch);
        }
        pos = e;
        b = b + 1;
    }
    Some((bs, es, pos))
}

/// The elements of a chain are elements of the table.
proof fn lemma_chain_elems(lay: Layout, b: int, m: int)
    requires
        0 <= m <= lay.n(),
    ensures
        forall|j: int| 0 <= j < lay.chain_upto(b, m).len() ==> (#[trigger] lay.chain_upto(b, m)[j]) < m,
    decreases m,
{
    if m > 0 {
        lemma_chain_elems(lay, b, m - 1);
        let prev = lay.chain_upto(b, m - 1);
        assert forall|j: int| 0 <= j < lay.chain_upto(b, m).len() implies (#[trigger] lay.chain_upto(b, m)[j]) < m by {
            if j < prev.len() {
                assert(lay.chain_upto(b, m)[j] == prev[j]);
            }
        }
    }
}

/// Writes bucket `b`: the offsets of its elements, then the elements.
fn emit_bucket(
    out: &mut Vec<u8>,
    chain: &Vec<usize>,
    starts: &Vec<u64>,
    keys: &Vec<Vec<u8>>,
    vals: &Vec<Vec<u8>>,
    Ghost(lay): Ghost<Layout>,
    Ghost(b): Ghost<int>,
)
    requires
        lay.wf(),
        lay.keys == byte_seqs(keys@),
        lay.vals == byte_seqs(vals@),
        chain@ == lay.chain(b),
        starts@.len() == chain@.len(),
        forall|j: int| 0 <= j < chain@.len() ==> #[trigger] starts@[j] == lay.elem_start(b, j),
    ensures
        final(out)@ == old(out)@ + lay.bucket_image(b),
{
    let ghost base = out@;
    let ghost ch = lay.chain(b);
    proof {
        lemma_chain_elems(lay, b, lay.n());
    }
    let mut j: usize = 0;
    while j < chain.len()
        invariant
            j <= chain@.len(),
            chain@ == ch,
            starts@.len() == chain@.len(),
            forall|k: int| 0 <= k < chain@.len() ==> #[trigger] starts@[k] == lay.elem_start(b, k),
            out@ == base + lay.elem_offsets(b, j as int),
        decreases chain@.len() - j,
    {
        push_be8(out, starts[j]);
        proof {
            assert(base + lay.elem_offsets(b, j + 1) =~= base + lay.elem_offsets(b, j as int) + be8(starts@[j as int]));
        }
        j = j + 1;
    }
    let ghost mid = out@;
    let mut j: usize = 0;
    proof {
        assert(ch.take(0) =~= Seq::<usize>::empty());
    }
    while j < chain.len()
        invariant
            lay.wf(),
            lay.keys == byte_seqs(keys@),
            lay.vals == byte_seqs(vals@),
            j <= chain@.len(),
            chain@ == ch,
            ch == lay.chain(b),
            forall|k: int| 0 <= k < ch.len() ==> (#[trigger] ch[k]) < lay.n(),
            out@ == mid + lay.elems_image(ch.take(j as int)),
        decreases chain@.len() - j,
    {
        let i: usize = chain[j];
        let key: &Vec<u8> = &keys[i];
        let val: &Vec<u8> = &vals[i];
        proof {
            assert(ch[j as int] == i);
            assert(lay.keys[i as int] == key@);
            assert(lay.vals[i as int] == val@);
            assert(ch.take(j + 1).drop_last() =~= ch.take(j as int));
        }
        push_be8(out, key.len() as u64);
        push_be8(out, val.len() as u64);
        push_bytes(out, key.as_slice());
        push_bytes(out, val.as_slice());
        proof {
            assert(out@ =~= mid + lay.elems_image(ch.take(j + 1)));
        }
        j = j + 1;
    }
    proof {
        assert(ch.take(ch.len() as int) =~= ch);
        assert(out@ =~= base + lay.bucket_image(b));
    }
}

/// The lengths of the keys and of the values.
fn byte_lens(keys: &Vec<Vec<u8>>, vals: &Vec<Vec<u8>>) -> (r: (Vec<usize>, Vec<usize>))
    requires
        keys@.len() == vals@.len(),
    ensures
        r.0@.len() == keys@.len(),
        r.1@.len() == keys@.len(),
        forall|i: int| 0 <= i < keys@.len() ==> #[trigger] r.0@[i] == keys@[i]@.len(),
        forall|i: int| 0 <= i < keys@.len() ==> #[trigger] r.1@[i] == vals@[i]@.len(),
{
    let mut kl: Vec<usize> = Vec::new();
    let mut vl: Vec<usize> = Vec::new();
    let mut i: usize = 0;
    while i < keys.len()
        invariant
            keys@.len() == vals@.len(),
            i <= keys@.len(),
            kl@.len() == i,
            vl@.len() == i,
            forall|j: int| 0 <= j < i ==> #[trigger] kl@[j] == keys@[j]@.len(),
            forall|j: int| 0 <= j < i ==> #[trigger] vl@[j] == vals@[j]@.len(),
        decreases keys@.len() - i,
    {
        kl.push(keys[i].len());
        vl.push(vals[i].len());
        i = i + 1;
    }
    (kl, vl)
}

/// Writes a hash table that starts at position `at` of the file, appending
/// its bytes to `out`: `nb` buckets, and for every element the hash of its
/// key, its key bytes and its value bytes. Returns the number of bytes
/// written, or `None` (writing nothing) when some position of the table does
/// not fit in a word.
pub fn write_hashtable(
    out: &mut Vec<u8>,
    at: u64,
    nb: usize,
    hashes: &Vec<u64>,
    keys: &Vec<Vec<u8>>,
    vals: &Vec<Vec<u8>>,
) -> (r: Option<u64>)
    requires
        layout_of(at, nb, hashes@, keys@, vals@).wf(),
    ensures
        r is Some <==> layout_of(at, nb, hashes@, keys@, vals@).fits(),
        r matches Some(len) ==> {
            &&& final(out)@ == old(out)@ + layout_of(at, nb, hashes@, keys@, vals@).image()
            &&& len == layout_of(at, nb, hashes@, keys@, vals@).table_len()
        },
        r is None ==> final(out)@ == old(out)@,
{
    let ghost lay = layout_of(at, nb, hashes@, keys@, vals@);
    let chains = build_chains(hashes, nb, Ghost(lay));
    let (klens, vlens) = byte_lens(keys, vals);
    let plan = plan_table(at, nb, &chains, &klens, &vlens, Ghost(lay));
    match plan {
        None => None,
        Some((bs, es, end)) => {
            let ghost base = out@;
            push_be8(out, nb as u64);
            let mut b: usize = 0;
            while b < nb
                invariant
                    b <= nb,
                    lay.nb == nb,
                    chains@.len() == nb,
                    forall|c: int| 0 <= c < nb ==> (#[trigger] chains@[c])@ == lay.chain(c),
                    bs@.len() == nb,
                    forall|c: int| 0 <= c < nb ==> #[trigger] bs@[c] == lay.bucket_start(c),
                    out@ == base + be8(nb as u64) + lay.header_records(b as int),
                decreases nb - b,
            {
                push_be8(out, bs[b]);
                push_be8(out, chains[b].len() as u64);
                proof {
                    assert(out@ =~= base + be8(nb as u64) + lay.header_records(b + 1));
                }
                b = b + 1;
            }
            let ghost head = out@;
            let mut b: usize = 0;
            while b < nb
                invariant
                    lay.wf(),
                    lay.keys == byte_seqs(keys@),
                    lay.vals == byte_seqs(vals@),
                    b <= nb,
                    lay.nb == nb,
                    chains@.len() == nb,
                    forall|c: int| 0 <= c < nb ==> (#[trigger] chains@[c])@ == lay.chain(c),
                    es@.len() == nb,
                    forall|c: int| 0 <= c < nb ==> (#[trigger] es@[c])@.len() == lay.chain(c).len(),
                    forall|c: int, j: int| 0 <= c < nb && 0 <= j < lay.chain(c).len() ==> #[trigger] es@[c]@[j] == lay.elem_start(c, j),
                    out@ == head + lay.buckets_image(b as int),
                decreases nb - b,
            {
                emit_bucket(out, &chains[b], &es[b], keys, vals, Ghost(lay), Ghost(b as int));
                proof {
                    assert(out@ =~= head + lay.buckets_image(b + 1));
                }
                b = b + 1;
            }
            proof {
                assert(out@ =~= base + lay.image());
                lemma_buckets_len_mono(lay, 0, nb as int);
            }
            Some(end - at)
        }
    }
}

/// Two layouts with the same buckets, hashes and element lengths.
pub open spec fn same_shape(l1: Layout, l2: Layout) -> bool {
    &&& l1.nb == l2.nb
    &&& l1.hashes == l2.hashes
    &&& l1.keys.len() == l2.keys.len()
    &&& l1.vals.len() == l2.vals.len()
    &&& forall|i: int| 0 <= i < l1.keys.len() ==> (#[trigger] l1.keys[i]).len() == l2.keys[i].len()
    &&& forall|i: int| 0 <= i < l1.vals.len() ==> (#[trigger] l1.vals[i]).len() == l2.vals[i].len()
}

proof fn lemma_same_chain(l1: Layout, l2: Layout, b: int, m: int)
    requires
        l1.nb == l2.nb,
        l1.hashes == l2.hashes,
    ensures
        l1.chain_upto(b, m) == l2.chain_upto(b, m),
    decreases m,
{
    if m > 0 {
        lemma_same_chain(l1, l2, b, m - 1);
    }
}

proof fn lemma_same_elems_len(l1: Layout, l2: Layout, c: Seq<usize>)
    requires
        same_shape(l1, l2),
        l1.wf(),
        forall|j: int| 0 <= j < c.len() ==> (#[trigger] c[j]) < l1.n(),
    ensures
        l1.elems_len(c) == l2.elems_len(c),
    decreases c.len(),
{
    if c.len() > 0 {
        lemma_same_elems_len(l1, l2, c.drop_last());
        let i = c.last() as int;
        assert(l1.keys[i].len() == l2.keys[i].len());
        assert(l1.vals[i].len() == l2.vals[i].len());
    }
}

proof fn lemma_same_buckets_len(l1: Layout, l2: Layout, b: int)
    requires
        same_shape(l1, l2),
        l1.wf(),
    ensures
        l1.buckets_len(b) == l2.buckets_len(b),
    decreases b,
{
    if b > 0 {
        lemma_same_buckets_len(l1, l2, b - 1);
        lemma_same_chain(l1, l2, b - 1, l1.n());
        lemma_chain_elems(l1, b - 1, l1.n());
        lemma_same_elems_len(l1, l2, l1.chain(b - 1));
    }
}

/// Positions in a table depend only on its position, buckets, hashes and
/// element lengths.
pub proof fn lemma_same_shape(l1: Layout, l2: Layout)
    requires
        same_shape(l1, l2),
        l1.wf(),
    ensures
        l1.table_len() == l2.table_len(),
        l1.at == l2.at ==> l1.fits() == l2.fits(),
        forall|b: int| #[trigger] l1.chain(b) == l2.chain(b),
        forall|b: int, j: int| 0 <= j <= l1.chain(b).len() ==> #[trigger] l1.elem_start(b, j) - l1.at == l2.elem_start(b, j) - l2.at,
{
    lemma_same_buckets_len(l1, l2, l1.nb as int);
    assert forall|b: int| #[trigger] l1.chain(b) == l2.chain(b) by {
        lemma_same_chain(l1, l2, b, l1.n());
    }
    assert forall|b: int, j: int| 0 <= j <= l1.chain(b).len() implies #[trigger] l1.elem_start(b, j) - l1.at == l2.elem_start(b, j) - l2.at by {
        lemma_same_chain(l1, l2, b, l1.n());
        lemma_same_buckets_len(l1, l2, b);
        lemma_chain_elems(l1, b, l1.n());
        let c = l1.chain(b).take(j);
        assert forall|k: int| 0 <= k < c.len() implies (#[trigger] c[k]) < l1.n() by {
            assert(c[k] == l1.chain(b)[k]);
        }
        lemma_same_elems_len(l1, l2, c);
    }
}

proof fn lemma_elems_image_len(lay: Layout, c: Seq<usize>)
    ensures
        lay.elems_image(c).len() == lay.elems_len(c),
    decreases c.len(),
{
    if c.len() > 0 {
        lemma_elems_image_len(lay, c.drop_last());
    }
}

proof fn lemma_elem_offsets_len(lay: Layout, b: int, j: int)
    requires
        j >= 0,
    ensures
        lay.elem_offsets(b, j).len() == 8 * j,
    decreases j,
{
    if j > 0 {
        lemma_elem_offsets_len(lay, b, j - 1);
    }
}

proof fn lemma_buckets_image_len(lay: Layout, b: int)
    requires
        b >= 0,
    ensures
        lay.buckets_image(b).len() == lay.buckets_len(b),
    decreases b,
{
    if b > 0 {
        lemma_buckets_image_len(lay, b - 1);
        lemma_elem_offsets_len(lay, b - 1, lay.chain(b - 1).len() as int);
        lemma_elems_image_len(lay, lay.chain(b - 1));
    }
}

proof fn lemma_header_records_len(lay: Layout, b: int)
    requires
        b >= 0,
    ensures
        lay.header_records(b).len() == 16 * b,
    decreases b,
{
    if b > 0 {
        lemma_header_records_len(lay, b - 1);
    }
}

/// The bytes of a table are as many as its length.
pub proof fn lemma_image_len(lay: Layout)
    ensures
        lay.image().len() == lay.table_len(),
{
    lemma_header_records_len(lay, lay.nb as int);
    lemma_buckets_image_len(lay, lay.nb as int);
}

proof fn lemma_chain_sorted(lay: Layout, b: int, m: int)
    requires
        lay.wf(),
        0 <= m <= lay.n(),
    ensures
        forall|j1: int, j2: int| 0 <= j1 < j2 < lay.chain_upto(b, m).len() ==>
            #[trigger] lay.chain_upto(b, m)[j1] < #[trigger] lay.chain_upto(b, m)[j2],
    decreases m,
{
    if m > 0 {
        lemma_chain_sorted(lay, b, m - 1);
        lemma_chain_elems(lay, b, m - 1);
        let prev = lay.chain_upto(b, m - 1);
        let c = lay.chain_upto(b, m);
        if lay.bucket_of(m - 1) == b {
            assert(c == prev.push((m - 1) as usize));
            assert forall|j1: int, j2: int| 0 <= j1 < j2 < c.len() implies #[trigger] c[j1] < #[trigger] c[j2] by {
                assert(c[j1] == prev[j1]);
                if j2 < prev.len() {
                    assert(c[j2] == prev[j2]);
                } else {
                    assert(c[j2] == (m - 1) as usize);
                    assert(prev[j1] < m - 1);
                }
            }
        } else {
            assert(c == prev);
        }
    }
}

proof fn lemma_chain_complete(lay: Layout, i: int, m: int)
    requires
        lay.wf(),
        0 <= i < m <= lay.n(),
    ensures
        lay.chain_upto(lay.bucket_of(i), m).contains(i as usize),
    decreases m,
{
    let b = lay.bucket_of(i);
    if i == m - 1 {
        let c = lay.chain_upto(b, m);
        assert(c[c.len() - 1] == i as usize);
    } else {
        lemma_chain_complete(lay, i, m - 1);
        let prev = lay.chain_upto(b, m - 1);
        let k = choose|k: int| 0 <= k < prev.len() && prev[k] == i as usize;
        assert(lay.chain_upto(b, m)[k] == i as usize);
    }
}

/// The position of element `i` in the chain of its bucket.
pub open spec fn chain_index(lay: Layout, i: int) -> int {
    choose|j: int| 0 <= j < lay.chain(lay.bucket_of(i)).len() && lay.chain(lay.bucket_of(i))[j] == i as usize
}

/// The position of the value of element `i`.
pub open spec fn value_start(lay: Layout, i: int) -> int {
    lay.elem_start(lay.bucket_of(i), chain_index(lay, i)) + 16 + lay.keys[i].len()
}

/// Element `i` sits in the chain of its bucket at `chain_index`.
proof fn lemma_chain_index(lay: Layout, b: int, j: int)
    requires
        lay.wf(),
        0 <= j < lay.chain(b).len(),
    ensures
        lay.bucket_of(lay.chain(b)[j] as int) == b,
        chain_index(lay, lay.chain(b)[j] as int) == j,
{
    let i = lay.chain(b)[j] as int;
    lemma_chain_in_bucket(lay, b, lay.n());
    lemma_chain_sorted(lay, b, lay.n());
    assert(lay.chain(b)[j] == i as usize);
    let k = chain_index(lay, i);
    assert(0 <= k < lay.chain(b).len() && lay.chain(b)[k] == i as usize);
    if k < j {
        assert(lay.chain(b)[k] < lay.chain(b)[j]);
    } else if k > j {
        assert(lay.chain(b)[j] < lay.chain(b)[k]);
    }
}

proof fn lemma_chain_in_bucket(lay: Layout, b: int, m: int)
    requires
        lay.wf(),
        0 <= m <= lay.n(),
    ensures
        forall|j: int| 0 <= j < lay.chain_upto(b, m).len() ==> lay.bucket_of(#[trigger] lay.chain_upto(b, m)[j] as int) == b,
    decreases m,
{
    if m > 0 {
        lemma_chain_in_bucket(lay, b, m - 1);
        let prev = lay.chain_upto(b, m - 1);
        if lay.bucket_of(m - 1) == b {
            let c = lay.chain_upto(b, m);
            assert(c == prev.push((m - 1) as usize));
            assert forall|j: int| 0 <= j < c.len() implies lay.bucket_of(#[trigger] c[j] as int) == b by {
                if j < prev.len() {
                    assert(c[j] == prev[j]);
                } else {
                    assert(c[j] == (m - 1) as usize);
                }
            }
        } else {
            assert(lay.chain_upto(b, m) == prev);
        }
    }
}

/// The hash that places a string key in a bucket: the default hasher fed
/// what hashing a string writes into it, the string's UTF-8 bytes and then
/// the byte `0xFF`.
pub open spec fn str_hash(p: Seq<char>) -> u64 {
    DefaultHasher::spec_finish(seq![utf8(p), seq![0xffu8]])
}

/// Hashes a string as a string key is hashed.
pub fn hash_str(p: &str) -> (h: u64)
    ensures
        h == str_hash(p@),
{
    let mut hasher = DefaultHasher::new();
    hasher.write(p.as_bytes());
    let end: Vec<u8> = vec![0xffu8];
    hasher.write(end.as_slice());
    proof {
        assert(end@ =~= seq![0xffu8]);
        assert(hasher@ =~= seq![utf8(p@), seq![0xffu8]]);
    }
    hasher.finish()
}

/// Feeds `hasher` what hashing the path `p` as a `std::path::Path` writes
/// (`<Path as Hash>::hash`). What that is depends on the machine (how paths
/// split into components, and the byte order and width of the length it
/// writes), so nothing is stated of it.
#[verifier::external_body]
fn hash_path_into(p: &str, hasher: &mut DefaultHasher) {
    std::path::Path::new(p).hash(hasher);
}

/// The hash that places a path key in a bucket: a fresh default hasher fed
/// the path as a `Path`. The value is left open, as what the path feeds the
/// hasher is.
pub fn hash_path(p: &str) -> u64 {
    let mut hasher = DefaultHasher::new();
    hash_path_into(p, &mut hasher);
    hasher.finish()
}

/// The 4-byte little-endian encoding of `x`.
pub open spec fn le4(x: u32) -> Seq<u8> {
    seq![x as u8, (x >> 8u32) as u8, (x >> 16u32) as u8, (x >> 24u32) as u8]
}

/// The 4 bytes of `x` in memory: little-endian when `little`, else
/// big-endian.
pub open spec fn ne4(x: u32, little: bool) -> Seq<u8> {
    if little { le4(x) } else { be4(x) }
}

/// Appends the 4-byte little-endian encoding of `x`.
pub fn push_le4(out: &mut Vec<u8>, x: u32)
    ensures
        final(out)@ == old(out)@ + le4(x),
{
    out.push(x as u8);
    out.push((x >> 8u32) as u8);
    out.push((x >> 16u32) as u8);
    out.push((x >> 24u32) as u8);
    assert(out@ =~= old(out)@ + le4(x));
}

/// Calls `u32::to_ne_bytes`: the bytes of `x` in the machine's byte order,
/// which is big-endian or little-endian. Which of the two the machine uses is
/// left open.
#[verifier::external_body]
fn native_bytes(x: u32) -> (r: [u8; 4])
    ensures
        r@ == be4(x) || r@ == le4(x),
{
    x.to_ne_bytes()
}

/// Whether the machine stores numbers little-endian: the lowest byte of one
/// comes first.
pub fn little_endian() -> bool {
    let b = native_bytes(1u32);
    b[0] == 1u8
}

/// The hash that places a document number in a bucket: the default hasher
/// fed what hashing a `u32` writes into it, its 4 bytes in memory order
/// (little-endian when `little`).
pub open spec fn id_hash(d: u32, little: bool) -> u64 {
    DefaultHasher::spec_finish(seq![ne4(d, little)])
}

/// Hashes a document number as a `u32` key is hashed on a machine whose byte
/// order `little` gives.
pub fn hash_id(d: u32, little: bool) -> (h: u64)
    ensures
        h == id_hash(d, little),
{
    let mut key: Vec<u8> = Vec::new();
    if little {
        push_le4(&mut key, d);
    } else {
        push_be4(&mut key, d);
    }
    let mut hasher = DefaultHasher::new();
    hasher.write(key.as_slice());
    proof {
        assert(key@ =~= ne4(d, little));
        assert(hasher@ =~= seq![ne4(d, little)]);
    }
    hasher.finish()
}

/// The UTF-8 bytes of a string.
pub open spec fn utf8(p: Seq<char>) -> Seq<u8> {
    vstd::utf8::encode_utf8(p)
}

/// A string as written in a file: its byte length, then its UTF-8 bytes.
pub open spec fn str_image(p: Seq<char>) -> Seq<u8> {
    be8(utf8(p).len() as u64) + utf8(p)
}

/// Appends a string as written in a file.
pub fn push_str(out: &mut Vec<u8>, p: &str)
    ensures
        final(out)@ == old(out)@ + str_image(p@),
{
    let b: &[u8] = p.as_bytes();
    push_be8(out, b.len() as u64);
    push_bytes(out, b);
    assert(out@ =~= old(out)@ + str_image(p@));
}

/// The total length of the first `k` documents as written in a file.
pub open spec fn docs_len(docs: Seq<Seq<char>>, k: int) -> int
    decreases k,
{
    if k <= 0 { 0 } else { docs_len(docs, k - 1) + 8 + utf8(docs[k - 1]).len() }
}

/// The position of document `k` of a document table section written at
/// `at`: after the two header words, the count and the offset list.
pub open spec fn doc_start(at: int, docs: Seq<Seq<char>>, k: int) -> int {
    at + 24 + 8 * docs.len() + docs_len(docs, k)
}

/// The offsets of the first `k` documents.
pub open spec fn doc_offsets(at: int, docs: Seq<Seq<char>>, k: int) -> Seq<u8>
    decreases k,
{
    if k <= 0 { Seq::empty() } else { doc_offsets(at, docs, k - 1) + be8(doc_start(at, docs, k - 1) as u64) }
}

/// The first `k` documents as written in a file.
pub open spec fn docs_image(docs: Seq<Seq<char>>, k: int) -> Seq<u8>
    decreases k,
{
    if k <= 0 { Seq::empty() } else { docs_image(docs, k - 1) + str_image(docs[k - 1]) }
}

/// The numbers, below `n`, that the path map of the table holds: each
/// document at its last occurrence.
pub open spec fn doc_entries(docs: Seq<Seq<char>>, n: int) -> Seq<int>
    decreases n,
{
    if n <= 0 {
        Seq::empty()
    } else if last_index_of(docs, docs[n - 1]) == Some(n - 1) {
        doc_entries(docs, n - 1).push(n - 1)
    } else {
        doc_entries(docs, n - 1)
    }
}

/// The hash table of the path map, written right after the documents: each
/// path (as a string) mapped to the 4-byte number of its last occurrence, in
/// one bucket per entry, document `k`'s path placed by the hash `ph[k]`.
pub open spec fn doc_map_layout(at: int, docs: Seq<Seq<char>>, ph: Seq<u64>) -> Layout {
    let e = doc_entries(docs, docs.len() as int);
    Layout {
        at: doc_start(at, docs, docs.len() as int),
        nb: e.len(),
        hashes: e.map_values(|k: int| ph[k]),
        keys: e.map_values(|k: int| str_image(docs[k])),
        vals: e.map_values(|k: int| be4(k as u32)),
    }
}

/// Every position of a document table section written at `at` fits in a
/// word.
pub open spec fn doc_section_fits(at: int, docs: Seq<Seq<char>>, ph: Seq<u64>) -> bool {
    &&& doc_start(at, docs, docs.len() as int) <= u64::MAX
    &&& doc_map_layout(at, docs, ph).fits()
}

/// A document table section written at `at`: the position of the document
/// list, the position of the path map, the number of documents, the position
/// of each document, the documents, then the path map.
pub open spec fn doc_section_image(at: int, docs: Seq<Seq<char>>, ph: Seq<u64>) -> Seq<u8> {
    let n = docs.len() as int;
    be8((at + 16) as u64) + be8(doc_start(at, docs, n) as u64) + be8(n as u64) + doc_offsets(at, docs, n)
        + docs_image(docs, n) + doc_map_layout(at, docs, ph).image()
}

proof fn lemma_docs_len_mono(docs: Seq<Seq<char>>, k1: int, k2: int)
    requires
        0 <= k1 <= k2,
    ensures
        0 <= docs_len(docs, k1) <= docs_len(docs, k2),
    decreases k2,
{
    if k1 < k2 {
        lemma_docs_len_mono(docs, k1, k2 - 1);
    } else if k2 > 0 {
        lemma_docs_len_mono(docs, 0, k2 - 1);
    }
}

proof fn lemma_doc_entries_bound(docs: Seq<Seq<char>>, n: int)
    requires
        0 <= n <= docs.len(),
    ensures
        forall|j: int| 0 <= j < doc_entries(docs, n).len() ==> 0 <= #[trigger] doc_entries(docs, n)[j] < n,
        doc_entries(docs, n).len() <= n,
    decreases n,
{
    if n > 0 {
        lemma_doc_entries_bound(docs, n - 1);
        let prev = doc_entries(docs, n - 1);
        assert forall|j: int| 0 <= j < doc_entries(docs, n).len() implies 0 <= #[trigger] doc_entries(docs, n)[j] < n by {
            if j < prev.len() {
                assert(doc_entries(docs, n)[j] == prev[j]);
            }
        }
    }
}

impl DocTable {
    /// The positions of the documents of a section written at `at`, and the
    /// position of the path map, or `None` when one does not fit in a word.
    fn doc_positions(&self, at: u64) -> (r: Option<(Vec<u64>, u64)>)
        requires
            self.wf(),
        ensures
            r is Some <==> doc_start(at as int, self@, self@.len() as int) <= u64::MAX,
            r matches Some((starts, end)) ==> {
                &&& end == doc_start(at as int, self@, self@.len() as int)
                &&& starts@.len() == self@.len()
                &&& forall|j: int| 0 <= j < self@.len() ==> #[trigger] starts@[j] == doc_start(at as int, self@, j)
            },
    {
        let ghost docs = self@;
        proof {
            self.lemma_reveal();
        }
        let n: usize = self.id_to_doc.len();
        let max: u128 = u64::MAX as u128;
        proof {
            lemma_docs_len_mono(docs, 0, n as int);
        }
        if at as u128 + 24 + 8 * (n as u128) > max {
            return None;
        }
        let mut starts: Vec<u64> = Vec::new();
        let mut pos: u64 = (at as u128 + 24 + 8 * (n as u128)) as u64;
        let mut k: usize = 0;
        while k < n
            invariant
                self.wf(),
                docs == self@,
                n == docs.len(),
                max == u64::MAX,
                k <= n,
                pos == doc_start(at as int, docs, k as int),
                starts@.len() == k,
                forall|j: int| 0 <= j < k ==> #[trigger] starts@[j] == doc_start(at as int, docs, j),
            decreases n - k,
        {
            starts.push(pos);
            proof {
                self.lemma_reveal();
            }
            let ps: &str = self.id_to_doc[k].as_str();
            let len: usize = ps.as_bytes().len();
            proof {
                assert(docs[k as int] == self.id_to_doc@[k as int]@);
                assert(len == utf8(docs[k as int]).len());
                assert(doc_start(at as int, docs, k + 1) == doc_start(at as int, docs, k as int) + 8 + len);
                lemma_docs_len_mono(docs, k + 1, n as int);
            }
            if pos as u128 + 8 + len as u128 > max {
                return None;
            }
            pos = (pos as u128 + 8 + len as u128) as u64;
            k = k + 1;
        }
        Some((starts, pos))
    }

    /// The entries of the path map, as hash, key bytes and value bytes: each
    /// path at its last occurrence, in order.
    fn doc_map_entries(&self, path_hashes: &Vec<u64>) -> (r: (Vec<u64>, Vec<Vec<u8>>, Vec<Vec<u8>>))
        requires
            self.wf(),
            path_hashes@.len() == self@.len(),
        ensures
            ({
                let e = doc_entries(self@, self@.len() as int);
                &&& r.0@ == e.map_values(|k: int| path_hashes@[k])
                &&& byte_seqs(r.1@) == e.map_values(|k: int| str_image(self@[k]))
                &&& byte_seqs(r.2@) == e.map_values(|k: int| be4(k as u32))
            }),
    {
        let ghost docs = self@;
        proof {
            self.lemma_reveal();
        }
        let n: usize = self.id_to_doc.len();
        let mut hashes: Vec<u64> = Vec::new();
        let mut keys: Vec<Vec<u8>> = Vec::new();
        let mut vals: Vec<Vec<u8>> = Vec::new();
        let mut k: usize = 0;
        while k < n
            invariant
                self.wf(),
                docs == self@,
                n == docs.len(),
                path_hashes@.len() == n,
                k <= n,
                hashes@.len() == doc_entries(docs, k as int).len(),
                keys@.len() == hashes@.len(),
                vals@.len() == hashes@.len(),
                forall|j: int| 0 <= j < hashes@.len() ==> #[trigger] hashes@[j] == path_hashes@[doc_entries(docs, k as int)[j]],
                forall|j: int| 0 <= j < keys@.len() ==> (#[trigger] keys@[j])@ == str_image(docs[doc_entries(docs, k as int)[j]]),
                forall|j: int| 0 <= j < vals@.len() ==> (#[trigger] vals@[j])@ == be4(doc_entries(docs, k as int)[j] as u32),
            decreases n - k,
        {
            proof {
                self.lemma_reveal();
            }
            let p: &String = &self.id_to_doc[k];
            proof {
                assert(docs[k as int] == p@);
            }
            let last = self.doc_to_id.get(p.as_str());
            let is_last: bool = match last {
                Some(x) => *x as usize == k,
                None => false,
            };
            proof {
                let prev = doc_entries(docs, k as int);
                if is_last {
                    assert(self.doc_to_id@.contains_key(p@));
                    assert(last_index_of(docs, docs[k as int]) == Some(k as int));
                    assert(doc_entries(docs, k + 1) == prev.push(k as int));
                } else {
                    if last_index_of(docs, docs[k as int]) == Some(k as int) {
                        assert(self.doc_to_id@.contains_key(p@));
                    }
                    assert(doc_entries(docs, k + 1) == prev);
                }
            }
            if is_last {
                let mut key: Vec<u8> = Vec::new();
                push_str(&mut key, p.as_str());
                let mut val: Vec<u8> = Vec::new();
                push_be4(&mut val, k as u32);
                hashes.push(path_hashes[k]);
                keys.push(key);
                vals.push(val);
            }
            k = k + 1;
        }
        proof {
            let e = doc_entries(docs, n as int);
            lemma_doc_entries_bound(docs, n as int);
            assert(hashes@ =~= e.map_values(|k: int| path_hashes@[k]));
            assert(byte_seqs(keys@) =~= e.map_values(|k: int| str_image(docs[k])));
            assert(byte_seqs(vals@) =~= e.map_values(|k: int| be4(k as u32)));
        }
        (hashes, keys, vals)
    }

    /// Writes the header words, the document offsets and the documents of a
    /// section written at `at` whose path map starts at `end`.
    fn emit_docs(&self, file: &mut Vec<u8>, at: u64, end: u64, starts: &Vec<u64>)
        requires
            self.wf(),
            at as int + 16 <= u64::MAX,
            end == doc_start(at as int, self@, self@.len() as int),
            starts@.len() == self@.len(),
            forall|j: int| 0 <= j < self@.len() ==> #[trigger] starts@[j] == doc_start(at as int, self@, j),
        ensures
            final(file)@ == old(file)@ + be8((at + 16) as u64) + be8(end) + be8(self@.len() as u64)
                + doc_offsets(at as int, self@, self@.len() as int) + docs_image(self@, self@.len() as int),
    {
        let ghost docs = self@;
        let ghost at_i = at as int;
        proof {
            self.lemma_reveal();
        }
        let n: usize = self.id_to_doc.len();
        let ghost base = file@;
        push_be8(file, at + 16);
        push_be8(file, end);
        push_be8(file, n as u64);
        let mut k: usize = 0;
        while k < n
            invariant
                k <= n,
                n == docs.len(),
                starts@.len() == n,
                forall|j: int| 0 <= j < n ==> #[trigger] starts@[j] == doc_start(at_i, docs, j),
                file@ == base + be8((at_i + 16) as u64) + be8(end) + be8(n as u64) + doc_offsets(at_i, docs, k as int),
            decreases n - k,
        {
            push_be8(file, starts[k]);
            proof {
                assert(file@ =~= base + be8((at_i + 16) as u64) + be8(end) + be8(n as u64) + doc_offsets(at_i, docs, k + 1));
            }
            k = k + 1;
        }
        let ghost mid = file@;
        let mut k: usize = 0;
        while k < n
            invariant
                docs == self@,
                self.wf(),
                k <= n,
                n == docs.len(),
                file@ == mid + docs_image(docs, k as int),
            decreases n - k,
        {
            proof {
                self.lemma_reveal();
            }
            push_str(file, self.id_to_doc[k].as_str());
            proof {
                assert(docs[k as int] == self.id_to_doc@[k as int]@);
                assert(file@ =~= mid + docs_image(docs, k + 1));
            }
            k = k + 1;
        }
    }

    /// Writes the document table at the end of `file` (the position where
    /// writing continues), placing document `k`'s path in the path map by
    /// the hash `path_hashes[k]`. Returns the number of bytes written, or
    /// `None` (writing nothing) when a position of the section does not fit in
    /// a word.
    pub fn write_with_path_hashes(&self, file: &mut Vec<u8>, path_hashes: &Vec<u64>) -> (r: Option<u64>)
        requires
            self.wf(),
            path_hashes@.len() == self@.len(),
        ensures
            doc_written(r, old(file)@, final(file)@, self@, path_hashes@),
    {
        let ghost ph = path_hashes@;
        let ghost docs = self@;
        let ghost at_i = file@.len() as int;
        proof {
            self.lemma_reveal();
        }
        let at: u64 = file.len() as u64;
        let n: usize = self.id_to_doc.len();
        let (starts, pos) = match self.doc_positions(at) {
            None => {
                return None;
            }
            Some(x) => x,
        };
        let (hashes, keys, vals) = self.doc_map_entries(path_hashes);
        let nh: usize = hashes.len();
        let ghost lay = doc_map_layout(at_i, docs, ph);
        proof {
            assert(hashes@ =~= lay.hashes);
            assert(byte_seqs(keys@) =~= lay.keys);
            assert(byte_seqs(vals@) =~= lay.vals);
            let l2 = layout_of(pos, nh, hashes@, keys@, vals@);
            assert(l2.at == lay.at);
            assert(l2.nb == lay.nb);
            assert(l2.hashes == lay.hashes);
            assert(l2.keys == lay.keys);
            assert(l2.vals == lay.vals);
            lemma_docs_len_mono(docs, 0, n as int);
            lemma_doc_entries_bound(docs, n as int);
        }
        let mut table: Vec<u8> = Vec::new();
        let written = write_hashtable(&mut table, pos, nh, &hashes, &keys, &vals);
        if written.is_none() {
            return None;
        }
        let ghost base = file@;
        let start_len: usize = file.len();
        self.emit_docs(file, at, pos, &starts);
        push_bytes(file, table.as_slice());
        proof {
            assert(file@ =~= base + doc_section_image(at_i, docs, ph));
        }
        let total: u64 = (file.len() - start_len) as u64;
        Some(total)
    }

    /// Writes the document table at the end of `file`, each path placed in
    /// the path map by its hash as a path. Returns the number of bytes
    /// written, or `None` (writing nothing) when a position of the section
    /// does not fit in a word.
    pub fn write_to_file(&self, file: &mut Vec<u8>) -> (r: Option<u64>)
        requires
            self.wf(),
        ensures
            exists|ph: Seq<u64>| ph.len() == self@.len() && #[trigger] doc_written(r, old(file)@, final(file)@, self@, ph),
    {
        proof {
            self.lemma_reveal();
        }
        let n: usize = self.id_to_doc.len();
        let mut path_hashes: Vec<u64> = Vec::new();
        let mut k: usize = 0;
        while k < n
            invariant
                n == self.id_to_doc@.len(),
                k <= n,
                path_hashes@.len() == k,
            decreases n - k,
        {
            path_hashes.push(hash_path(self.id_to_doc[k].as_str()));
            k = k + 1;
        }
        self.write_with_path_hashes(file, &path_hashes)
    }
}

/// What writing the document table at the end of `before` gives, with the
/// path hashes `ph`: the write succeeds exactly when the section fits; on
/// success the section's bytes are appended and their number returned,
/// otherwise nothing is written.
pub open spec fn doc_written(r: Option<u64>, before: Seq<u8>, after: Seq<u8>, docs: Seq<Seq<char>>, ph: Seq<u64>) -> bool {
    &&& (r is Some <==> doc_section_fits(before.len() as int, docs, ph))
    &&& (r matches Some(n) ==> after == before + doc_section_image(before.len() as int, docs, ph)
        && n == doc_section_image(before.len() as int, docs, ph).len())
    &&& (r is None ==> after == before)
}

/// Offsets as written in a file: one word each.
pub open spec fn offsets_image(ps: Seq<u64>) -> Seq<u8>
    decreases ps.len(),
{
    if ps.len() == 0 {
        Seq::empty()
    } else {
        offsets_image(ps.drop_last()) + be8(ps.last())
    }
}

/// Appends offsets as written in a file.
pub fn push_offsets(out: &mut Vec<u8>, ps: &Vec<u64>)
    ensures
        final(out)@ == old(out)@ + offsets_image(ps@),
{
    let mut i: usize = 0;
    while i < ps.len()
        invariant
            i <= ps@.len(),
            out@ == old(out)@ + offsets_image(ps@.take(i as int)),
        decreases ps@.len() - i,
    {
        push_be8(out, ps[i]);
        proof {
            assert(ps@.take(i + 1).drop_last() =~= ps@.take(i as int));
            assert(out@ =~= old(out)@ + offsets_image(ps@.take(i + 1)));
        }
        i = i + 1;
    }
    assert(ps@.take(ps@.len() as int) =~= ps@);
}

/// The table of one word written at `at`, with its documents in `order`:
/// each document's 4-byte number mapped to the offsets of the word in it,
/// one bucket per document.
pub open spec fn word_table_layout(at: int, t: WordTable, order: Seq<DocID>, little: bool) -> Layout {
    Layout {
        at,
        nb: order.len(),
        hashes: order.map_values(|d: DocID| id_hash(d, little)),
        keys: order.map_values(|d: DocID| be4(d)),
        vals: order.map_values(|d: DocID| offsets_image(t[d])),
    }
}

/// `s` names every member of `dom` exactly once.
pub open spec fn lists_once<T>(s: Seq<T>, dom: Set<T>) -> bool {
    &&& s.no_duplicates()
    &&& forall|x: T| #[trigger] dom.contains(x) <==> s.contains(x)
}

/// The documents of a table, each once, in the order the table hands them
/// out.
pub fn doc_order(t: &HashMap<DocID, Vec<Offset>>) -> (o: Vec<DocID>)
    ensures
        lists_once(o@, table_view(*t).dom()),
{
    broadcast use vstd::std_specs::hash::group_hash_axioms;
    let ghost v = vstd::std_specs::iter::IteratorSpec::remaining(&vstd::std_specs::hash::spec_hash_map_iter(t));
    let mut o: Vec<DocID> = Vec::new();
    for pair in it: t.iter()
        invariant
            it.seq() == v,
            o@.len() == it.index(),
            forall|i: int| 0 <= i < it.index() ==> #[trigger] o@[i] == *v[i].0,
    {
        let (id, _ps) = pair;
        o.push(*id);
    }
    proof {
        assert forall|i: int, j: int| 0 <= i < o@.len() && 0 <= j < o@.len() && i != j implies o@[i] != o@[j] by {
            if o@[i] == o@[j] {
                assert(t@.contains_key(*v[i].0) && t@[*v[i].0] == *v[i].1);
                assert(t@.contains_key(*v[j].0) && t@[*v[j].0] == *v[j].1);
                assert(v[i] == v[j]);
            }
        }
        assert forall|d: DocID| #[trigger] table_view(*t).dom().contains(d) <==> o@.contains(d) by {
            if table_view(*t).dom().contains(d) {
                assert(v.contains((&d, &t@[d])));
                let i = choose|i: int| 0 <= i < v.len() && v[i] == (&d, &t@[d]);
                assert(o@[i] == d);
            }
            if o@.contains(d) {
                let i = choose|i: int| 0 <= i < o@.len() && o@[i] == d;
                assert(t@.contains_key(*v[i].0));
            }
        }
    }
    o
}

/// Writes the table of one word at position `at` of the file, with its
/// documents in `order`, appending its bytes to `out`. Returns the number
/// of bytes written, or `None` (writing nothing) when a position of the
/// table does not fit in a word.
pub fn write_word_table(out: &mut Vec<u8>, at: u64, t: &HashMap<DocID, Vec<Offset>>, order: &Vec<DocID>, little: bool) -> (r: Option<u64>)
    requires
        lists_once(order@, table_view(*t).dom()),
    ensures
        r is Some <==> word_table_layout(at as int, table_view(*t), order@, little).fits(),
        r matches Some(len) ==> {
            &&& final(out)@ == old(out)@ + word_table_layout(at as int, table_view(*t), order@, little).image()
            &&& len == word_table_layout(at as int, table_view(*t), order@, little).table_len()
        },
        r is None ==> final(out)@ == old(out)@,
{
    broadcast use vstd::std_specs::hash::group_hash_axioms;
    let ghost lay = word_table_layout(at as int, table_view(*t), order@, little);
    let mut hashes: Vec<u64> = Vec::new();
    let mut keys: Vec<Vec<u8>> = Vec::new();
    let mut vals: Vec<Vec<u8>> = Vec::new();
    let mut i: usize = 0;
    while i < order.len()
        invariant
            lists_once(order@, table_view(*t).dom()),
            i <= order@.len(),
            hashes@.len() == i,
            keys@.len() == i,
            vals@.len() == i,
            forall|j: int| 0 <= j < i ==> #[trigger] hashes@[j] == id_hash(order@[j], little),
            forall|j: int| 0 <= j < i ==> (#[trigger] keys@[j])@ == be4(order@[j]),
            forall|j: int| 0 <= j < i ==> (#[trigger] vals@[j])@ == offsets_image(table_view(*t)[order@[j]]),
        decreases order@.len() - i,
    {
        let d: DocID = order[i];
        proof {
            assert(order@.contains(d));
            assert(table_view(*t).dom().contains(d));
        }
        let ps: &Vec<Offset> = t.get(&d).unwrap();
        let mut key: Vec<u8> = Vec::new();
        push_be4(&mut key, d);
        let mut val: Vec<u8> = Vec::new();
        push_offsets(&mut val, ps);
        hashes.push(hash_id(d, little));
        keys.push(key);
        vals.push(val);
        i = i + 1;
    }
    let nh: usize = hashes.len();
    proof {
        let l2 = layout_of(at, nh, hashes@, keys@, vals@);
        assert(l2.hashes =~= lay.hashes);
        assert(l2.keys =~= lay.keys);
        assert(l2.vals =~= lay.vals);
        assert(l2 == lay);
    }
    write_hashtable(out, at, nh, &hashes, &keys, &vals)
}

/// The word index written at `at`, with its words in `ws` and the documents
/// of word `ws[i]` in `os[i]`, as far as positions go: each word's key is the
/// word as a string, and its value is as long as the word's table.
pub open spec fn index_shape(at: int, index: Map<Seq<char>, WordTable>, ws: Seq<Seq<char>>, os: Seq<Seq<DocID>>, little: bool) -> Layout {
    Layout {
        at,
        nb: ws.len(),
        hashes: ws.map_values(|w: Seq<char>| str_hash(w)),
        keys: ws.map_values(|w: Seq<char>| str_image(w)),
        vals: Seq::new(
            ws.len(),
            |i: int| Seq::new(word_table_layout(0, index[ws[i]], os[i], little).table_len() as nat, |k: int| 0u8),
        ),
    }
}

/// The word index written at `at`: a hash table from each word (as a string)
/// to the table of that word, written where the value of its element lies.
pub open spec fn index_layout(at: int, index: Map<Seq<char>, WordTable>, ws: Seq<Seq<char>>, os: Seq<Seq<DocID>>, little: bool) -> Layout {
    let shape = index_shape(at, index, ws, os, little);
    Layout {
        vals: Seq::new(
            ws.len(),
            |i: int| word_table_layout(value_start(shape, i), index[ws[i]], os[i], little).image(),
        ),
        ..shape
    }
}

/// `ws` names every word of the index once, and `os[i]` every document of
/// word `ws[i]` once.
pub open spec fn index_orders(index: Map<Seq<char>, WordTable>, ws: Seq<Seq<char>>, os: Seq<Seq<DocID>>) -> bool {
    &&& lists_once(ws, index.dom())
    &&& os.len() == ws.len()
    &&& forall|i: int| 0 <= i < ws.len() ==> lists_once(#[trigger] os[i], index[ws[i]].dom())
}

/// Every position of the word index written at `at` fits in a word.
pub open spec fn index_fits(at: int, index: Map<Seq<char>, WordTable>, ws: Seq<Seq<char>>, os: Seq<Seq<DocID>>, little: bool) -> bool {
    &&& index_shape(at, index, ws, os, little).fits()
    &&& forall|i: int| 0 <= i < ws.len() ==>
        #[trigger] word_table_layout(value_start(index_shape(at, index, ws, os, little), i), index[ws[i]], os[i], little).fits()
}

/// An element lies inside its table.
proof fn lemma_elem_bound(lay: Layout, b: int, j: int)
    requires
        lay.wf(),
        lay.at >= 0,
        0 <= b < lay.nb,
        0 <= j < lay.chain(b).len(),
    ensures
        lay.at <= lay.elem_start(b, j),
        lay.elem_start(b, j) + lay.elem_len(lay.chain(b)[j] as int) <= lay.at + lay.table_len(),
{
    let c = lay.chain(b);
    lemma_elems_len_take(lay, c, j);
    lemma_elems_len_take(lay, c, j + 1);
    lemma_elems_len_take(lay, c, c.len() as int);
    assert(c.take(c.len() as int) =~= c);
    lemma_buckets_len_mono(lay, 0, b);
    lemma_buckets_len_mono(lay, b + 1, lay.nb as int);
}

/// The characters of each string.
pub open spec fn string_seqs(v: Seq<String>) -> Seq<Seq<char>> {
    v.map_values(|w: String| w@)
}

/// The documents of each order.
pub open spec fn order_seqs(v: Seq<Vec<DocID>>) -> Seq<Seq<DocID>> {
    v.map_values(|o: Vec<DocID>| o@)
}

/// The position of each element's value in a table whose element positions
/// are `es` (per bucket and chain position).
fn value_positions(
    n: usize,
    chains: &Vec<Vec<usize>>,
    es: &Vec<Vec<u64>>,
    klens: &Vec<usize>,
    Ghost(lay): Ghost<Layout>,
) -> (vp: Vec<u64>)
    requires
        lay.wf(),
        lay.at >= 0,
        lay.n() == n,
        lay.nb == n,
        lay.fits(),
        chains@.len() == n,
        forall|b: int| 0 <= b < n ==> (#[trigger] chains@[b])@ == lay.chain(b),
        es@.len() == n,
        forall|b: int| 0 <= b < n ==> (#[trigger] es@[b])@.len() == lay.chain(b).len(),
        forall|b: int, j: int| 0 <= b < n && 0 <= j < lay.chain(b).len() ==> #[trigger] es@[b]@[j] == lay.elem_start(b, j),
        klens@.len() == n,
        forall|i: int| 0 <= i < n ==> #[trigger] klens@[i] == lay.keys[i].len(),
    ensures
        vp@.len() == n,
        forall|i: int| 0 <= i < n ==> #[trigger] vp@[i] == value_start(lay, i),
{
    let mut vp: Vec<u64> = Vec::new();
    let mut i: usize = 0;
    while i < n
        invariant
            i <= n,
            vp@.len() == i,
        decreases n - i,
    {
        vp.push(0);
        i = i + 1;
    }
    let mut b: usize = 0;
    while b < n
        invariant
            lay.wf(),
            lay.at >= 0,
            lay.n() == n,
            lay.nb == n,
            lay.fits(),
            chains@.len() == n,
            forall|c: int| 0 <= c < n ==> (#[trigger] chains@[c])@ == lay.chain(c),
            es@.len() == n,
            forall|c: int| 0 <= c < n ==> (#[trigger] es@[c])@.len() == lay.chain(c).len(),
            forall|c: int, j: int| 0 <= c < n && 0 <= j < lay.chain(c).len() ==> #[trigger] es@[c]@[j] == lay.elem_start(c, j),
            klens@.len() == n,
            forall|k: int| 0 <= k < n ==> #[trigger] klens@[k] == lay.keys[k].len(),
            b <= n,
            vp@.len() == n,
            forall|k: int| 0 <= k < n && lay.bucket_of(k) < b ==> #[trigger] vp@[k] == value_start(lay, k),
        decreases n - b,
    {
        let c: &Vec<usize> = &chains[b];
        let e: &Vec<u64> = &es[b];
        let mut j: usize = 0;
        proof {
            lemma_chain_elems(lay, b as int, lay.n());
        }
        while j < c.len()
            invariant
                lay.wf(),
                lay.at >= 0,
                lay.n() == n,
                lay.nb == n,
                lay.fits(),
                b < n,
                c@ == lay.chain(b as int),
                e@.len() == c@.len(),
                forall|k: int| 0 <= k < c@.len() ==> #[trigger] e@[k] == lay.elem_start(b as int, k),
                forall|k: int| 0 <= k < c@.len() ==> (#[trigger] c@[k]) < n,
                klens@.len() == n,
                forall|k: int| 0 <= k < n ==> #[trigger] klens@[k] == lay.keys[k].len(),
                j <= c@.len(),
                vp@.len() == n,
                forall|k: int| 0 <= k < n && (lay.bucket_of(k) < b || (lay.bucket_of(k) == b && 0 <= chain_index(lay, k) < j))
                    ==> #[trigger] vp@[k] == value_start(lay, k),
            decreases c@.len() - j,
        {
            let i: usize = c[j];
            proof {
                lemma_chain_index(lay, b as int, j as int);
                lemma_elem_bound(lay, b as int, j as int);
                assert(lay.elem_len(i as int) >= 16 + lay.keys[i as int].len());
            }
            let pos: u64 = e[j] + 16 + klens[i] as u64;
            let ghost old_vp = vp@;
            vp.set(i, pos);
            proof {
                assert forall|k: int| 0 <= k < n && (lay.bucket_of(k) < b || (lay.bucket_of(k) == b && 0 <= chain_index(lay, k) < j + 1))
                    implies #[trigger] vp@[k] == value_start(lay, k) by {
                    if k != i {
                        assert(vp@[k] == old_vp[k]);
                        if lay.bucket_of(k) == b && chain_index(lay, k) == j {
                            lemma_chain_complete(lay, k, lay.n());
                            assert(lay.chain(b as int)[j as int] == k as usize);
                        }
                    } else {
                        assert(vp@[k] == pos);
                    }
                }
            }
            j = j + 1;
        }
        proof {
            assert forall|k: int| 0 <= k < n && lay.bucket_of(k) < b + 1 implies #[trigger] vp@[k] == value_start(lay, k) by {
                if lay.bucket_of(k) == b {
                    lemma_chain_complete(lay, k, lay.n());
                    let jj = choose|jj: int| 0 <= jj < c@.len() && c@[jj] == k as usize;
                    lemma_chain_index(lay, b as int, jj);
                    assert(0 <= chain_index(lay, k) < c@.len());
                }
            }
        }
        b = b + 1;
    }
    proof {
        assert forall|k: int| 0 <= k < n implies #[trigger] vp@[k] == value_start(lay, k) by {
            assert(lay.bucket_of(k) < n);
        }
    }
    vp
}

impl MemIndex {
    /// For each word, in order: the hash of its key, its key bytes, the key's
    /// length, and the order of its documents.
    fn word_entries(&self) -> (r: (Vec<u64>, Vec<Vec<u8>>, Vec<usize>, Vec<Vec<DocID>>))
        requires
            self.wf(),
        ensures
            r.0@ == string_seqs(self.word_list@).map_values(|w: Seq<char>| str_hash(w)),
            byte_seqs(r.1@) == string_seqs(self.word_list@).map_values(|w: Seq<char>| str_image(w)),
            r.2@.len() == self.word_list@.len(),
            forall|i: int| 0 <= i < self.word_list@.len() ==> #[trigger] r.2@[i] == str_image(self.word_list@[i]@).len(),
            r.3@.len() == self.word_list@.len(),
            forall|i: int| 0 <= i < self.word_list@.len() ==> lists_once((#[trigger] r.3@[i])@, table_view(self.tables@[i]).dom()),
    {
        proof {
            self.lemma_reveal();
        }
        let n: usize = self.word_list.len();
        let mut hashes: Vec<u64> = Vec::new();
        let mut keys: Vec<Vec<u8>> = Vec::new();
        let mut klens: Vec<usize> = Vec::new();
        let mut orders: Vec<Vec<DocID>> = Vec::new();
        let mut i: usize = 0;
        while i < n
            invariant
                self.wf(),
                n == self.word_list@.len(),
                n == self.tables@.len(),
                i <= n,
                hashes@.len() == i,
                keys@.len() == i,
                klens@.len() == i,
                orders@.len() == i,
                forall|j: int| 0 <= j < i ==> #[trigger] hashes@[j] == str_hash(self.word_list@[j]@),
                forall|j: int| 0 <= j < i ==> (#[trigger] keys@[j])@ == str_image(self.word_list@[j]@),
                forall|j: int| 0 <= j < i ==> #[trigger] klens@[j] == str_image(self.word_list@[j]@).len(),
                forall|j: int| 0 <= j < i ==> lists_once((#[trigger] orders@[j])@, table_view(self.tables@[j]).dom()),
            decreases n - i,
        {
            let mut key: Vec<u8> = Vec::new();
            push_str(&mut key, self.word_list[i].as_str());
            hashes.push(hash_str(self.word_list[i].as_str()));
            klens.push(key.len());
            keys.push(key);
            orders.push(doc_order(&self.tables[i]));
            i = i + 1;
        }
        proof {
            let ws = string_seqs(self.word_list@);
            assert(hashes@ =~= ws.map_values(|w: Seq<char>| str_hash(w)));
            assert(byte_seqs(keys@) =~= ws.map_values(|w: Seq<char>| str_image(w)));
        }
        (hashes, keys, klens, orders)
    }

    /// The length of each word's table, or `None` when the positions of one
    /// would not fit in a word even at the start of a file.
    fn word_table_sizes(&self, orders: &Vec<Vec<DocID>>, little: bool) -> (r: Option<Vec<usize>>)
        requires
            self.wf(),
            orders@.len() == self.tables@.len(),
            forall|i: int| 0 <= i < self.tables@.len() ==> lists_once((#[trigger] orders@[i])@, table_view(self.tables@[i]).dom()),
        ensures
            r is Some <==> forall|i: int| 0 <= i < self.tables@.len() ==>
                #[trigger] word_table_layout(0, table_view(self.tables@[i]), orders@[i]@, little).fits(),
            r matches Some(sz) ==> {
                &&& sz@.len() == self.tables@.len()
                &&& forall|i: int| 0 <= i < self.tables@.len() ==>
                    #[trigger] sz@[i] == word_table_layout(0, table_view(self.tables@[i]), orders@[i]@, little).table_len()
            },
    {
        let n: usize = self.tables.len();
        let mut sz: Vec<usize> = Vec::new();
        let mut i: usize = 0;
        while i < n
            invariant
                n == self.tables@.len(),
                orders@.len() == n,
                forall|k: int| 0 <= k < n ==> lists_once((#[trigger] orders@[k])@, table_view(self.tables@[k]).dom()),
                i <= n,
                sz@.len() == i,
                forall|k: int| 0 <= k < i ==> #[trigger] word_table_layout(0, table_view(self.tables@[k]), orders@[k]@, little).fits(),
                forall|k: int| 0 <= k < i ==> #[trigger] sz@[k] == word_table_layout(0, table_view(self.tables@[k]), orders@[k]@, little).table_len(),
            decreases n - i,
        {
            let mut scratch: Vec<u8> = Vec::new();
            match write_word_table(&mut scratch, 0, &self.tables[i], &orders[i], little) {
                None => {
                    return None;
                }
                Some(_) => {
                    proof {
                        lemma_image_len(word_table_layout(0, table_view(self.tables@[i as int]), orders@[i as int]@, little));
                    }
                    sz.push(scratch.len());
                }
            }
            i = i + 1;
        }
        Some(sz)
    }

    /// The words and document orders in which the index is written name
    /// every word and every document of a word once.
    proof fn lemma_orders(&self, orders: Seq<Vec<DocID>>)
        requires
            self.wf(),
            orders.len() == self.tables@.len(),
            forall|i: int| 0 <= i < self.tables@.len() ==> lists_once((#[trigger] orders[i])@, table_view(self.tables@[i]).dom()),
        ensures
            index_orders(self@.index, string_seqs(self.word_list@), order_seqs(orders)),
            forall|i: int| 0 <= i < self.word_list@.len() ==>
                self@.index[#[trigger] string_seqs(self.word_list@)[i]] == table_view(self.tables@[i]),
    {
        self.lemma_reveal();
        let ws = string_seqs(self.word_list@);
        assert forall|i: int| 0 <= i < ws.len() implies self@.index[#[trigger] ws[i]] == table_view(self.tables@[i]) by {
            assert(self.words@.contains_key(self.word_list@[i]@));
        }
        assert forall|i: int, j: int| 0 <= i < ws.len() && 0 <= j < ws.len() && i != j implies ws[i] != ws[j] by {
            assert(self.words@[self.word_list@[i]@] == i);
            assert(self.words@[self.word_list@[j]@] == j);
        }
        assert forall|w: Seq<char>| #[trigger] self@.index.dom().contains(w) <==> ws.contains(w) by {
            if self@.index.dom().contains(w) {
                let k = self.words@[w] as int;
                assert(ws[k] == w);
            }
            if ws.contains(w) {
                let k = choose|k: int| 0 <= k < ws.len() && ws[k] == w;
                assert(self.words@.contains_key(self.word_list@[k]@));
            }
        }
        assert forall|i: int| 0 <= i < ws.len() implies lists_once(#[trigger] order_seqs(orders)[i], self@.index[ws[i]].dom()) by {
            assert(self.words@.contains_key(self.word_list@[i]@));
        }
    }

    /// The table of each word written at its position `vpos[i]`, or `None`
    /// when the positions of one do not fit in a word.
    fn word_table_values(&self, orders: &Vec<Vec<DocID>>, vpos: &Vec<u64>, little: bool) -> (r: Option<Vec<Vec<u8>>>)
        requires
            orders@.len() == self.tables@.len(),
            vpos@.len() == self.tables@.len(),
            forall|i: int| 0 <= i < self.tables@.len() ==> lists_once((#[trigger] orders@[i])@, table_view(self.tables@[i]).dom()),
        ensures
            r is Some <==> forall|i: int| 0 <= i < self.tables@.len() ==>
                #[trigger] word_table_layout(vpos@[i] as int, table_view(self.tables@[i]), orders@[i]@, little).fits(),
            r matches Some(vals) ==> {
                &&& vals@.len() == self.tables@.len()
                &&& forall|i: int| 0 <= i < self.tables@.len() ==>
                    (#[trigger] vals@[i])@ == word_table_layout(vpos@[i] as int, table_view(self.tables@[i]), orders@[i]@, little).image()
            },
    {
        let n: usize = self.tables.len();
        let mut vals: Vec<Vec<u8>> = Vec::new();
        let mut i: usize = 0;
        while i < n
            invariant
                n == self.tables@.len(),
                orders@.len() == n,
                vpos@.len() == n,
                forall|k: int| 0 <= k < n ==> lists_once((#[trigger] orders@[k])@, table_view(self.tables@[k]).dom()),
                i <= n,
                vals@.len() == i,
                forall|k: int| 0 <= k < i ==> #[trigger] word_table_layout(vpos@[k] as int, table_view(self.tables@[k]), orders@[k]@, little).fits(),
                forall|k: int| 0 <= k < i ==>
                    (#[trigger] vals@[k])@ == word_table_layout(vpos@[k] as int, table_view(self.tables@[k]), orders@[k]@, little).image(),
            decreases n - i,
        {
            let mut buf: Vec<u8> = Vec::new();
            let w = write_word_table(&mut buf, vpos[i], &self.tables[i], &orders[i], little);
            if w.is_none() {
                return None;
            }
            vals.push(buf);
            i = i + 1;
        }
        Some(vals)
    }

    /// Writes the word index at the end of `file` (the position where
    /// writing continues): a hash table from each word to the table of that
    /// word. Returns the number of bytes written, or `None` (writing nothing)
    /// when a position of the index does not fit in a word. Words and the
    /// documents of a word are written in some order that names each once;
    /// the buckets of document numbers follow the machine's byte order.
    #[verifier::spinoff_prover]
    #[verifier::rlimit(60)]
    pub fn write_index_table(&self, file: &mut Vec<u8>) -> (r: Option<u64>)
        requires
            self.wf(),
        ensures
            exists|ws: Seq<Seq<char>>, os: Seq<Seq<DocID>>, little: bool|
                #[trigger] index_written(r, old(file)@, final(file)@, self@.index, ws, os, little),
    {
        proof {
            self.lemma_reveal();
        }
        let at: u64 = file.len() as u64;
        let n: usize = self.word_list.len();
        let little: bool = little_endian();
        let (hashes, keys, klens, orders) = self.word_entries();
        let ghost ws = string_seqs(self.word_list@);
        let ghost os = order_seqs(orders@);
        let ghost index = self@.index;
        let ghost shape = index_shape(at as int, index, ws, os, little);
        proof {
            self.lemma_orders(orders@);
        }
        let sizes = match self.word_table_sizes(&orders, little) {
            None => {
                proof {
                    let i = choose|i: int| 0 <= i < n && !word_table_layout(0, table_view(self.tables@[i]), orders@[i]@, little).fits();
                    assert(index[ws[i]] == table_view(self.tables@[i]));
                    lemma_shape_too_long(shape, i);
                    assert(index_written(None, file@, file@, index, ws, os, little));
                }
                return None;
            }
            Some(sz) => sz,
        };
        proof {
            assert(shape.hashes == hashes@);
            assert forall|i: int| 0 <= i < n implies #[trigger] klens@[i] == shape.keys[i].len() by {}
            assert forall|i: int| 0 <= i < n implies #[trigger] sizes@[i] == shape.vals[i].len() by {
                assert(index[ws[i]] == table_view(self.tables@[i]));
            }
        }
        let chains = build_chains(&hashes, n, Ghost(shape));
        let plan = plan_table(at, n, &chains, &klens, &sizes, Ghost(shape));
        let (_bs, es, _end) = match plan {
            None => {
                proof {
                    assert(index_written(None, file@, file@, index, ws, os, little));
                }
                return None;
            }
            Some(p) => p,
        };
        let vpos = value_positions(n, &chains, &es, &klens, Ghost(shape));
        let vals = match self.word_table_values(&orders, &vpos, little) {
            None => {
                proof {
                    let i = choose|i: int| 0 <= i < n && !word_table_layout(vpos@[i] as int, table_view(self.tables@[i]), orders@[i]@, little).fits();
                    assert(index[ws[i]] == table_view(self.tables@[i]));
                    assert(!word_table_layout(value_start(shape, i), index[ws[i]], os[i], little).fits());
                    assert(index_written(None, file@, file@, index, ws, os, little));
                }
                return None;
            }
            Some(v) => v,
        };
        let ghost before = file@;
        let r = write_hashtable(file, at, n, &hashes, &keys, &vals);
        proof {
            assert forall|k: int| 0 <= k < n implies (#[trigger] os[k]).len() <= usize::MAX by {
                assert(orders@[k].len() == orders@[k]@.len());
            }
            lemma_index_values(at as int, index, ws, os, hashes@, keys@, vals@, shape, little);
            assert forall|k: int| 0 <= k < n implies #[trigger] word_table_layout(value_start(shape, k), index[ws[k]], os[k], little).fits() by {
                assert(index[ws[k]] == table_view(self.tables@[k]));
                assert(vpos@[k] as int == value_start(shape, k));
                assert(os[k] == orders@[k]@);
                assert(word_table_layout(vpos@[k] as int, table_view(self.tables@[k]), orders@[k]@, little).fits());
            }
            assert(index_written(r, before, file@, index, ws, os, little));
        }
        r
    }
}

/// What writing the word index gives, for the word order `ws` and the
/// document orders `os`: the orders name every word and document once; the
/// write succeeds exactly when the index fits; on success the index's bytes
/// are appended and their number returned, otherwise nothing is written.
pub open spec fn index_written(
    r: Option<u64>,
    before: Seq<u8>,
    after: Seq<u8>,
    index: Map<Seq<char>, WordTable>,
    ws: Seq<Seq<char>>,
    os: Seq<Seq<DocID>>,
    little: bool,
) -> bool {
    &&& index_orders(index, ws, os)
    &&& (r is Some <==> index_fits(before.len() as int, index, ws, os, little))
    &&& (r matches Some(n) ==> {
        &&& after == before + index_layout(before.len() as int, index, ws, os, little).image()
        &&& n == index_layout(before.len() as int, index, ws, os, little).table_len()
    })
    &&& (r is None ==> after == before)
}

/// With the values written, the table is the index's layout, which has the
/// positions of its shape.
proof fn lemma_index_values(
    at: int,
    index: Map<Seq<char>, WordTable>,
    ws: Seq<Seq<char>>,
    os: Seq<Seq<DocID>>,
    hashes: Seq<u64>,
    keys: Seq<Vec<u8>>,
    vals: Seq<Vec<u8>>,
    shape: Layout,
    little: bool,
)
    requires
        0 <= at <= u64::MAX,
        shape == index_shape(at, index, ws, os, little),
        shape.wf(),
        hashes == shape.hashes,
        byte_seqs(keys) == shape.keys,
        vals.len() == ws.len(),
        os.len() == ws.len(),
        forall|k: int| 0 <= k < ws.len() ==> (#[trigger] os[k]).len() <= usize::MAX,
        forall|k: int| 0 <= k < ws.len() ==> (#[trigger] vals[k])@ == word_table_layout(value_start(shape, k), index[ws[k]], os[k], little).image(),
    ensures
        layout_of(at as u64, ws.len() as usize, hashes, keys, vals) == index_layout(at, index, ws, os, little),
        index_layout(at, index, ws, os, little).fits() == shape.fits(),
        index_layout(at, index, ws, os, little).table_len() == shape.table_len(),
{
    let full = index_layout(at, index, ws, os, little);
    let l2 = layout_of(at as u64, ws.len() as usize, hashes, keys, vals);
    assert(byte_seqs(vals) =~= full.vals);
    assert(l2 == full);
    assert forall|k: int| 0 <= k < ws.len() implies (#[trigger] full.vals[k]).len() == shape.vals[k].len() by {
        let wl = word_table_layout(value_start(shape, k), index[ws[k]], os[k], little);
        let w0 = word_table_layout(0, index[ws[k]], os[k], little);
        lemma_image_len(wl);
        lemma_same_shape(wl, w0);
    }
    lemma_same_shape(shape, full);
}

/// A word table too long to fit anywhere makes the index too long.
proof fn lemma_shape_too_long(shape: Layout, i: int)
    requires
        shape.wf(),
        shape.at >= 0,
        0 <= i < shape.n(),
        shape.vals[i].len() > u64::MAX,
    ensures
        !shape.fits(),
{
    lemma_chain_complete(shape, i, shape.n());
    let b = shape.bucket_of(i);
    let j = choose|j: int| 0 <= j < shape.chain(b).len() && shape.chain(b)[j] == i as usize;
    lemma_elem_bound(shape, b, j);
}

/// An index file: the header, the document table section right after it,
/// and the word index right after that, for the word order `ws` and the
/// document orders `os`.
pub open spec fn index_file_image(docs: Seq<Seq<char>>, index: Map<Seq<char>, WordTable>, ws: Seq<Seq<char>>, os: Seq<Seq<DocID>>, little: bool, ph: Seq<u64>) -> Seq<u8> {
    let d = doc_section_image(16, docs, ph);
    file_header() + d + index_layout(16 + d.len() as int, index, ws, os, little).image()
}

/// Every position of an index file fits in a word.
pub open spec fn index_file_fits(docs: Seq<Seq<char>>, index: Map<Seq<char>, WordTable>, ws: Seq<Seq<char>>, os: Seq<Seq<DocID>>, little: bool, ph: Seq<u64>) -> bool {
    &&& doc_section_fits(16, docs, ph)
    &&& index_fits(16 + doc_section_image(16, docs, ph).len() as int, index, ws, os, little)
}

/// What writing the document table and then the word index at the end of
/// `before` gives, for the word order `ws` and the document orders `os`.
pub open spec fn file_written(
    r: Option<u64>,
    before: Seq<u8>,
    after: Seq<u8>,
    docs: Seq<Seq<char>>,
    index: Map<Seq<char>, WordTable>,
    ws: Seq<Seq<char>>,
    os: Seq<Seq<DocID>>,
    little: bool,
    ph: Seq<u64>,
) -> bool {
    let at = before.len() as int;
    let d = doc_section_image(at, docs, ph);
    &&& index_orders(index, ws, os)
    &&& (r is Some <==> doc_section_fits(at, docs, ph) && index_fits(at + d.len(), index, ws, os, little))
    &&& (r matches Some(n) ==> {
        &&& after == before + d + index_layout(at + d.len(), index, ws, os, little).image()
        &&& n == after.len() - before.len()
    })
    &&& (!doc_section_fits(at, docs, ph) ==> after == before)
    &&& (doc_section_fits(at, docs, ph) && !index_fits(at + d.len(), index, ws, os, little) ==> after == before + d)
}

impl MemIndex {
    /// Writes the document table and then the word index at the end of
    /// `file`. Returns the number of bytes written, or `None` when a
    /// position does not fit in a word; then nothing is written if the
    /// document table does not fit, and the document table alone if the word
    /// index does not. Words and the documents of a word are written in some
    /// order that names each once; the buckets of document numbers follow the
    /// machine's byte order.
    #[verifier::spinoff_prover]
    pub fn write_to_file(&self, file: &mut Vec<u8>) -> (r: Option<u64>)
        requires
            self.wf(),
        ensures
            exists|ws: Seq<Seq<char>>, os: Seq<Seq<DocID>>, little: bool, ph: Seq<u64>|
                ph.len() == self@.docs.len()
                    && #[trigger] file_written(r, old(file)@, final(file)@, self@.docs, self@.index, ws, os, little, ph),
    {
        proof {
            self.lemma_reveal();
        }
        let ghost before = file@;
        let start_len: usize = file.len();
        let d = self.doctable.write_to_file(file);
        let ghost ph = choose|ph: Seq<u64>| ph.len() == self@.docs.len() && #[trigger] doc_written(d, before, file@, self@.docs, ph);
        match d {
            None => {
                let (_h, _k, _l, orders) = self.word_entries();
                proof {
                    self.lemma_orders(orders@);
                    let ws = string_seqs(self.word_list@);
                    let os = order_seqs(orders@);
                    assert(file_written(None, before, file@, self@.docs, self@.index, ws, os, true, ph));
                }
                None
            }
            Some(_dn) => {
                let ghost mid = file@;
                let i = self.write_index_table(file);
                let ghost (ws, os, little) = choose|ws: Seq<Seq<char>>, os: Seq<Seq<DocID>>, little: bool|
                    #[trigger] index_written(i, mid, file@, self@.index, ws, os, little);
                match i {
                    None => {
                        proof {
                            assert(file_written(None, before, file@, self@.docs, self@.index, ws, os, little, ph));
                        }
                        None
                    }
                    Some(_n) => {
                        let total: u64 = (file.len() - start_len) as u64;
                        proof {
                            assert(file@ =~= before + doc_section_image(before.len() as int, self@.docs, ph)
                                + index_layout(before.len() + doc_section_image(before.len() as int, self@.docs, ph).len() as int, self@.index, ws, os, little).image());
                            assert(file_written(Some(total), before, file@, self@.docs, self@.index, ws, os, little, ph));
                        }
                        Some(total)
                    }
                }
            }
        }
    }

    /// The bytes of an index file for this index: the header, the document
    /// table and the word index; `None` when a position does not fit in a
    /// word. Words and the documents of a word are written in some order that
    /// names each once; the buckets of document numbers follow the machine's
    /// byte order, and those of paths their hash as paths. The file passes
    /// the reader's header check.
    #[verifier::spinoff_prover]
    #[verifier::rlimit(30)]
    pub fn marshal(&self) -> (r: Option<Vec<u8>>)
        requires
            self.wf(),
        ensures
            r matches Some(b) ==> header_ok(b@),
            exists|ws: Seq<Seq<char>>, os: Seq<Seq<DocID>>, little: bool, ph: Seq<u64>| {
                &&& ph.len() == self@.docs.len()
                &&& index_orders(self@.index, ws, os)
                &&& (r is Some <==> #[trigger] index_file_fits(self@.docs, self@.index, ws, os, little, ph))
                &&& (r matches Some(b) ==> b@ == index_file_image(self@.docs, self@.index, ws, os, little, ph))
            },
    {
        let mut file: Vec<u8> = Vec::new();
        push_be8(&mut file, CANARY);
        push_be8(&mut file, CHECKSUM);
        let ghost before = file@;
        let w = self.write_to_file(&mut file);
        let ghost (ws, os, little, ph) = choose|ws: Seq<Seq<char>>, os: Seq<Seq<DocID>>, little: bool, ph: Seq<u64>|
            ph.len() == self@.docs.len() && #[trigger] file_written(w, before, file@, self@.docs, self@.index, ws, os, little, ph);
        proof {
            assert(before =~= file_header());
            assert(index_orders(self@.index, ws, os));
            assert(before.len() == 16);
            assert(index_file_fits(self@.docs, self@.index, ws, os, little, ph) == (w is Some));
            if w is Some {
                law_index_file_accepted(self@.docs, self@.index, ws, os, little, ph);
            }
        }
        match w {
            None => None,
            Some(_) => Some(file),
        }
    }
}

/// Every index file that the marshaller produces passes the reader's header
/// check, and so do its first 16 bytes, which are what the reader checks.
#[verifier::spinoff_prover]
pub proof fn law_index_file_accepted(
    docs: Seq<Seq<char>>,
    index: Map<Seq<char>, WordTable>,
    ws: Seq<Seq<char>>,
    os: Seq<Seq<DocID>>,
    little: bool,
    ph: Seq<u64>,
)
    ensures
        header_ok(index_file_image(docs, index, ws, os, little, ph)),
        header_ok(index_file_image(docs, index, ws, os, little, ph).subrange(0, 16)),
{
    let b = index_file_image(docs, index, ws, os, little, ph);
    let d = doc_section_image(16, docs, ph);
    assert(b == file_header() + (d + index_layout(16 + d.len() as int, index, ws, os, little).image()));
    assert(b.subrange(0, 16) =~= file_header());
    law_header_accepted(b);
    assert(b.subrange(0, 16).subrange(0, 8) =~= b.subrange(0, 8));
    assert(b.subrange(0, 16).subrange(8, 16) =~= b.subrange(8, 16));
}

} // verus!
