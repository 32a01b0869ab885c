//! Content-addressed storage for effect payloads.
//!
//! A trace stays small: a line per effect, each naming its payloads by
//! digest. The payloads, large and mostly repeated across branches, are here.

use crate::hash::{blake3_hex, Digest};
use crate::model::viewed;
use crate::text::{cut, cut_at, ends_at, lemma_fitting, strip_prefix};
use vstd::prelude::*;

verus! {

/// Why a store could not be read or written.
#[derive(Debug, PartialEq, Eq)]
pub struct StoreError {
    pub message: String,
}

/// Which bytes each digest finds.
pub type Contents = Map<Seq<char>, Seq<u8>>;

/// The bytes a digest finds in a store, if any.
pub open spec fn found(contents: Contents, digest: Seq<char>) -> Option<Seq<u8>> {
    if contents.dom().contains(digest) {
        Some(contents[digest])
    } else {
        None
    }
}

/// A store's contents once some bytes are put into it: what is already there
/// under their digest stays.
pub open spec fn stored(contents: Contents, bytes: Seq<u8>) -> Contents {
    if contents.dom().contains(blake3_hex(bytes)) {
        contents
    } else {
        contents.insert(blake3_hex(bytes), bytes)
    }
}

/// Whether a store finds everything that another finds, and the same.
pub open spec fn keeps(before: Contents, after: Contents) -> bool {
    forall|d: Seq<char>|
        #[trigger] before.dom().contains(d) ==> after.dom().contains(d) && after[d] == before[d]
}

/// A content-addressed blob store.
pub trait Cas: Sized {
    /// What can be read from the store.
    spec fn contents(&self) -> Contents;

    /// Whether every read and every write succeeds.
    spec fn works(&self) -> bool;

    /// Store bytes, returning their digest. Storing the same bytes twice is a
    /// no-op that returns the same digest.
    fn put(&mut self, bytes: &[u8]) -> (r: Result<Digest, StoreError>)
        ensures
            final(self).works() == old(self).works(),
            old(self).works() ==> r is Ok,
            r is Ok ==> r->Ok_0@ == blake3_hex(bytes@),
            old(self).works() ==> final(self).contents() == stored(old(self).contents(), bytes@),
            keeps(old(self).contents(), final(self).contents()),
    ;

    /// Retrieve bytes by digest.
    fn get(&self, digest: &Digest) -> (r: Result<Option<Vec<u8>>, StoreError>)
        ensures
            self.works() ==> r is Ok,
            r is Ok ==> viewed(r->Ok_0) == found(self.contents(), digest@),
            r is Err ==> found(self.contents(), digest@) is None,
    ;

    /// Whether the store holds this digest.
    fn has(&self, digest: &Digest) -> (r: bool)
        ensures
            r == self.contents().dom().contains(digest@),
    {
        match self.get(digest) {
            Ok(Some(_)) => true,
            _ => false,
        }
    }
}

/// What can be read under a digest, a failed read counting as nothing.
pub fn fetch<C: Cas>(cas: &C, digest: &Digest) -> (r: Option<Vec<u8>>)
    ensures
        viewed(r) == found(cas.contents(), digest@),
{
    match cas.get(digest) {
        Ok(found) => found,
        Err(_) => None,
    }
}

/// Putting bytes into a store loses nothing.
pub proof fn lemma_stored_keeps(contents: Contents, bytes: Seq<u8>)
    ensures
        keeps(contents, stored(contents, bytes)),
{
}

/// Putting the same bytes again changes nothing.
pub proof fn lemma_stored_twice(contents: Contents, bytes: Seq<u8>)
    ensures
        stored(stored(contents, bytes), bytes) == stored(contents, bytes),
{
}

/// Where a store on disk keeps a digest: a directory named by its first two
/// bytes, and a file named by the rest. One directory would hold too much.
pub open spec fn shelved(hex: Seq<char>) -> (Seq<char>, Seq<char>) {
    (cut(hex, 2), hex.skip(cut(hex, 2).len() as int))
}

/// Where a store on disk keeps a digest.
pub fn shelf(digest: &Digest) -> (r: (String, String))
    requires
        ends_at(digest@, 2),
    ensures
        (r.0@, r.1@) == shelved(digest@),
{
    let head = cut_at(digest.as_str(), 2);
    proof {
        lemma_fitting(digest@, 2);
        assert(digest@.take(head@.len() as int) =~= head@);
    }
    match strip_prefix(digest.as_str(), head) {
        Some(rest) => (head.to_owned(), rest),
        None => (head.to_owned(), "".to_owned()),
    }
}

/// No two digests are kept in the same place.
pub proof fn lemma_shelved_apart(a: Seq<char>, b: Seq<char>)
    requires
        shelved(a) == shelved(b),
    ensures
        a == b,
{
    lemma_fitting(a, 2);
    lemma_fitting(b, 2);
    assert(a =~= shelved(a).0 + shelved(a).1);
    assert(b =~= shelved(b).0 + shelved(b).1);
}

/// In-memory store.
#[derive(Debug)]
pub struct MemCas {
    objects: Vec<(Digest, Vec<u8>)>,
}

/// The digests of some objects.
pub closed spec fn names(objects: Seq<(Digest, Vec<u8>)>) -> Seq<Seq<char>> {
    Seq::new(objects.len(), |i: int| objects[i].0@)
}

/// Where an object stands.
pub closed spec fn place(objects: Seq<(Digest, Vec<u8>)>, digest: Seq<char>) -> int {
    choose|i: int| 0 <= i < objects.len() && (#[trigger] objects[i]).0@ == digest
}

/// What some objects hold under each digest.
pub closed spec fn held(objects: Seq<(Digest, Vec<u8>)>) -> Contents {
    Map::new(
        |d: Seq<char>| names(objects).contains(d),
        |d: Seq<char>| objects[place(objects, d)].1@,
    )
}

/// How many bytes some objects hold.
pub closed spec fn volume(objects: Seq<(Digest, Vec<u8>)>) -> nat
    decreases objects.len(),
{
    if objects.len() == 0 {
        0
    } else {
        volume(objects.drop_last()) + objects.last().1@.len()
    }
}

proof fn lemma_held(objects: Seq<(Digest, Vec<u8>)>, i: int)
    requires
        names(objects).no_duplicates(),
        0 <= i < objects.len(),
    ensures
        held(objects).dom().contains(objects[i].0@),
        held(objects)[objects[i].0@] == objects[i].1@,
{
    let d = objects[i].0@;
    assert(names(objects)[i] == d);
    let j = place(objects, d);
    assert(0 <= j < objects.len() && objects[j].0@ == d);
    assert(names(objects)[j] == d);
}

impl MemCas {
    #[verifier::type_invariant]
    spec fn well_formed(self) -> bool {
        names(self.objects@).no_duplicates()
    }

    /// How many bytes the store holds.
    pub closed spec fn total(&self) -> nat {
        volume(self.objects@)
    }

    /// An empty store.
    pub fn new() -> (r: Self)
        ensures
            r.contents() == Map::<Seq<char>, Seq<u8>>::empty(),
            r.total() == 0,
            r.works(),
    {
        let objects: Vec<(Digest, Vec<u8>)> = Vec::new();
        assert(names(objects@) =~= seq![]);
        let r = MemCas { objects };
        assert(r.contents() =~= Map::<Seq<char>, Seq<u8>>::empty());
        r
    }

    /// Number of distinct objects held.
    pub fn len(&self) -> (r: usize)
        ensures
            self.contents().dom().finite(),
            r == self.contents().dom().len(),
    {
        proof {
            use_type_invariant(self);
            let keys = names(self.objects@);
            assert(self.contents().dom() =~= keys.to_set());
            keys.unique_seq_to_set();
            keys.lemma_cardinality_of_set();
        }
        self.objects.len()
    }

    /// Whether nothing is held.
    pub fn is_empty(&self) -> (r: bool)
        ensures
            r == (self.contents() == Map::<Seq<char>, Seq<u8>>::empty()),
    {
        proof {
            use_type_invariant(self);
            if self.objects@.len() == 0 {
                assert(self.contents() =~= Map::<Seq<char>, Seq<u8>>::empty());
            } else {
                lemma_held(self.objects@, 0);
            }
        }
        self.objects.is_empty()
    }

    /// Total bytes held, as far as the machine can count.
    pub fn bytes(&self) -> (r: usize)
        ensures
            r == if self.total() < usize::MAX {
                self.total()
            } else {
                usize::MAX as nat
            },
    {
        let mut sum: usize = 0;
        let mut i: usize = 0;
        while i < self.objects.len()
            invariant
                i <= self.objects@.len(),
                sum == if volume(self.objects@.take(i as int)) < usize::MAX {
                    volume(self.objects@.take(i as int))
                } else {
                    usize::MAX as nat
                },
            decreases self.objects@.len() - i,
        {
            assert(self.objects@.take(i + 1).drop_last() =~= self.objects@.take(i as int));
            let n: usize = self.objects[i].1.len();
            if n <= usize::MAX - sum {
                sum += n;
            } else {
                sum = usize::MAX;
            }
            i += 1;
        }
        assert(self.objects@.take(i as int) =~= self.objects@);
        sum
    }

    /// Every stored object.
    pub fn iter(&self) -> (r: Vec<(&Digest, &Vec<u8>)>)
        ensures
            forall|i: int|
                0 <= i < r@.len() ==> found(self.contents(), (#[trigger] r@[i]).0@) == Some(
                    r@[i].1@,
                ),
            forall|d: Seq<char>|
                #[trigger] self.contents().dom().contains(d) ==> exists|i: int|
                    0 <= i < r@.len() && (#[trigger] r@[i]).0@ == d,
            forall|i: int, j: int| 0 <= i < j < r@.len() ==> r@[i].0@ != r@[j].0@,
    {
        proof {
            use_type_invariant(self);
        }
        let mut out: Vec<(&Digest, &Vec<u8>)> = Vec::new();
        let mut i: usize = 0;
        while i < self.objects.len()
            invariant
                i <= self.objects@.len(),
                out@.len() == i,
                forall|j: int|
                    0 <= j < i ==> *(#[trigger] out@[j]).0 == self.objects@[j].0 && *out@[j].1
                        == self.objects@[j].1,
            decreases self.objects@.len() - i,
        {
            let object = &self.objects[i];
            out.push((&object.0, &object.1));
            i += 1;
        }
        proof {
            assert forall|i: int| 0 <= i < out@.len() implies found(
                self.contents(),
                (#[trigger] out@[i]).0@,
            ) == Some(out@[i].1@) by {
                lemma_held(self.objects@, i);
            }
            assert forall|d: Seq<char>| #[trigger]
                self.contents().dom().contains(d) implies exists|i: int|
                0 <= i < out@.len() && (#[trigger] out@[i]).0@ == d by {
                let i = choose|i: int|
                    0 <= i < names(self.objects@).len() && names(self.objects@)[i] == d;
                assert(out@[i].0@ == d);
            }
            assert forall|i: int, j: int| 0 <= i < j < out@.len() implies out@[i].0@
                != out@[j].0@ by {
                assert(names(self.objects@)[i] != names(self.objects@)[j]);
            }
        }
        out
    }

    /// Where an object stands, if it is held.
    fn find(&self, digest: &Digest) -> (r: Option<usize>)
        ensures
            match r {
                Some(i) => i < self.objects@.len() && self.objects@[i as int].0@ == digest@,
                None => !names(self.objects@).contains(digest@),
            },
    {
        let mut i: usize = 0;
        while i < self.objects.len()
            invariant
                i <= self.objects@.len(),
                forall|j: int| 0 <= j < i ==> (#[trigger] names(self.objects@)[j]) != digest@,
            decreases self.objects@.len() - i,
        {
            if self.objects[i].0.same(digest) {
                return Some(i);
            }
            i += 1;
        }
        None
    }
}

/// A copy of some bytes.
pub fn copy_bytes(bytes: &[u8]) -> (r: Vec<u8>)
    ensures
        r@ == bytes@,
{
    let mut out: Vec<u8> = Vec::new();
    let mut i: usize = 0;
    while i < bytes.len()
        invariant
            i <= bytes@.len(),
            out@ == bytes@.take(i as int),
        decreases bytes@.len() - i,
    {
        out.push(bytes[i]);
        assert(bytes@.take(i + 1) =~= bytes@.take(i as int).push(bytes@[i as int]));
        i += 1;
    }
    assert(bytes@.take(i as int) =~= bytes@);
    out
}

impl Cas for MemCas {
    closed spec fn contents(&self) -> Contents {
        held(self.objects@)
    }

    open spec fn works(&self) -> bool {
        true
    }

    fn put(&mut self, bytes: &[u8]) -> (r: Result<Digest, StoreError>)
        ensures
            final(self).total() == if found(old(self).contents(), blake3_hex(bytes@)) is Some {
                old(self).total()
            } else {
                old(self).total() + bytes@.len()
            },
    {
        proof {
            use_type_invariant(&*self);
        }
        let digest = Digest::of(bytes);
        match self.find(&digest) {
            Some(i) => {
                proof {
                    lemma_held(self.objects@, i as int);
                }
            },
            None => {
                let ghost before = self.objects@;
                let mut objects: Vec<(Digest, Vec<u8>)> = Vec::new();
                assert(names(objects@) =~= seq![]);
                std::mem::swap(&mut objects, &mut self.objects);
                objects.push((digest.clone(), copy_bytes(bytes)));
                proof {
                    let after = objects@;
                    assert(after.drop_last() =~= before);
                    assert(names(after) =~= names(before).push(digest@));
                    assert forall|i: int, j: int| 0 <= i < j < after.len() implies names(after)[i]
                        != names(after)[j] by {
                        if j < before.len() {
                            assert(names(before)[i] != names(before)[j]);
                        } else {
                            assert(names(before).contains(names(before)[i]));
                        }
                    }
                    lemma_held(after, before.len() as int);
                    assert(held(after) =~= held(before).insert(digest@, bytes@)) by {
                        assert forall|d: Seq<char>| held(after).dom().contains(d) <==> held(
                            before,
                        ).insert(digest@, bytes@).dom().contains(d) by {
                            if names(before).contains(d) {
                                let i = choose|i: int|
                                    0 <= i < names(before).len() && names(before)[i] == d;
                                assert(names(after)[i] == d);
                            }
                            if names(after).contains(d) {
                                let i = choose|i: int|
                                    0 <= i < names(after).len() && names(after)[i] == d;
                                if i < before.len() {
                                    assert(names(before)[i] == d);
                                }
                            }
                        }
                        assert forall|d: Seq<char>| held(after).dom().contains(d) implies held(
                            after,
                        )[d] == held(before).insert(digest@, bytes@)[d] by {
                            if d != digest@ {
                                let i = choose|i: int|
                                    0 <= i < names(before).len() && names(before)[i] == d;
                                assert(after[i] == before[i]);
                                lemma_held(before, i);
                                lemma_held(after, i);
                            }
                        }
                    }
                }
                self.objects = objects;
            },
        }
        Ok(digest)
    }

    fn get(&self, digest: &Digest) -> (r: Result<Option<Vec<u8>>, StoreError>) {
        proof {
            use_type_invariant(self);
        }
        match self.find(digest) {
            Some(i) => {
                proof {
                    lemma_held(self.objects@, i as int);
                }
                Ok(Some(copy_bytes(self.objects[i].1.as_slice())))
            },
            None => Ok(None),
        }
    }
}

impl Default for MemCas {
    fn default() -> (r: Self)
        ensures
            r.contents() == Map::<Seq<char>, Seq<u8>>::empty(),
            r.works(),
    {
        MemCas::new()
    }
}

} // verus!
