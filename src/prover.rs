use crate::error::FriError;
use crate::finite_field::{be_value, reduce, Field, FieldElement};
use sha2::Digest;
use vstd::prelude::*;

verus! {

/// The text that `serde_json::to_string` makes of a list of byte strings.
pub uninterp spec fn json_of(objects: Seq<Seq<u8>>) -> Seq<char>;

/// What `serde_json::from_str` reads from a text as a list of byte strings,
/// or `None` where it fails.
pub uninterp spec fn byte_lists_of_json(text: Seq<char>) -> Option<Seq<Seq<u8>>>;

/// The SHA-256 digest of the UTF-8 encoding of a text.
pub uninterp spec fn sha256_of(text: Seq<char>) -> Seq<u8>;

/// Relies on `serde_json::to_string` on a `Vec<Vec<u8>>`: a JSON array of
/// arrays of numbers. Its documentation names the only failures (a
/// `Serialize` impl that fails, a map with non-string keys); a list of byte
/// strings has neither.
#[verifier::external_body]
fn json_text(objects: &Vec<Vec<u8>>) -> (r: String)
    ensures
        r@ == json_of(byte_lists(objects@)),
{
    match serde_json::to_string(objects) {
        Ok(s) => s,
        Err(_) => String::new(),
    }
}

/// Relies on `serde_json::from_str` read as a `Vec<Vec<u8>>`; its error is
/// dropped.
#[verifier::external_body]
fn parse_json(text: &str) -> (r: Option<Vec<Vec<u8>>>)
    ensures
        r is None <==> byte_lists_of_json(text@) is None,
        r matches Some(v) ==> byte_lists_of_json(text@) == Some(byte_lists(v@)),
{
    serde_json::from_str::<Vec<Vec<u8>>>(text).ok()
}

/// Relies on `sha2::Sha256::digest` over the bytes of `text`.
#[verifier::external_body]
fn sha256_text(text: &String) -> (r: Vec<u8>)
    ensures
        r@ == sha256_of(text@),
{
    sha2::Sha256::digest(text.as_bytes()).to_vec()
}

/// Relies on `rand::random` for a `usize` from the thread's generator;
/// nothing is known of the value.
#[verifier::external_body]
fn random_usize() -> usize {
    rand::random::<usize>()
}

/// The contents of a list of byte vectors.
pub open spec fn byte_lists(v: Seq<Vec<u8>>) -> Seq<Seq<u8>> {
    v.map_values(|o: Vec<u8>| o@)
}

/// The challenge that a transcript log yields: its JSON text hashed with
/// SHA-256, the digest read as a big-endian integer and reduced into `f`.
pub open spec fn challenge_of(log: Seq<Seq<u8>>, f: Field) -> FieldElement {
    reduce(be_value(sha256_of(json_of(log))) as int, f)
}

/// A Fiat-Shamir transcript: an append-only list of byte strings, with a read
/// cursor for the verifier's replay.
pub struct ProofStream {
    pub objects: Vec<Vec<u8>>,
    pub read_index: usize,
}

impl ProofStream {
    /// The byte strings pushed so far.
    pub open spec fn log(&self) -> Seq<Seq<u8>> {
        byte_lists(self.objects@)
    }

    pub open spec fn wf(&self) -> bool {
        self.read_index <= self.objects@.len()
    }

    /// The part of the log that the verifier has read.
    pub open spec fn read_log(&self) -> Seq<Seq<u8>> {
        self.log().subrange(0, self.read_index as int)
    }

    /// An empty transcript.
    pub fn new() -> (r: Self)
        ensures
            r.log() == Seq::<Seq<u8>>::empty(),
            r.objects@.len() == 0,
            r.read_index == 0,
            r.wf(),
    {
        let r = Self { objects: Vec::new(), read_index: 0 };
        proof {
            assert(r.log() =~= Seq::<Seq<u8>>::empty());
        }
        r
    }

    /// Appends a copy of `object` to the log.
    pub fn push(&mut self, object: &Vec<u8>)
        ensures
            final(self).log() == old(self).log().push(object@),
            final(self).read_index == old(self).read_index,
            old(self).wf() ==> final(self).wf(),
    {
        let copy = object.clone();
        proof {
            assert(copy@ =~= object@);
        }
        self.objects.push(copy);
        proof {
            assert(self.log() =~= old(self).log().push(object@));
        }
    }

    /// The next unread object; advances the cursor. Fails when every object
    /// has been read.
    pub fn pull(&mut self) -> (r: Result<Vec<u8>, FriError>)
        requires
            old(self).wf(),
        ensures
            final(self).wf(),
            final(self).objects@ == old(self).objects@,
            old(self).read_index < old(self).objects@.len() ==> (r matches Ok(o) && o@ == old(
                self,
            ).log()[old(self).read_index as int] && final(self).read_index == old(self).read_index + 1),
            old(self).read_index >= old(self).objects@.len() ==> (r == Err::<Vec<u8>, FriError>(
                FriError::TranscriptExhausted,
            ) && final(self).read_index == old(self).read_index),
    {
        if self.read_index >= self.objects.len() {
            return Err(FriError::TranscriptExhausted);
        }
        let obj = self.objects[self.read_index].clone();
        proof {
            assert(obj@ =~= self.objects@[self.read_index as int]@);
        }
        self.read_index = self.read_index + 1;
        Ok(obj)
    }

    /// The log as a JSON array of byte arrays.
    pub fn serialize(&self) -> (r: String)
        ensures
            r@ == json_of(self.log()),
    {
        json_text(&self.objects)
    }

    /// A fresh transcript, unread, holding the log that `text` encodes. Fails
    /// with `MalformedInput` where `text` is no JSON array of byte arrays.
    pub fn deserialize(&self, text: String) -> (r: Result<ProofStream, FriError>)
        ensures
            r is Err <==> byte_lists_of_json(text@) is None,
            r matches Err(e) ==> e == FriError::MalformedInput,
            r matches Ok(ps) ==> Some(ps.log()) == byte_lists_of_json(text@) && ps.read_index == 0
                && ps.wf(),
    {
        match parse_json(text.as_str()) {
            Some(objects) => Ok(ProofStream { objects, read_index: 0 }),
            None => Err(FriError::MalformedInput),
        }
    }

    /// The prover's challenge: derived from the whole log.
    pub fn prover_fiat_shamir(&self, field: &Field) -> (r: FieldElement)
        requires
            field.wf(),
        ensures
            r == challenge_of(self.log(), *field),
            r.wf(),
    {
        let text = self.serialize();
        let digest = sha256_text(&text);
        field.sample(digest)
    }

    /// The verifier's challenge: derived from the part of the log read so far.
    pub fn verifier_fiat_shamir(&self, field: &Field) -> (r: FieldElement)
        requires
            field.wf(),
            self.wf(),
        ensures
            r == challenge_of(self.read_log(), *field),
            r.wf(),
    {
        let mut read: Vec<Vec<u8>> = Vec::new();
        let mut i: usize = 0;
        while i < self.read_index
            invariant
                self.wf(),
                i <= self.read_index,
                read@.len() == i,
                byte_lists(read@) == self.log().subrange(0, i as int),
            decreases self.read_index - i,
        {
            let copy = self.objects[i].clone();
            proof {
                assert(copy@ =~= self.objects@[i as int]@);
            }
            let ghost before = read@;
            read.push(copy);
            proof {
                assert(read@ == before.push(copy));
                assert forall|k: int| 0 <= k < i implies #[trigger] byte_lists(read@)[k] == byte_lists(before)[k] by {
                    assert(read@[k] == before[k]);
                }
                assert(byte_lists(read@) =~= self.log().subrange(0, i as int + 1));
            }
            i = i + 1;
        }
        let text = json_text(&read);
        let digest = sha256_text(&text);
        field.sample(digest)
    }

    /// A random index below `domain_size`, for the query phase.
    pub fn verifier_random_index(&mut self, domain_size: usize) -> (r: usize)
        requires
            domain_size > 0,
        ensures
            r < domain_size,
            final(self).objects@ == old(self).objects@,
            final(self).read_index == old(self).read_index,
    {
        random_usize() % domain_size
    }
}

/// Fiat-Shamir replay: a verifier that has read the first `k` objects of a
/// log derives the challenge that the prover derived after its first `k`
/// pushes, whatever was pushed after them; and equal logs give equal
/// challenges, so two replays of the same pushes agree at every round.
pub proof fn lemma_challenge_replay(pushes: Seq<Seq<u8>>, later: Seq<Seq<u8>>, f: Field)
    ensures
        forall|k: int|
            0 <= k <= pushes.len() ==> #[trigger] challenge_of((pushes + later).subrange(0, k), f)
                == challenge_of(pushes.subrange(0, k), f),
{
    assert forall|k: int| 0 <= k <= pushes.len() implies #[trigger] challenge_of(
        (pushes + later).subrange(0, k),
        f,
    ) == challenge_of(pushes.subrange(0, k), f) by {
        assert((pushes + later).subrange(0, k) =~= pushes.subrange(0, k));
    }
}

} // verus!
