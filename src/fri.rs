use crate::error::FriError;
use crate::finite_field::{gcd, inverse_num, lemma_inverse_num, reduce, Field, FieldElement};
use crate::polynomial::{
    all_wf, eval_at, eval_sum, even_sum, fold_coeffs, fold_polynomial, in_field, lemma_eval_at_one,
    lemma_eval_congruent, lemma_fold_at_one, odd_sum, Polynomial,
};
use crate::prover::{byte_lists, challenge_of, ProofStream};
use merkle::{MerkleTree, Proof};
use vstd::arithmetic::div_mod::*;
use vstd::arithmetic::power::*;
use vstd::prelude::*;

verus! {

#[verifier::external_type_specification]
#[verifier::external_body]
#[verifier::reject_recursive_types(T)]
pub struct ExMerkleTree<T>(MerkleTree<T>);

#[verifier::external_type_specification]
#[verifier::external_body]
#[verifier::reject_recursive_types(T)]
pub struct ExProof<T>(Proof<T>);

/// The leaves of a Merkle tree, in order.
pub uninterp spec fn tree_leaves(t: MerkleTree<Vec<u8>>) -> Seq<Seq<u8>>;

/// The tree was built by `merkle::MerkleTree::from_vec` with `ring`'s
/// SHA-256, and its algorithm was left as built.
pub uninterp spec fn built_with_sha256(t: MerkleTree<Vec<u8>>) -> bool;

/// The root hash of the Merkle tree that `merkle::MerkleTree::from_vec`
/// builds over `leaves` with `ring`'s SHA-256.
pub uninterp spec fn merkle_root_of(leaves: Seq<Seq<u8>>) -> Seq<u8>;

/// Whether `merkle::Proof::validate` accepts a proof against a root hash.
pub uninterp spec fn proof_accepts(p: Proof<Vec<u8>>, root: Seq<u8>) -> bool;

/// The leaf value that an inclusion proof carries (`merkle::Proof::value`).
pub uninterp spec fn proof_leaf(p: Proof<Vec<u8>>) -> Seq<u8>;

/// Relies on `merkle::MerkleTree::from_vec` with `ring`'s SHA-256: a tree
/// whose leaves are `leaves`, in order.
#[verifier::external_body]
fn merkle_commit(leaves: Vec<Vec<u8>>) -> (t: MerkleTree<Vec<u8>>)
    ensures
        tree_leaves(t) == byte_lists(leaves@),
        built_with_sha256(t),
{
    MerkleTree::from_vec(&ring::digest::SHA256, leaves)
}

/// Relies on `merkle::MerkleTree::root_hash`: for a tree built with
/// SHA-256, the root hash, which the leaves then determine.
#[verifier::external_body]
fn merkle_root(t: &MerkleTree<Vec<u8>>) -> (r: Vec<u8>)
    requires
        built_with_sha256(*t),
    ensures
        r@ == merkle_root_of(tree_leaves(*t)),
{
    t.root_hash().clone()
}

/// Relies on `merkle::MerkleTree::gen_nth_proof`: an inclusion proof for
/// leaf `n`, present exactly when `n` is below the leaf count, carrying that
/// leaf's value. The proof carries the tree's algorithm, its root hash and
/// the hashes of the tree's own nodes on the leaf's path, so for a tree built
/// with SHA-256 `Proof::validate` accepts it against that root.
#[verifier::external_body]
fn merkle_nth_proof(t: &MerkleTree<Vec<u8>>, n: usize) -> (r: Option<Proof<Vec<u8>>>)
    requires
        built_with_sha256(*t),
    ensures
        r is Some <==> n < tree_leaves(*t).len(),
        r matches Some(p) ==> proof_accepts(p, merkle_root_of(tree_leaves(*t))),
        r matches Some(p) ==> proof_leaf(p) == tree_leaves(*t)[n as int],
{
    t.gen_nth_proof(n)
}

/// Relies on `merkle::Proof::validate`.
#[verifier::external_body]
fn merkle_validate(p: &Proof<Vec<u8>>, root: &Vec<u8>) -> (r: bool)
    ensures
        r == proof_accepts(*p, root@),
{
    p.validate(root)
}

/// Relies on the public field `merkle::Proof::value`: the leaf value that
/// the proof carries.
#[verifier::external_body]
fn merkle_proof_value(p: &Proof<Vec<u8>>) -> (r: Vec<u8>)
    ensures
        r@ == proof_leaf(*p),
{
    p.value.clone()
}

/// The `k` low bytes of `n`, least significant first.
pub open spec fn le_bytes(n: int, k: nat) -> Seq<u8>
    decreases k,
{
    if k == 0 {
        Seq::empty()
    } else {
        seq![(n % 256) as u8] + le_bytes(n / 256, (k - 1) as nat)
    }
}

/// The sixteen bytes of `n`, most significant first.
pub open spec fn be_bytes(n: int) -> Seq<u8> {
    Seq::new(16, |j: int| le_bytes(n, 16)[15 - j])
}

/// The Merkle leaf that stands for a field element: its value's sixteen
/// little-endian bytes.
pub open spec fn leaf_of(x: FieldElement) -> Seq<u8> {
    le_bytes(x.num as int, 16)
}

/// The leaves of a layer: the polynomial's values over the domain.
pub open spec fn layer_leaves(c: Seq<FieldElement>, domain: Seq<FieldElement>) -> Seq<Seq<u8>> {
    Seq::new(domain.len(), |j: int| leaf_of(eval_at(c, domain[j])))
}

proof fn lemma_le_bytes_len(n: int, k: nat)
    ensures
        le_bytes(n, k).len() == k,
    decreases k,
{
    if k > 0 {
        lemma_le_bytes_len(n / 256, (k - 1) as nat);
    }
}

fn le_bytes_16(n: i128) -> (r: Vec<u8>)
    requires
        n >= 0,
    ensures
        r@ == le_bytes(n as int, 16),
{
    let mut out: Vec<u8> = Vec::new();
    let mut v: i128 = n;
    let mut i: usize = 0;
    while i < 16
        invariant
            i <= 16,
            v >= 0,
            out@ + le_bytes(v as int, (16 - i) as nat) == le_bytes(n as int, 16),
        decreases 16 - i,
    {
        let ghost before = out@;
        let ghost rest = le_bytes(v as int, (16 - i) as nat);
        out.push((v % 256) as u8);
        proof {
            let tail = le_bytes(v as int / 256, (16 - i - 1) as nat);
            assert(rest == seq![(v % 256) as u8] + tail);
            assert(out@ + tail =~= before + rest);
        }
        v = v / 256;
        i = i + 1;
    }
    proof {
        assert(le_bytes(v as int, 0) =~= Seq::<u8>::empty());
        assert(out@ + Seq::<u8>::empty() =~= out@);
    }
    out
}

fn be_bytes_16(n: i128) -> (r: Vec<u8>)
    requires
        n >= 0,
    ensures
        r@ == be_bytes(n as int),
{
    let le = le_bytes_16(n);
    proof {
        lemma_le_bytes_len(n as int, 16);
    }
    let mut out: Vec<u8> = Vec::new();
    let mut j: usize = 0;
    while j < 16
        invariant
            j <= 16,
            le@ == le_bytes(n as int, 16),
            le@.len() == 16,
            out@.len() == j,
            forall|k: int| 0 <= k < j ==> #[trigger] out@[k] == le@[15 - k],
        decreases 16 - j,
    {
        out.push(le[15 - j]);
        j = j + 1;
    }
    proof {
        assert(out@ =~= be_bytes(n as int));
    }
    out
}

/// One round of the protocol: a polynomial, the domain it is evaluated on,
/// and the Merkle tree over those evaluations.
#[derive(Debug)]
pub struct FriLayer {
    pub polynomial: Polynomial,
    pub merkle_tree: MerkleTree<Vec<u8>>,
    pub domain: Vec<FieldElement>,
}

impl FriLayer {
    /// The tree commits to the polynomial's values over the domain.
    pub open spec fn wf(&self) -> bool {
        &&& self.polynomial.wf()
        &&& all_wf(self.domain@)
        &&& tree_leaves(self.merkle_tree) == layer_leaves(self.polynomial.coeffs@, self.domain@)
        &&& built_with_sha256(self.merkle_tree)
    }

    /// The layer's commitment: the root hash of its tree.
    pub open spec fn root(&self) -> Seq<u8> {
        merkle_root_of(tree_leaves(self.merkle_tree))
    }

    /// Evaluates `poly` over `domain` and commits to the values. Fails when a
    /// coefficient and a point lie in different fields.
    pub fn new(poly: &Polynomial, domain: Vec<FieldElement>) -> (r: Result<Self, FriError>)
        requires
            poly.wf(),
            all_wf(domain@),
        ensures
            r is Ok <==> forall|j: int| 0 <= j < domain@.len() ==> in_field(poly.coeffs@, #[trigger] domain@[j].field),
            r matches Err(e) ==> e == FriError::FieldMismatch,
            r matches Ok(l) ==> l.wf() && l.polynomial.coeffs@ == poly.coeffs@ && l.domain@ == domain@,
    {
        let evaluation = match poly.evaluate_domain(&domain) {
            Ok(v) => v,
            Err(e) => {
                return Err(e);
            },
        };
        let mut leaves: Vec<Vec<u8>> = Vec::new();
        let mut j: usize = 0;
        while j < evaluation.len()
            invariant
                evaluation@.len() == domain@.len(),
                all_wf(evaluation@),
                forall|k: int| 0 <= k < domain@.len() ==> #[trigger] evaluation@[k] == eval_at(poly.coeffs@, domain@[k]),
                j <= evaluation@.len(),
                leaves@.len() == j,
                forall|k: int| 0 <= k < j ==> (#[trigger] leaves@[k])@ == leaf_of(evaluation@[k]),
            decreases evaluation@.len() - j,
        {
            proof {
                assert(evaluation@[j as int].wf());
            }
            leaves.push(le_bytes_16(evaluation[j].num));
            j = j + 1;
        }
        proof {
            assert(byte_lists(leaves@) =~= layer_leaves(poly.coeffs@, domain@));
        }
        let merkle_tree = merkle_commit(leaves);
        let coeffs = poly.coeffs.clone();
        proof {
            assert(coeffs@ =~= poly.coeffs@);
        }
        Ok(FriLayer { polynomial: Polynomial { coeffs }, merkle_tree, domain })
    }
}

/// The value that the next layer must hold, recomputed from a pair of
/// symmetric evaluations: `(e + s) / 2 + alpha * (e - s) / 2`.
pub open spec fn folded_value(e: FieldElement, s: FieldElement, alpha: FieldElement) -> FieldElement {
    let p = e.field.prime as int;
    let half = inverse_num(2int % p, p);
    reduce((e.num + s.num) * half + alpha.num * (e.num - s.num) * half, e.field)
}

/// `2` has an inverse in `f`: the modulus is odd.
pub open spec fn halvable(f: Field) -> bool {
    gcd((2int % (f.prime as int)) as nat, f.prime as nat) == 1
}

/// Folds a pair of symmetric evaluations with `alpha` into the value that the
/// next layer must hold. Fails when the three lie in different fields, or
/// when `2` has no inverse.
pub fn fold_polynomial_evaluation(eval: FieldElement, eval_sym: FieldElement, alpha: &FieldElement) -> (r: Result<FieldElement, FriError>)
    requires
        eval.wf(),
        eval_sym.wf(),
        alpha.wf(),
    ensures
        r == if eval_sym.field != eval.field || alpha.field != eval.field {
            Err(FriError::FieldMismatch)
        } else if !halvable(eval.field) {
            Err(FriError::NotInvertible)
        } else {
            Ok(folded_value(eval, eval_sym, *alpha))
        },
        r matches Ok(v) ==> v.wf(),
{
    let field = eval.field;
    if eval_sym.field != field || alpha.field != field {
        return Err(FriError::FieldMismatch);
    }
    let two = FieldElement::new(2, field);
    let half = match two.inverse() {
        Ok(v) => v,
        Err(e) => {
            return Err(e);
        },
    };
    let sum = eval.add(eval_sym);
    let diff = eval.sub(eval_sym);
    let (sum, diff) = match (sum, diff) {
        (Ok(a), Ok(b)) => (a, b),
        _ => {
            return Err(FriError::FieldMismatch);
        },
    };
    let a = sum.mul(half);
    let b = alpha.mul(diff);
    let (a, b) = match (a, b) {
        (Ok(x), Ok(y)) => (x, y),
        _ => {
            return Err(FriError::FieldMismatch);
        },
    };
    let c = match b.mul(half) {
        Ok(x) => x,
        Err(e) => {
            return Err(e);
        },
    };
    let r = a.add(c);
    proof {
        let p = field.prime as int;
        let e = eval.num as int;
        let s = eval_sym.num as int;
        let al = alpha.num as int;
        let h = inverse_num(2int % p, p);
        lemma_mod_twice(crate::finite_field::ext_gcd((2int % p) as nat, p as nat).1, p);
        assert(half.num as int == h);
        lemma_mul_mod_noop_left(e + s, h, p);
        lemma_mul_mod_noop_right(al, e - s, p);
        lemma_mul_mod_noop_left(al * (e - s), h, p);
        lemma_add_mod_noop((e + s) * h, al * (e - s) * h, p);
    }
    r
}

/// Each point squared, for the first half of the domain: the next round's
/// domain when the points are powers of a root of unity of even order.
pub open spec fn halve_domain(d: Seq<FieldElement>) -> Seq<FieldElement> {
    Seq::new(d.len() / 2, |j: int| reduce(pow(d[j].num as int, 2), d[j].field))
}

/// The roots of the first `n` layers, in order.
pub open spec fn layer_roots(layers: Seq<FriLayer>, n: int) -> Seq<Seq<u8>> {
    Seq::new(n as nat, |k: int| layers[k].root())
}

/// The constant that ends the commit phase: the only coefficient of the last
/// fold, or zero when it has none.
pub open spec fn last_value_of(c: Seq<FieldElement>, f: Field) -> FieldElement {
    if c.len() > 0 { c[0] } else { FieldElement { num: 0, field: f } }
}

/// A domain of `size` points halves evenly for `rounds` more folding rounds.
pub open spec fn halves_evenly(size: nat, rounds: nat) -> bool
    decreases rounds,
{
    rounds == 0 || (size >= 2 && size % 2 == 0 && halves_evenly(size / 2, (rounds - 1) as nat))
}

/// `len` coefficients, folded `rounds` times (each fold halves the count,
/// rounding up), leave at most one.
pub open spec fn folds_to_constant(len: nat, rounds: nat) -> bool
    decreases rounds,
{
    if rounds == 0 {
        len <= 1
    } else {
        folds_to_constant((len - len / 2) as nat, (rounds - 1) as nat)
    }
}

/// Inputs on which the commit phase succeeds: at least one layer, a non-empty
/// polynomial and domain in one field, a domain that halves evenly at every
/// folding round, and few enough coefficients that the last fold leaves a
/// constant.
pub open spec fn commit_owed(number_layers: nat, c: Seq<FieldElement>, domain: Seq<FieldElement>) -> bool {
    &&& number_layers >= 1
    &&& c.len() >= 1
    &&& domain.len() >= 1
    &&& in_field(c, c[0].field)
    &&& in_field(domain, c[0].field)
    &&& halves_evenly(domain.len(), (number_layers - 1) as nat)
    &&& folds_to_constant(c.len(), number_layers)
}

/// The layers that the commit phase builds from `c0` over `domain`, when the
/// transcript held `log0` before it began: layer 0 is `c0` over `domain`, and
/// each later layer folds the previous one with the challenge of the log that
/// holds the roots of all earlier layers, over the halved domain.
#[verifier::opaque]
pub open spec fn layers_chain(
    layers: Seq<FriLayer>,
    c0: Seq<FieldElement>,
    domain: Seq<FieldElement>,
    log0: Seq<Seq<u8>>,
    f: Field,
) -> bool {
    &&& layers.len() >= 1
    &&& forall|k: int| 0 <= k < layers.len() ==> (#[trigger] layers[k]).wf()
    &&& forall|k: int| 0 <= k < layers.len() ==> (#[trigger] layers[k]).domain@.len() > 0
    &&& layers[0].polynomial.coeffs@ == c0
    &&& layers[0].domain@ == domain
    &&& forall|k: int|
        0 < k < layers.len() ==> (#[trigger] layers[k]).polynomial.coeffs@ == fold_coeffs(
            layers[k - 1].polynomial.coeffs@,
            challenge_of(log0 + layer_roots(layers, k), f),
        )
    &&& forall|k: int| 0 < k < layers.len() ==> (#[trigger] layers[k]).domain@ == halve_domain(layers[k - 1].domain@)
}

proof fn lemma_chain_start(layer: FriLayer, c0: Seq<FieldElement>, domain: Seq<FieldElement>, log0: Seq<Seq<u8>>, f: Field)
    requires
        layer.wf(),
        layer.polynomial.coeffs@ == c0,
        layer.domain@ == domain,
        domain.len() > 0,
    ensures
        layers_chain(seq![layer], c0, domain, log0, f),
        layer_roots(seq![layer], 1) == seq![layer.root()],
{
    reveal(layers_chain);
    assert(layer_roots(seq![layer], 1) =~= seq![layer.root()]);
}

proof fn lemma_chain_push(
    layers: Seq<FriLayer>,
    layer: FriLayer,
    c0: Seq<FieldElement>,
    domain: Seq<FieldElement>,
    log0: Seq<Seq<u8>>,
    f: Field,
)
    requires
        layers_chain(layers, c0, domain, log0, f),
        layer.wf(),
        layer.domain@.len() > 0,
        layer.polynomial.coeffs@ == fold_coeffs(
            layers.last().polynomial.coeffs@,
            challenge_of(log0 + layer_roots(layers, layers.len() as int), f),
        ),
        layer.domain@ == halve_domain(layers.last().domain@),
    ensures
        layers_chain(layers.push(layer), c0, domain, log0, f),
        layer_roots(layers.push(layer), layers.len() as int + 1) == layer_roots(layers, layers.len() as int).push(
            layer.root(),
        ),
{
    reveal(layers_chain);
    let n = layers.push(layer);
    assert forall|k: int| 0 <= k <= layers.len() implies #[trigger] layer_roots(n, k) == layer_roots(layers, k) || k
        == layers.len() by {
        if k < layers.len() {
            assert(layer_roots(n, k) =~= layer_roots(layers, k));
        }
    }
    assert(layer_roots(n, layers.len() as int) =~= layer_roots(layers, layers.len() as int));
    assert(layer_roots(n, layers.len() as int + 1) =~= layer_roots(layers, layers.len() as int).push(layer.root()));
    assert forall|k: int| 0 < k < n.len() implies (#[trigger] n[k]).polynomial.coeffs@ == fold_coeffs(
        n[k - 1].polynomial.coeffs@,
        challenge_of(log0 + layer_roots(n, k), f),
    ) by {
        if k < layers.len() {
            assert(layer_roots(n, k) =~= layer_roots(layers, k));
        }
    }
}

fn square_half(d: &Vec<FieldElement>) -> (r: Vec<FieldElement>)
    requires
        all_wf(d@),
    ensures
        r@ == halve_domain(d@),
        all_wf(r@),
{
    let half = d.len() / 2;
    let mut out: Vec<FieldElement> = Vec::new();
    let mut j: usize = 0;
    while j < half
        invariant
            half == d@.len() / 2,
            all_wf(d@),
            j <= half,
            out@.len() == j,
            forall|k: int| 0 <= k < j ==> #[trigger] out@[k] == reduce(pow(d@[k].num as int, 2), d@[k].field),
            all_wf(out@),
        decreases half - j,
    {
        proof {
            assert(d@[j as int].wf());
        }
        out.push(d[j].pow(2));
        j = j + 1;
    }
    proof {
        assert(out@ =~= halve_domain(d@));
    }
    out
}

/// The commit phase. Layer 0 is `p_0` over `domain`; each later layer folds
/// the previous polynomial with the prover's challenge and halves the domain.
/// Every layer's root is pushed to the transcript; a last challenge folds the
/// last polynomial to a constant, whose sixteen big-endian bytes are pushed
/// too. Returns that constant and the layers. Every check runs before the
/// first push, so a failure leaves the transcript as it was.
#[verifier::rlimit(100)]
pub fn fri_commit(
    number_layers: usize,
    p_0: Polynomial,
    transcript: &mut ProofStream,
    domain: &Vec<FieldElement>,
) -> (r: Result<(FieldElement, Vec<FriLayer>), FriError>)
    requires
        p_0.wf(),
        all_wf(domain@),
    ensures
        r is Ok <==> commit_owed(number_layers as nat, p_0.coeffs@, domain@),
        number_layers == 0 || p_0.coeffs@.len() == 0 || domain@.len() == 0 ==> r == Err::<
            (FieldElement, Vec<FriLayer>),
            FriError,
        >(FriError::MalformedInput),
        r matches Err(e) ==> (e == FriError::MalformedInput || e == FriError::FieldMismatch),
        r is Err ==> final(transcript).objects@ == old(transcript).objects@,
        final(transcript).read_index == old(transcript).read_index,
        r matches Ok((last, layers)) ==> ({
            let f = p_0.coeffs@[0].field;
            let log0 = old(transcript).log();
            let n = number_layers as int;
            let last_fold = fold_coeffs(
                layers@[n - 1].polynomial.coeffs@,
                challenge_of(log0 + layer_roots(layers@, n), f),
            );
            &&& layers@.len() == n
            &&& layers_chain(layers@, p_0.coeffs@, domain@, log0, f)
            &&& last_fold.len() <= 1
            &&& last == last_value_of(last_fold, f)
            &&& last.wf()
            &&& final(transcript).log() == log0 + layer_roots(layers@, n) + seq![be_bytes(last.num as int)]
        }),
{
    if number_layers == 0 || p_0.coeffs.len() == 0 || domain.len() == 0 {
        return Err(FriError::MalformedInput);
    }
    let field = p_0.coeffs[0].field;
    let ghost c0 = p_0.coeffs@;
    proof {
        assert(p_0.coeffs@[0].wf());
    }
    if !crate::polynomial::all_in_field(&p_0.coeffs, field) || !crate::polynomial::all_in_field(domain, field) {
        return Err(FriError::FieldMismatch);
    }
    // the domain must halve evenly at every folding round
    let mut size: usize = domain.len();
    let mut rounds: usize = number_layers - 1;
    while rounds > 0
        invariant
            halves_evenly(domain@.len(), (number_layers - 1) as nat) == halves_evenly(size as nat, rounds as nat),
        decreases rounds,
    {
        if size < 2 || size % 2 != 0 {
            return Err(FriError::MalformedInput);
        }
        size = size / 2;
        rounds = rounds - 1;
    }
    // the last fold must leave a constant
    let mut count: usize = p_0.coeffs.len();
    let mut rounds: usize = number_layers;
    while rounds > 0
        invariant
            folds_to_constant(c0.len(), number_layers as nat) == folds_to_constant(count as nat, rounds as nat),
        decreases rounds,
    {
        count = count - count / 2;
        rounds = rounds - 1;
    }
    if count > 1 {
        return Err(FriError::MalformedInput);
    }
    let first_domain = domain.clone();
    proof {
        assert(first_domain@ =~= domain@);
        assert forall|j: int| 0 <= j < domain@.len() implies in_field(
            p_0.coeffs@,
            #[trigger] domain@[j].field,
        ) by {
            assert(domain@[j].field == field);
        }
    }
    let first = match FriLayer::new(&p_0, first_domain) {
        Ok(l) => l,
        Err(e) => {
            return Err(e);
        },
    };
    let ghost log0 = transcript.log();
    let root0 = merkle_root(&first.merkle_tree);
    transcript.push(&root0);
    let mut current_poly = p_0;
    let mut current_domain = domain.clone();
    proof {
        assert(current_domain@ =~= domain@);
    }
    let mut layers: Vec<FriLayer> = Vec::new();
    layers.push(first);
    proof {
        assert(layers@ =~= seq![first]);
        lemma_chain_start(first, c0, domain@, log0, field);
    }
    let mut i: usize = 1;
    while i < number_layers
        invariant
            1 <= i <= number_layers,
            field.wf(),
            field == c0[0].field,
            c0 == p_0.coeffs@,
            c0.len() >= 1,
            layers@.len() == i,
            layers_chain(layers@, c0, domain@, log0, field),
            current_poly.coeffs@ == layers@.last().polynomial.coeffs@,
            current_domain@ == layers@.last().domain@,
            current_poly.wf(),
            all_wf(current_domain@),
            in_field(current_poly.coeffs@, field),
            in_field(current_domain@, field),
            transcript.log() == log0 + layer_roots(layers@, i as int),
            transcript.read_index == old(transcript).read_index,
            halves_evenly(current_domain@.len(), (number_layers - i) as nat),
            folds_to_constant(current_poly.coeffs@.len(), (number_layers - i + 1) as nat),
        decreases number_layers - i,
    {
        let alpha = transcript.prover_fiat_shamir(&field);
        let next_poly = match fold_polynomial(&current_poly, &alpha) {
            Ok(q) => q,
            Err(e) => {
                return Err(e);
            },
        };
        let next_domain = square_half(&current_domain);
        let layer_domain = next_domain.clone();
        proof {
            assert(layer_domain@ =~= next_domain@);
            assert forall|j: int| 0 <= j < layer_domain@.len() implies in_field(
                next_poly.coeffs@,
                #[trigger] layer_domain@[j].field,
            ) by {
                assert(current_domain@[j].field == field);
            }
        }
        let layer = match FriLayer::new(&next_poly, layer_domain) {
            Ok(l) => l,
            Err(e) => {
                return Err(e);
            },
        };
        let root = merkle_root(&layer.merkle_tree);
        let ghost before = layers@;
        proof {
            assert(before.last() == before[i - 1]);
        }
        layers.push(layer);
        transcript.push(&root);
        proof {
            assert(layers@ == before.push(layer));
            lemma_chain_push(before, layer, c0, domain@, log0, field);
            assert(transcript.log() =~= log0 + layer_roots(layers@, i as int + 1));
            assert(in_field(next_domain@, field)) by {
                assert forall|j: int| 0 <= j < next_domain@.len() implies #[trigger] next_domain@[j].field == field by {
                    assert(current_domain@[j].field == field);
                }
            }
        }
        current_poly = next_poly;
        current_domain = next_domain;
        i = i + 1;
    }
    let alpha = transcript.prover_fiat_shamir(&field);
    let last_poly = match fold_polynomial(&current_poly, &alpha) {
        Ok(q) => q,
        Err(e) => {
            return Err(e);
        },
    };
    proof {
        let n0 = current_poly.coeffs@.len();
        assert(folds_to_constant(n0, 1));
        assert(folds_to_constant((n0 - n0 / 2) as nat, 0));
        assert((n0 + 1) / 2 == n0 - n0 / 2);
        assert(last_poly.coeffs@.len() <= 1);
    }
    let last = if last_poly.coeffs.len() >= 1 {
        proof {
            assert(last_poly.coeffs@[0].wf());
        }
        last_poly.coeffs[0]
    } else {
        field.zero()
    };
    let bytes = be_bytes_16(last.num);
    transcript.push(&bytes);
    Ok((last, layers))
}

/// The openings of one query: for every layer, the values at the queried
/// domain point and at its symmetric point, and Merkle proofs for the two
/// leaves that hold them.
#[derive(Debug)]
pub struct FriDecommitment {
    pub layers_auth_paths_sym: Vec<Option<Proof<Vec<u8>>>>,
    pub layers_evaluations_sym: Vec<FieldElement>,
    pub layers_auth_paths: Vec<Option<Proof<Vec<u8>>>>,
    pub layers_evaluations: Vec<FieldElement>,
}

/// The index half a domain of `n` points further on, wrapping around: for a
/// domain of powers of a root of unity, the index of the negated point.
pub open spec fn sym_index(index: int, n: int) -> int {
    (index + n / 2) % n
}

/// A proof is present, validates against `root`, and carries `leaf`.
pub open spec fn proof_opens(p: Option<Proof<Vec<u8>>>, root: Seq<u8>, leaf: Seq<u8>) -> bool {
    match p {
        Some(x) => proof_accepts(x, root) && proof_leaf(x) == leaf,
        None => false,
    }
}

/// Layer `i` of `d` opens `layer` at the query index `q`: the values at the
/// domain points with index `q` modulo the domain's size and its symmetric
/// index, each with a proof of the leaf that holds it.
pub open spec fn opened_layer(layer: FriLayer, q: int, d: FriDecommitment, i: int) -> bool {
    let m = layer.domain@.len() as int;
    let index = q % m;
    let c = layer.polynomial.coeffs@;
    &&& d.layers_evaluations@[i] == eval_at(c, layer.domain@[index])
    &&& d.layers_evaluations_sym@[i] == eval_at(c, layer.domain@[sym_index(index, m)])
    &&& proof_opens(d.layers_auth_paths@[i], layer.root(), leaf_of(d.layers_evaluations@[i]))
    &&& proof_opens(d.layers_auth_paths_sym@[i], layer.root(), leaf_of(d.layers_evaluations_sym@[i]))
}

/// A decommitment as the query phase makes it from `layers` for the query
/// index `q`.
pub open spec fn opened_at(layers: Seq<FriLayer>, q: int, d: FriDecommitment) -> bool {
    let n = layers.len();
    &&& d.layers_evaluations@.len() == n
    &&& d.layers_evaluations_sym@.len() == n
    &&& d.layers_auth_paths@.len() == n
    &&& d.layers_auth_paths_sym@.len() == n
    &&& forall|i: int| 0 <= i < n ==> #[trigger] opened_layer(layers[i], q, d, i)
}

/// `d` opens `layers` at some query index below `domain_size`.
pub open spec fn opened_below(layers: Seq<FriLayer>, domain_size: int, d: FriDecommitment) -> bool {
    exists|index: int| 0 <= index < domain_size && #[trigger] opened_at(layers, index, d)
}

/// A layer can be opened in `f`: its domain is not empty, and its
/// coefficients and points lie in `f`.
pub open spec fn openable(layer: FriLayer, f: Field) -> bool {
    &&& layer.domain@.len() > 0
    &&& in_field(layer.polynomial.coeffs@, f)
    &&& in_field(layer.domain@, f)
}

/// The query phase: for each of `number_of_queries` random indices below
/// `domain_size`, opens every layer at the domain point whose index is the
/// query index modulo the layer's domain size, and at the point half the
/// domain further on, with Merkle proofs for the two leaves. `g` fixes the
/// field. With no layers the result is empty. Fails with `MalformedInput`
/// when `domain_size` is zero or a layer's domain is empty, and with
/// `FieldMismatch` when a layer lies outside `g`'s field.
pub fn fri_query_phase(
    g: FieldElement,
    domain_size: usize,
    fri_layers: &Vec<FriLayer>,
    transcript: &mut ProofStream,
    number_of_queries: usize,
) -> (r: Result<Vec<FriDecommitment>, FriError>)
    requires
        g.wf(),
        forall|k: int| 0 <= k < fri_layers@.len() ==> (#[trigger] fri_layers@[k]).wf(),
    ensures
        final(transcript).objects@ == old(transcript).objects@,
        final(transcript).read_index == old(transcript).read_index,
        fri_layers@.len() == 0 ==> (r matches Ok(v) && v@.len() == 0),
        fri_layers@.len() > 0 ==> (r is Err <==> (domain_size == 0 || exists|k: int|
            0 <= k < fri_layers@.len() && !openable(#[trigger] fri_layers@[k], g.field))),
        fri_layers@.len() > 0 && domain_size == 0 ==> r == Err::<Vec<FriDecommitment>, FriError>(
            FriError::MalformedInput,
        ),
        r matches Err(e) ==> (e == FriError::MalformedInput || e == FriError::FieldMismatch),
        r matches Ok(v) ==> fri_layers@.len() > 0 ==> v@.len() == number_of_queries && forall|q: int|
            0 <= q < v@.len() ==> opened_below(fri_layers@, domain_size as int, #[trigger] v@[q]),
{
    let n_layers = fri_layers.len();
    if n_layers == 0 {
        return Ok(Vec::new());
    }
    if domain_size == 0 {
        return Err(FriError::MalformedInput);
    }
    let mut k: usize = 0;
    while k < n_layers
        invariant
            n_layers == fri_layers@.len(),
            domain_size > 0,
            k <= n_layers,
            forall|j: int| 0 <= j < k ==> openable(#[trigger] fri_layers@[j], g.field),
        decreases n_layers - k,
    {
        let layer = &fri_layers[k];
        if layer.domain.len() == 0 {
            proof {
                assert(!openable(fri_layers@[k as int], g.field));
            }
            return Err(FriError::MalformedInput);
        }
        if !crate::polynomial::all_in_field(&layer.polynomial.coeffs, g.field)
            || !crate::polynomial::all_in_field(&layer.domain, g.field) {
            proof {
                assert(!openable(fri_layers@[k as int], g.field));
            }
            return Err(FriError::FieldMismatch);
        }
        k = k + 1;
    }
    let mut decommitments: Vec<FriDecommitment> = Vec::new();
    let mut q: usize = 0;
    while q < number_of_queries
        invariant
            g.wf(),
            n_layers == fri_layers@.len(),
            domain_size > 0,
            forall|j: int| 0 <= j < n_layers ==> (#[trigger] fri_layers@[j]).wf(),
            forall|j: int| 0 <= j < n_layers ==> openable(#[trigger] fri_layers@[j], g.field),
            q <= number_of_queries,
            decommitments@.len() == q,
            forall|j: int|
                0 <= j < q ==> opened_below(fri_layers@, domain_size as int, #[trigger] decommitments@[j]),
            transcript.objects@ == old(transcript).objects@,
            transcript.read_index == old(transcript).read_index,
        decreases number_of_queries - q,
    {
        let query_index = transcript.verifier_random_index(domain_size);
        let mut layers_auth_paths_sym: Vec<Option<Proof<Vec<u8>>>> = Vec::new();
        let mut layers_evaluations_sym: Vec<FieldElement> = Vec::new();
        let mut layers_auth_paths: Vec<Option<Proof<Vec<u8>>>> = Vec::new();
        let mut layers_evaluations: Vec<FieldElement> = Vec::new();
        let mut i: usize = 0;
        while i < n_layers
            invariant
                g.wf(),
                n_layers == fri_layers@.len(),
                forall|j: int| 0 <= j < n_layers ==> (#[trigger] fri_layers@[j]).wf(),
                forall|j: int| 0 <= j < n_layers ==> openable(#[trigger] fri_layers@[j], g.field),
                i <= n_layers,
                layers_evaluations@.len() == i,
                layers_evaluations_sym@.len() == i,
                layers_auth_paths@.len() == i,
                layers_auth_paths_sym@.len() == i,
                forall|j: int|
                    0 <= j < i ==> #[trigger] opened_layer(
                        fri_layers@[j],
                        query_index as int,
                        FriDecommitment {
                            layers_auth_paths_sym,
                            layers_evaluations_sym,
                            layers_auth_paths,
                            layers_evaluations,
                        },
                        j,
                    ),
            decreases n_layers - i,
        {
            let layer = &fri_layers[i];
            proof {
                assert(fri_layers@[i as int].wf());
                assert(openable(fri_layers@[i as int], g.field));
            }
            let n = layer.domain.len();
            let index = query_index % n;
            // `(index + n / 2) % n`, without overflow
            let index_sym = if index >= n - n / 2 {
                index - (n - n / 2)
            } else {
                index + n / 2
            };
            proof {
                let x = index as int + n as int / 2;
                if index >= n - n / 2 {
                    lemma_mod_sub_multiples_vanish(x, n as int);
                    lemma_small_mod((x - n) as nat, n as nat);
                } else {
                    lemma_small_mod(x as nat, n as nat);
                }
                assert(index_sym as int == sym_index(index as int, n as int));
                assert(layer.domain@[index as int].wf());
                assert(layer.domain@[index_sym as int].wf());
                assert(layer.domain@[index as int].field == g.field);
                assert(layer.domain@[index_sym as int].field == g.field);
            }
            let eval = match layer.polynomial.evaluate(layer.domain[index]) {
                Ok(v) => v,
                Err(e) => {
                    return Err(e);
                },
            };
            let eval_sym = match layer.polynomial.evaluate(layer.domain[index_sym]) {
                Ok(v) => v,
                Err(e) => {
                    return Err(e);
                },
            };
            let auth_path = merkle_nth_proof(&layer.merkle_tree, index);
            let auth_path_sym = merkle_nth_proof(&layer.merkle_tree, index_sym);
            let ghost old_d = FriDecommitment {
                layers_auth_paths_sym,
                layers_evaluations_sym,
                layers_auth_paths,
                layers_evaluations,
            };
            layers_evaluations.push(eval);
            layers_evaluations_sym.push(eval_sym);
            layers_auth_paths.push(auth_path);
            layers_auth_paths_sym.push(auth_path_sym);
            proof {
                let d = FriDecommitment {
                    layers_auth_paths_sym,
                    layers_evaluations_sym,
                    layers_auth_paths,
                    layers_evaluations,
                };
                assert forall|j: int| 0 <= j < i + 1 implies #[trigger] opened_layer(
                    fri_layers@[j],
                    query_index as int,
                    d,
                    j,
                ) by {
                    if j < i {
                        assert(opened_layer(fri_layers@[j], query_index as int, old_d, j));
                        assert(d.layers_evaluations@[j] == old_d.layers_evaluations@[j]);
                        assert(d.layers_evaluations_sym@[j] == old_d.layers_evaluations_sym@[j]);
                        assert(d.layers_auth_paths@[j] == old_d.layers_auth_paths@[j]);
                        assert(d.layers_auth_paths_sym@[j] == old_d.layers_auth_paths_sym@[j]);
                    }
                }
            }
            i = i + 1;
        }
        let d = FriDecommitment {
            layers_auth_paths_sym,
            layers_evaluations_sym,
            layers_auth_paths,
            layers_evaluations,
        };
        proof {
            assert(opened_at(fri_layers@, query_index as int, d));
        }
        decommitments.push(d);
        proof {
            assert forall|j: int| 0 <= j < q + 1 implies opened_below(
                fri_layers@,
                domain_size as int,
                #[trigger] decommitments@[j],
            ) by {
                if j == q {
                    assert(opened_at(fri_layers@, query_index as int, decommitments@[j]));
                }
            }
        }
        q = q + 1;
    }
    Ok(decommitments)
}

/// The verifier's challenges: after reading the object at `read0 + i`, the
/// challenge of the log read so far.
pub open spec fn verifier_challenges(log: Seq<Seq<u8>>, read0: int, n: int, f: Field) -> Seq<FieldElement> {
    Seq::new(n as nat, |i: int| challenge_of(log.subrange(0, read0 + i + 1), f))
}

/// The checks on layer `i` of one decommitment: both evaluations are
/// canonical elements of `f`, both Merkle proofs validate against the
/// layer's root and carry exactly those evaluations as their leaves, and,
/// below the last layer, the pair folds with the round's challenge into the
/// next layer's evaluation.
pub open spec fn layer_accepted(
    layers: Seq<FriLayer>,
    d: FriDecommitment,
    alphas: Seq<FieldElement>,
    f: Field,
    i: int,
) -> bool {
    let e = d.layers_evaluations@[i];
    let s = d.layers_evaluations_sym@[i];
    &&& e.wf()
    &&& s.wf()
    &&& e.field == f
    &&& s.field == f
    &&& proof_opens(d.layers_auth_paths@[i], layers[i].root(), leaf_of(e))
    &&& proof_opens(d.layers_auth_paths_sym@[i], layers[i].root(), leaf_of(s))
    &&& i + 1 < layers.len() ==> folded_value(e, s, alphas[i]) == d.layers_evaluations@[i + 1]
}

/// A decommitment passes every layer's checks.
pub open spec fn decommitment_accepted(
    layers: Seq<FriLayer>,
    d: FriDecommitment,
    alphas: Seq<FieldElement>,
    f: Field,
) -> bool {
    let n = layers.len();
    &&& d.layers_evaluations@.len() >= n
    &&& d.layers_evaluations_sym@.len() >= n
    &&& d.layers_auth_paths@.len() >= n
    &&& d.layers_auth_paths_sym@.len() >= n
    &&& forall|i: int| 0 <= i < n ==> #[trigger] layer_accepted(layers, d, alphas, f, i)
}

fn bytes_equal(a: &Vec<u8>, b: &Vec<u8>) -> (r: bool)
    ensures
        r == (a@ == b@),
{
    if a.len() != b.len() {
        return false;
    }
    let mut i: usize = 0;
    while i < a.len()
        invariant
            a@.len() == b@.len(),
            i <= a@.len(),
            forall|j: int| 0 <= j < i ==> a@[j] == b@[j],
        decreases a@.len() - i,
    {
        if a[i] != b[i] {
            return false;
        }
        i = i + 1;
    }
    proof {
        assert(a@ =~= b@);
    }
    true
}

/// Whether `p` is present, validates against `root`, and carries `leaf`.
fn check_opening(p: &Option<Proof<Vec<u8>>>, root: &Vec<u8>, leaf: &Vec<u8>) -> (r: bool)
    ensures
        r == proof_opens(*p, root@, leaf@),
{
    match p {
        Some(x) => merkle_validate(x, root) && bytes_equal(&merkle_proof_value(x), leaf),
        None => false,
    }
}

/// The verify phase. The field is that of layer 0's first coefficient. The
/// verifier reads one root per folding round from the transcript and derives
/// that round's challenge from what it has read; then every decommitment must
/// pass every layer's checks. Returns `Ok(false)` for a proof that fails a
/// check; fails when layer 0 has no coefficients, when `2` has no inverse, or
/// when the transcript runs out.
pub fn verify_fri(
    fri_layers: &Vec<FriLayer>,
    decommitments: &Vec<FriDecommitment>,
    transcript: &mut ProofStream,
) -> (r: Result<bool, FriError>)
    requires
        old(transcript).wf(),
        forall|k: int| 0 <= k < fri_layers@.len() ==> (#[trigger] fri_layers@[k]).wf(),
    ensures
        final(transcript).wf(),
        final(transcript).objects@ == old(transcript).objects@,
        fri_layers@.len() == 0 || decommitments@.len() == 0 ==> r == Ok::<bool, FriError>(true)
            && final(transcript).read_index == old(transcript).read_index,
        fri_layers@.len() > 0 && decommitments@.len() > 0 ==> r == ({
            let n = fri_layers@.len() as int;
            let c = fri_layers@[0].polynomial.coeffs@;
            let f = c[0].field;
            let read0 = old(transcript).read_index as int;
            let alphas = verifier_challenges(old(transcript).log(), read0, n - 1, f);
            if c.len() == 0 {
                Err(FriError::MalformedInput)
            } else if !halvable(f) {
                Err(FriError::NotInvertible)
            } else if read0 + n - 1 > old(transcript).objects@.len() {
                Err(FriError::TranscriptExhausted)
            } else {
                Ok(
                    forall|q: int|
                        0 <= q < decommitments@.len() ==> decommitment_accepted(
                            fri_layers@,
                            #[trigger] decommitments@[q],
                            alphas,
                            f,
                        ),
                )
            }
        }),
        r is Ok && fri_layers@.len() > 0 && decommitments@.len() > 0 ==> final(transcript).read_index
            == old(transcript).read_index + fri_layers@.len() - 1,
{
    let n_layers = fri_layers.len();
    if n_layers == 0 || decommitments.len() == 0 {
        return Ok(true);
    }
    if fri_layers[0].polynomial.coeffs.len() == 0 {
        return Err(FriError::MalformedInput);
    }
    let field = fri_layers[0].polynomial.coeffs[0].field;
    proof {
        assert(fri_layers@[0].wf());
        assert(fri_layers@[0].polynomial.coeffs@[0].wf());
    }
    let two = FieldElement::new(2, field);
    if two.inverse().is_err() {
        return Err(FriError::NotInvertible);
    }
    proof {
        assert(halvable(field));
    }
    let ghost log = transcript.log();
    let ghost read0 = transcript.read_index as int;
    let mut alphas: Vec<FieldElement> = Vec::new();
    let mut i: usize = 0;
    while i + 1 < n_layers
        invariant
            field.wf(),
            n_layers == fri_layers@.len(),
            n_layers >= 1,
            i + 1 <= n_layers,
            fri_layers@[0].polynomial.coeffs@.len() > 0,
            field == fri_layers@[0].polynomial.coeffs@[0].field,
            decommitments@.len() > 0,
            halvable(field),
            log == old(transcript).log(),
            read0 == old(transcript).read_index,
            transcript.wf(),
            transcript.objects@ == old(transcript).objects@,
            transcript.read_index == read0 + i,
            alphas@.len() == i,
            forall|j: int| 0 <= j < i ==> #[trigger] alphas@[j] == challenge_of(log.subrange(0, read0 + j + 1), field),
            forall|j: int| 0 <= j < i ==> (#[trigger] alphas@[j]).wf(),
        decreases n_layers - i,
    {
        match transcript.pull() {
            Ok(_) => {},
            Err(e) => {
                return Err(e);
            },
        }
        let alpha = transcript.verifier_fiat_shamir(&field);
        alphas.push(alpha);
        i = i + 1;
    }
    let ghost challenges = verifier_challenges(log, read0, n_layers - 1, field);
    proof {
        assert(alphas@ =~= challenges);
        assert(forall|j: int| 0 <= j < n_layers - 1 ==> (#[trigger] alphas@[j]).field == field);
    }
    let mut roots: Vec<Vec<u8>> = Vec::new();
    let mut k: usize = 0;
    while k < n_layers
        invariant
            n_layers == fri_layers@.len(),
            k <= n_layers,
            fri_layers@[0].polynomial.coeffs@.len() > 0,
            field == fri_layers@[0].polynomial.coeffs@[0].field,
            decommitments@.len() > 0,
            halvable(field),
            log == old(transcript).log(),
            read0 == old(transcript).read_index,
            transcript.wf(),
            transcript.objects@ == old(transcript).objects@,
            transcript.read_index == read0 + n_layers - 1,
            read0 + n_layers - 1 <= old(transcript).objects@.len(),
            alphas@ == challenges,
            challenges == verifier_challenges(log, read0, n_layers - 1, field),
            alphas@.len() == n_layers - 1,
            forall|j: int| 0 <= j < n_layers - 1 ==> (#[trigger] alphas@[j]).wf() && alphas@[j].field == field,
            forall|j: int| 0 <= j < n_layers ==> (#[trigger] fri_layers@[j]).wf(),
            roots@.len() == k,
            forall|j: int| 0 <= j < k ==> (#[trigger] roots@[j])@ == fri_layers@[j].root(),
        decreases n_layers - k,
    {
        proof {
            assert(fri_layers@[k as int].wf());
        }
        roots.push(merkle_root(&fri_layers[k].merkle_tree));
        k = k + 1;
    }
    let mut q: usize = 0;
    while q < decommitments.len()
        invariant
            field.wf(),
            n_layers == fri_layers@.len(),
            n_layers >= 1,
            alphas@ == challenges,
            challenges == verifier_challenges(log, read0, n_layers - 1, field),
            alphas@.len() == n_layers - 1,
            forall|j: int| 0 <= j < n_layers - 1 ==> (#[trigger] alphas@[j]).wf() && alphas@[j].field == field,
            roots@.len() == n_layers,
            forall|j: int| 0 <= j < n_layers ==> (#[trigger] roots@[j])@ == fri_layers@[j].root(),
            fri_layers@[0].polynomial.coeffs@.len() > 0,
            field == fri_layers@[0].polynomial.coeffs@[0].field,
            decommitments@.len() > 0,
            halvable(field),
            log == old(transcript).log(),
            read0 == old(transcript).read_index,
            transcript.wf(),
            transcript.objects@ == old(transcript).objects@,
            transcript.read_index == read0 + n_layers - 1,
            read0 + n_layers - 1 <= old(transcript).objects@.len(),
            q <= decommitments@.len(),
            forall|j: int| 0 <= j < q ==> decommitment_accepted(fri_layers@, #[trigger] decommitments@[j], challenges, field),
        decreases decommitments@.len() - q,
    {
        let d = &decommitments[q];
        if d.layers_evaluations.len() < n_layers || d.layers_evaluations_sym.len() < n_layers
            || d.layers_auth_paths.len() < n_layers || d.layers_auth_paths_sym.len() < n_layers {
            proof {
                assert(!decommitment_accepted(fri_layers@, decommitments@[q as int], challenges, field));
            }
            return Ok(false);
        }
        let mut i: usize = 0;
        while i < n_layers
            invariant
                field.wf(),
                n_layers == fri_layers@.len(),
                alphas@ == challenges,
                challenges == verifier_challenges(log, read0, n_layers - 1, field),
                alphas@.len() == n_layers - 1,
                forall|j: int| 0 <= j < n_layers - 1 ==> (#[trigger] alphas@[j]).wf() && alphas@[j].field == field,
                roots@.len() == n_layers,
                forall|j: int| 0 <= j < n_layers ==> (#[trigger] roots@[j])@ == fri_layers@[j].root(),
                d.layers_evaluations@.len() >= n_layers,
                d.layers_evaluations_sym@.len() >= n_layers,
                d.layers_auth_paths@.len() >= n_layers,
                d.layers_auth_paths_sym@.len() >= n_layers,
                fri_layers@[0].polynomial.coeffs@.len() > 0,
                field == fri_layers@[0].polynomial.coeffs@[0].field,
                decommitments@.len() > 0,
                halvable(field),
                log == old(transcript).log(),
                read0 == old(transcript).read_index,
                transcript.wf(),
                transcript.objects@ == old(transcript).objects@,
                transcript.read_index == read0 + n_layers - 1,
                read0 + n_layers - 1 <= old(transcript).objects@.len(),
                q < decommitments@.len(),
                *d == decommitments@[q as int],
                forall|j: int| 0 <= j < q ==> decommitment_accepted(fri_layers@, #[trigger] decommitments@[j], challenges, field),
                i <= n_layers,
                forall|j: int| 0 <= j < i ==> #[trigger] layer_accepted(fri_layers@, *d, challenges, field, j),
            decreases n_layers - i,
        {
            let eval = d.layers_evaluations[i];
            let eval_sym = d.layers_evaluations_sym[i];
            if !eval.is_canonical() || !eval_sym.is_canonical() || eval.field != field || eval_sym.field != field {
                proof {
                    assert(!layer_accepted(fri_layers@, *d, challenges, field, i as int));
                    assert(!decommitment_accepted(fri_layers@, decommitments@[q as int], challenges, field));
                }
                return Ok(false);
            }
            let leaf = le_bytes_16(eval.num);
            let leaf_sym = le_bytes_16(eval_sym.num);
            if !check_opening(&d.layers_auth_paths[i], &roots[i], &leaf) || !check_opening(
                &d.layers_auth_paths_sym[i],
                &roots[i],
                &leaf_sym,
            ) {
                proof {
                    assert(!layer_accepted(fri_layers@, *d, challenges, field, i as int));
                    assert(!decommitment_accepted(fri_layers@, decommitments@[q as int], challenges, field));
                }
                return Ok(false);
            }
            if i + 1 < n_layers {
                proof {
                    assert(alphas@[i as int].wf() && alphas@[i as int].field == field);
                }
                let folded = match fold_polynomial_evaluation(eval, eval_sym, &alphas[i]) {
                    Ok(v) => v,
                    Err(e) => {
                        return Err(e);
                    },
                };
                if folded != d.layers_evaluations[i + 1] {
                proof {
                    assert(!layer_accepted(fri_layers@, *d, challenges, field, i as int));
                    assert(!decommitment_accepted(fri_layers@, decommitments@[q as int], challenges, field));
                }
                return Ok(false);
                }
            }
            proof {
                assert(layer_accepted(fri_layers@, *d, challenges, field, i as int));
            }
            i = i + 1;
        }
        proof {
            assert(decommitment_accepted(fri_layers@, decommitments@[q as int], challenges, field));
        }
        q = q + 1;
    }
    Ok(true)
}

/// With `2 * h == 1` modulo `p`, halving the sum and the difference of
/// `E + O` and `E - O` and combining them with `a` gives `E + a * O`.
proof fn lemma_halves(e: int, o: int, a: int, h: int, p: int)
    requires
        p >= 2,
        (h * 2) % p == 1,
    ensures
        (((e + o) % p + (e - o) % p) * h + a * ((e + o) % p - (e - o) % p) * h) % p == (e + a * o) % p,
{
    let u = e + o;
    let v = e - o;
    let sum = (u % p) + (v % p);
    let diff = (u % p) - (v % p);
    lemma_add_mod_noop(u, v, p);
    lemma_sub_mod_noop(u, v, p);
    // (sum * h) % p == e % p
    lemma_mul_mod_noop_left(sum, h, p);
    lemma_mul_mod_noop_left(u + v, h, p);
    assert((u + v) * h == e * (h * 2)) by (nonlinear_arith)
        requires
            u + v == 2 * e,
    ;
    lemma_mul_mod_noop_right(e, h * 2, p);
    assert((sum * h) % p == e % p);
    // (a * diff * h) % p == (a * o) % p
    assert(a * diff * h == diff * (a * h)) by (nonlinear_arith);
    lemma_mul_mod_noop_left(diff, a * h, p);
    lemma_mul_mod_noop_left(u - v, a * h, p);
    assert((u - v) * (a * h) == (a * o) * (h * 2)) by (nonlinear_arith)
        requires
            u - v == 2 * o,
    ;
    lemma_mul_mod_noop_right(a * o, h * 2, p);
    assert((a * diff * h) % p == (a * o) % p);
    lemma_add_mod_noop(sum * h, a * diff * h, p);
    lemma_add_mod_noop(e, a * o, p);
}

/// Round trip: from layers that the commit phase built, a decommitment that
/// the query phase opens at index `q` passes every check of the verify phase,
/// when the verifier replays the transcript from where the commit began, the
/// modulus is odd, and every layer is opened at the point `1`, paired with
/// `-1` below the last layer.
pub proof fn lemma_honest_round_trip(
    layers: Seq<FriLayer>,
    c0: Seq<FieldElement>,
    domain: Seq<FieldElement>,
    log0: Seq<Seq<u8>>,
    f: Field,
    last: FieldElement,
    q: int,
    d: FriDecommitment,
)
    requires
        layers_chain(layers, c0, domain, log0, f),
        f.wf(),
        halvable(f),
        opened_at(layers, q, d),
        forall|i: int| 0 <= i < layers.len() ==> in_field((#[trigger] layers[i]).domain@, f),
        forall|i: int|
            0 <= i < layers.len() ==> (#[trigger] layers[i]).domain@[q % (layers[i].domain@.len() as int)] == (
            FieldElement { num: 1, field: f }),
        forall|i: int|
            0 <= i < layers.len() - 1 ==> {
                let m = (#[trigger] layers[i]).domain@.len() as int;
                layers[i].domain@[sym_index(q % m, m)] == (FieldElement { num: (f.prime - 1) as i128, field: f })
            },
    ensures
        ({
            let n = layers.len() as int;
            let log = log0 + layer_roots(layers, n) + seq![be_bytes(last.num as int)];
            decommitment_accepted(layers, d, verifier_challenges(log, log0.len() as int, n - 1, f), f)
        }),
{
    reveal(layers_chain);
    let n = layers.len() as int;
    let log = log0 + layer_roots(layers, n) + seq![be_bytes(last.num as int)];
    let alphas = verifier_challenges(log, log0.len() as int, n - 1, f);
    let p = f.prime as int;
    let h = inverse_num(2int % p, p);
    lemma_inverse_num(2int % p, p);
    lemma_mul_mod_noop_right(h, 2, p);
    lemma_small_mod(1, p as nat);
    lemma_small_mod((p - 1) as nat, p as nat);
    lemma_mod_twice(-1, p);
    lemma_mod_twice(crate::finite_field::ext_gcd((2int % p) as nat, p as nat).1, p);
    assert forall|i: int| 0 <= i < n implies #[trigger] layer_accepted(layers, d, alphas, f, i) by {
        assert(opened_layer(layers[i], q, d, i));
        let m = layers[i].domain@.len() as int;
        let c = layers[i].polynomial.coeffs@;
        let e = d.layers_evaluations@[i];
        let s = d.layers_evaluations_sym@[i];
        assert(layers[i].domain@[q % m] == (FieldElement { num: 1, field: f }));
        assert(e == reduce(eval_sum(c, 1), f));
        assert(in_field(layers[i].domain@, f));
        assert(layers[i].domain@.len() > 0);
        lemma_mod_bound(q, m);
        lemma_mod_bound(q % m + m / 2, m);
        assert(layers[i].domain@[sym_index(q % m, m)].field == f);
        if i + 1 < n {
            lemma_mod_add_multiples_vanish(-1, p);
            lemma_eval_congruent(c, p - 1, -1, p);
            lemma_eval_at_one(c);
            assert(s.num as int == (even_sum(c) - odd_sum(c)) % p);
            assert(e.num as int == (even_sum(c) + odd_sum(c)) % p);
            // the verifier's challenge is the prover's
            let alpha = alphas[i];
            assert(log.subrange(0, log0.len() + i + 1) =~= log0 + layer_roots(layers, i + 1));
            assert(alpha == challenge_of(log0 + layer_roots(layers, i + 1), f));
            assert(layers[i + 1].polynomial.coeffs@ == fold_coeffs(c, alpha));
            lemma_fold_at_one(c, alpha);
            assert(opened_layer(layers[i + 1], q, d, i + 1));
            let m1 = layers[i + 1].domain@.len() as int;
            assert(layers[i + 1].domain@[q % m1] == (FieldElement { num: 1, field: f }));
            assert(d.layers_evaluations@[i + 1] == reduce(eval_sum(fold_coeffs(c, alpha), 1), f));
            lemma_halves(even_sum(c), odd_sum(c), alpha.num as int, h, p);
            assert(folded_value(e, s, alpha) == d.layers_evaluations@[i + 1]);
        }
    }
}

proof fn lemma_le_bytes_injective(a: int, b: int, k: nat)
    requires
        0 <= a < pow(256, k),
        0 <= b < pow(256, k),
        le_bytes(a, k) == le_bytes(b, k),
    ensures
        a == b,
    decreases k,
{
    if k == 0 {
        lemma_pow0(256);
    } else {
        let k1 = (k - 1) as nat;
        let ta = le_bytes(a / 256, k1);
        let tb = le_bytes(b / 256, k1);
        assert(le_bytes(a, k) == seq![(a % 256) as u8] + ta);
        assert(le_bytes(b, k) == seq![(b % 256) as u8] + tb);
        lemma_le_bytes_len(a / 256, k1);
        lemma_le_bytes_len(b / 256, k1);
        assert((seq![(a % 256) as u8] + ta)[0] == (a % 256) as u8);
        assert((seq![(b % 256) as u8] + tb)[0] == (b % 256) as u8);
        lemma_mod_pos_bound(a, 256);
        lemma_mod_pos_bound(b, 256);
        assert(a % 256 == b % 256);
        assert(ta =~= le_bytes(a, k).subrange(1, k as int));
        assert(tb =~= le_bytes(b, k).subrange(1, k as int));
        lemma_pow_adds(256, 1, k1);
        lemma_pow1(256);
        lemma_fundamental_div_mod(a, 256);
        lemma_fundamental_div_mod(b, 256);
        assert(a / 256 < pow(256, k1)) by (nonlinear_arith)
            requires
                a == 256 * (a / 256) + a % 256,
                0 <= a % 256,
                a < 256 * pow(256, k1),
        ;
        assert(b / 256 < pow(256, k1)) by (nonlinear_arith)
            requires
                b == 256 * (b / 256) + b % 256,
                0 <= b % 256,
                b < 256 * pow(256, k1),
        ;
        lemma_div_pos_is_pos(a, 256);
        lemma_div_pos_is_pos(b, 256);
        lemma_le_bytes_injective(a / 256, b / 256, k1);
    }
}

/// Distinct canonical elements have distinct leaves.
proof fn lemma_leaf_injective(x: FieldElement, y: FieldElement)
    requires
        x.wf(),
        y.wf(),
        leaf_of(x) == leaf_of(y),
    ensures
        x.num == y.num,
{
    crate::finite_field::lemma_pow_256_8();
    lemma_pow_increases(256, 8, 16);
    lemma_le_bytes_injective(x.num as int, y.num as int, 16);
}

/// Changing one stored evaluation, at any layer and on either side, of a
/// decommitment that passes verification makes it fail: the layer's proof
/// carries the old value as its leaf.
pub proof fn lemma_tampered_evaluation_rejected(
    layers: Seq<FriLayer>,
    d: FriDecommitment,
    tampered: FriDecommitment,
    alphas: Seq<FieldElement>,
    f: Field,
    j: int,
    v: FieldElement,
    on_symmetric_side: bool,
)
    requires
        decommitment_accepted(layers, d, alphas, f),
        0 <= j < layers.len(),
        tampered.layers_auth_paths@ == d.layers_auth_paths@,
        tampered.layers_auth_paths_sym@ == d.layers_auth_paths_sym@,
        on_symmetric_side ==> v != d.layers_evaluations_sym@[j] && tampered.layers_evaluations_sym@
            == d.layers_evaluations_sym@.update(j, v) && tampered.layers_evaluations@ == d.layers_evaluations@,
        !on_symmetric_side ==> v != d.layers_evaluations@[j] && tampered.layers_evaluations@
            == d.layers_evaluations@.update(j, v) && tampered.layers_evaluations_sym@ == d.layers_evaluations_sym@,
    ensures
        !decommitment_accepted(layers, tampered, alphas, f),
{
    assert(layer_accepted(layers, d, alphas, f, j));
    if decommitment_accepted(layers, tampered, alphas, f) {
        assert(layer_accepted(layers, tampered, alphas, f, j));
        if on_symmetric_side {
            assert(tampered.layers_evaluations_sym@[j] == v);
            lemma_leaf_injective(v, d.layers_evaluations_sym@[j]);
        } else {
            assert(tampered.layers_evaluations@[j] == v);
            lemma_leaf_injective(v, d.layers_evaluations@[j]);
        }
    }
}

} // verus!
