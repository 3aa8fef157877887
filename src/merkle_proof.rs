//! Merkle inclusion proofs over Keccak-256 with sorted-pair hashing.
use vstd::prelude::*;

verus! {

/// A 32-byte hash value (a leaf, a node or a root).
pub type HashValue = [u8; 32];

/// The Keccak-256 digest of a byte string.
pub uninterp spec fn keccak256(data: Seq<u8>) -> [u8; 32];

/// Relies on `solana_program::keccak::hash`: it returns the Keccak-256 digest
/// of its input, which depends on the bytes alone.
#[verifier::external_body]
fn keccak_hash(data: &[u8]) -> (r: HashValue)
    ensures
        r == keccak256(data@),
{
    anchor_lang::solana_program::keccak::hash(data).to_bytes()
}

/// Lexicographic `<=` on byte strings, as Rust orders byte arrays.
pub open spec fn lex_le(a: Seq<u8>, b: Seq<u8>) -> bool
    decreases a.len(),
{
    if a.len() == 0 {
        true
    } else if b.len() == 0 {
        false
    } else if a[0] != b[0] {
        a[0] < b[0]
    } else {
        lex_le(a.drop_first(), b.drop_first())
    }
}

/// The bytes hashed into the parent of two nodes: the two, smaller one first.
pub open spec fn pair_bytes(a: HashValue, b: HashValue) -> Seq<u8> {
    if lex_le(a@, b@) {
        a@ + b@
    } else {
        b@ + a@
    }
}

/// The parent of two nodes.
pub open spec fn hash_pair(a: HashValue, b: HashValue) -> HashValue {
    keccak256(pair_bytes(a, b))
}

/// The root reached from `node` by combining it with each proof element in turn.
pub open spec fn compute_root(node: HashValue, proof: Seq<HashValue>) -> HashValue
    decreases proof.len(),
{
    if proof.len() == 0 {
        node
    } else {
        compute_root(hash_pair(node, proof[0]), proof.drop_first())
    }
}

/// Two byte strings of the same length are ordered one way or the other,
/// and both ways only when they are equal.
pub proof fn lemma_lex_total(a: Seq<u8>, b: Seq<u8>)
    requires
        a.len() == b.len(),
    ensures
        lex_le(a, b) || lex_le(b, a),
        lex_le(a, b) && lex_le(b, a) ==> a == b,
    decreases a.len(),
{
    if a.len() > 0 && a[0] == b[0] {
        let (ta, tb) = (a.drop_first(), b.drop_first());
        lemma_lex_total(ta, tb);
        if ta == tb {
            assert forall|i: int| 0 <= i < a.len() implies a[i] == b[i] by {
                if i > 0 {
                    assert(a[i] == ta[i - 1]);
                    assert(b[i] == tb[i - 1]);
                }
            }
            assert(a =~= b);
        }
    } else if a.len() == 0 {
        assert(a =~= b);
    }
}

/// The parent of two nodes does not depend on their order.
pub proof fn lemma_hash_pair_commutes(a: HashValue, b: HashValue)
    ensures
        hash_pair(a, b) == hash_pair(b, a),
{
    lemma_lex_total(a@, b@);
    if lex_le(a@, b@) && lex_le(b@, a@) {
        assert(a == b) by {
            assert(a =~= b);
        }
    }
}

/// Whether `a <= b` in lexicographic order.
fn hash_le(a: &HashValue, b: &HashValue) -> (r: bool)
    ensures
        r == lex_le(a@, b@),
{
    let mut i: usize = 0;
    assert(a@.skip(0) =~= a@);
    assert(b@.skip(0) =~= b@);
    while i < 32
        invariant
            i <= 32,
            a@.len() == 32,
            b@.len() == 32,
            lex_le(a@, b@) == lex_le(a@.skip(i as int), b@.skip(i as int)),
        decreases 32 - i,
    {
        assert(a@.skip(i as int).drop_first() =~= a@.skip(i + 1));
        assert(b@.skip(i as int).drop_first() =~= b@.skip(i + 1));
        if a[i] != b[i] {
            return a[i] < b[i];
        }
        i = i + 1;
    }
    true
}

/// Whether two hashes are equal, byte by byte.
pub fn bytes_eq(a: &HashValue, b: &HashValue) -> (r: bool)
    ensures
        r == (*a == *b),
{
    let mut i: usize = 0;
    while i < 32
        invariant
            i <= 32,
            forall|j: int| 0 <= j < i ==> a@[j] == b@[j],
        decreases 32 - i,
    {
        if a[i] != b[i] {
            return false;
        }
        i = i + 1;
    }
    assert(*a =~= *b);
    true
}

/// Appends the bytes of `src` to `dst`.
pub(crate) fn extend_bytes(dst: &mut Vec<u8>, src: &[u8])
    ensures
        final(dst)@ == old(dst)@ + src@,
{
    let mut i: usize = 0;
    while i < src.len()
        invariant
            i <= src@.len(),
            dst@ == old(dst)@ + src@.take(i as int),
        decreases src@.len() - i,
    {
        dst.push(src[i]);
        i = i + 1;
        assert(src@.take(i as int) =~= src@.take(i - 1) + seq![src@[i - 1]]);
    }
    assert(src@.take(i as int) =~= src@);
}

/// The parent of two nodes.
pub fn parent(a: &HashValue, b: &HashValue) -> (r: HashValue)
    ensures
        r == hash_pair(*a, *b),
{
    let mut data: Vec<u8> = Vec::new();
    if hash_le(a, b) {
        extend_bytes(&mut data, a.as_slice());
        extend_bytes(&mut data, b.as_slice());
    } else {
        extend_bytes(&mut data, b.as_slice());
        extend_bytes(&mut data, a.as_slice());
    }
    keccak_hash(data.as_slice())
}

/// Whether `proof` leads from `leaf` to `root`.
pub fn verify(proof: Vec<HashValue>, root: HashValue, leaf: HashValue) -> (r: bool)
    ensures
        r == (compute_root(leaf, proof@) == root),
{
    let mut computed: HashValue = leaf;
    let mut i: usize = 0;
    assert(proof@.skip(0) =~= proof@);
    while i < proof.len()
        invariant
            i <= proof@.len(),
            compute_root(computed, proof@.skip(i as int)) == compute_root(leaf, proof@),
        decreases proof@.len() - i,
    {
        assert(proof@.skip(i as int).drop_first() =~= proof@.skip(i + 1));
        computed = parent(&computed, &proof[i]);
        i = i + 1;
    }
    assert(proof@.skip(i as int) =~= Seq::<HashValue>::empty());
    bytes_eq(&computed, &root)
}

/// The `n` low-order bytes of `x`, least significant first.
pub open spec fn le_bytes(x: nat, n: nat) -> Seq<u8>
    decreases n,
{
    if n == 0 {
        Seq::empty()
    } else {
        seq![(x % 256) as u8] + le_bytes(x / 256, (n - 1) as nat)
    }
}

/// Appends the eight little-endian bytes of `x` to `dst`.
fn extend_u64_le(dst: &mut Vec<u8>, x: u64)
    ensures
        final(dst)@ == old(dst)@ + le_bytes(x as nat, 8),
{
    let mut v: u64 = x;
    let mut i: usize = 0;
    while i < 8
        invariant
            i <= 8,
            dst@ + le_bytes(v as nat, (8 - i) as nat) == old(dst)@ + le_bytes(x as nat, 8),
        decreases 8 - i,
    {
        let ghost before = dst@;
        dst.push((v % 256) as u8);
        assert(le_bytes(v as nat, (8 - i) as nat) == seq![(v % 256) as u8] + le_bytes(
            (v / 256) as nat,
            (8 - i - 1) as nat,
        ));
        assert(before + (seq![(v % 256) as u8] + le_bytes((v / 256) as nat, (8 - i - 1) as nat))
            =~= dst@ + le_bytes((v / 256) as nat, (8 - i - 1) as nat));
        v = v / 256;
        i = i + 1;
    }
    assert(le_bytes(v as nat, 0) =~= Seq::<u8>::empty());
    assert(dst@ + Seq::<u8>::empty() =~= dst@);
}

/// The bytes that a leaf commits to: index, claimant and amount.
pub open spec fn entry_bytes(index: u64, claimant: [u8; 32], amount: u64) -> Seq<u8> {
    le_bytes(index as nat, 8) + claimant@ + le_bytes(amount as nat, 8)
}

/// The leaf of the entry `(index, claimant, amount)`.
pub open spec fn leaf_of(index: u64, claimant: [u8; 32], amount: u64) -> HashValue {
    keccak256(entry_bytes(index, claimant, amount))
}

/// The leaf of an entitlement: the digest of the index and the amount in
/// little-endian order around the claimant's key.
pub fn leaf_hash(index: u64, claimant: &[u8; 32], amount: u64) -> (r: HashValue)
    ensures
        r == leaf_of(index, *claimant, amount),
{
    let mut data: Vec<u8> = Vec::new();
    extend_u64_le(&mut data, index);
    extend_bytes(&mut data, claimant.as_slice());
    extend_u64_le(&mut data, amount);
    assert(data@ =~= entry_bytes(index, *claimant, amount));
    keccak_hash(data.as_slice())
}

/// The level above `level`: each pair hashed into its parent, a last node
/// without a sibling carried up as it is.
pub open spec fn next_level(level: Seq<HashValue>) -> Seq<HashValue> {
    Seq::new(
        ((level.len() + 1) / 2) as nat,
        |k: int|
            if 2 * k + 1 < level.len() {
                hash_pair(level[2 * k], level[2 * k + 1])
            } else {
                level[2 * k]
            },
    )
}

/// The root of the tree whose lowest level is `level` (not empty).
pub open spec fn tree_root(level: Seq<HashValue>) -> HashValue
    decreases level.len(),
{
    if level.len() <= 1 {
        level[0]
    } else {
        tree_root(next_level(level))
    }
}

/// The sibling of node `i` of `level`, if it has one.
pub open spec fn sibling(level: Seq<HashValue>, i: int) -> Seq<HashValue> {
    if i % 2 == 1 {
        seq![level[i - 1]]
    } else if i + 1 < level.len() {
        seq![level[i + 1]]
    } else {
        Seq::empty()
    }
}

/// The proof of node `i` of `level`: its sibling, then the proof of its
/// parent one level up.
pub open spec fn tree_proof(level: Seq<HashValue>, i: int) -> Seq<HashValue>
    decreases level.len(),
{
    if level.len() <= 1 {
        Seq::empty()
    } else {
        sibling(level, i) + tree_proof(next_level(level), i / 2)
    }
}

/// The proof that the tree gives for any of its leaves leads from that leaf
/// to the tree's root.
pub proof fn lemma_tree_proof_leads_to_root(level: Seq<HashValue>, i: int)
    requires
        0 <= i < level.len(),
    ensures
        compute_root(level[i], tree_proof(level, i)) == tree_root(level),
    decreases level.len(),
{
    if level.len() > 1 {
        let up = next_level(level);
        let rest = tree_proof(up, i / 2);
        lemma_tree_proof_leads_to_root(up, i / 2);
        let sib = sibling(level, i);
        if sib.len() == 0 {
            assert(sib + rest =~= rest);
        } else {
            assert((sib + rest).drop_first() =~= rest);
            if i % 2 == 1 {
                lemma_hash_pair_commutes(level[i], level[i - 1]);
            }
        }
    }
}

/// The leaves of a list of entries.
pub open spec fn entry_leaves(entries: Seq<(u64, [u8; 32], u64)>) -> Seq<HashValue> {
    entries.map_values(|e: (u64, [u8; 32], u64)| leaf_of(e.0, e.1, e.2))
}

/// Completeness: over any list of entries, the tree built from their leaves
/// gives each entry a proof that `verify` accepts against the tree's root.
pub proof fn lemma_every_entry_has_a_proof(entries: Seq<(u64, [u8; 32], u64)>, i: int)
    requires
        0 <= i < entries.len(),
    ensures
        compute_root(
            leaf_of(entries[i].0, entries[i].1, entries[i].2),
            tree_proof(entry_leaves(entries), i),
        ) == tree_root(entry_leaves(entries)),
{
    lemma_tree_proof_leads_to_root(entry_leaves(entries), i);
}

/// The level `h` steps above `leaves`.
pub open spec fn level_at(leaves: Seq<HashValue>, h: nat) -> Seq<HashValue>
    decreases h,
{
    if h == 0 {
        leaves
    } else {
        next_level(level_at(leaves, (h - 1) as nat))
    }
}

proof fn lemma_root_at_some_level(leaves: Seq<HashValue>, h: nat) -> (top: nat)
    requires
        level_at(leaves, h).len() >= 1,
        tree_root(level_at(leaves, h)) == tree_root(leaves),
    ensures
        level_at(leaves, top).len() >= 1,
        tree_root(leaves) == level_at(leaves, top)[0],
    decreases level_at(leaves, h).len(),
{
    let lv = level_at(leaves, h);
    if lv.len() <= 1 {
        h
    } else {
        assert(level_at(leaves, h + 1) == next_level(lv));
        lemma_root_at_some_level(leaves, h + 1)
    }
}

proof fn lemma_compute_root_last(node: HashValue, proof: Seq<HashValue>)
    requires
        proof.len() > 0,
    ensures
        compute_root(node, proof) == hash_pair(compute_root(node, proof.drop_last()), proof.last()),
    decreases proof.len(),
{
    let up = hash_pair(node, proof[0]);
    assert(compute_root(node, proof) == compute_root(up, proof.drop_first()));
    if proof.len() == 1 {
        assert(proof.drop_first() =~= Seq::<HashValue>::empty());
        assert(proof.drop_last() =~= Seq::<HashValue>::empty());
        assert(compute_root(up, proof.drop_first()) == up);
        assert(compute_root(node, proof.drop_last()) == node);
    } else {
        let (df, dl) = (proof.drop_first(), proof.drop_last());
        lemma_compute_root_last(up, df);
        assert(df.drop_last() =~= dl.drop_first());
        assert(dl[0] == proof[0]);
        assert(df.last() == proof.last());
        assert(compute_root(node, dl) == compute_root(hash_pair(node, dl[0]), dl.drop_first()));
    }
}

proof fn lemma_split_halves(u: HashValue, v: HashValue, w: HashValue, y: HashValue)
    requires
        u@ + v@ == w@ + y@,
    ensures
        u == w,
        v == y,
{
    assert((u@ + v@).subrange(0, 32) =~= u@);
    assert((w@ + y@).subrange(0, 32) =~= w@);
    assert((u@ + v@).subrange(32, 64) =~= v@);
    assert((w@ + y@).subrange(32, 64) =~= y@);
    assert(u =~= w);
    assert(v =~= y);
}

proof fn lemma_pair_member(z: HashValue, s: HashValue, a: HashValue, b: HashValue)
    requires
        pair_bytes(z, s) == pair_bytes(a, b),
    ensures
        z == a || z == b,
{
    if lex_le(z@, s@) {
        if lex_le(a@, b@) {
            lemma_split_halves(z, s, a, b);
        } else {
            lemma_split_halves(z, s, b, a);
        }
    } else {
        if lex_le(a@, b@) {
            lemma_split_halves(s, z, a, b);
        } else {
            lemma_split_halves(s, z, b, a);
        }
    }
}

proof fn lemma_le_bytes_len(x: nat, n: nat)
    ensures
        le_bytes(x, n).len() == n,
    decreases n,
{
    if n > 0 {
        lemma_le_bytes_len(x / 256, (n - 1) as nat);
    }
}

/// `256` to the power `n`.
pub open spec fn pow256(n: nat) -> nat
    decreases n,
{
    if n == 0 {
        1
    } else {
        256 * pow256((n - 1) as nat)
    }
}

proof fn lemma_le_bytes_injective(x: nat, y: nat, n: nat)
    requires
        x < pow256(n),
        y < pow256(n),
        le_bytes(x, n) == le_bytes(y, n),
    ensures
        x == y,
    decreases n,
{
    if n > 0 {
        let m = (n - 1) as nat;
        let p = pow256(m);
        assert(le_bytes(x, n)[0] == (x % 256) as u8);
        assert(le_bytes(y, n)[0] == (y % 256) as u8);
        assert(x % 256 == y % 256);
        assert(le_bytes(x, n).drop_first() =~= le_bytes(x / 256, m));
        assert(le_bytes(y, n).drop_first() =~= le_bytes(y / 256, m));
        assert(x / 256 < p) by (nonlinear_arith)
            requires
                x < 256 * p,
        ;
        assert(y / 256 < p) by (nonlinear_arith)
            requires
                y < 256 * p,
        ;
        lemma_le_bytes_injective(x / 256, y / 256, m);
        assert(x == 256 * (x / 256) + x % 256);
        assert(y == 256 * (y / 256) + y % 256);
    }
}

proof fn lemma_u64_below_pow256_8(x: u64)
    ensures
        (x as nat) < pow256(8),
{
    assert(pow256(0) == 1);
    assert(pow256(1) == 256);
    assert(pow256(2) == 65536);
    assert(pow256(3) == 16777216);
    assert(pow256(4) == 4294967296);
    assert(pow256(5) == 1099511627776);
    assert(pow256(6) == 281474976710656);
    assert(pow256(7) == 72057594037927936);
    assert(pow256(8) == 18446744073709551616);
}

proof fn lemma_entry_bytes_len(index: u64, claimant: [u8; 32], amount: u64)
    ensures
        entry_bytes(index, claimant, amount).len() == 48,
{
    lemma_le_bytes_len(index as nat, 8);
    lemma_le_bytes_len(amount as nat, 8);
}

proof fn lemma_entry_bytes_injective(e: (u64, [u8; 32], u64), f: (u64, [u8; 32], u64))
    requires
        entry_bytes(e.0, e.1, e.2) == entry_bytes(f.0, f.1, f.2),
    ensures
        e == f,
{
    let (be, bf) = (entry_bytes(e.0, e.1, e.2), entry_bytes(f.0, f.1, f.2));
    lemma_le_bytes_len(e.0 as nat, 8);
    lemma_le_bytes_len(e.2 as nat, 8);
    lemma_le_bytes_len(f.0 as nat, 8);
    lemma_le_bytes_len(f.2 as nat, 8);
    assert(be.subrange(0, 8) =~= le_bytes(e.0 as nat, 8));
    assert(bf.subrange(0, 8) =~= le_bytes(f.0 as nat, 8));
    assert(be.subrange(8, 40) =~= e.1@);
    assert(bf.subrange(8, 40) =~= f.1@);
    assert(be.subrange(40, 48) =~= le_bytes(e.2 as nat, 8));
    assert(bf.subrange(40, 48) =~= le_bytes(f.2 as nat, 8));
    lemma_u64_below_pow256_8(e.0);
    lemma_u64_below_pow256_8(f.0);
    lemma_u64_below_pow256_8(e.2);
    lemma_u64_below_pow256_8(f.2);
    lemma_le_bytes_injective(e.0 as nat, f.0 as nat, 8);
    lemma_le_bytes_injective(e.2 as nat, f.2 as nat, 8);
    assert(e.1 =~= f.1);
}

proof fn lemma_path_reaches_entry(
    entries: Seq<(u64, [u8; 32], u64)>,
    h: nat,
    j: int,
    e: (u64, [u8; 32], u64),
    proof: Seq<HashValue>,
)
    requires
        forall|x: Seq<u8>, y: Seq<u8>| #[trigger] keccak256(x) == #[trigger] keccak256(y) ==> x == y,
        0 <= j < level_at(entry_leaves(entries), h).len(),
        compute_root(leaf_of(e.0, e.1, e.2), proof) == level_at(entry_leaves(entries), h)[j],
    ensures
        entries.contains(e),
    decreases proof.len(), h,
{
    let leaves = entry_leaves(entries);
    let x = leaf_of(e.0, e.1, e.2);
    let node = level_at(leaves, h)[j];
    lemma_entry_bytes_len(e.0, e.1, e.2);
    if proof.len() > 0 {
        lemma_compute_root_last(x, proof);
        let z = compute_root(x, proof.drop_last());
        assert(pair_bytes(z, proof.last()).len() == 64);
    }
    if h == 0 {
        let f = entries[j];
        lemma_entry_bytes_len(f.0, f.1, f.2);
        assert(node == keccak256(entry_bytes(f.0, f.1, f.2)));
        if proof.len() == 0 {
            lemma_entry_bytes_injective(e, f);
            assert(entries[j] == e);
        } else {
            let z = compute_root(x, proof.drop_last());
            assert(pair_bytes(z, proof.last()) == entry_bytes(f.0, f.1, f.2));
        }
    } else {
        let lower = level_at(leaves, (h - 1) as nat);
        assert(level_at(leaves, h) == next_level(lower));
        assert(2 * j < lower.len()) by (nonlinear_arith)
            requires
                j < (lower.len() + 1) / 2,
        ;
        if 2 * j + 1 < lower.len() {
            let (a, b) = (lower[2 * j], lower[2 * j + 1]);
            assert(node == keccak256(pair_bytes(a, b)));
            assert(pair_bytes(a, b).len() == 64);
            if proof.len() == 0 {
                assert(entry_bytes(e.0, e.1, e.2) == pair_bytes(a, b));
            } else {
                let z = compute_root(x, proof.drop_last());
                lemma_pair_member(z, proof.last(), a, b);
                if z == a {
                    lemma_path_reaches_entry(entries, (h - 1) as nat, 2 * j, e, proof.drop_last());
                } else {
                    lemma_path_reaches_entry(entries, (h - 1) as nat, 2 * j + 1, e, proof.drop_last());
                }
            }
        } else {
            lemma_path_reaches_entry(entries, (h - 1) as nat, 2 * j, e, proof);
        }
    }
}

/// Soundness: a proof that leads from the leaf of an entry outside the list
/// to the root of the list's tree exhibits two different byte strings with
/// the same Keccak-256 digest. Without such a collision, no proof makes
/// `verify` accept an entry that was not committed.
pub proof fn lemma_outsider_proof_gives_collision(
    entries: Seq<(u64, [u8; 32], u64)>,
    e: (u64, [u8; 32], u64),
    proof: Seq<HashValue>,
)
    requires
        entries.len() >= 1,
        !entries.contains(e),
        compute_root(leaf_of(e.0, e.1, e.2), proof) == tree_root(entry_leaves(entries)),
    ensures
        exists|x: Seq<u8>, y: Seq<u8>| x != y && keccak256(x) == keccak256(y),
{
    if !(exists|x: Seq<u8>, y: Seq<u8>| x != y && keccak256(x) == keccak256(y)) {
        assert forall|x: Seq<u8>, y: Seq<u8>| #[trigger] keccak256(x) == #[trigger] keccak256(y) implies x == y by {
            if x != y {
                assert(x != y && keccak256(x) == keccak256(y));
            }
        }
        let leaves = entry_leaves(entries);
        let top = lemma_root_at_some_level(leaves, 0);
        lemma_path_reaches_entry(entries, top, 0, e, proof);
    }
}

proof fn lemma_pair_bytes_commutes(a: HashValue, b: HashValue)
    ensures
        pair_bytes(a, b) == pair_bytes(b, a),
{
    lemma_lex_total(a@, b@);
    if lex_le(a@, b@) && lex_le(b@, a@) {
        assert(a =~= b);
    }
}

proof fn lemma_pair_cancel(z: HashValue, w: HashValue, s: HashValue)
    requires
        pair_bytes(z, s) == pair_bytes(w, s),
    ensures
        z == w,
{
    lemma_pair_member(z, s, w, s);
    lemma_pair_member(w, s, z, s);
}

proof fn lemma_distinct_nodes_stay_distinct(y: HashValue, w: HashValue, proof: Seq<HashValue>)
    requires
        forall|x: Seq<u8>, v: Seq<u8>| #[trigger] keccak256(x) == #[trigger] keccak256(v) ==> x == v,
        y != w,
    ensures
        compute_root(y, proof) != compute_root(w, proof),
    decreases proof.len(),
{
    if proof.len() > 0 {
        if pair_bytes(y, proof[0]) == pair_bytes(w, proof[0]) {
            lemma_pair_cancel(y, w, proof[0]);
        }
        lemma_distinct_nodes_stay_distinct(
            hash_pair(y, proof[0]),
            hash_pair(w, proof[0]),
            proof.drop_first(),
        );
    }
}

proof fn lemma_altered_element_changes_root(
    node: HashValue,
    proof: Seq<HashValue>,
    k: int,
    s: HashValue,
)
    requires
        forall|x: Seq<u8>, v: Seq<u8>| #[trigger] keccak256(x) == #[trigger] keccak256(v) ==> x == v,
        0 <= k < proof.len(),
        s != proof[k],
    ensures
        compute_root(node, proof.update(k, s)) != compute_root(node, proof),
    decreases k,
{
    let altered = proof.update(k, s);
    if k == 0 {
        if pair_bytes(node, s) == pair_bytes(node, proof[0]) {
            lemma_pair_bytes_commutes(node, s);
            lemma_pair_bytes_commutes(node, proof[0]);
            lemma_pair_cancel(s, proof[0], node);
        }
        assert(altered.drop_first() =~= proof.drop_first());
        lemma_distinct_nodes_stay_distinct(
            hash_pair(node, s),
            hash_pair(node, proof[0]),
            proof.drop_first(),
        );
    } else {
        assert(altered.drop_first() =~= proof.drop_first().update(k - 1, s));
        lemma_altered_element_changes_root(hash_pair(node, proof[0]), proof.drop_first(), k - 1, s);
    }
}

/// Soundness against a changed leaf: if `proof` leads from `leaf` to `root`,
/// a proof that leads from any other leaf to `root` along the same path
/// exhibits two different byte strings with the same Keccak-256 digest.
pub proof fn lemma_altered_leaf_gives_collision(
    proof: Seq<HashValue>,
    root: HashValue,
    leaf: HashValue,
    other: HashValue,
)
    requires
        compute_root(leaf, proof) == root,
        other != leaf,
        compute_root(other, proof) == root,
    ensures
        exists|x: Seq<u8>, y: Seq<u8>| x != y && keccak256(x) == keccak256(y),
{
    if !(exists|x: Seq<u8>, y: Seq<u8>| x != y && keccak256(x) == keccak256(y)) {
        assert forall|x: Seq<u8>, y: Seq<u8>| #[trigger] keccak256(x) == #[trigger] keccak256(y) implies x == y by {
            if x != y {
                assert(x != y && keccak256(x) == keccak256(y));
            }
        }
        lemma_distinct_nodes_stay_distinct(leaf, other, proof);
    }
}

/// Soundness against a changed proof: if `proof` leads from `leaf` to
/// `root`, the same proof with element `k` replaced by another value that
/// still leads to `root` exhibits two different byte strings with the same
/// Keccak-256 digest.
pub proof fn lemma_altered_proof_gives_collision(
    proof: Seq<HashValue>,
    root: HashValue,
    leaf: HashValue,
    k: int,
    s: HashValue,
)
    requires
        compute_root(leaf, proof) == root,
        0 <= k < proof.len(),
        s != proof[k],
        compute_root(leaf, proof.update(k, s)) == root,
    ensures
        exists|x: Seq<u8>, y: Seq<u8>| x != y && keccak256(x) == keccak256(y),
{
    if !(exists|x: Seq<u8>, y: Seq<u8>| x != y && keccak256(x) == keccak256(y)) {
        assert forall|x: Seq<u8>, y: Seq<u8>| #[trigger] keccak256(x) == #[trigger] keccak256(y) implies x == y by {
            if x != y {
                assert(x != y && keccak256(x) == keccak256(y));
            }
        }
        lemma_altered_element_changes_root(leaf, proof, k, s);
    }
}

/// A copy of a list of hashes.
fn copy_hashes(v: &Vec<HashValue>) -> (r: Vec<HashValue>)
    ensures
        r@ == v@,
{
    let mut r: Vec<HashValue> = Vec::new();
    let mut i: usize = 0;
    while i < v.len()
        invariant
            i <= v@.len(),
            r@ == v@.take(i as int),
        decreases v@.len() - i,
    {
        r.push(v[i]);
        i = i + 1;
        assert(r@ =~= v@.take(i as int));
    }
    assert(v@.take(i as int) =~= v@);
    r
}

/// The level above `level`.
fn build_next_level(level: &Vec<HashValue>) -> (r: Vec<HashValue>)
    ensures
        r@ == next_level(level@),
{
    let mut r: Vec<HashValue> = Vec::new();
    let n: usize = level.len() / 2 + level.len() % 2;
    let mut k: usize = 0;
    while k < n
        invariant
            n == (level@.len() + 1) / 2,
            k <= n,
            r@.len() == k,
            forall|j: int| 0 <= j < k ==> r@[j] == next_level(level@)[j],
        decreases n - k,
    {
        assert(2 * k < level@.len()) by (nonlinear_arith)
            requires
                k < n,
                n == (level@.len() + 1) / 2,
        ;
        let len: usize = level.len();
        let j: usize = 2 * k;
        if j < len - 1 {
            let p = parent(&level[j], &level[j + 1]);
            r.push(p);
        } else {
            r.push(level[j]);
        }
        k = k + 1;
    }
    assert(r@ =~= next_level(level@));
    r
}

/// The root of the tree over `leaves`.
pub fn merkle_root(leaves: &Vec<HashValue>) -> (r: HashValue)
    requires
        leaves@.len() >= 1,
    ensures
        r == tree_root(leaves@),
{
    let mut level = copy_hashes(leaves);
    while level.len() > 1
        invariant
            level@.len() >= 1,
            tree_root(level@) == tree_root(leaves@),
        decreases level@.len(),
    {
        level = build_next_level(&level);
    }
    level[0]
}

/// The proof of leaf `index` in the tree over `leaves`.
pub fn merkle_proof_for(leaves: &Vec<HashValue>, index: usize) -> (r: Vec<HashValue>)
    requires
        index < leaves@.len(),
    ensures
        r@ == tree_proof(leaves@, index as int),
{
    let mut level = copy_hashes(leaves);
    let mut i: usize = index;
    let mut proof: Vec<HashValue> = Vec::new();
    while level.len() > 1
        invariant
            i < level@.len(),
            proof@ + tree_proof(level@, i as int) == tree_proof(leaves@, index as int),
        decreases level@.len(),
    {
        let ghost before = proof@;
        if i % 2 == 1 {
            proof.push(level[i - 1]);
        } else if i + 1 < level.len() {
            proof.push(level[i + 1]);
        }
        assert(before + sibling(level@, i as int) =~= proof@);
        assert(before + (sibling(level@, i as int) + tree_proof(next_level(level@), (i / 2) as int)) =~= proof@
            + tree_proof(next_level(level@), (i / 2) as int));
        level = build_next_level(&level);
        i = i / 2;
    }
    assert(proof@ + Seq::<HashValue>::empty() =~= proof@);
    proof
}

} // verus!
