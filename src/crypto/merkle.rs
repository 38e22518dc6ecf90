//! A binary Merkle commitment over an ordered list of numbers. Adjacent
//! nodes are hashed in pairs; the last node of an odd layer is carried up
//! unchanged, so a single leaf is its own root.
use vstd::prelude::*;
use crate::crypto::hash_functions::{digest_of, HashFunction};
use crate::utils::encoding::{canonical, Natural};

verus! {

/// The parent of `a` and `b`: the digest of their concatenated minimal
/// big-endian bytes, read back as a number (not reduced modulo `P`).
pub open spec fn combine(alg: HashFunction, a: Seq<u8>, b: Seq<u8>) -> Seq<u8> {
    canonical(digest_of(alg, a + b))
}

/// The layer above `level`.
pub open spec fn next_level(alg: HashFunction, level: Seq<Seq<u8>>) -> Seq<Seq<u8>> {
    Seq::new(
        ((level.len() + 1) / 2) as nat,
        |j: int|
            if 2 * j + 1 < level.len() {
                combine(alg, level[2 * j], level[2 * j + 1])
            } else {
                level[2 * j]
            },
    )
}

/// All layers from `level` up to the root layer; none for no leaves.
pub open spec fn layers(alg: HashFunction, level: Seq<Seq<u8>>) -> Seq<Seq<Seq<u8>>>
    decreases level.len(),
{
    if level.len() == 0 {
        seq![]
    } else if level.len() == 1 {
        seq![level]
    } else {
        seq![level] + layers(alg, next_level(alg, level))
    }
}

/// The root over a non-empty `level`.
pub open spec fn root_of(alg: HashFunction, level: Seq<Seq<u8>>) -> Seq<u8>
    decreases level.len(),
{
    if level.len() <= 1 {
        level[0]
    } else {
        root_of(alg, next_level(alg, level))
    }
}

/// The inclusion proof of node `idx`: per layer below the root, its sibling
/// and whether the node is the left operand; no entry where it has none.
pub open spec fn proof_path(alg: HashFunction, level: Seq<Seq<u8>>, idx: nat) -> Seq<(Seq<u8>, bool)>
    decreases level.len(),
{
    if level.len() <= 1 {
        seq![]
    } else {
        let sib: int = if idx % 2 == 0 { (idx + 1) as int } else { idx - 1int };
        let here = if sib < level.len() { seq![(level[sib], idx % 2 == 0)] } else { seq![] };
        here + proof_path(alg, next_level(alg, level), idx / 2)
    }
}

/// One step up a proof path.
pub open spec fn climb(alg: HashFunction, h: Seq<u8>, step: (Seq<u8>, bool)) -> Seq<u8> {
    if step.1 {
        combine(alg, h, step.0)
    } else {
        combine(alg, step.0, h)
    }
}

/// The value reached from `h` along `proof`.
pub open spec fn replay(alg: HashFunction, h: Seq<u8>, proof: Seq<(Seq<u8>, bool)>) -> Seq<u8>
    decreases proof.len(),
{
    if proof.len() == 0 {
        h
    } else {
        replay(alg, climb(alg, h, proof[0]), proof.drop_first())
    }
}

/// The numbers of a list of nodes.
pub open spec fn nodes_view(v: Seq<Natural>) -> Seq<Seq<u8>> {
    v.map_values(|n: Natural| n@)
}

/// The numbers of a list of layers.
pub open spec fn layers_view(t: Seq<Vec<Natural>>) -> Seq<Seq<Seq<u8>>> {
    t.map_values(|l: Vec<Natural>| nodes_view(l@))
}

/// The numbers of a proof.
pub open spec fn path_view(p: Seq<(Natural, bool)>) -> Seq<(Seq<u8>, bool)> {
    p.map_values(|e: (Natural, bool)| (e.0@, e.1))
}

/// Replaying a concatenated path replays its parts in turn.
proof fn lemma_replay_append(alg: HashFunction, h: Seq<u8>, a: Seq<(Seq<u8>, bool)>, b: Seq<(Seq<u8>, bool)>)
    ensures
        replay(alg, h, a + b) == replay(alg, replay(alg, h, a), b),
    decreases a.len(),
{
    if a.len() == 0 {
        assert(a + b =~= b);
    } else {
        assert((a + b).drop_first() =~= a.drop_first() + b);
        lemma_replay_append(alg, climb(alg, h, a[0]), a.drop_first(), b);
    }
}

/// Every leaf's proof leads from the leaf to the root.
pub proof fn lemma_proof_round_trip(alg: HashFunction, level: Seq<Seq<u8>>, idx: nat)
    requires
        idx < level.len(),
    ensures
        replay(alg, level[idx as int], proof_path(alg, level, idx)) == root_of(alg, level),
    decreases level.len(),
{
    if level.len() > 1 {
        let next = next_level(alg, level);
        let sib: int = if idx % 2 == 0 { (idx + 1) as int } else { idx - 1int };
        let here = if sib < level.len() { seq![(level[sib], idx % 2 == 0)] } else { seq![] };
        lemma_replay_append(alg, level[idx as int], here, proof_path(alg, next, idx / 2));
        if sib < level.len() {
            assert(here.drop_first() =~= seq![]);
            let up = climb(alg, level[idx as int], here[0]);
            assert(replay(alg, up, here.drop_first()) == up);
            assert(replay(alg, level[idx as int], here) == up);
            if idx % 2 == 0 {
                assert(2 * (idx / 2) == idx);
            } else {
                assert(2 * (idx / 2) + 1 == idx);
            }
        } else {
            assert(2 * (idx / 2) == idx);
        }
        assert(replay(alg, level[idx as int], here) == next[(idx / 2) as int]);
        lemma_proof_round_trip(alg, next, idx / 2);
    }
}

/// The shape of the stored layers: each is the one below it one level up,
/// the last holds the root alone, and all share the root.
proof fn lemma_layers_shape(alg: HashFunction, level: Seq<Seq<u8>>, i: int)
    requires
        level.len() > 0,
        0 <= i < layers(alg, level).len(),
    ensures
        layers(alg, level)[i].len() > 0,
        i == 0 ==> layers(alg, level)[0] == level,
        i + 1 < layers(alg, level).len() ==> layers(alg, level)[i].len() > 1 && layers(alg, level)[i
            + 1] == next_level(alg, layers(alg, level)[i]),
        i + 1 == layers(alg, level).len() ==> layers(alg, level)[i].len() == 1,
        root_of(alg, layers(alg, level)[i]) == root_of(alg, level),
    decreases level.len(),
{
    if level.len() > 1 {
        let next = next_level(alg, level);
        lemma_layers_shape(alg, next, 0);
        if i > 0 {
            lemma_layers_shape(alg, next, i - 1);
        }
    }
}

/// The layers are never empty, and the last one is the root alone.
proof fn lemma_layers_root(alg: HashFunction, level: Seq<Seq<u8>>)
    requires
        level.len() > 0,
    ensures
        layers(alg, level).len() > 0,
        layers(alg, level).last() == seq![root_of(alg, level)],
    decreases level.len(),
{
    if level.len() > 1 {
        lemma_layers_root(alg, next_level(alg, level));
    } else {
        assert(level =~= seq![level[0]]);
    }
}

/// A copy of each node.
fn copy_nodes(v: &Vec<Natural>) -> (r: Vec<Natural>)
    ensures
        nodes_view(r@) == nodes_view(v@),
{
    let mut out: Vec<Natural> = Vec::new();
    let mut i: usize = 0;
    while i < v.len()
        invariant
            i <= v@.len(),
            nodes_view(out@) =~= nodes_view(v@).take(i as int),
        decreases v@.len() - i,
    {
        let d = v[i].duplicate();
        proof {
            assert(nodes_view(out@.push(d)) =~= nodes_view(out@).push(d@));
        }
        out.push(d);
        i = i + 1;
    }
    proof {
        assert(nodes_view(v@).take(v@.len() as int) =~= nodes_view(v@));
    }
    out
}

/// A Merkle tree: its leaves and every layer up to the root.
#[derive(Debug)]
pub struct MerkleTree {
    leaves: Vec<Natural>,
    tree: Vec<Vec<Natural>>,
    hash_function: HashFunction,
}

impl MerkleTree {
    /// The leaves' numbers.
    pub closed spec fn leaves_view(&self) -> Seq<Seq<u8>> {
        nodes_view(self.leaves@)
    }

    /// The digest algorithm.
    pub closed spec fn algorithm(&self) -> HashFunction {
        self.hash_function
    }

    /// The stored layers are those of the leaves.
    #[verifier::type_invariant]
    closed spec fn inv(&self) -> bool {
        layers_view(self.tree@) == layers(self.hash_function, nodes_view(self.leaves@))
    }

    /// The parent of two nodes.
    fn hash_two(a: &Natural, b: &Natural, hash_function: &HashFunction) -> (r: Natural)
        ensures
            r@ == combine(*hash_function, a@, b@),
    {
        let mut data = a.to_bytes_be();
        let mut tail = b.to_bytes_be();
        data.append(&mut tail);
        let hash = crate::crypto::hash_functions::Hash::new(*hash_function).compute(data.as_slice());
        Natural::from_bytes_be(hash.as_slice())
    }

    /// The layer above `level`.
    fn next_layer(level: &Vec<Natural>, hash_function: &HashFunction) -> (r: Vec<Natural>)
        ensures
            nodes_view(r@) == next_level(*hash_function, nodes_view(level@)),
    {
        let ghost lv = nodes_view(level@);
        let n = level.len();
        let half = n / 2 + n % 2;
        let mut out: Vec<Natural> = Vec::new();
        let mut j: usize = 0;
        while j < half
            invariant
                n == level@.len(),
                half == (n + 1) / 2,
                j <= half,
                lv == nodes_view(level@),
                nodes_view(out@) =~= next_level(*hash_function, lv).take(j as int),
            decreases half - j,
        {
            let node = if 2 * j + 1 < n {
                Self::hash_two(&level[2 * j], &level[2 * j + 1], hash_function)
            } else {
                level[2 * j].duplicate()
            };
            proof {
                assert(nodes_view(out@.push(node)) =~= nodes_view(out@).push(node@));
            }
            out.push(node);
            j = j + 1;
        }
        proof {
            assert(next_level(*hash_function, lv).take(half as int) =~= next_level(*hash_function, lv));
        }
        out
    }

    /// Builds every layer over `leaves`.
    pub fn new(leaves: Vec<Natural>, hash_function: HashFunction) -> (r: Self)
        ensures
            r.leaves_view() == nodes_view(leaves@),
            r.algorithm() == hash_function,
    {
        let ghost lv = nodes_view(leaves@);
        let mut tree: Vec<Vec<Natural>> = Vec::new();
        let mut level = copy_nodes(&leaves);
        while level.len() > 1
            invariant
                layers_view(tree@) + layers(hash_function, nodes_view(level@)) == layers(hash_function, lv),
            decreases level@.len(),
        {
            let next = Self::next_layer(&level, &hash_function);
            proof {
                let cur = nodes_view(level@);
                assert(layers(hash_function, cur) == seq![cur] + layers(hash_function, nodes_view(next@)));
                assert(layers_view(tree@.push(level)) =~= layers_view(tree@).push(cur));
                assert(layers_view(tree@).push(cur) + layers(hash_function, nodes_view(next@)) =~= layers_view(tree@)
                    + (seq![cur] + layers(hash_function, nodes_view(next@))));
            }
            tree.push(level);
            level = next;
        }
        if level.len() > 0 {
            proof {
                let cur = nodes_view(level@);
                assert(layers_view(tree@.push(level)) =~= layers_view(tree@).push(cur));
                assert(layers(hash_function, cur) == seq![cur]);
                assert(layers_view(tree@) + seq![cur] =~= layers_view(tree@).push(cur));
            }
            tree.push(level);
        } else {
            proof {
                assert(layers_view(tree@) + seq![] =~= layers_view(tree@));
            }
        }
        MerkleTree { leaves, tree, hash_function }
    }

    /// The root; none when there are no leaves.
    pub fn root(&self) -> (r: Option<Natural>)
        ensures
            match r {
                None => self.leaves_view().len() == 0,
                Some(x) => self.leaves_view().len() > 0 && x@ == root_of(self.algorithm(), self.leaves_view()),
            },
    {
        proof {
            use_type_invariant(self);
        }
        let n = self.tree.len();
        proof {
            let lv = nodes_view(self.leaves@);
            assert(layers_view(self.tree@).len() == n);
            if lv.len() > 0 {
                lemma_layers_root(self.hash_function, lv);
            } else {
                assert(layers(self.hash_function, lv).len() == 0);
            }
        }
        if n == 0 {
            return None;
        }
        proof {
            let lv = nodes_view(self.leaves@);
            assert(layers_view(self.tree@)[n - 1] == nodes_view(self.tree@[n - 1]@));
        }
        let top = &self.tree[n - 1];
        proof {
            assert(nodes_view(top@)[0] == top@[0]@);
        }
        Some(top[0].duplicate())
    }

    /// The inclusion proof of leaf `index`; none when it is out of range.
    pub fn generate_proof(&self, index: usize) -> (r: Option<Vec<(Natural, bool)>>)
        ensures
            match r {
                None => index >= self.leaves_view().len(),
                Some(p) => index < self.leaves_view().len() && path_view(p@) == proof_path(
                    self.algorithm(),
                    self.leaves_view(),
                    index as nat,
                ),
            },
    {
        proof {
            use_type_invariant(self);
        }
        if index >= self.leaves.len() {
            return None;
        }
        let ghost alg = self.hash_function;
        let ghost lv = nodes_view(self.leaves@);
        let ghost ls = layers(alg, lv);
        proof {
            lemma_layers_shape(alg, lv, 0);
        }
        let mut proof: Vec<(Natural, bool)> = Vec::new();
        let mut idx: usize = index;
        let mut i: usize = 0;
        let top = self.tree.len() - 1;
        while i < top
            invariant
                ls == layers(alg, lv),
                lv.len() > 0,
                layers_view(self.tree@) == ls,
                top + 1 == ls.len(),
                i <= top,
                idx < ls[i as int].len(),
                path_view(proof@) + proof_path(alg, ls[i as int], idx as nat) == proof_path(alg, lv, index as nat),
            decreases top - i,
        {
            proof {
                lemma_layers_shape(alg, lv, i as int);
                lemma_layers_shape(alg, lv, i + 1);
                assert(layers_view(self.tree@)[i as int] == nodes_view(self.tree@[i as int]@));
            }
            let level = &self.tree[i];
            let sibling = if idx % 2 == 0 { idx + 1 } else { idx - 1 };
            let ghost before = proof@;
            if sibling < level.len() {
                proof.push((level[sibling].duplicate(), idx % 2 == 0));
                proof {
                    assert(path_view(proof@) =~= path_view(before) + seq![(ls[i as int][sibling as int], idx % 2 == 0)]);
                }
            }
            proof {
                let here = if sibling < ls[i as int].len() {
                    seq![(ls[i as int][sibling as int], idx % 2 == 0)]
                } else {
                    seq![]
                };
                assert(proof_path(alg, ls[i as int], idx as nat) == here + proof_path(alg, ls[i + 1], (idx / 2) as nat));
                assert(path_view(proof@) =~= path_view(before) + here);
                assert(path_view(proof@) + proof_path(alg, ls[i + 1], (idx / 2) as nat) =~= path_view(before)
                    + (here + proof_path(alg, ls[i + 1], (idx / 2) as nat)));
            }
            idx = idx / 2;
            i = i + 1;
        }
        proof {
            lemma_layers_shape(alg, lv, top as int);
            assert(path_view(proof@) + seq![] =~= path_view(proof@));
        }
        Some(proof)
    }

    /// Whether `proof` leads from `leaf` to `root`.
    pub fn verify_proof(root: &Natural, leaf: &Natural, proof: &[(Natural, bool)], hash_function: &HashFunction) -> (r: bool)
        ensures
            r == (replay(*hash_function, leaf@, path_view(proof@)) == root@),
    {
        let ghost pv = path_view(proof@);
        let mut hash = leaf.duplicate();
        let mut i: usize = 0;
        proof {
            assert(pv.skip(0) =~= pv);
        }
        while i < proof.len()
            invariant
                i <= proof@.len(),
                pv == path_view(proof@),
                replay(*hash_function, hash@, pv.skip(i as int)) == replay(*hash_function, leaf@, pv),
            decreases proof@.len() - i,
        {
            let (sibling, is_left) = &proof[i];
            proof {
                assert(pv.skip(i as int).drop_first() =~= pv.skip(i + 1));
                assert(pv.skip(i as int)[0] == (sibling@, *is_left));
            }
            hash = if *is_left {
                Self::hash_two(&hash, sibling, hash_function)
            } else {
                Self::hash_two(sibling, &hash, hash_function)
            };
            i = i + 1;
        }
        proof {
            assert(pv.skip(i as int).len() == 0);
        }
        hash.equals(root)
    }
}

} // verus!
