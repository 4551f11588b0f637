//! Lattice tables of the Perlin noise texture: three random permutations of the
//! lattice coordinates `0..256` that are combined into an index of the table of
//! random values.
use vstd::prelude::*;
use vstd::seq_lib::to_multiset_update;
use crate::random::random_below;

verus! {

/// The identity table `[0, 1, ..., 255]`.
pub open spec fn lattice_identity() -> Seq<usize> {
    Seq::new(256, |i: int| i as usize)
}

/// `s` holds every lattice coordinate `0..256` exactly once, and nothing else.
pub open spec fn is_lattice_permutation(s: Seq<usize>) -> bool {
    &&& s.len() == 256
    &&& forall|v: usize| #[trigger] s.to_multiset().count(v) == if v < 256 { 1nat } else { 0nat }
}

/// `s` with the entries at `i` and `t` exchanged, as the shuffle does with a
/// temporary (when `i == t` nothing changes).
pub open spec fn swap_entries(s: Seq<usize>, i: int, t: int) -> Seq<usize> {
    s.update(i, s[t]).update(t, s[i])
}

/// The first `n` steps of the shuffle: step `k` exchanges entry `k` with entry
/// `targets[k]`.
pub open spec fn apply_swaps(s: Seq<usize>, targets: Seq<usize>, n: nat) -> Seq<usize>
    decreases n,
{
    if n == 0 {
        s
    } else {
        swap_entries(apply_swaps(s, targets, (n - 1) as nat), n - 1, targets[n - 1] as int)
    }
}

/// All shuffle targets are entries of a table.
pub open spec fn valid_targets(targets: Seq<usize>) -> bool {
    &&& targets.len() == 256
    &&& forall|k: int| 0 <= k < 256 ==> #[trigger] targets[k] < 256
}

/// Exchanging two entries keeps the multiset of entries.
pub proof fn lemma_swap_keeps_multiset(s: Seq<usize>, i: int, t: int)
    requires
        0 <= i < s.len(),
        0 <= t < s.len(),
    ensures
        swap_entries(s, i, t).to_multiset() == s.to_multiset(),
        swap_entries(s, i, t).len() == s.len(),
{
    broadcast use vstd::multiset::group_multiset_axioms;

    let a = s[t];
    let b = s[i];
    let s1 = s.update(i, a);
    to_multiset_update(s, i, a);
    to_multiset_update(s1, t, b);
    assert(s1[t] == a);
    s.to_multiset_ensures();
    assert(s.contains(a));
    assert(s.contains(b));
    let m = s.to_multiset();
    assert(m.count(a) > 0);
    assert(m.count(b) > 0);
    assert(swap_entries(s, i, t).to_multiset() =~= m.insert(a).remove(b).insert(b).remove(a));
    assert(m.insert(a).remove(b).insert(b).remove(a) =~= m);
}

/// Any prefix of the shuffle keeps the multiset of entries.
pub proof fn lemma_swaps_keep_multiset(s: Seq<usize>, targets: Seq<usize>, n: nat)
    requires
        n <= s.len(),
        n <= targets.len(),
        forall|k: int| 0 <= k < n ==> #[trigger] targets[k] < s.len(),
    ensures
        apply_swaps(s, targets, n).to_multiset() == s.to_multiset(),
        apply_swaps(s, targets, n).len() == s.len(),
    decreases n,
{
    if n > 0 {
        lemma_swaps_keep_multiset(s, targets, (n - 1) as nat);
        lemma_swap_keeps_multiset(
            apply_swaps(s, targets, (n - 1) as nat),
            n - 1,
            targets[n - 1] as int,
        );
    }
}

/// The identity table is a lattice permutation.
pub proof fn lemma_identity_is_permutation()
    ensures
        is_lattice_permutation(lattice_identity()),
{
    let s = lattice_identity();
    assert(s.no_duplicates());
    s.lemma_multiset_has_no_duplicates();
    assert forall|v: usize| #[trigger] s.to_multiset().count(v) == if v < 256 { 1nat } else { 0nat } by {
        s.to_multiset_ensures();
        if v < 256 {
            assert(s[v as int] == v);
            assert(s.contains(v));
        } else {
            assert(!s.contains(v));
        }
    }
}

/// A lattice permutation holds in-range, distinct entries, and every lattice
/// coordinate occurs in it.
pub proof fn lemma_permutation_facts(s: Seq<usize>)
    requires
        is_lattice_permutation(s),
    ensures
        forall|i: int| 0 <= i < 256 ==> #[trigger] s[i] < 256,
        s.no_duplicates(),
        forall|v: usize| v < 256 ==> #[trigger] s.contains(v),
{
    s.to_multiset_ensures();
    assert forall|i: int| 0 <= i < 256 implies #[trigger] s[i] < 256 by {
        assert(s.contains(s[i]));
        assert(s.to_multiset().count(s[i]) > 0);
    }
    assert forall|v: usize| v < 256 implies #[trigger] s.contains(v) by {
        assert(s.to_multiset().count(v) > 0);
    }
    assert forall|v: usize| s.to_multiset().contains(v) implies #[trigger] s.to_multiset().count(
        v,
    ) == 1 by {}
    s.lemma_multiset_has_no_duplicates_conv();
}

/// Shuffling a lattice permutation with in-range targets gives a lattice
/// permutation again.
pub proof fn lemma_shuffle_keeps_permutation(s: Seq<usize>, targets: Seq<usize>)
    requires
        is_lattice_permutation(s),
        valid_targets(targets),
    ensures
        is_lattice_permutation(apply_swaps(s, targets, 256)),
{
    lemma_swaps_keep_multiset(s, targets, 256);
}

/// The lattice cell of a scaled coordinate: `c & 255`, which is `c` modulo 256
/// (also for negative `c`, as in two's complement).
pub fn lattice_coord(c: i32) -> (r: usize)
    ensures
        r == (c & 255) as usize,
        r < 256,
        r as int == c as int % 256,
{
    let m: i32 = c & 255;
    assert(0 <= m < 256) by (bit_vector)
        requires
            m == c & 255,
    ;
    assert(m as int == c as int % 256) by (bit_vector)
        requires
            m == c & 255,
    ;
    m as usize
}

/// The three shuffled tables of the Perlin noise texture, one per axis.
pub struct PerlinLattice {
    pub x_ind: [usize; 256],
    pub y_ind: [usize; 256],
    pub z_ind: [usize; 256],
}

impl PerlinLattice {
    /// Each table is a lattice permutation.
    pub open spec fn wf(&self) -> bool {
        &&& is_lattice_permutation(self.x_ind@)
        &&& is_lattice_permutation(self.y_ind@)
        &&& is_lattice_permutation(self.z_ind@)
    }

    /// Three freshly shuffled tables.
    pub fn new() -> (lattice: PerlinLattice)
        ensures
            lattice.wf(),
            exists|tx: Seq<usize>|
                valid_targets(tx) && lattice.x_ind@ == apply_swaps(lattice_identity(), tx, 256),
            exists|ty: Seq<usize>|
                valid_targets(ty) && lattice.y_ind@ == apply_swaps(lattice_identity(), ty, 256),
            exists|tz: Seq<usize>|
                valid_targets(tz) && lattice.z_ind@ == apply_swaps(lattice_identity(), tz, 256),
    {
        PerlinLattice {
            x_ind: Self::perlin_gen_permutation(),
            y_ind: Self::perlin_gen_permutation(),
            z_ind: Self::perlin_gen_permutation(),
        }
    }

    /// The identity table `[0, 1, ..., 255]` shuffled with random targets.
    pub fn perlin_gen_permutation() -> (perm: [usize; 256])
        ensures
            is_lattice_permutation(perm@),
            exists|targets: Seq<usize>|
                valid_targets(targets) && perm@ == apply_swaps(lattice_identity(), targets, 256),
    {
        let mut perm: [usize; 256] = [0; 256];
        let mut i: usize = 0;
        while i < 256
            invariant
                i <= 256,
                perm@.len() == 256,
                forall|k: int| 0 <= k < i ==> #[trigger] perm@[k] == k as usize,
            decreases 256 - i,
        {
            perm[i] = i;
            i = i + 1;
        }
        assert(perm@ =~= lattice_identity());
        proof {
            lemma_identity_is_permutation();
        }
        Self::permute(&mut perm);
        proof {
            let targets = choose|targets: Seq<usize>|
                valid_targets(targets) && perm@ == apply_swaps(lattice_identity(), targets, 256);
            lemma_shuffle_keeps_permutation(lattice_identity(), targets);
        }
        perm
    }

    /// Shuffles `vals` in place: for each position `i` in order, exchanges the
    /// entry at `i` with the entry at a random position (the positions are
    /// drawn first, then the exchanges are made).
    pub fn permute(vals: &mut [usize; 256])
        ensures
            exists|targets: Seq<usize>|
                valid_targets(targets) && final(vals)@ == apply_swaps(old(vals)@, targets, 256),
    {
        let mut targets: [usize; 256] = [0; 256];
        let mut i: usize = 0;
        while i < 256
            invariant
                i <= 256,
                targets@.len() == 256,
                forall|k: int| 0 <= k < i ==> #[trigger] targets@[k] < 256,
            decreases 256 - i,
        {
            targets[i] = random_below(256);
            i = i + 1;
        }
        Self::permute_with(vals, &targets);
        assert(valid_targets(targets@));
    }

    /// Shuffles `vals` with the given targets: for each position `i` in order,
    /// exchanges the entry at `i` with the entry at `targets[i]`.
    pub fn permute_with(vals: &mut [usize; 256], targets: &[usize; 256])
        requires
            valid_targets(targets@),
        ensures
            final(vals)@ == apply_swaps(old(vals)@, targets@, 256),
    {
        let mut i: usize = 0;
        while i < 256
            invariant
                i <= 256,
                valid_targets(targets@),
                vals@.len() == 256,
                vals@ == apply_swaps(old(vals)@, targets@, i as nat),
            decreases 256 - i,
        {
            let target = targets[i];
            let tmp = vals[i];
            vals[i] = vals[target];
            vals[target] = tmp;
            i = i + 1;
            assert(vals@ =~= apply_swaps(old(vals)@, targets@, i as nat));
        }
    }

    /// Index into the table of random values for lattice cell `(i, j, k)`:
    /// `x_ind[i] ^ y_ind[j] ^ z_ind[k]`, always a valid index.
    pub fn noise_index(&self, i: usize, j: usize, k: usize) -> (r: usize)
        requires
            self.wf(),
            i < 256,
            j < 256,
            k < 256,
        ensures
            r == self.x_ind@[i as int] ^ self.y_ind@[j as int] ^ self.z_ind@[k as int],
            r < 256,
    {
        proof {
            lemma_permutation_facts(self.x_ind@);
            lemma_permutation_facts(self.y_ind@);
            lemma_permutation_facts(self.z_ind@);
        }
        let a = self.x_ind[i];
        let b = self.y_ind[j];
        let c = self.z_ind[k];
        assert(a ^ b ^ c < 256) by (bit_vector)
            requires
                a < 256,
                b < 256,
                c < 256,
        ;
        a ^ b ^ c
    }

    /// Index into the table of random values used by the tiled variant of the
    /// noise: `i ^ j ^ k`, always a valid index.
    pub fn tile_noise_index(i: usize, j: usize, k: usize) -> (r: usize)
        requires
            i < 256,
            j < 256,
            k < 256,
        ensures
            r == i ^ j ^ k,
            r < 256,
    {
        assert(i ^ j ^ k < 256) by (bit_vector)
            requires
                i < 256,
                j < 256,
                k < 256,
        ;
        i ^ j ^ k
    }
}

/// Exchanging entries `i` and `t` puts the old entry at `t` in `i`, the old
/// entry at `i` in `t`, and leaves every other entry where it was.
pub proof fn lemma_swap_exchanges(s: Seq<usize>, i: int, t: int)
    requires
        0 <= i < s.len(),
        0 <= t < s.len(),
    ensures
        swap_entries(s, i, t).len() == s.len(),
        swap_entries(s, i, t)[i] == s[t],
        swap_entries(s, i, t)[t] == s[i],
        forall|k: int| 0 <= k < s.len() && k != i && k != t ==> #[trigger] swap_entries(s, i, t)[k] == s[k],
{
}

/// Every step of the shuffle makes its exchange, the last one included: step
/// `n` takes the table left by the steps before it and exchanges its entries
/// `n` and `targets[n]`, leaving all others where they were.
pub proof fn lemma_shuffle_step(s: Seq<usize>, targets: Seq<usize>, n: nat)
    requires
        n < s.len(),
        n < targets.len(),
        forall|k: int| 0 <= k <= n ==> #[trigger] targets[k] < s.len(),
    ensures
        ({
            let before = apply_swaps(s, targets, n);
            let after = apply_swaps(s, targets, n + 1);
            &&& before.len() == s.len()
            &&& after.len() == s.len()
            &&& after[n as int] == before[targets[n as int] as int]
            &&& after[targets[n as int] as int] == before[n as int]
            &&& forall|k: int|
                0 <= k < s.len() && k != n && k != targets[n as int] ==> #[trigger] after[k] == before[k]
        }),
{
    lemma_swaps_keep_multiset(s, targets, n);
    let before = apply_swaps(s, targets, n);
    assert(apply_swaps(s, targets, n + 1) == swap_entries(before, n as int, targets[n as int] as int));
    lemma_swap_exchanges(before, n as int, targets[n as int] as int);
}

} // verus!
