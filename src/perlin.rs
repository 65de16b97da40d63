use crate::bvh::all_indices;
use crate::random::random_below;
use vstd::multiset::group_multiset_axioms;
use vstd::prelude::*;
use vstd::seq_lib::{to_multiset_insert, to_multiset_remove};

verus! {

/// Size of each permutation table, and of the lattice's period on each axis.
pub const TABLE_LEN: usize = 256;

proof fn lemma_update_multiset(s: Seq<usize>, k: int, x: usize)
    requires
        0 <= k < s.len(),
    ensures
        s.update(k, x).to_multiset() == s.to_multiset().remove(s[k]).insert(x),
{
    assert(s.update(k, x) =~= s.remove(k).insert(k, x));
    to_multiset_remove(s, k);
    to_multiset_insert(s.remove(k), k, x);
}

/// Exchanges `p[i]` and `p[j]`.
fn swap(p: &mut Vec<usize>, i: usize, j: usize)
    requires
        i < old(p)@.len(),
        j < old(p)@.len(),
    ensures
        final(p)@ == old(p)@.update(i as int, old(p)@[j as int]).update(j as int, old(p)@[i as int]),
        final(p)@.to_multiset() == old(p)@.to_multiset(),
{
    let ghost s = p@;
    let a = p[i];
    let b = p[j];
    p[i] = b;
    p[j] = a;
    proof {
        broadcast use group_multiset_axioms;

        let s1 = s.update(i as int, b);
        lemma_update_multiset(s, i as int, b);
        lemma_update_multiset(s1, j as int, a);
        s.to_multiset_ensures();
        assert(s.contains(a));
        assert(s1[j as int] == b);
        assert(p@ == s1.update(j as int, a));
        assert(p@.to_multiset() =~= s.to_multiset());
    }
}

/// `s` with the entries at `i` and `j` exchanged.
pub open spec fn swapped(s: Seq<usize>, i: int, j: int) -> Seq<usize> {
    s.update(i, s[j]).update(j, s[i])
}

/// `s` after exchanging, for each position `k` from the last down to `from`,
/// the entry at `k` with the one at `targets[k]`.
pub open spec fn shuffled(s: Seq<usize>, targets: Seq<usize>, from: int) -> Seq<usize>
    decreases s.len() - from,
{
    if from >= s.len() || from < 0 {
        s
    } else {
        let rest = shuffled(s, targets, from + 1);
        swapped(rest, from, targets[from] as int)
    }
}

/// Fisher-Yates shuffle driven by `targets`: from the last position down to
/// position 1, the entry at `k` is exchanged with the one at `targets[k]`.
pub fn shuffle_with(p: &mut Vec<usize>, targets: &Vec<usize>)
    requires
        targets@.len() == old(p)@.len(),
        forall|k: int| 0 < k < targets@.len() ==> #[trigger] targets@[k] <= k,
    ensures
        final(p)@ == shuffled(old(p)@, targets@, 1),
        final(p)@.to_multiset() == old(p)@.to_multiset(),
{
    let ghost orig = p@;
    let n = p.len();
    if n == 0 {
        return;
    }
    let mut i: usize = n;
    while i > 1
        invariant
            1 <= i <= n,
            n == orig.len(),
            targets@.len() == n,
            forall|k: int| 0 < k < targets@.len() ==> #[trigger] targets@[k] <= k,
            p@.len() == n,
            p@ == shuffled(orig, targets@, i as int),
            p@.to_multiset() == orig.to_multiset(),
        decreases i,
    {
        i = i - 1;
        let target = targets[i];
        swap(p, i, target);
    }
}

/// Shuffles `p` in place with uniformly drawn targets: afterwards it holds
/// the same values.
pub fn permute(p: &mut Vec<usize>)
    ensures
        final(p)@.to_multiset() == old(p)@.to_multiset(),
{
    let mut targets: Vec<usize> = Vec::new();
    let n = p.len();
    while targets.len() < n
        invariant
            targets@.len() <= n,
            forall|k: int| 0 < k < targets@.len() ==> #[trigger] targets@[k] <= k,
        decreases n - targets@.len(),
    {
        let k = targets.len();
        let t = if k == 0 {
            0
        } else {
            random_below(k + 1)
        };
        targets.push(t);
    }
    shuffle_with(p, &targets);
}

/// A random permutation of `0..TABLE_LEN`.
pub fn generate_perm() -> (r: Vec<usize>)
    ensures
        r@.to_multiset() == all_indices(TABLE_LEN as nat).to_multiset(),
        r@.len() == TABLE_LEN,
{
    let mut p: Vec<usize> = Vec::new();
    let mut i: usize = 0;
    while i < TABLE_LEN
        invariant
            i <= TABLE_LEN,
            p@ == all_indices(i as nat),
        decreases TABLE_LEN - i,
    {
        p.push(i);
        i = i + 1;
        assert(p@ =~= all_indices(i as nat));
    }
    permute(&mut p);
    proof {
        p@.to_multiset_ensures();
        all_indices(TABLE_LEN as nat).to_multiset_ensures();
    }
    p
}

/// `t` is a permutation of `0..TABLE_LEN`.
pub open spec fn is_table(t: Seq<usize>) -> bool {
    t.to_multiset() == all_indices(TABLE_LEN as nat).to_multiset()
}

proof fn lemma_table_entries(t: Seq<usize>)
    requires
        is_table(t),
    ensures
        t.len() == TABLE_LEN,
        forall|k: int| 0 <= k < t.len() ==> #[trigger] t[k] < TABLE_LEN,
{
    t.to_multiset_ensures();
    all_indices(TABLE_LEN as nat).to_multiset_ensures();
    assert forall|k: int| 0 <= k < t.len() implies #[trigger] t[k] < TABLE_LEN by {
        assert(t.contains(t[k]));
        assert(t.to_multiset().count(t[k]) > 0);
        assert(all_indices(TABLE_LEN as nat).contains(t[k]));
    }
}

/// The lattice cell coordinate `c` wrapped into `0..TABLE_LEN`.
pub open spec fn wrap(c: i32) -> int {
    (c & 255i32) as int
}

/// Hashing of integer lattice points into `0..TABLE_LEN`, one random
/// permutation per axis.
pub struct Lattice {
    pub perm_x: Vec<usize>,
    pub perm_y: Vec<usize>,
    pub perm_z: Vec<usize>,
}

impl Lattice {
    pub open spec fn wf(&self) -> bool {
        is_table(self.perm_x@) && is_table(self.perm_y@) && is_table(self.perm_z@)
    }

    /// Three fresh random permutations.
    pub fn new() -> (r: Lattice)
        ensures
            r.wf(),
    {
        Lattice { perm_x: generate_perm(), perm_y: generate_perm(), perm_z: generate_perm() }
    }

    /// The slot of lattice point `(i, j, k)`: the exclusive or of the three
    /// tables' entries at the wrapped coordinates.
    pub fn corner(&self, i: i32, j: i32, k: i32) -> (r: usize)
        requires
            self.wf(),
        ensures
            r == self.perm_x@[wrap(i)] ^ self.perm_y@[wrap(j)] ^ self.perm_z@[wrap(k)],
            r < TABLE_LEN,
    {
        proof {
            lemma_table_entries(self.perm_x@);
            lemma_table_entries(self.perm_y@);
            lemma_table_entries(self.perm_z@);
            assert(0 <= (i & 255i32) < 256) by (bit_vector);
            assert(0 <= (j & 255i32) < 256) by (bit_vector);
            assert(0 <= (k & 255i32) < 256) by (bit_vector);
        }
        let a = self.perm_x[(i & 255) as usize];
        let b = self.perm_y[(j & 255) as usize];
        let c = self.perm_z[(k & 255) as usize];
        proof {
            assert(a < 256 && b < 256 && c < 256 ==> a ^ b ^ c < 256) by (bit_vector);
        }
        a ^ b ^ c
    }
}

} // verus!
