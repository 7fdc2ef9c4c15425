//! The point set: a set of two-dimensional signed integer coordinates,
//! physically one flat bit store in which the bit at position i is on
//! exactly when the coordinate pair whose pairing index is i is a member.

use vstd::prelude::*;

use crate::bitstore::{bit_at, count_on, lemma_count_on_take_step, BitStore};
use crate::pairing::{
    cantor_pairing, cantor_unpairing, coord_in_range, lemma_pair_injective, lemma_pair_unpair,
    lemma_unpair_pair, pair_index, unpair_x, unpair_y,
};

verus! {

/// The members encoded in bit storage s: the pair p is present exactly when
/// the bit at its pairing index is on.
pub open spec fn members_of(s: Seq<bool>) -> Set<(int, int)> {
    Set::new(|p: (int, int)| bit_at(s, pair_index(p.0, p.1) as int))
}

/// The members of s whose pairing index lies below n.
pub open spec fn members_below(s: Seq<bool>, n: nat) -> Set<(int, int)> {
    Set::new(|p: (int, int)| pair_index(p.0, p.1) < n && bit_at(s, pair_index(p.0, p.1) as int))
}

/// Raising the index bound by one admits exactly the coordinate pair that
/// unpairs from the newly covered index, and only when its bit is on.
proof fn lemma_members_below_step(s: Seq<bool>, n: nat)
    requires
        n < s.len(),
    ensures
        s[n as int] ==> members_below(s, n + 1) == members_below(s, n).insert(
            (unpair_x(n), unpair_y(n)),
        ),
        !s[n as int] ==> members_below(s, n + 1) == members_below(s, n),
        !members_below(s, n).contains((unpair_x(n), unpair_y(n))),
{
    let u = (unpair_x(n), unpair_y(n));
    lemma_pair_unpair(n);
    if s[n as int] {
        assert forall|p: (int, int)|
            members_below(s, n + 1).contains(p) implies members_below(s, n).insert(u).contains(
            p,
        ) by {
            lemma_unpair_pair(p.0, p.1);
        }
        assert(members_below(s, n + 1) =~= members_below(s, n).insert(u));
    } else {
        assert forall|p: (int, int)|
            members_below(s, n + 1).contains(p) implies members_below(s, n).contains(p) by {
            lemma_unpair_pair(p.0, p.1);
        }
        assert(members_below(s, n + 1) =~= members_below(s, n));
    }
}

/// The members below an index bound are as many as the on bits below it:
/// each on bit stands for exactly one coordinate pair.
proof fn lemma_members_below_count(s: Seq<bool>, n: nat)
    requires
        n <= s.len(),
    ensures
        members_below(s, n).finite(),
        members_below(s, n).len() == count_on(s.take(n as int)),
    decreases n,
{
    if n == 0 {
        assert(members_below(s, 0) =~= Set::<(int, int)>::empty());
        assert(s.take(0) =~= Seq::<bool>::empty());
    } else {
        let m = (n - 1) as nat;
        lemma_members_below_count(s, m);
        lemma_members_below_step(s, m);
        lemma_count_on_take_step(s, m as int);
    }
}

/// Cardinality of the encoded membership equals the population count of
/// the storage.
proof fn lemma_members_count(s: Seq<bool>)
    ensures
        members_of(s).finite(),
        members_of(s).len() == count_on(s),
{
    lemma_members_below_count(s, s.len());
    assert(members_below(s, s.len()) =~= members_of(s));
    assert(s.take(s.len() as int) =~= s);
}

pub struct PointSet {
    members: BitStore,
}

impl PointSet {
    /// The abstract contents: the set of coordinate pairs stored.
    pub closed spec fn view(&self) -> Set<(int, int)> {
        members_of(self.members@)
    }

    /// A fresh point set has no members.
    pub fn new() -> (r: Self)
        ensures
            r@ == Set::<(int, int)>::empty(),
    {
        let r = PointSet { members: BitStore::new() };
        proof {
            assert(r@ =~= Set::<(int, int)>::empty());
        }
        r
    }

    /// Add the coordinate pair (x, y). Idempotent: the membership afterwards
    /// is the old membership plus (x, y), whether or not it was present.
    /// The bound on the pairing index only keeps the bit position
    /// addressable on the host.
    pub fn insert(&mut self, x: i64, y: i64)
        requires
            coord_in_range(x as int),
            coord_in_range(y as int),
            pair_index(x as int, y as int) < usize::MAX,
        ensures
            final(self)@ == old(self)@.insert((x as int, y as int)),
    {
        let i = cantor_pairing(x, y);
        self.members.set(i as usize, true);
        proof {
            let q = (x as int, y as int);
            let s0 = old(self).members@;
            let s1 = self.members@;
            assert forall|p: (int, int)|
                members_of(s1).contains(p) implies old(self)@.insert(q).contains(p) by {
                if p != q {
                    if pair_index(p.0, p.1) == pair_index(q.0, q.1) {
                        lemma_pair_injective(p.0, p.1, q.0, q.1);
                    }
                    assert(bit_at(s0, pair_index(p.0, p.1) as int));
                }
            }
            assert forall|p: (int, int)|
                old(self)@.insert(q).contains(p) implies members_of(s1).contains(p) by {
                if p != q {
                    if pair_index(p.0, p.1) == pair_index(q.0, q.1) {
                        lemma_pair_injective(p.0, p.1, q.0, q.1);
                    }
                    assert(bit_at(s1, pair_index(p.0, p.1) as int));
                }
            }
            assert(members_of(s1) =~= old(self)@.insert(q));
        }
    }

    /// Whether (x, y) is a member. A pure query: never fails and never grows
    /// the storage; an index beyond the current storage length is simply not
    /// a member.
    pub fn contains(&self, x: i64, y: i64) -> (r: bool)
        requires
            coord_in_range(x as int),
            coord_in_range(y as int),
        ensures
            r == self@.contains((x as int, y as int)),
    {
        let i = cantor_pairing(x, y);
        let len = self.members.len();
        if i < len as u64 {
            self.members.is_set(i as usize)
        } else {
            false
        }
    }

    /// How many members the set has: the population count of the storage,
    /// which always equals the number of distinct coordinates inserted.
    pub fn len(&self) -> (r: u64)
        ensures
            self@.finite(),
            r as nat == self@.len(),
    {
        proof {
            lemma_members_count(self.members@);
        }
        self.members.count_bits_on()
    }

    /// All members, in ascending order of pairing index: exactly the
    /// coordinates whose bits are on, each exactly once, so the length of
    /// the result equals the cardinality of the set.
    pub fn iter(&self) -> (r: Vec<(i64, i64)>)
        ensures
            r@.len() == self@.len(),
            forall|j: int|
                0 <= j < r@.len() ==> self@.contains((r@[j].0 as int, r@[j].1 as int)),
            forall|p: (int, int)|
                self@.contains(p) ==> exists|j: int|
                    0 <= j < r@.len() && r@[j].0 as int == p.0 && r@[j].1 as int == p.1,
            forall|j1: int, j2: int|
                0 <= j1 < j2 < r@.len() ==> pair_index(r@[j1].0 as int, r@[j1].1 as int)
                    < pair_index(r@[j2].0 as int, r@[j2].1 as int),
    {
        let s = &self.members;
        let n = s.len();
        let mut out: Vec<(i64, i64)> = Vec::new();
        let mut z: usize = 0;
        proof {
            assert(members_below(s@, 0) =~= Set::<(int, int)>::empty());
        }
        while z < n
            invariant
                n == s@.len(),
                s == &self.members,
                z <= n,
                members_below(s@, z as nat).finite(),
                out@.len() == members_below(s@, z as nat).len(),
                forall|j: int|
                    0 <= j < out@.len() ==> pair_index(out@[j].0 as int, out@[j].1 as int) < z
                        as nat && bit_at(
                        s@,
                        pair_index(out@[j].0 as int, out@[j].1 as int) as int,
                    ),
                forall|p: (int, int)|
                    members_below(s@, z as nat).contains(p) ==> exists|j: int|
                        0 <= j < out@.len() && out@[j].0 as int == p.0 && out@[j].1 as int
                            == p.1,
                forall|j1: int, j2: int|
                    0 <= j1 < j2 < out@.len() ==> pair_index(out@[j1].0 as int, out@[j1].1 as int)
                        < pair_index(out@[j2].0 as int, out@[j2].1 as int),
            decreases n - z,
        {
            proof {
                lemma_members_below_step(s@, z as nat);
            }
            if s.is_set(z) {
                let ghost out0 = out@;
                let ghost below0 = members_below(s@, z as nat);
                let p = cantor_unpairing(z as u64);
                out.push(p);
                proof {
                    let u = (unpair_x(z as nat), unpair_y(z as nat));
                    lemma_pair_unpair(z as nat);
                    assert(out@ == out0.push(p));
                    assert forall|q: (int, int)| #[trigger]
                        members_below(s@, (z + 1) as nat).contains(q) implies exists|j: int|
                        0 <= j < out@.len() && out@[j].0 as int == q.0 && out@[j].1 as int
                            == q.1 by {
                        if below0.contains(q) {
                            let j = choose|j: int|
                                0 <= j < out0.len() && out0[j].0 as int == q.0 && out0[j].1 as int
                                    == q.1;
                            assert(out@[j] == out0[j]);
                        } else {
                            assert(q == u);
                            assert(out@[out0.len() as int] == p);
                        }
                    }
                }
            }
            z = z + 1;
        }
        proof {
            assert(members_below(s@, n as nat) =~= self@);
            lemma_members_count(s@);
            assert forall|j: int|
                0 <= j < out@.len() implies self@.contains(
                (out@[j].0 as int, out@[j].1 as int),
            ) by {}
        }
        out
    }

    /// The union of two point sets, as a new set; neither operand changes.
    pub fn union(&self, other: &Self) -> (r: Self)
        ensures
            r@ == self@.union(other@),
    {
        let r = PointSet { members: self.members.or(&other.members) };
        proof {
            assert(r@ =~= self@.union(other@));
        }
        r
    }
}

impl Default for PointSet {
    /// Default construction gives the empty set.
    fn default() -> (r: Self)
        ensures
            r@ == Set::<(int, int)>::empty(),
    {
        PointSet::new()
    }
}

/// Inserting a coordinate pair twice leaves the same membership, and so the
/// same cardinality, as inserting it once: insertion is idempotent.
pub proof fn lemma_insert_idempotent(s: Set<(int, int)>, x: int, y: int)
    ensures
        s.insert((x, y)).insert((x, y)) == s.insert((x, y)),
{
    assert(s.insert((x, y)).insert((x, y)) =~= s.insert((x, y)));
}

/// Inserting a coordinate pair that is not yet a member raises the
/// cardinality by exactly one, so inserting N distinct pairs into the empty
/// set gives cardinality N.
pub proof fn lemma_insert_fresh_count(s: Set<(int, int)>, x: int, y: int)
    requires
        s.finite(),
        !s.contains((x, y)),
    ensures
        s.insert((x, y)).len() == s.len() + 1,
{
}

} // verus!
