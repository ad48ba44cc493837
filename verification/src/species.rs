//! The two kinds of fish in the tank, how each treats the other, and a
//! census of a school.
use vstd::prelude::*;

verus! {

/// Which kind of creature a boid is. The flocking rules use it to pick the
/// tuning parameters and to decide predator/prey behaviour.
#[derive(Clone, Copy, PartialEq, Eq, Structural, Debug)]
pub enum Species {
    /// Prey. Flock tightly and flee from tuna.
    Squid,
    /// Predator. Loosely schooled and hunt squid.
    Tuna,
}

/// How a boid responds to another boid it senses.
#[derive(Clone, Copy, PartialEq, Eq, Structural, Debug)]
pub enum Reaction {
    /// Same species: separation, alignment and cohesion.
    School,
    /// A squid sensing a tuna steers away from it.
    Flee,
    /// A tuna sensing a squid steers toward the prey.
    Hunt,
}

/// The rule table of the tank: same species school together, squid flee
/// from tuna, tuna hunt squid.
pub open spec fn reaction(me: Species, other: Species) -> Reaction {
    if me == other {
        Reaction::School
    } else {
        match me {
            Species::Squid => Reaction::Flee,
            Species::Tuna => Reaction::Hunt,
        }
    }
}

impl Species {
    /// How a boid of this species responds to a neighbour of species `other`.
    pub fn reaction_to(self, other: Species) -> (r: Reaction)
        ensures
            r == reaction(self, other),
    {
        if self == other {
            Reaction::School
        } else {
            match self {
                Species::Squid => Reaction::Flee,
                Species::Tuna => Reaction::Hunt,
            }
        }
    }
}

/// Predator and prey see each other the same way: whenever one fish flees
/// another, that other hunts it, and the reverse; fish of one kind school.
pub proof fn lemma_predator_prey_pairing(a: Species, b: Species)
    ensures
        reaction(a, b) == Reaction::Flee <==> reaction(b, a) == Reaction::Hunt,
        reaction(a, b) == Reaction::School <==> reaction(b, a) == Reaction::School,
        reaction(a, b) == Reaction::Flee ==> a == Species::Squid && b == Species::Tuna,
        reaction(a, b) == Reaction::Hunt ==> a == Species::Tuna && b == Species::Squid,
        reaction(a, b) == Reaction::School <==> a == b,
        a == Species::Squid && b == Species::Tuna ==> reaction(a, b) == Reaction::Flee,
        a == Species::Tuna && b == Species::Squid ==> reaction(a, b) == Reaction::Hunt,
{
}

/// How many boids of `s` are of species `which`.
pub open spec fn count_of(s: Seq<Species>, which: Species) -> nat
    decreases s.len(),
{
    if s.len() == 0 {
        0
    } else {
        count_of(s.drop_last(), which) + if s.last() == which {
            1nat
        } else {
            0nat
        }
    }
}

/// A census counts each boid under its own species, wherever it stands: a
/// single boid counts one for its species and none for the other, and the
/// counts of two parts of a population add up.
pub proof fn lemma_count_of_parts(s1: Seq<Species>, s2: Seq<Species>, x: Species, which: Species)
    ensures
        count_of(seq![x], which) == if x == which {
            1nat
        } else {
            0nat
        },
        count_of(s1 + s2, which) == count_of(s1, which) + count_of(s2, which),
    decreases s2.len(),
{
    assert(seq![x].drop_last() =~= Seq::<Species>::empty());
    assert(seq![x].last() == x);
    assert(count_of(Seq::<Species>::empty(), which) == 0);
    if s2.len() == 0 {
        assert(s1 + s2 =~= s1);
    } else {
        assert((s1 + s2).drop_last() =~= s1 + s2.drop_last());
        assert((s1 + s2).last() == s2.last());
        lemma_count_of_parts(s1, s2.drop_last(), x, which);
    }
}

/// A census counts every boid once: squid and tuna together are the whole
/// population.
pub proof fn lemma_census_total(s: Seq<Species>)
    ensures
        count_of(s, Species::Squid) + count_of(s, Species::Tuna) == s.len(),
    decreases s.len(),
{
    if s.len() > 0 {
        lemma_census_total(s.drop_last());
    }
}

/// A prefix never holds more boids of a species than the whole.
proof fn lemma_count_prefix(s: Seq<Species>, k: int, which: Species)
    requires
        0 <= k <= s.len(),
    ensures
        count_of(s.subrange(0, k), which) <= count_of(s, which),
    decreases s.len() - k,
{
    if k < s.len() {
        lemma_count_prefix(s, k + 1, which);
        assert(s.subrange(0, k + 1).drop_last() =~= s.subrange(0, k));
    } else {
        assert(s.subrange(0, k) =~= s);
    }
}

/// Count the squid and the tuna among `boids`, in that order.
pub fn census(boids: &[Species]) -> (counts: (u32, u32))
    requires
        count_of(boids@, Species::Squid) <= u32::MAX,
        count_of(boids@, Species::Tuna) <= u32::MAX,
    ensures
        counts.0 == count_of(boids@, Species::Squid),
        counts.1 == count_of(boids@, Species::Tuna),
{
    let mut squid: u32 = 0;
    let mut tuna: u32 = 0;
    let mut i: usize = 0;
    while i < boids.len()
        invariant
            i <= boids@.len(),
            count_of(boids@, Species::Squid) <= u32::MAX,
            count_of(boids@, Species::Tuna) <= u32::MAX,
            squid == count_of(boids@.subrange(0, i as int), Species::Squid),
            tuna == count_of(boids@.subrange(0, i as int), Species::Tuna),
        decreases boids@.len() - i,
    {
        let ghost before = boids@.subrange(0, i as int);
        let ghost after = boids@.subrange(0, i + 1);
        assert(after.drop_last() =~= before);
        proof {
            lemma_count_prefix(boids@, i + 1, Species::Squid);
            lemma_count_prefix(boids@, i + 1, Species::Tuna);
        }
        match boids[i] {
            Species::Squid => squid = squid + 1,
            Species::Tuna => tuna = tuna + 1,
        }
        i = i + 1;
    }
    assert(boids@.subrange(0, i as int) =~= boids@);
    (squid, tuna)
}

} // verus!
