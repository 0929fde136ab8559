use vstd::prelude::*;

verus! {

/// Stable identity issued by the world. An entity carries no payload here
/// beyond identity and equality; the id doubles as the slot index of the
/// entity's record inside the world.
#[derive(Clone, Copy, PartialEq, Eq, Structural, Debug)]
pub struct Entity {
    pub id: usize,
}

/// Kind of event an observer reacts to.
pub type EventKey = u64;

/// Kind of component an observer may be scoped to.
pub type ComponentId = u64;

/// Copies a list of plain values.
pub fn copy_list<T: Copy>(v: &Vec<T>) -> (r: Vec<T>)
    ensures
        r@ == v@,
{
    let mut r: Vec<T> = Vec::new();
    let mut i: usize = 0;
    while i < v.len()
        invariant
            i <= v@.len(),
            r@ == v@.take(i as int),
        decreases v@.len() - i,
    {
        r.push(v[i]);
        proof {
            assert(v@.take(i as int).push(v@[i as int]) =~= v@.take(i as int + 1));
        }
        i = i + 1;
    }
    proof {
        assert(v@.take(v@.len() as int) =~= v@);
    }
    r
}

/// Membership in a list with one more entity at the end.
pub proof fn lemma_push_contains(s: Seq<Entity>, o: Entity, x: Entity)
    ensures
        s.push(o).contains(x) <==> (s.contains(x) || x == o),
{
    if s.push(o).contains(x) {
        let i = choose|i: int| 0 <= i < s.push(o).len() && s.push(o)[i] == x;
        if i < s.len() {
            assert(s[i] == x);
        }
    }
    if s.contains(x) {
        let i = choose|i: int| 0 <= i < s.len() && s[i] == x;
        assert(s.push(o)[i] == x);
    }
    if x == o {
        assert(s.push(o)[s.len() as int] == x);
    }
}

/// Appending an entity that is not already present keeps a list
/// duplicate-free.
pub proof fn lemma_push_no_dup(s: Seq<Entity>, o: Entity)
    requires
        s.no_duplicates(),
        !s.contains(o),
    ensures
        s.push(o).no_duplicates(),
{
    assert forall|i: int, j: int|
        0 <= i < s.push(o).len() && 0 <= j < s.push(o).len() && i != j implies s.push(o)[i]
        != s.push(o)[j] by {
        if i < s.len() && j < s.len() {
        } else if i < s.len() {
            assert(s.contains(s[i]));
        } else if j < s.len() {
            assert(s.contains(s[j]));
        }
    }
}

/// Membership in a prefix one element longer.
pub proof fn lemma_take_succ_contains<T>(s: Seq<T>, k: int, x: T)
    requires
        0 <= k < s.len(),
    ensures
        s.take(k + 1).contains(x) <==> (s.take(k).contains(x) || s[k] == x),
{
    if s.take(k + 1).contains(x) {
        let i = choose|i: int| 0 <= i < k + 1 && #[trigger] s.take(k + 1)[i] == x;
        if i < k {
            assert(s.take(k)[i] == x);
        }
    }
    if s.take(k).contains(x) {
        let i = choose|i: int| 0 <= i < k && s.take(k)[i] == x;
        assert(s.take(k + 1)[i] == x);
    }
    if s[k] == x {
        assert(s.take(k + 1)[k] == x);
    }
}

} // verus!
