//! Fixed-capacity table of connection slots: stable small ids leased
//! to live connections, first free slot wins.

use vstd::prelude::*;

verus! {

/// The first free slot of a table, or `-1` when every slot is taken.
pub open spec fn first_free(s: Seq<bool>) -> int
    decreases s.len(),
{
    if s.len() == 0 {
        -1
    } else if !s[0] {
        0
    } else {
        let r = first_free(s.drop_first());
        if r == -1 {
            -1
        } else {
            1 + r
        }
    }
}

/// `first_free` finds the lowest free slot, and `-1` exactly when the
/// table is full.
pub proof fn lemma_first_free(s: Seq<bool>)
    ensures
        first_free(s) == -1 ==> forall|i: int| 0 <= i < s.len() ==> s[i],
        first_free(s) != -1 ==> {
            let k = first_free(s);
            &&& 0 <= k < s.len()
            &&& !s[k]
            &&& forall|i: int| 0 <= i < k ==> s[i]
        },
    decreases s.len(),
{
    if s.len() == 0 {
    } else if !s[0] {
    } else {
        lemma_first_free(s.drop_first());
        assert(forall|i: int| 1 <= i < s.len() ==> s[i] == s.drop_first()[i - 1]);
    }
}

/// A scan that found the first free slot at `i`, or none, agrees with
/// `first_free`.
pub proof fn lemma_first_free_scan(s: Seq<bool>, i: int)
    requires
        0 <= i <= s.len(),
        forall|j: int| 0 <= j < i ==> s[j],
        i < s.len() ==> !s[i],
    ensures
        first_free(s) == (if i < s.len() {
            i
        } else {
            -1
        }),
    decreases s.len(),
{
    if s.len() == 0 {
    } else if !s[0] {
        assert(i == 0);
    } else {
        assert(i > 0);
        let t = s.drop_first();
        assert(forall|j: int| 0 <= j < i - 1 ==> t[j]);
        lemma_first_free_scan(t, i - 1);
    }
}

/// Exhaustion and reuse law: when every slot is occupied the table
/// yields no id; freeing any one slot makes the next allocation
/// succeed again.
pub proof fn lemma_exhaust_then_reuse(s: Seq<bool>, id: int)
    requires
        0 <= id < s.len(),
    ensures
        (forall|i: int| 0 <= i < s.len() ==> s[i]) ==> first_free(s) == -1,
        first_free(s.update(id, false)) != -1,
{
    lemma_first_free(s);
    if first_free(s) == -1 {
    }
    let t = s.update(id, false);
    lemma_first_free(t);
    if first_free(t) == -1 {
        assert(t[id]);
        assert(false);
    }
}

/// Fixed-capacity slot table; index is the connection id, `true` marks
/// an occupied slot.
pub struct SlotRegistry {
    slots: Vec<bool>,
}

impl View for SlotRegistry {
    type V = Seq<bool>;

    closed spec fn view(&self) -> Seq<bool> {
        self.slots@
    }
}

impl SlotRegistry {
    /// A table of `capacity` slots, all free.
    pub fn new(capacity: usize) -> (r: Self)
        requires
            capacity <= u32::MAX,
        ensures
            r@ == Seq::new(capacity as nat, |i: int| false),
    {
        let mut slots: Vec<bool> = Vec::new();
        let mut i: usize = 0;
        while i < capacity
            invariant
                i <= capacity,
                slots@ =~= Seq::new(i as nat, |j: int| false),
            decreases capacity - i,
        {
            slots.push(false);
            proof {
                assert(slots@ =~= Seq::new((i + 1) as nat, |j: int| false));
            }
            i = i + 1;
        }
        SlotRegistry { slots }
    }

    pub fn capacity(&self) -> (r: usize)
        ensures
            r == self@.len(),
    {
        self.slots.len()
    }

    /// Leases the lowest free slot, or nothing when the table is full.
    pub fn allocate(&mut self) -> (r: Option<u32>)
        requires
            old(self)@.len() <= u32::MAX,
        ensures
            r is Some <==> first_free(old(self)@) != -1,
            r matches Some(id) ==> {
                &&& id == first_free(old(self)@)
                &&& !old(self)@[id as int]
                &&& final(self)@ == old(self)@.update(id as int, true)
            },
            r is None ==> final(self)@ == old(self)@,
    {
        let mut i: usize = 0;
        while i < self.slots.len()
            invariant
                i <= self@.len(),
                self@.len() <= u32::MAX,
                self@ == old(self)@,
                forall|j: int| 0 <= j < i ==> self@[j],
            decreases self@.len() - i,
        {
            if !self.slots[i] {
                proof {
                    lemma_first_free_scan(self@, i as int);
                }
                self.slots[i] = true;
                return Some(i as u32);
            }
            i = i + 1;
        }
        proof {
            lemma_first_free_scan(self@, i as int);
        }
        None
    }

    /// Releases a slot.  Freeing an already free slot changes nothing.
    pub fn free(&mut self, id: u32)
        requires
            (id as int) < old(self)@.len(),
        ensures
            final(self)@ == old(self)@.update(id as int, false),
    {
        self.slots[id as usize] = false;
    }
}

} // verus!
