//! The header fields of a request.

use vstd::prelude::*;

use crate::text;

verus! {

/// Header fields by name. A name stands in it once at most.
#[derive(Debug)]
pub struct Headers {
    entries: Vec<(String, String)>,
}

/// Whether the entry at `i` has the name `name`.
spec fn named(entries: Seq<(String, String)>, name: Seq<char>, i: int) -> bool {
    0 <= i < entries.len() && entries[i].0@ == name
}

/// The fields that the entries stand for.
spec fn fields(entries: Seq<(String, String)>) -> Map<Seq<char>, Seq<char>> {
    Map::new(
        |name: Seq<char>| exists|i: int| named(entries, name, i),
        |name: Seq<char>| entries[choose|i: int| named(entries, name, i)].1@,
    )
}

/// No two entries have the same name.
spec fn distinct(entries: Seq<(String, String)>) -> bool {
    forall|i: int, j: int|
        0 <= i < entries.len() && 0 <= j < entries.len() && i != j ==> (#[trigger] entries[i]).0@ != (
        #[trigger] entries[j]).0@
}

impl View for Headers {
    type V = Map<Seq<char>, Seq<char>>;

    closed spec fn view(&self) -> Map<Seq<char>, Seq<char>> {
        fields(self.entries@)
    }
}

impl Headers {
    #[verifier::type_invariant]
    spec fn well_formed(self) -> bool {
        distinct(self.entries@)
    }

    /// No fields.
    pub fn new() -> (r: Headers)
        ensures
            r@ == Map::<Seq<char>, Seq<char>>::empty(),
    {
        let r = Headers { entries: Vec::new() };
        proof {
            assert(r@ =~= Map::<Seq<char>, Seq<char>>::empty());
        }
        r
    }

    /// The value of the field `name`.
    pub fn get(&self, name: &str) -> (r: Option<&String>)
        ensures
            r is Some <==> self@.dom().contains(name@),
            r matches Some(value) ==> value@ == self@[name@],
    {
        proof {
            use_type_invariant(self);
        }
        let mut i: usize = 0;
        while i < self.entries.len()
            invariant
                i <= self.entries@.len(),
                distinct(self.entries@),
                forall|j: int| 0 <= j < i ==> !named(self.entries@, name@, j),
            decreases self.entries@.len() - i,
        {
            if text::same_text(self.entries[i].0.as_str(), name) {
                proof {
                    assert(named(self.entries@, name@, i as int));
                }
                return Some(&self.entries[i].1);
            }
            i = i + 1;
        }
        None
    }

    /// Gives the field `name` the value `value`, in place of any it had.
    pub fn insert(&mut self, name: String, value: String)
        ensures
            final(self)@ == old(self)@.insert(name@, value@),
    {
        proof {
            use_type_invariant(&*self);
        }
        let mut entries: Vec<(String, String)> = Vec::new();
        std::mem::swap(&mut entries, &mut self.entries);
        let ghost before = entries@;
        let mut i: usize = 0;
        while i < entries.len() && !text::same_text(entries[i].0.as_str(), name.as_str())
            invariant
                i <= entries@.len(),
                entries@ == before,
                forall|j: int| 0 <= j < i ==> !named(before, name@, j),
            decreases entries@.len() - i,
        {
            i = i + 1;
        }
        if i < entries.len() {
            entries[i] = (name, value);
        } else {
            entries.push((name, value));
        }
        proof {
            let after = entries@;
            assert forall|j: int, k: int|
                0 <= j < after.len() && 0 <= k < after.len() && j != k implies (
            #[trigger] after[j]).0@ != (#[trigger] after[k]).0@ by {
                if j != i && k != i {
                    assert(after[j] == before[j] && after[k] == before[k]);
                } else {
                    let other = if j == i { k } else { j };
                    assert(after[other] == before[other]);
                    assert(other < i ==> !named(before, name@, other));
                    assert(i < before.len() ==> before[other].0@ != before[i as int].0@);
                }
            }
            assert forall|n: Seq<char>| n != name@ implies #[trigger] fields(after).dom().contains(n)
                == fields(before).dom().contains(n) && (fields(before).dom().contains(n)
                ==> fields(after)[n] == fields(before)[n]) by {
                if fields(before).dom().contains(n) {
                    let k = choose|k: int| named(before, n, k);
                    assert(named(after, n, k));
                }
                if fields(after).dom().contains(n) {
                    let k = choose|k: int| named(after, n, k);
                    assert(named(before, n, k));
                }
            }
            assert(named(after, name@, i as int));
            assert(fields(after) =~= fields(before).insert(name@, value@));
        }
        self.entries = entries;
    }
}

} // verus!
