//! Things kept under a name.

use crate::text::same;
use vstd::prelude::*;

verus! {

/// Things kept under a name, at most one under each.
#[derive(Debug)]
pub struct Ledger<T> {
    entries: Vec<(String, T)>,
}

/// What is kept under each name: the last entry of a name counts.
pub closed spec fn entered_under<T: View>(entries: Seq<(String, T)>) -> Map<Seq<char>, T::V>
    decreases entries.len(),
{
    if entries.len() == 0 {
        Map::empty()
    } else {
        entered_under(entries.drop_last()).insert(entries.last().0@, entries.last().1@)
    }
}

impl<T: View> View for Ledger<T> {
    type V = Map<Seq<char>, T::V>;

    closed spec fn view(&self) -> Map<Seq<char>, T::V> {
        entered_under(self.entries@)
    }
}

impl<T: View> Ledger<T> {
    /// A ledger without entries.
    pub fn new() -> (r: Self)
        ensures
            r@ == Map::<Seq<char>, T::V>::empty(),
    {
        Ledger { entries: Vec::new() }
    }

    /// Takes out what is kept under a name.
    pub fn remove(&mut self, name: &str) -> (r: Option<T>)
        ensures
            final(self)@ == old(self)@.remove(name@),
            match r {
                Some(x) => old(self)@.dom().contains(name@) && x@ == old(self)@[name@],
                None => !old(self)@.dom().contains(name@),
            },
    {
        let mut rest: Vec<(String, T)> = Vec::new();
        std::mem::swap(&mut rest, &mut self.entries);
        let ghost all = rest@;
        let mut kept: Vec<(String, T)> = Vec::new();
        let mut found: Option<T> = None;
        let ghost mut k: nat = 0;
        assert(all.take(0) =~= seq![]);
        assert(entered_under(kept@) =~= entered_under(all.take(0)).remove(name@));
        while rest.len() > 0
            invariant
                k + rest@.len() == all.len(),
                forall|i: int| 0 <= i < rest@.len() ==> (#[trigger] rest@[i]) == all[k + i],
                entered_under(kept@) == entered_under(all.take(k as int)).remove(name@),
                match found {
                    Some(x) => entered_under(all.take(k as int)).dom().contains(name@) && x@
                        == entered_under(all.take(k as int))[name@],
                    None => !entered_under(all.take(k as int)).dom().contains(name@),
                },
            decreases rest@.len(),
        {
            let ghost here = k as int;
            let ghost before = rest@;
            assert(rest@[0] == all[here]);
            let (key, value) = rest.remove(0);
            let ghost so_far = kept@;
            proof {
                assert(all.take(here + 1).drop_last() =~= all.take(here));
                assert(all.take(here + 1).last() == all[here]);
                assert forall|i: int| 0 <= i < rest@.len() implies (#[trigger] rest@[i])
                    == all[here + 1 + i] by {
                    assert(rest@[i] == before[i + 1]);
                }
                k = k + 1;
            }
            if same(key.as_str(), name) {
                found = Some(value);
                assert(entered_under(kept@) =~= entered_under(all.take(k as int)).remove(name@));
            } else {
                kept.push((key, value));
                proof {
                    assert(kept@.drop_last() =~= so_far);
                    assert(entered_under(kept@) =~= entered_under(all.take(k as int)).remove(
                        name@,
                    ));
                }
            }
        }
        assert(all.take(k as int) =~= all);
        self.entries = kept;
        found
    }

    /// Keeps something under a name, in place of what was kept there.
    pub fn insert(&mut self, name: &str, value: T)
        ensures
            final(self)@ == old(self)@.insert(name@, value@),
    {
        let ghost start = self@;
        let _old = self.remove(name);
        let ghost before = self.entries@;
        self.entries.push((name.to_owned(), value));
        assert(self.entries@.drop_last() =~= before);
        assert(self@ =~= start.insert(name@, value@));
    }
}

} // verus!
