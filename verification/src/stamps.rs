//! Remembering when something named was last seen.
use crate::text::same;
use vstd::prelude::*;

verus! {

/// The last time of every name that was ever recorded.
pub struct Stamps {
    entries: Vec<(String, u64)>,
}

/// What a list of entries says, the later ones taking precedence.
pub open spec fn recorded(entries: Seq<(String, u64)>) -> Map<Seq<char>, u64>
    decreases entries.len(),
{
    if entries.len() == 0 {
        Map::empty()
    } else {
        recorded(entries.drop_last()).insert(entries.last().0@, entries.last().1)
    }
}

/// No two entries have the same name.
pub open spec fn distinct(entries: Seq<(String, u64)>) -> bool {
    forall|i: int, j: int|
        #![trigger entries[i], entries[j]]
        0 <= i < j < entries.len() ==> entries[i].0@ != entries[j].0@
}

/// How long before `now` the time `then` was; nothing if it is still to come.
pub open spec fn since(now: u64, then: u64) -> nat {
    if then <= now {
        (now - then) as nat
    } else {
        0
    }
}

/// The names recorded at most `window` before `now`.
pub open spec fn recent(m: Map<Seq<char>, u64>, window: nat, now: u64) -> Set<Seq<char>> {
    m.dom().filter(|k: Seq<char>| since(now, m[k]) <= window)
}

impl View for Stamps {
    type V = Map<Seq<char>, u64>;

    closed spec fn view(&self) -> Map<Seq<char>, u64> {
        recorded(self.entries@)
    }
}

proof fn lemma_recorded(entries: Seq<(String, u64)>)
    requires
        distinct(entries),
    ensures
        forall|i: int|
            0 <= i < entries.len() ==> recorded(entries).contains_key(
                (#[trigger] entries[i]).0@,
            ) && recorded(entries)[entries[i].0@] == entries[i].1,
        forall|k: Seq<char>| #[trigger]
            recorded(entries).contains_key(k) ==> exists|i: int|
                0 <= i < entries.len() && (#[trigger] entries[i]).0@ == k,
        recorded(entries).dom().finite(),
    decreases entries.len(),
{
    if entries.len() > 0 {
        let less = entries.drop_last();
        lemma_recorded(less);
        assert forall|i: int| 0 <= i < entries.len() implies recorded(entries).contains_key(
            (#[trigger] entries[i]).0@,
        ) && recorded(entries)[entries[i].0@] == entries[i].1 by {
            if i < less.len() {
                assert(less[i] == entries[i]);
                assert(entries[i].0@ != entries[entries.len() - 1].0@);
            }
        }
        assert forall|k: Seq<char>| #[trigger] recorded(entries).contains_key(k) implies exists|i: int|
            0 <= i < entries.len() && (#[trigger] entries[i]).0@ == k by {
            if k == entries.last().0@ {
                assert(entries[entries.len() - 1].0@ == k);
            } else {
                assert(recorded(less).contains_key(k));
                let i = choose|i: int| 0 <= i < less.len() && (#[trigger] less[i]).0@ == k;
                assert(entries[i].0@ == k);
            }
        }
    }
}

/// Two lists that hold the same entries say the same.
proof fn lemma_recorded_update(
    entries: Seq<(String, u64)>,
    at: int,
    entry: (String, u64),
)
    requires
        distinct(entries),
        0 <= at < entries.len(),
        entry.0@ == entries[at].0@,
    ensures
        distinct(entries.update(at, entry)),
        recorded(entries.update(at, entry)) == recorded(entries).insert(entry.0@, entry.1),
{
    let now = entries.update(at, entry);
    assert forall|i: int, j: int|
        #![trigger now[i], now[j]]
        0 <= i < j < now.len() implies now[i].0@ != now[j].0@ by {
        assert(entries[i].0@ != entries[j].0@);
    }
    lemma_recorded(entries);
    lemma_recorded(now);
    let a = recorded(now);
    let b = recorded(entries).insert(entry.0@, entry.1);
    assert forall|k: Seq<char>| a.contains_key(k) == b.contains_key(k) by {
        if a.contains_key(k) {
            let i = choose|i: int| 0 <= i < now.len() && (#[trigger] now[i]).0@ == k;
            assert(entries[i].0@ == k);
        }
        if b.contains_key(k) && k != entry.0@ {
            let i = choose|i: int| 0 <= i < entries.len() && (#[trigger] entries[i]).0@ == k;
            assert(now[i].0@ == k);
        }
        assert(now[at].0@ == entry.0@);
    }
    assert forall|k: Seq<char>| a.contains_key(k) implies a[k] == b[k] by {
        let i = choose|i: int| 0 <= i < now.len() && (#[trigger] now[i]).0@ == k;
        if i != at {
            assert(now[i] == entries[i]);
            let x = if i < at { i } else { at };
            let y = if i < at { at } else { i };
            assert(entries[x].0@ != entries[y].0@);
        }
    }
    assert(a =~= b);
}

impl Stamps {
    #[verifier::type_invariant]
    closed spec fn names_distinct(self) -> bool {
        distinct(self.entries@)
    }

    pub fn new() -> (r: Self)
        ensures
            r@ == Map::<Seq<char>, u64>::empty(),
    {
        Stamps { entries: Vec::new() }
    }

    fn find(&self, name: &str) -> (r: usize)
        ensures
            r <= self.entries@.len(),
            r < self.entries@.len() ==> self.entries@[r as int].0@ == name@,
            r == self.entries@.len() ==> forall|i: int|
                0 <= i < self.entries@.len() ==> (#[trigger] self.entries@[i]).0@ != name@,
    {
        let mut i: usize = 0;
        while i < self.entries.len()
            invariant
                i <= self.entries@.len(),
                forall|j: int| 0 <= j < i ==> (#[trigger] self.entries@[j]).0@ != name@,
            decreases self.entries@.len() - i,
        {
            if same(self.entries[i].0.as_str(), name) {
                return i;
            }
            i = i + 1;
        }
        i
    }

    /// When `name` was last recorded.
    pub fn get(&self, name: &str) -> (r: Option<u64>)
        ensures
            match r {
                Some(t) => self@.contains_key(name@) && self@[name@] == t,
                None => !self@.contains_key(name@),
            },
    {
        proof {
            use_type_invariant(self);
            lemma_recorded(self.entries@);
        }
        let i = self.find(name);
        if i < self.entries.len() {
            Some(self.entries[i].1)
        } else {
            None
        }
    }

    /// Records that `name` was seen at `now`.
    pub fn set(&mut self, name: &str, now: u64)
        ensures
            final(self)@ == old(self)@.insert(name@, now),
    {
        proof {
            use_type_invariant(&*self);
        }
        let ghost before = self.entries@;
        let at = self.find(name);
        let mut entries: Vec<(String, u64)> = Vec::new();
        let mut i: usize = 0;
        while i < self.entries.len()
            invariant
                i <= self.entries@.len(),
                self.entries@ == before,
                entries@ == before.take(i as int),
            decreases self.entries@.len() - i,
        {
            entries.push((self.entries[i].0.clone(), self.entries[i].1));
            assert(before.take(i + 1) == before.take(i as int).push(before[i as int]));
            i = i + 1;
        }
        assert(entries@ == before);
        let entry = (name.to_string(), now);
        if at < entries.len() {
            proof {
                lemma_recorded_update(before, at as int, entry);
            }
            entries.set(at, entry);
        } else {
            assert(before.push(entry).drop_last() == before);
            assert(distinct(before.push(entry)));
            entries.push(entry);
        }
        *self = Stamps { entries };
    }

    /// How many names were recorded at most `window` before `now`.
    pub fn count_recent(&self, window: u128, now: u64) -> (r: usize)
        ensures
            r == recent(self@, window as nat, now).len(),
            recent(self@, window as nat, now).finite(),
    {
        proof {
            use_type_invariant(self);
        }
        let mut n: usize = 0;
        let mut i: usize = 0;
        let ghost all = self.entries@;
        assert(all.take(0) == Seq::<(String, u64)>::empty());
        assert(recent(recorded(all.take(0)), window as nat, now) == Set::<Seq<char>>::empty());
        while i < self.entries.len()
            invariant
                i <= self.entries@.len(),
                all == self.entries@,
                distinct(all),
                n <= i,
                recent(recorded(all.take(i as int)), window as nat, now).finite(),
                n == recent(recorded(all.take(i as int)), window as nat, now).len(),
            decreases self.entries@.len() - i,
        {
            let then = self.entries[i].1;
            let ghost less = all.take(i as int);
            let ghost more = all.take(i + 1);
            let ghost name = all[i as int].0@;
            let ghost a = recent(recorded(less), window as nat, now);
            let ghost b = recent(recorded(more), window as nat, now);
            proof {
                assert(more.drop_last() == less);
                assert(distinct(less));
                lemma_recorded(less);
                assert(!recorded(less).contains_key(name)) by {
                    if recorded(less).contains_key(name) {
                        let j = choose|j: int| 0 <= j < less.len() && (#[trigger] less[j]).0@ == name;
                        assert(all[j].0@ != all[i as int].0@);
                    }
                }
                assert(recorded(more) == recorded(less).insert(name, then));
                if since(now, then) <= window {
                    assert(b =~= a.insert(name));
                } else {
                    assert(b =~= a);
                }
            }
            let gap: u64 = now.saturating_sub(then);
            if gap as u128 <= window {
                n = n + 1;
            }
            i = i + 1;
        }
        assert(all.take(i as int) == all);
        n
    }
}

/// A time that lies before another lies before it by their difference, and
/// one that is still to come by nothing.
pub proof fn law_since(now: u64, then: u64)
    ensures
        then <= now ==> since(now, then) == now - then,
        then > now ==> since(now, then) == 0,
{
}

/// A name is recent exactly when it was recorded at most so long ago, or with
/// a time that is still to come.
pub proof fn law_recent(m: Map<Seq<char>, u64>, window: nat, now: u64, name: Seq<char>)
    ensures
        recent(m, window, now).contains(name) <==> m.contains_key(name) && now - m[name] <= window,
{
}

} // verus!
