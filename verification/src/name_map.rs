use vstd::prelude::*;

verus! {

/// The names carried by a sequence of strings.
pub open spec fn names_of(s: Seq<String>) -> Seq<Seq<char>> {
    s.map_values(|x: String| x@)
}

/// No name occurs twice in `s`.
pub open spec fn distinct_names(s: Seq<Seq<char>>) -> bool {
    forall|i: int, j: int| 0 <= i < s.len() && 0 <= j < s.len() && i != j ==> s[i] != s[j]
}

/// No name occurs twice among the entries.
pub open spec fn keys_distinct<V>(es: Seq<(Seq<char>, V)>) -> bool {
    forall|i: int, j: int|
        0 <= i < es.len() && 0 <= j < es.len() && i != j ==> #[trigger] es[i].0 != #[trigger] es[j].0
}

/// The entries list exactly the pairs of the map.
pub open spec fn entries_agree<V>(es: Seq<(Seq<char>, V)>, m: Map<Seq<char>, V>) -> bool {
    &&& forall|i: int|
        #![trigger es[i]]
        0 <= i < es.len() ==> m.contains_key(es[i].0) && m[es[i].0] == es[i].1
    &&& forall|k: Seq<char>|
        #[trigger] m.contains_key(k) ==> exists|i: int| 0 <= i < es.len() && (#[trigger] es[i]).0 == k
}

/// A table from names to values in which each name occurs at most once.
/// Entries keep the position at which their name was first inserted.
/// (vstd gives `HashMap` contracts only for keys whose hashing it models, and
/// `String` is not among them: with a `String` key not even the length after
/// one insertion can be proved, so the table is a vector without repeats.)
pub struct NameMap<V> {
    entries: Vec<(String, V)>,
    contents: Ghost<Map<Seq<char>, V>>,
}

impl<V> View for NameMap<V> {
    type V = Map<Seq<char>, V>;

    closed spec fn view(&self) -> Map<Seq<char>, V> {
        self.contents@
    }
}

impl<V> NameMap<V> {
    /// The entries, in table order, each name taken by its characters.
    pub closed spec fn entry_seq(&self) -> Seq<(Seq<char>, V)> {
        self.entries@.map_values(|e: (String, V)| (e.0@, e.1))
    }

    /// The entries have distinct names and list exactly the table's pairs.
    pub open spec fn wf(&self) -> bool {
        &&& keys_distinct(self.entry_seq())
        &&& entries_agree(self.entry_seq(), self@)
    }

    /// An empty table.
    pub fn new() -> (r: Self)
        ensures
            r.wf(),
            r@ == Map::<Seq<char>, V>::empty(),
            r.entry_seq() == Seq::<(Seq<char>, V)>::empty(),
    {
        let r = NameMap { entries: Vec::new(), contents: Ghost(Map::empty()) };
        assert(r.entry_seq() =~= Seq::<(Seq<char>, V)>::empty());
        r
    }

    /// The number of names in the table.
    pub fn len(&self) -> (r: usize)
        ensures
            r == self.entry_seq().len(),
    {
        self.entries.len()
    }

    /// The entries in table order.
    pub fn entries(&self) -> (r: &Vec<(String, V)>)
        ensures
            r@.len() == self.entry_seq().len(),
            forall|i: int|
                0 <= i < r@.len() ==> (#[trigger] r@[i]).0@ == self.entry_seq()[i].0 && r@[i].1
                    == self.entry_seq()[i].1,
    {
        &self.entries
    }

    fn find(&self, name: &String) -> (r: Option<usize>)
        requires
            self.wf(),
        ensures
            match r {
                Some(i) => i < self.entry_seq().len() && self.entry_seq()[i as int].0 == name@,
                None => !self@.contains_key(name@),
            },
    {
        let mut i: usize = 0;
        while i < self.entries.len()
            invariant
                0 <= i <= self.entries@.len(),
                self.wf(),
                forall|j: int| 0 <= j < i ==> (#[trigger] self.entry_seq()[j]).0 != name@,
            decreases self.entries@.len() - i,
        {
            if self.entries[i].0 == *name {
                return Some(i);
            }
            i += 1;
        }
        proof {
            if self@.contains_key(name@) {
                let j = choose|j: int|
                    0 <= j < self.entry_seq().len() && (#[trigger] self.entry_seq()[j]).0
                        == name@;
                assert(self.entry_seq()[j].0 != name@);
            }
        }
        None
    }

    /// The value stored under `name`, if any.
    pub fn get(&self, name: &String) -> (r: Option<&V>)
        requires
            self.wf(),
        ensures
            match r {
                Some(v) => self@.contains_key(name@) && *v == self@[name@],
                None => !self@.contains_key(name@),
            },
    {
        match self.find(name) {
            Some(i) => {
                assert(self.entry_seq()[i as int] == self.entry_seq()[i as int]);
                Some(&self.entries[i].1)
            },
            None => None,
        }
    }

    /// Stores `value` under `name`: a name already present keeps its position,
    /// a new name goes last.
    pub fn insert(&mut self, name: String, value: V)
        requires
            old(self).wf(),
        ensures
            final(self).wf(),
            final(self)@ == old(self)@.insert(name@, value),
            old(self)@.contains_key(name@) ==> exists|i: int|
                0 <= i < old(self).entry_seq().len() && old(self).entry_seq()[i].0 == name@
                    && final(self).entry_seq() == old(self).entry_seq().update(i, (name@, value)),
            !old(self)@.contains_key(name@) ==> final(self).entry_seq() == old(self).entry_seq().push(
                (name@, value),
            ),
    {
        let ghost k = name@;
        let ghost v = value;
        let ghost old_es = self.entry_seq();
        let ghost old_m = self@;
        let ghost mut pos: int = old_es.len() as int;
        match self.find(&name) {
            Some(i) => {
                proof { pos = i as int; }
                self.entries.set(i, (name, value));
                self.contents = Ghost(old_m.insert(k, v));
                assert(self.entry_seq() =~= old_es.update(i as int, (k, v)));
                assert(old_es[i as int].0 == k);
            },
            None => {
                self.entries.push((name, value));
                self.contents = Ghost(old_m.insert(k, v));
                assert(self.entry_seq() =~= old_es.push((k, v)));
                assert forall|j: int| 0 <= j < old_es.len() implies (#[trigger] old_es[j]).0 != k by {
                    assert(old_m.contains_key(old_es[j].0));
                }
            },
        }
        let ghost es = self.entry_seq();
        let ghost m = self@;
        assert forall|key: Seq<char>| #[trigger] m.contains_key(key) implies exists|i: int|
            0 <= i < es.len() && (#[trigger] es[i]).0 == key by {
            if key != k {
                assert(old_m.contains_key(key));
                let j = choose|j: int| 0 <= j < old_es.len() && (#[trigger] old_es[j]).0 == key;
                assert(es[j].0 == key);
            } else {
                assert(es[pos].0 == key);
            }
        }
    }
}

} // verus!
