//! The registry of universes, keyed by universe id.
use vstd::prelude::*;

use crate::dmx_universe::{DMXUniverse, UniverseModel};

verus! {

/// Whether `j` is the first position of `s` that holds key `k`.
pub open spec fn first_with(s: Seq<(usize, UniverseModel)>, k: usize, j: int) -> bool {
    &&& 0 <= j < s.len()
    &&& s[j].0 == k
    &&& forall|i: int| 0 <= i < j ==> s[i].0 != k
}

/// The map that a sequence of entries stands for: each key maps to the
/// universe of its first entry.
pub open spec fn entries_map(s: Seq<(usize, UniverseModel)>) -> Map<usize, UniverseModel> {
    Map::new(
        |k: usize| exists|j: int| 0 <= j < s.len() && s[j].0 == k,
        |k: usize| s[choose|j: int| first_with(s, k, j)].1,
    )
}

/// The abstract value of each entry: an id with its universe.
pub open spec fn models_of(ids: Seq<usize>, universes: Seq<DMXUniverse>) -> Seq<(usize, UniverseModel)> {
    Seq::new(ids.len(), |i: int| (ids[i], universes[i]@))
}

/// Universes by id: `ids[i]` is the key of `universes[i]`, and each id
/// appears once, so registering a universe under an id that is present
/// replaces the earlier one.
#[derive(Debug)]
pub struct DMX {
    ids: Vec<usize>,
    universes: Vec<DMXUniverse>,
}

impl View for DMX {
    type V = Map<usize, UniverseModel>;

    closed spec fn view(&self) -> Map<usize, UniverseModel> {
        entries_map(self.entry_models())
    }
}

impl DMX {
    #[verifier::type_invariant]
    spec fn keyed_once(self) -> bool {
        &&& self.ids@.len() == self.universes@.len()
        &&& forall|i: int, j: int| 0 <= i < j < self.ids@.len() ==> #[trigger] self.ids@[i] != #[trigger] self.ids@[j]
    }

    closed spec fn entry_models(&self) -> Seq<(usize, UniverseModel)> {
        models_of(self.ids@, self.universes@)
    }

    /// An empty registry.
    pub fn new() -> (r: Self)
        ensures
            r@ == Map::<usize, UniverseModel>::empty(),
    {
        let r = DMX { ids: Vec::new(), universes: Vec::new() };
        assert(r@ =~= Map::<usize, UniverseModel>::empty());
        r
    }

    /// The position of the entry with key `id`, if any.
    fn position(&self, id: usize) -> (r: Option<usize>)
        ensures
            match r {
                Some(j) => first_with(self.entry_models(), id, j as int) && j < self.universes@.len(),
                None => forall|j: int| 0 <= j < self.ids@.len() ==> self.ids@[j] != id,
            },
    {
        proof {
            use_type_invariant(self);
        }
        let mut i: usize = 0;
        while i < self.ids.len()
            invariant
                i <= self.ids@.len(),
                self.ids@.len() == self.universes@.len(),
                forall|j: int| 0 <= j < i ==> self.ids@[j] != id,
            decreases self.ids@.len() - i,
        {
            if self.ids[i] == id {
                return Some(i);
            }
            i = i + 1;
        }
        None
    }

    /// Registers `univ` under its id; a universe already registered under
    /// that id is replaced.
    pub fn add_universe(&mut self, univ: DMXUniverse) -> (r: &mut Self)
        ensures
            (*r)@ == old(self)@.insert(univ@.id, univ@),
            *final(self) == *final(r),
    {
        proof {
            use_type_invariant(&*self);
        }
        let id = univ.get_id();
        let ghost s = self.entry_models();
        let ghost u = univ@;
        let found = self.position(id);
        let mut taken = DMX::new();
        std::mem::swap(self, &mut taken);
        let DMX { mut ids, mut universes } = taken;
        let ghost before = ids@;
        match found {
            Some(j) => {
                universes.set(j, univ);
                proof {
                    lemma_replace_first(s, id, j as int, u);
                    assert(models_of(ids@, universes@) =~= s.update(j as int, (id, u)));
                }
            },
            None => {
                ids.push(id);
                universes.push(univ);
                proof {
                    lemma_append_new(s, id, u);
                    assert(models_of(ids@, universes@) =~= s.push((id, u)));
                    assert forall|a: int, b: int| 0 <= a < b < ids@.len() implies #[trigger] ids@[a] != #[trigger] ids@[b] by {
                        assert(before[a] == ids@[a]);
                        if b < before.len() {
                            assert(before[b] == ids@[b]);
                        }
                    }
                }
            },
        }
        *self = DMX { ids, universes };
        self
    }

    /// The universe registered under `id`, to be changed in place; `None`
    /// when no universe has that id.
    pub fn get_universe(&mut self, id: usize) -> (r: Option<&mut DMXUniverse>)
        ensures
            r.is_some() <==> old(self)@.contains_key(id),
            r.is_some() ==> {
                &&& (*r.unwrap())@ == old(self)@[id]
                &&& final(self)@ == old(self)@.insert(id, (*final(r.unwrap()))@)
            },
            r.is_none() ==> final(self)@ == old(self)@,
    {
        proof {
            use_type_invariant(&*self);
        }
        let ghost s = self.entry_models();
        match self.position(id) {
            Some(j) => {
                proof {
                    lemma_lookup_first(s, id, j as int);
                    let ks = self.ids@;
                    let v = self.universes@;
                    assert forall|u: DMXUniverse| #[trigger] entries_map(models_of(ks, v.update(j as int, u)))
                        == entries_map(s).insert(id, u@) by {
                        assert(models_of(ks, v.update(j as int, u)) =~= s.update(j as int, (id, u@)));
                        lemma_replace_first(s, id, j as int, u@);
                    }
                }
                Some(&mut self.universes[j])
            },
            None => None,
        }
    }
}

impl Clone for DMX {
    fn clone(&self) -> (r: Self)
        ensures
            r@ == self@,
    {
        proof {
            use_type_invariant(self);
        }
        let mut universes: Vec<DMXUniverse> = Vec::new();
        let mut i: usize = 0;
        while i < self.universes.len()
            invariant
                i <= self.universes@.len(),
                universes@.len() == i,
                forall|j: int| 0 <= j < i ==> (#[trigger] universes@[j])@ == self.universes@[j]@,
            decreases self.universes@.len() - i,
        {
            universes.push(self.universes[i].clone());
            i = i + 1;
        }
        let ids = self.ids.clone();
        assert(ids@ =~= self.ids@);
        let r = DMX { ids, universes };
        assert(r.entry_models() =~= self.entry_models());
        r
    }
}

impl Default for DMX {
    fn default() -> (r: Self)
        ensures
            r@ == Map::<usize, UniverseModel>::empty(),
    {
        DMX::new()
    }
}

proof fn lemma_lookup_first(s: Seq<(usize, UniverseModel)>, k: usize, j: int)
    requires
        first_with(s, k, j),
    ensures
        entries_map(s).contains_key(k),
        entries_map(s)[k] == s[j].1,
{
    let c = choose|c: int| first_with(s, k, c);
    assert(c == j);
}

proof fn lemma_replace_first(s: Seq<(usize, UniverseModel)>, k: usize, j: int, u: UniverseModel)
    requires
        first_with(s, k, j),
    ensures
        entries_map(s.update(j, (k, u))) == entries_map(s).insert(k, u),
{
    let t = s.update(j, (k, u));
    let a = entries_map(t);
    let b = entries_map(s).insert(k, u);
    assert forall|x: usize| #[trigger] a.contains_key(x) <==> b.contains_key(x) by {
        if x != k {
            if exists|i: int| 0 <= i < s.len() && s[i].0 == x {
                let i = choose|i: int| 0 <= i < s.len() && s[i].0 == x;
                assert(t[i].0 == x);
            }
            if exists|i: int| 0 <= i < t.len() && t[i].0 == x {
                let i = choose|i: int| 0 <= i < t.len() && t[i].0 == x;
                assert(s[i].0 == x);
            }
        } else {
            assert(t[j].0 == k);
        }
    }
    assert forall|x: usize| a.contains_key(x) implies #[trigger] a[x] == b[x] by {
        if x == k {
            assert(first_with(t, k, j));
            let c = choose|c: int| first_with(t, k, c);
            assert(c == j);
        } else {
            let ct = choose|c: int| first_with(t, x, c);
            let i = choose|i: int| 0 <= i < t.len() && t[i].0 == x;
            assert(first_with(t, x, ct)) by {
                lemma_first_exists(t, x, i);
            }
            assert(ct != j);
            assert(s[ct] == t[ct]);
            assert forall|h: int| 0 <= h < ct implies s[h].0 != x by {
                if h != j {
                    assert(s[h] == t[h]);
                }
            }
            assert(first_with(s, x, ct));
            let cs = choose|c: int| first_with(s, x, c);
            assert(cs == ct);
        }
    }
    assert(a =~= b);
}

proof fn lemma_append_new(s: Seq<(usize, UniverseModel)>, k: usize, u: UniverseModel)
    requires
        forall|j: int| 0 <= j < s.len() ==> s[j].0 != k,
    ensures
        entries_map(s.push((k, u))) == entries_map(s).insert(k, u),
{
    let t = s.push((k, u));
    let a = entries_map(t);
    let b = entries_map(s).insert(k, u);
    assert forall|x: usize| #[trigger] a.contains_key(x) <==> b.contains_key(x) by {
        if x != k {
            if exists|i: int| 0 <= i < s.len() && s[i].0 == x {
                let i = choose|i: int| 0 <= i < s.len() && s[i].0 == x;
                assert(t[i].0 == x);
            }
            if exists|i: int| 0 <= i < t.len() && t[i].0 == x {
                let i = choose|i: int| 0 <= i < t.len() && t[i].0 == x;
                assert(s[i].0 == x);
            }
        } else {
            assert(t[s.len() as int].0 == k);
        }
    }
    assert forall|x: usize| a.contains_key(x) implies #[trigger] a[x] == b[x] by {
        if x == k {
            assert(first_with(t, k, s.len() as int));
            let c = choose|c: int| first_with(t, k, c);
            assert(c == s.len() as int);
        } else {
            let ct = choose|c: int| first_with(t, x, c);
            let i = choose|i: int| 0 <= i < t.len() && t[i].0 == x;
            assert(first_with(t, x, ct)) by {
                lemma_first_exists(t, x, i);
            }
            assert(ct < s.len());
            assert(s[ct] == t[ct]);
            assert forall|h: int| 0 <= h < ct implies s[h].0 != x by {
                assert(s[h] == t[h]);
            }
            assert(first_with(s, x, ct));
            let cs = choose|c: int| first_with(s, x, c);
            assert(cs == ct);
        }
    }
    assert(a =~= b);
}

proof fn lemma_first_exists(s: Seq<(usize, UniverseModel)>, k: usize, i: int)
    requires
        0 <= i < s.len(),
        s[i].0 == k,
    ensures
        exists|j: int| first_with(s, k, j),
    decreases i,
{
    if exists|h: int| 0 <= h < i && s[h].0 == k {
        let h = choose|h: int| 0 <= h < i && s[h].0 == k;
        lemma_first_exists(s, k, h);
    } else {
        assert(first_with(s, k, i));
    }
}

} // verus!
