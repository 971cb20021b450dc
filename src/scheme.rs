use vstd::prelude::*;

use crate::error::ConfigError;
use crate::assoc::{assoc, lemma_assoc_absent, lemma_assoc_last, lemma_assoc_push, lemma_assoc_update};

verus! {

/// A color value: an opaque string.
pub struct Color(pub String);

impl View for Color {
    type V = Seq<char>;

    open spec fn view(&self) -> Seq<char> {
        self.0@
    }
}

impl Color {
    /// A copy of this color.
    pub fn duplicate(&self) -> (r: Color)
        ensures
            r@ == self@,
    {
        Color(self.0.clone())
    }
}

/// A flat colorscheme: color names mapped to color values.
///
/// The entries form an association list; a later entry overrides an earlier
/// one with the same name.
pub struct Colorscheme {
    pub entries: Vec<(String, Color)>,
}

impl View for Colorscheme {
    type V = Map<Seq<char>, Seq<char>>;

    open spec fn view(&self) -> Map<Seq<char>, Seq<char>> {
        assoc(self.entries@)
    }
}

/// Index of the last entry whose name is `key`, if any.
pub fn last_index_of<V>(entries: &Vec<(String, V)>, key: &String) -> (r: Option<usize>)
    ensures
        match r {
            Some(i) => i < entries@.len() && entries@[i as int].0@ == key@
                && forall|j: int| i < j < entries@.len() ==> entries@[j].0@ != key@,
            None => forall|j: int| 0 <= j < entries@.len() ==> entries@[j].0@ != key@,
        },
{
    let mut i: usize = entries.len();
    while i > 0
        invariant
            i <= entries@.len(),
            forall|j: int| i <= j < entries@.len() ==> entries@[j].0@ != key@,
        decreases i,
    {
        i = i - 1;
        if entries[i].0 == *key {
            return Some(i);
        }
    }
    None
}

impl Colorscheme {
    /// An empty colorscheme.
    pub fn new() -> (r: Self)
        ensures
            r@ == Map::<Seq<char>, Seq<char>>::empty(),
    {
        Colorscheme { entries: Vec::new() }
    }

    /// A copy of this colorscheme.
    pub fn duplicate(&self) -> (r: Self)
        ensures
            r@ == self@,
    {
        let mut entries: Vec<(String, Color)> = Vec::new();
        let n = self.entries.len();
        for i in 0..n
            invariant
                n == self.entries@.len(),
                entries@.len() == i,
                forall|j: int| 0 <= j < i ==> entries@[j].0@ == self.entries@[j].0@
                    && entries@[j].1@ == self.entries@[j].1@,
        {
            let e = &self.entries[i];
            entries.push((e.0.clone(), e.1.duplicate()));
        }
        let r = Colorscheme { entries };
        proof {
            lemma_assoc_same_views(r.entries@, self.entries@);
        }
        r
    }

    /// The value of color `key`, if the colorscheme has it.
    pub fn get(&self, key: &String) -> (r: Option<&Color>)
        ensures
            match r {
                Some(c) => self@.contains_key(key@) && self@[key@] == c@,
                None => !self@.contains_key(key@),
            },
    {
        match last_index_of(&self.entries, key) {
            Some(i) => {
                proof {
                    lemma_assoc_last(self.entries@, i as int);
                }
                Some(&self.entries[i].1)
            },
            None => {
                proof {
                    lemma_assoc_absent(self.entries@, key@);
                }
                None
            },
        }
    }

    /// Sets color `key` to `value`, replacing any earlier value.
    pub fn set(&mut self, key: String, value: Color)
        ensures
            final(self)@ == old(self)@.insert(key@, value@),
    {
        match last_index_of(&self.entries, &key) {
            Some(i) => {
                proof {
                    lemma_assoc_update(self.entries@, i as int, (key, value));
                }
                self.entries.set(i, (key, value));
            },
            None => {
                proof {
                    lemma_assoc_push(self.entries@, (key, value));
                }
                self.entries.push((key, value));
            },
        }
    }

    /// Merges `map` into this colorscheme; its values win over existing ones.
    pub fn insert(&mut self, map: &Vec<(String, Color)>)
        ensures
            final(self)@ == old(self)@.union_prefer_right(assoc(map@)),
    {
        let ghost start = self@;
        let n = map.len();
        for i in 0..n
            invariant
                n == map@.len(),
                self@ == start.union_prefer_right(assoc(map@.take(i as int))),
        {
            proof {
                assert(map@.take(i + 1).drop_last() =~= map@.take(i as int));
            }
            let e = &map[i];
            self.set(e.0.clone(), e.1.duplicate());
            assert(self@ =~= start.union_prefer_right(assoc(map@.take(i + 1))));
        }
        assert(map@.take(n as int) =~= map@);
    }

    /// Merges the colors of `other` into this colorscheme; those of `other` win.
    pub fn inherit(&mut self, other: &Self)
        ensures
            final(self)@ == old(self)@.union_prefer_right(other@),
    {
        self.insert(&other.entries);
    }

    /// Merges, in order, the compiled colorschemes named in `to_inherit`, each
    /// looked up in `current_state`; a later one wins over an earlier one.
    ///
    /// Fails with `UnknownColorscheme`, changing nothing, when a name is not
    /// in `current_state`.
    pub fn inherit_all(&mut self, to_inherit: &Vec<String>, current_state: &Vec<(String, Colorscheme)>) -> (r: Result<(), ConfigError>)
        ensures
            all_present(assoc(current_state@), to_inherit@) ==> r is Ok
                && final(self)@ == old(self)@.union_prefer_right(inherited(assoc(current_state@), to_inherit@)),
            !all_present(assoc(current_state@), to_inherit@) ==> final(self)@ == old(self)@
                && (r matches Err(ConfigError::UnknownColorscheme(n)) && !assoc(current_state@).contains_key(n@)
                && exists|k: int| 0 <= k < to_inherit@.len() && #[trigger] to_inherit@[k]@ == n@),
    {
        let ghost start = self@;
        let ghost env = assoc(current_state@);
        let n = to_inherit.len();
        for i in 0..n
            invariant
                n == to_inherit@.len(),
                env == assoc(current_state@),
                forall|k: int| 0 <= k < i ==> env.contains_key(#[trigger] to_inherit@[k]@),
        {
            match last_index_of(current_state, &to_inherit[i]) {
                Some(j) => {
                    proof {
                        lemma_assoc_last(current_state@, j as int);
                    }
                },
                None => {
                    proof {
                        lemma_assoc_absent(current_state@, to_inherit@[i as int]@);
                    }
                    return Err(ConfigError::UnknownColorscheme(to_inherit[i].clone()));
                },
            }
        }
        for i in 0..n
            invariant
                n == to_inherit@.len(),
                env == assoc(current_state@),
                forall|k: int| 0 <= k < to_inherit@.len() ==> env.contains_key(#[trigger] to_inherit@[k]@),
                self@ == start.union_prefer_right(inherited(env, to_inherit@.take(i as int))),
        {
            proof {
                assert(to_inherit@.take(i + 1).drop_last() =~= to_inherit@.take(i as int));
            }
            let name = &to_inherit[i];
            match last_index_of(current_state, name) {
                Some(j) => {
                    proof {
                        lemma_assoc_last(current_state@, j as int);
                    }
                    self.inherit(&current_state[j].1);
                    assert(self@ =~= start.union_prefer_right(inherited(env, to_inherit@.take(i + 1))));
                },
                None => {
                    proof {
                        assert(env.contains_key(to_inherit@[i as int]@));
                        lemma_assoc_absent(current_state@, name@);
                    }
                },
            }
        }
        assert(to_inherit@.take(n as int) =~= to_inherit@);
        Ok(())
    }

    /// Moves the value of color `from` to the name `to`.
    ///
    /// Fails, changing nothing, when the colorscheme has no color `from`.
    pub fn rename(&mut self, from: &String, to: &String) -> (r: Result<(), ConfigError>)
        ensures
            old(self)@.contains_key(from@) ==> r is Ok && final(self)@ == old(self)@.remove(from@).insert(to@, old(self)@[from@]),
            !old(self)@.contains_key(from@) ==> final(self)@ == old(self)@,
            !old(self)@.contains_key(from@) ==> (r matches Err(ConfigError::RenameSourceMissing(f)) && f@ == from@),
    {
        let value = match self.get(from) {
            Some(c) => c.duplicate(),
            None => {
                return Err(ConfigError::RenameSourceMissing(from.clone()));
            },
        };
        self.remove(from);
        self.set(to.clone(), value);
        Ok(())
    }

    /// Moves the colors named by the sources of `variables` to their targets.
    ///
    /// Every source must be a color of this colorscheme as it stands before
    /// the call, and every value comes from there, so earlier renames never
    /// feed later ones. Fails, changing nothing, at the first missing source.
    pub fn rename_all(&mut self, variables: &Vec<(String, String)>) -> (r: Result<(), ConfigError>)
        ensures
            match renamed(old(self)@, variables@) {
                Ok(m) => r is Ok && final(self)@ == m,
                Err(k) => final(self)@ == old(self)@ && (r matches Err(ConfigError::RenameSourceMissing(f)) && f@ == k),
            },
    {
        let base = self.duplicate();
        let n = variables.len();
        for i in 0..n
            invariant
                n == variables@.len(),
                base@ == old(self)@,
                self@ == old(self)@,
                missing_source(base@, variables@.take(i as int)) is None,
        {
            proof {
                assert(variables@.take(i + 1).drop_last() =~= variables@.take(i as int));
            }
            if base.get(&variables[i].0).is_none() {
                proof {
                    lemma_missing_source_stays(base@, variables@, i + 1);
                }
                return Err(ConfigError::RenameSourceMissing(variables[i].0.clone()));
            }
        }
        proof {
            assert(variables@.take(n as int) =~= variables@);
            lemma_missing_source_none(base@, variables@);
        }
        for i in 0..n
            invariant
                n == variables@.len(),
                self@ == without_sources(base@, variables@.take(i as int)),
        {
            proof {
                assert(variables@.take(i + 1).drop_last() =~= variables@.take(i as int));
            }
            self.remove(&variables[i].0);
        }
        assert(variables@.take(n as int) =~= variables@);
        let ghost stripped = self@;
        for i in 0..n
            invariant
                n == variables@.len(),
                forall|k: int| 0 <= k < variables@.len() ==> base@.contains_key(#[trigger] variables@[k].0@),
                self@ == stripped.union_prefer_right(moved_colors(base@, variables@.take(i as int))),
        {
            proof {
                assert(variables@.take(i + 1).drop_last() =~= variables@.take(i as int));
                assert(base@.contains_key(variables@[i as int].0@));
            }
            match base.get(&variables[i].0) {
                Some(c) => {
                    self.set(variables[i].1.clone(), c.duplicate());
                    assert(self@ =~= stripped.union_prefer_right(moved_colors(base@, variables@.take(i + 1))));
                },
                None => {},
            }
        }
        assert(variables@.take(n as int) =~= variables@);
        Ok(())
    }

    /// Removes color `key`, if present.
    pub fn remove(&mut self, key: &String)
        ensures
            final(self)@ == old(self)@.remove(key@),
    {
        let ghost s = self.entries@;
        let mut kept: Vec<(String, Color)> = Vec::new();
        let n = self.entries.len();
        for i in 0..n
            invariant
                n == s.len(),
                s == self.entries@,
                assoc(kept@) == assoc(s.take(i as int)).remove(key@),
        {
            proof {
                assert(s.take(i + 1).drop_last() =~= s.take(i as int));
            }
            if self.entries[i].0 != *key {
                let e = &self.entries[i];
                let p = (e.0.clone(), e.1.duplicate());
                proof {
                    lemma_assoc_push(kept@, p);
                }
                kept.push(p);
                assert(assoc(kept@) =~= assoc(s.take(i + 1)).remove(key@));
            } else {
                assert(assoc(kept@) =~= assoc(s.take(i + 1)).remove(key@));
            }
        }
        assert(s.take(n as int) =~= s);
        self.entries = kept;
    }
}

/// Every name of `names` is a key of `env`.
pub open spec fn all_present(env: Map<Seq<char>, Map<Seq<char>, Seq<char>>>, names: Seq<String>) -> bool {
    forall|k: int| 0 <= k < names.len() ==> env.contains_key(#[trigger] names[k]@)
}

/// The merge of the colorschemes named in `names`, in order, from `env`;
/// a later one wins over an earlier one.
pub open spec fn inherited(env: Map<Seq<char>, Map<Seq<char>, Seq<char>>>, names: Seq<String>) -> Map<Seq<char>, Seq<char>>
    decreases names.len(),
{
    if names.len() == 0 {
        Map::empty()
    } else {
        inherited(env, names.drop_last()).union_prefer_right(env[names.last()@])
    }
}

/// The source of the first rename that `m` lacks, if any.
pub open spec fn missing_source(m: Map<Seq<char>, Seq<char>>, renames: Seq<(String, String)>) -> Option<Seq<char>>
    decreases renames.len(),
{
    if renames.len() == 0 {
        None
    } else {
        match missing_source(m, renames.drop_last()) {
            Some(k) => Some(k),
            None => if m.contains_key(renames.last().0@) {
                None
            } else {
                Some(renames.last().0@)
            },
        }
    }
}

/// `m` without the source of any rename.
pub open spec fn without_sources(m: Map<Seq<char>, Seq<char>>, renames: Seq<(String, String)>) -> Map<Seq<char>, Seq<char>>
    decreases renames.len(),
{
    if renames.len() == 0 {
        m
    } else {
        without_sources(m, renames.drop_last()).remove(renames.last().0@)
    }
}

/// Each rename's target, holding the value that its source has in `m`;
/// of two renames with the same target the later wins.
pub open spec fn moved_colors(m: Map<Seq<char>, Seq<char>>, renames: Seq<(String, String)>) -> Map<Seq<char>, Seq<char>>
    decreases renames.len(),
{
    if renames.len() == 0 {
        Map::empty()
    } else {
        moved_colors(m, renames.drop_last()).insert(renames.last().1@, m[renames.last().0@])
    }
}

/// The result of applying `renames` to `m`: every source must be a key of
/// `m`; the sources are removed and each target gets its source's value in
/// `m`. `Err` holds the first source that `m` lacks.
pub open spec fn renamed(m: Map<Seq<char>, Seq<char>>, renames: Seq<(String, String)>) -> Result<Map<Seq<char>, Seq<char>>, Seq<char>> {
    match missing_source(m, renames) {
        Some(k) => Err(k),
        None => Ok(without_sources(m, renames).union_prefer_right(moved_colors(m, renames))),
    }
}

/// No source is missing exactly when every source is a key of `m`.
pub proof fn lemma_missing_source_none(m: Map<Seq<char>, Seq<char>>, renames: Seq<(String, String)>)
    ensures
        missing_source(m, renames) is None <==> forall|k: int| 0 <= k < renames.len() ==> m.contains_key(#[trigger] renames[k].0@),
    decreases renames.len(),
{
    if renames.len() > 0 {
        let front = renames.drop_last();
        lemma_missing_source_none(m, front);
        assert forall|k: int| 0 <= k < front.len() implies #[trigger] front[k] == renames[k] by {}
        if missing_source(m, renames) is None {
            assert forall|k: int| 0 <= k < renames.len() implies m.contains_key(#[trigger] renames[k].0@) by {
                if k < front.len() {
                    assert(front[k] == renames[k]);
                }
            }
        }
    }
}

/// Once a source is missing, later renames keep reporting that source.
proof fn lemma_missing_source_stays(m: Map<Seq<char>, Seq<char>>, renames: Seq<(String, String)>, i: int)
    requires
        0 <= i <= renames.len(),
        missing_source(m, renames.take(i)) is Some,
    ensures
        missing_source(m, renames) == missing_source(m, renames.take(i)),
    decreases renames.len() - i,
{
    if i < renames.len() {
        assert(renames.take(i + 1).drop_last() =~= renames.take(i));
        lemma_missing_source_stays(m, renames, i + 1);
    } else {
        assert(renames.take(i) =~= renames);
    }
}

/// Two association lists whose entries have the same views denote the same map.
proof fn lemma_assoc_same_views(a: Seq<(String, Color)>, b: Seq<(String, Color)>)
    requires
        a.len() == b.len(),
        forall|j: int| 0 <= j < a.len() ==> a[j].0@ == b[j].0@ && a[j].1@ == b[j].1@,
    ensures
        assoc(a) == assoc(b),
    decreases a.len(),
{
    if a.len() > 0 {
        lemma_assoc_same_views(a.drop_last(), b.drop_last());
    }
}

} // verus!
