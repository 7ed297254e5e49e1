//! Tuned parameters, by name.

use vstd::prelude::*;

use crate::text::{
    append_decimal, chars_of, decimal_text, has_prefix, has_suffix,
    lemma_parse_usize_text, parse_usize, parse_usize_spec, same_text, strip_prefix,
    strip_suffix,
};

verus! {

/// A tuned engine parameter. Each real number is held as the bit pattern of its IEEE 754
/// double (what `f64::to_bits` gives): this library stores, moves and compares those
/// values and never computes with them.
#[derive(Clone, Copy, Debug, PartialEq, Eq, Structural)]
pub struct Param {
    pub value: u64,
    pub min: u64,
    pub max: u64,
    pub c_end: u64,
    pub r_end: u64,
    pub tune: bool,
}

/// The map that a list of named parameters stands for; a later entry for a name wins.
pub open spec fn entries_map(es: Seq<(String, Param)>) -> Map<Seq<char>, Param>
    decreases es.len(),
{
    if es.len() == 0 {
        Map::empty()
    } else {
        entries_map(es.drop_last()).insert(es.last().0@, es.last().1)
    }
}

/// No name occurs twice.
pub open spec fn unique_names(es: Seq<(String, Param)>) -> bool {
    forall|i: int, j: int| 0 <= i < j < es.len() ==> es[i].0@ != es[j].0@
}

pub proof fn lemma_entries_map(es: Seq<(String, Param)>)
    requires
        unique_names(es),
    ensures
        entries_map(es).dom().finite(),
        entries_map(es).len() == es.len(),
        forall|i: int|
            0 <= i < es.len() ==> #[trigger] entries_map(es).contains_key(es[i].0@)
                && entries_map(es)[es[i].0@] == es[i].1,
        forall|n: Seq<char>|
            #[trigger] entries_map(es).contains_key(n) ==> exists|i: int|
                0 <= i < es.len() && es[i].0@ == n,
    decreases es.len(),
{
    if es.len() > 0 {
        let init = es.drop_last();
        assert(unique_names(init));
        lemma_entries_map(init);
        assert(!entries_map(init).contains_key(es.last().0@)) by {
            if entries_map(init).contains_key(es.last().0@) {
                let i = choose|i: int| 0 <= i < init.len() && init[i].0@ == es.last().0@;
                assert(es[i].0@ == es[es.len() - 1].0@);
            }
        }
        assert forall|n: Seq<char>| #[trigger] entries_map(es).contains_key(n) implies exists|
            i: int,
        | 0 <= i < es.len() && es[i].0@ == n by {
            if n != es.last().0@ {
                let i = choose|i: int| 0 <= i < init.len() && init[i].0@ == n;
                assert(es[i] == init[i]);
            } else {
                assert(es[es.len() - 1].0@ == n);
            }
        }
        assert forall|i: int| 0 <= i < es.len() implies #[trigger] entries_map(es).contains_key(
            es[i].0@,
        ) && entries_map(es)[es[i].0@] == es[i].1 by {
            if i < es.len() - 1 {
                assert(es[i] == init[i]);
            }
        }
    }
}

proof fn lemma_entries_map_update(es: Seq<(String, Param)>, i: int, e: (String, Param))
    requires
        unique_names(es),
        0 <= i < es.len(),
        es[i].0@ == e.0@,
    ensures
        entries_map(es.update(i, e)) == entries_map(es).insert(e.0@, e.1),
        unique_names(es.update(i, e)),
    decreases es.len(),
{
    let u = es.update(i, e);
    assert(unique_names(u)) by {
        assert forall|a: int, b: int| 0 <= a < b < u.len() implies u[a].0@ != u[b].0@ by {
            assert(u[a].0@ == es[a].0@);
            assert(u[b].0@ == es[b].0@);
        }
    }
    if i == es.len() - 1 {
        assert(u.drop_last() =~= es.drop_last());
        assert(entries_map(es).insert(e.0@, e.1) =~= entries_map(es.drop_last()).insert(
            e.0@,
            e.1,
        ));
    } else {
        let init = es.drop_last();
        assert(unique_names(init));
        lemma_entries_map_update(init, i, e);
        assert(u.drop_last() =~= init.update(i, e));
        assert(es.last().0@ != e.0@);
        assert(entries_map(u) =~= entries_map(es).insert(e.0@, e.1));
    }
}

/// Tuned parameters by name, each name at most once.
#[derive(Debug)]
pub struct ParamSet {
    entries: Vec<(String, Param)>,
}

impl View for ParamSet {
    type V = Map<Seq<char>, Param>;

    closed spec fn view(&self) -> Map<Seq<char>, Param> {
        entries_map(self.entries@)
    }
}

impl Clone for ParamSet {
    fn clone(&self) -> (r: ParamSet)
        ensures
            r@ == self@,
    {
        let es = self.entries();
        let mut r = ParamSet::new();
        let mut i: usize = 0;
        assert(es@.take(0) =~= Seq::<(String, Param)>::empty());
        while i < es.len()
            invariant
                i <= es@.len(),
                r@ == entries_map(es@.take(i as int)),
            decreases es.len() - i,
        {
            r.insert(es[i].0.clone(), es[i].1);
            assert(es@.take(i + 1).drop_last() =~= es@.take(i as int));
            i += 1;
        }
        assert(es@.take(es@.len() as int) =~= es@);
        r
    }
}

impl ParamSet {
    #[verifier::type_invariant]
    spec fn names_unique(&self) -> bool {
        unique_names(self.entries@)
    }

    /// The set without any parameter.
    pub fn new() -> (s: ParamSet)
        ensures
            s@ == Map::<Seq<char>, Param>::empty(),
    {
        ParamSet { entries: Vec::new() }
    }

    /// Where `name` stands in the entries.
    fn position(&self, name: &str) -> (r: Option<usize>)
        ensures
            match r {
                Some(i) => i < self.entries@.len() && self.entries@[i as int].0@ == name@,
                None => forall|i: int|
                    0 <= i < self.entries@.len() ==> self.entries@[i].0@ != name@,
            },
    {
        let mut i: usize = 0;
        while i < self.entries.len()
            invariant
                i <= self.entries@.len(),
                forall|k: int| 0 <= k < i ==> self.entries@[k].0@ != name@,
            decreases self.entries.len() - i,
        {
            if same_text(self.entries[i].0.as_str(), name) {
                return Some(i);
            }
            i += 1;
        }
        None
    }

    /// The number of parameters.
    pub fn len(&self) -> (n: usize)
        ensures
            n == self@.len(),
    {
        proof {
            use_type_invariant(self);
            lemma_entries_map(self.entries@);
        }
        self.entries.len()
    }

    /// The parameter called `name`, if there is one.
    pub fn get(&self, name: &str) -> (r: Option<Param>)
        ensures
            r == (if self@.contains_key(name@) {
                Some(self@[name@])
            } else {
                None
            }),
    {
        proof {
            use_type_invariant(self);
            lemma_entries_map(self.entries@);
        }
        match self.position(name) {
            Some(i) => Some(self.entries[i].1),
            None => {
                proof {
                    if self@.contains_key(name@) {
                        let i = choose|i: int|
                            0 <= i < self.entries@.len() && self.entries@[i].0@ == name@;
                    }
                }
                None
            },
        }
    }

    /// Sets the parameter called `name` to `p`, replacing the one it had.
    pub fn insert(&mut self, name: String, p: Param)
        ensures
            final(self)@ == old(self)@.insert(name@, p),
    {
        proof {
            use_type_invariant(&*self);
        }
        let pos = self.position(name.as_str());
        let mut es: Vec<(String, Param)> = Vec::new();
        std::mem::swap(&mut es, &mut self.entries);
        let ghost old_es = es@;
        match pos {
            Some(i) => {
                proof {
                    lemma_entries_map_update(old_es, i as int, (name, p));
                }
                es.set(i, (name, p));
            },
            None => {
                es.push((name, p));
                proof {
                    assert(es@.drop_last() =~= old_es);
                    assert(unique_names(es@)) by {
                        assert forall|a: int, b: int| 0 <= a < b < es@.len() implies es@[a].0@
                            != es@[b].0@ by {
                            if b == es@.len() - 1 {
                                assert(es@[a] == old_es[a]);
                            } else {
                                assert(es@[a] == old_es[a]);
                                assert(es@[b] == old_es[b]);
                            }
                        }
                    }
                }
            },
        }
        self.entries = es;
    }

    /// Turns tuning of the parameter called `name` on or off, where there is one.
    pub fn set_param_enabled(&mut self, name: &str, enabled: bool)
        ensures
            final(self)@ == (if old(self)@.contains_key(name@) {
                old(self)@.insert(name@, Param { tune: enabled, ..old(self)@[name@] })
            } else {
                old(self)@
            }),
    {
        proof {
            use_type_invariant(&*self);
            lemma_entries_map(self.entries@);
        }
        match self.position(name) {
            Some(i) => {
                let n = self.entries[i].0.clone();
                let p = self.entries[i].1;
                self.insert(n, Param { tune: enabled, ..p });
            },
            None => {
                proof {
                    if self@.contains_key(name@) {
                        let i = choose|i: int|
                            0 <= i < self.entries@.len() && self.entries@[i].0@ == name@;
                    }
                }
            },
        }
    }

    /// The parameters with their names, each name once, in no particular order.
    pub fn entries(&self) -> (r: &[(String, Param)])
        ensures
            unique_names(r@),
            entries_map(r@) == self@,
    {
        proof {
            use_type_invariant(self);
        }
        self.entries.as_slice()
    }
}

/// Reading a parameter after setting it gives what was set, and setting one name leaves
/// every other name as it was; switching tuning changes nothing but the tune flag.
pub proof fn law_set_then_get(m: Map<Seq<char>, Param>, name: Seq<char>, p: Param, other: Seq<char>, enabled: bool)
    ensures
        m.insert(name, p).contains_key(name),
        m.insert(name, p)[name] == p,
        other != name ==> m.insert(name, p).contains_key(other) == m.contains_key(other),
        other != name && m.contains_key(other) ==> m.insert(name, p)[other] == m[other],
        m.contains_key(name) ==> m.insert(name, Param { tune: enabled, ..m[name] })[name] == (Param {
            value: m[name].value,
            min: m[name].min,
            max: m[name].max,
            c_end: m[name].c_end,
            r_end: m[name].r_end,
            tune: enabled,
        }),
{
}

/// The name of the file that holds the parameters after `iteration` iterations.
pub open spec fn checkpoint_file_name(iteration: usize) -> Seq<char> {
    "spsa_checkpoint_"@ + decimal_text(iteration as nat) + ".json"@
}

/// The path, below the working directory, of the file that holds the parameters after
/// `iteration` iterations: `checkpoints/spsa_checkpoint_<iteration>.json`.
pub fn checkpoint_path(iteration: usize) -> (r: String)
    ensures
        r@ == "checkpoints/"@ + checkpoint_file_name(iteration),
{
    let mut s = String::new();
    s.append("checkpoints/spsa_checkpoint_");
    append_decimal(&mut s, iteration as u128);
    s.append(".json");
    proof {
        reveal_strlit("checkpoints/spsa_checkpoint_");
        reveal_strlit("checkpoints/");
        reveal_strlit("spsa_checkpoint_");
    }
    assert(s@ =~= "checkpoints/"@ + checkpoint_file_name(iteration));
    s
}

/// The iteration whose parameters a file of this name holds: the name is
/// `spsa_checkpoint_`, a number as `str::parse::<usize>` reads it, and `.json`.
pub open spec fn checkpoint_number_spec(name: Seq<char>) -> Option<usize> {
    let p = "spsa_checkpoint_"@;
    if has_prefix(name, p) && has_suffix(name.subrange(p.len() as int, name.len() as int), ".json"@) {
        let rest = name.subrange(p.len() as int, name.len() as int);
        parse_usize_spec(rest.subrange(0, rest.len() - ".json"@.len()))
    } else {
        None
    }
}

/// The iteration whose parameters a file of this name holds, where the name is that
/// of a checkpoint file.
pub fn checkpoint_number(file_name: &str) -> (r: Option<usize>)
    ensures
        r == checkpoint_number_spec(file_name@),
{
    let name = chars_of(file_name);
    let prefix = chars_of("spsa_checkpoint_");
    let suffix = chars_of(".json");
    match strip_prefix(&name, &prefix) {
        None => None,
        Some(rest) => match strip_suffix(&rest, &suffix) {
            None => None,
            Some(number) => parse_usize(&number),
        },
    }
}

/// The greatest iteration among the checkpoint files of these names.
pub open spec fn latest_number(names: Seq<Seq<char>>) -> Option<usize>
    decreases names.len(),
{
    if names.len() == 0 {
        None
    } else {
        let before = latest_number(names.drop_last());
        match checkpoint_number_spec(names.last()) {
            None => before,
            Some(k) => match before {
                None => Some(k),
                Some(m) => Some(if m >= k { m } else { k }),
            },
        }
    }
}

/// The greatest iteration for which a file among `file_names` holds a checkpoint.
pub fn latest_checkpoint(file_names: &[String]) -> (r: Option<usize>)
    ensures
        r == latest_number(file_names@.map_values(|s: String| s@)),
{
    let ghost ns = file_names@.map_values(|s: String| s@);
    let mut latest: Option<usize> = None;
    let mut i: usize = 0;
    assert(ns.take(0) =~= Seq::<Seq<char>>::empty());
    while i < file_names.len()
        invariant
            i <= file_names@.len(),
            ns == file_names@.map_values(|s: String| s@),
            latest == latest_number(ns.take(i as int)),
        decreases file_names.len() - i,
    {
        let n = checkpoint_number(file_names[i].as_str());
        assert(ns.take(i + 1).drop_last() =~= ns.take(i as int));
        assert(ns.take(i + 1).last() == file_names@[i as int]@);
        latest = match n {
            None => latest,
            Some(k) => match latest {
                None => Some(k),
                Some(m) => Some(if m >= k { m } else { k }),
            },
        };
        i += 1;
    }
    assert(ns.take(file_names@.len() as int) =~= ns);
    latest
}

/// The file that a checkpoint of iteration `k` is saved to is found again as the
/// checkpoint of iteration `k`.
pub proof fn law_checkpoint_name_round_trip(k: usize)
    ensures
        checkpoint_number_spec(checkpoint_file_name(k)) == Some(k),
{
    let p = "spsa_checkpoint_"@;
    let name = checkpoint_file_name(k);
    let d = decimal_text(k as nat);
    assert(name.subrange(0, p.len() as int) =~= p);
    let rest = name.subrange(p.len() as int, name.len() as int);
    assert(rest =~= d + ".json"@);
    assert(rest.subrange(rest.len() - ".json"@.len(), rest.len() as int) =~= ".json"@);
    assert(rest.subrange(0, rest.len() - ".json"@.len()) =~= d);
    lemma_parse_usize_text(k);
}

/// The latest checkpoint is one of those named, and none named is later.
pub proof fn law_latest_is_greatest(names: Seq<Seq<char>>)
    ensures
        latest_number(names) matches Some(m) ==> exists|i: int|
            0 <= i < names.len() && checkpoint_number_spec(names[i]) == Some(m),
        latest_number(names) is None ==> forall|i: int|
            0 <= i < names.len() ==> checkpoint_number_spec(#[trigger] names[i]) is None,
        forall|i: int|
            0 <= i < names.len() && #[trigger] checkpoint_number_spec(names[i]) is Some ==> (
            latest_number(names) matches Some(m) && checkpoint_number_spec(names[i])->0 <= m),
    decreases names.len(),
{
    if names.len() > 0 {
        let init = names.drop_last();
        law_latest_is_greatest(init);
        assert forall|i: int| 0 <= i < init.len() implies names[i] == #[trigger] init[i] by {}
        assert forall|i: int| 0 <= i < names.len() && #[trigger] checkpoint_number_spec(names[i]) is Some implies (
            latest_number(names) matches Some(m) && checkpoint_number_spec(names[i])->0 <= m) by {
            if i < names.len() - 1 {
                assert(names[i] == init[i]);
                assert(checkpoint_number_spec(init[i]) is Some);
            }
        }
        if latest_number(names) is None {
            assert forall|i: int| 0 <= i < names.len() implies checkpoint_number_spec(
                #[trigger] names[i],
            ) is None by {
                if i < names.len() - 1 {
                    assert(names[i] == init[i]);
                    assert(checkpoint_number_spec(init[i]) is None);
                }
            }
        }
        if let Some(m) = latest_number(names) {
            if latest_number(init) == Some(m) {
                let i = choose|i: int| 0 <= i < init.len() && checkpoint_number_spec(init[i]) == Some(m);
                assert(names[i] == init[i]);
            } else {
                assert(checkpoint_number_spec(names[names.len() - 1]) == Some(m));
            }
        }
    }
}

} // verus!
