//! The history of a tuning run: each parameter's values over the iterations, and the
//! latest match result.

use vstd::prelude::*;

use crate::params::{entries_map, lemma_entries_map, unique_names, Param, ParamSet};
use crate::text::{
    chars_le, chars_of, lemma_text_le_total, lemma_text_le_trans, same_text,
    text_le,
};

verus! {

/// The values one parameter took over a run. As in `Param`, each real number is held as
/// the bit pattern of its IEEE 754 double.
#[derive(Clone, Debug)]
pub struct ParamHist {
    pub name: String,
    pub default: u64,
    pub min: u64,
    pub max: u64,
    pub c_end: u64,
    pub r_end: u64,
    pub values: Vec<u64>,
    pub tune: bool,
    pub show: bool,
}

/// A `ParamHist` as plain values.
pub struct HistView {
    pub name: Seq<char>,
    pub default: u64,
    pub min: u64,
    pub max: u64,
    pub c_end: u64,
    pub r_end: u64,
    pub values: Seq<u64>,
    pub tune: bool,
    pub show: bool,
}

impl View for ParamHist {
    type V = HistView;

    open spec fn view(&self) -> HistView {
        HistView {
            name: self.name@,
            default: self.default,
            min: self.min,
            max: self.max,
            c_end: self.c_end,
            r_end: self.r_end,
            values: self.values@,
            tune: self.tune,
            show: self.show,
        }
    }
}

pub open spec fn views(s: Seq<ParamHist>) -> Seq<HistView> {
    s.map_values(|h: ParamHist| h@)
}

/// The state of a tuning run as it is saved and shown.
#[derive(Clone, Debug)]
pub struct Checkpoint {
    pub engine: String,
    pub book: String,
    pub tc: String,
    pub total_iterations: usize,
    pub current_iteration: usize,
    pub wins: usize,
    pub draws: usize,
    pub losses: usize,
    pub time_iter: usize,
    pub time_samples: u32,
    pub params: Vec<ParamHist>,
}

/// Where a history named `n` goes among histories sorted by name: after every one whose
/// name is not greater.
pub open spec fn upper_pos(s: Seq<HistView>, n: Seq<char>) -> int
    decreases s.len(),
{
    if s.len() == 0 {
        0
    } else if text_le(s[0].name, n) {
        1 + upper_pos(s.drop_first(), n)
    } else {
        0
    }
}

/// `s` stably sorted by name (as `sort_by_key` on the name sorts it): each element in turn
/// is put after every earlier one whose name is not greater.
pub open spec fn sort_by_name(s: Seq<HistView>) -> Seq<HistView>
    decreases s.len(),
{
    if s.len() == 0 {
        s
    } else {
        let t = sort_by_name(s.drop_last());
        t.insert(upper_pos(t, s.last().name), s.last())
    }
}

pub open spec fn sorted_by_name(s: Seq<HistView>) -> bool {
    forall|i: int, j: int| 0 <= i < j < s.len() ==> text_le(s[i].name, s[j].name)
}

pub open spec fn names_distinct(s: Seq<HistView>) -> bool {
    forall|i: int, j: int| 0 <= i < j < s.len() ==> s[i].name != s[j].name
}

proof fn lemma_upper_pos(s: Seq<HistView>, n: Seq<char>)
    ensures
        0 <= upper_pos(s, n) <= s.len(),
        forall|k: int| 0 <= k < upper_pos(s, n) ==> text_le(#[trigger] s[k].name, n),
        upper_pos(s, n) < s.len() ==> !text_le(s[upper_pos(s, n)].name, n),
    decreases s.len(),
{
    if s.len() > 0 && text_le(s[0].name, n) {
        lemma_upper_pos(s.drop_first(), n);
        assert forall|k: int| 0 <= k < upper_pos(s, n) implies text_le(#[trigger] s[k].name, n) by {
            if k > 0 {
                assert(s[k] == s.drop_first()[k - 1]);
            }
        }
    }
}

proof fn lemma_insert_sorted(t: Seq<HistView>, x: HistView)
    requires
        sorted_by_name(t),
    ensures
        sorted_by_name(t.insert(upper_pos(t, x.name), x)),
{
    lemma_upper_pos(t, x.name);
    let p = upper_pos(t, x.name);
    let u = t.insert(p, x);
    assert forall|k: int| p <= k < t.len() implies text_le(x.name, #[trigger] t[k].name) by {
        if text_le(t[k].name, x.name) {
            lemma_text_le_trans(t[p].name, t[k].name, x.name);
        }
        lemma_text_le_total(x.name, t[k].name);
    }
    assert forall|i: int, j: int| 0 <= i < j < u.len() implies text_le(u[i].name, u[j].name) by {
        if j < p {
        } else if j == p {
        } else if i < p {
            assert(u[j] == t[j - 1]);
            lemma_text_le_trans(t[i].name, x.name, t[j - 1].name);
        } else if i == p {
            assert(u[j] == t[j - 1]);
        } else {
            assert(u[i] == t[i - 1]);
            assert(u[j] == t[j - 1]);
        }
    }
}

/// Sorting by name gives a sequence sorted by name, of the same length.
pub proof fn lemma_sort_by_name(s: Seq<HistView>)
    ensures
        sorted_by_name(sort_by_name(s)),
        sort_by_name(s).len() == s.len(),
    decreases s.len(),
{
    if s.len() > 0 {
        lemma_sort_by_name(s.drop_last());
        let t = sort_by_name(s.drop_last());
        lemma_upper_pos(t, s.last().name);
        lemma_insert_sorted(t, s.last());
    }
}

/// Sorting keeps the elements, and where no name occurs twice, no name occurs twice after.
pub proof fn lemma_sort_by_name_elements(s: Seq<HistView>)
    ensures
        forall|x: HistView| s.contains(x) <==> #[trigger] sort_by_name(s).contains(x),
        names_distinct(s) ==> names_distinct(sort_by_name(s)),
        forall|k: int| 0 <= k < sort_by_name(s).len() ==>
            exists|i: int| 0 <= i < s.len() && s[i] == #[trigger] sort_by_name(s)[k],
    decreases s.len(),
{
    if s.len() > 0 {
        let init = s.drop_last();
        lemma_sort_by_name_elements(init);
        lemma_sort_by_name(init);
        let t = sort_by_name(init);
        let x = s.last();
        lemma_upper_pos(t, x.name);
        let p = upper_pos(t, x.name);
        let u = t.insert(p, x);
        assert(u == sort_by_name(s));
        assert forall|k: int| 0 <= k < u.len() implies exists|i: int|
            0 <= i < s.len() && s[i] == #[trigger] u[k] by {
            if k < p {
                assert(u[k] == t[k]);
                let i = choose|i: int| 0 <= i < init.len() && init[i] == t[k];
                assert(s[i] == init[i]);
            } else if k == p {
                assert(s[s.len() - 1] == u[k]);
            } else {
                assert(u[k] == t[k - 1]);
                let i = choose|i: int| 0 <= i < init.len() && init[i] == t[k - 1];
                assert(s[i] == init[i]);
            }
        }
        assert forall|y: HistView| s.contains(y) implies u.contains(y) by {
            let i = choose|i: int| 0 <= i < s.len() && s[i] == y;
            if i == s.len() - 1 {
                assert(u[p] == y);
            } else {
                assert(init[i] == y);
                assert(init.contains(y));
                assert(t.contains(y));
                let k = choose|k: int| 0 <= k < t.len() && t[k] == y;
                if k < p {
                    assert(u[k] == y);
                } else {
                    assert(u[k + 1] == y);
                }
            }
        }
        if names_distinct(s) {
            assert(names_distinct(init)) by {
                assert forall|i: int, j: int| 0 <= i < j < init.len() implies init[i].name
                    != init[j].name by {
                    assert(init[i] == s[i] && init[j] == s[j]);
                }
            }
            assert forall|k: int| 0 <= k < t.len() implies #[trigger] t[k].name != x.name by {
                let i = choose|i: int| 0 <= i < init.len() && init[i] == t[k];
                assert(init[i] == s[i]);
            }
            assert forall|i: int, j: int| 0 <= i < j < u.len() implies u[i].name
                != u[j].name by {
                if j < p {
                } else if j == p {
                    assert(u[i] == t[i]);
                } else if i < p {
                    assert(u[j] == t[j - 1]);
                } else if i == p {
                    assert(u[j] == t[j - 1]);
                } else {
                    assert(u[i] == t[i - 1]);
                    assert(u[j] == t[j - 1]);
                }
            }
        }
    }
}

proof fn lemma_views_insert(s: Seq<ParamHist>, p: int, h: ParamHist)
    requires
        0 <= p <= s.len(),
    ensures
        views(s.insert(p, h)) == views(s).insert(p, h@),
{
    assert(views(s.insert(p, h)) =~= views(s).insert(p, h@));
}

/// Where `name` goes among `hists`, which are sorted by name.
fn insertion_point(hists: &Vec<ParamHist>, name: &String) -> (p: usize)
    ensures
        p == upper_pos(views(hists@), name@),
{
    let n = chars_of(name.as_str());
    let len = hists.len();
    let ghost vs = views(hists@);
    let mut k: usize = 0;
    assert(vs.subrange(0, len as int) =~= vs);
    while k < len && chars_le(&chars_of(hists[k].name.as_str()), &n)
        invariant
            k <= len == hists@.len(),
            vs == views(hists@),
            n@ == name@,
            upper_pos(vs, name@) == k + upper_pos(vs.subrange(k as int, len as int), name@),
        decreases len - k,
    {
        assert(vs.subrange(k as int, len as int).drop_first() =~= vs.subrange(k + 1, len as int));
        k += 1;
    }
    k
}

/// The histories stably sorted by name.
fn sort_hists(v: Vec<ParamHist>) -> (r: Vec<ParamHist>)
    ensures
        views(r@) == sort_by_name(views(v@)),
{
    let ghost orig = views(v@);
    let n = v.len();
    let mut src = v;
    let mut out: Vec<ParamHist> = Vec::new();
    let mut i: usize = 0;
    assert(orig.take(0) =~= Seq::<HistView>::empty());
    assert(views(src@) =~= orig.subrange(0, n as int));
    while i < n
        invariant
            i <= n == orig.len(),
            views(src@) == orig.subrange(i as int, n as int),
            views(out@) == sort_by_name(orig.take(i as int)),
        decreases n - i,
    {
        let ghost before = src@;
        assert(views(before).len() == before.len());
        assert(views(before)[0] == before[0]@);
        let h = src.remove(0);
        assert(h@ == orig[i as int]);
        assert(views(src@) =~= orig.subrange(i + 1, n as int)) by {
            assert(src@ =~= before.subrange(1, before.len() as int));
            assert forall|j: int| 0 <= j < src@.len() implies views(src@)[j] == orig[i + 1 + j] by {
                assert(src@[j] == before[j + 1]);
                assert(views(before)[j + 1] == before[j + 1]@);
                assert(orig.subrange(i as int, n as int)[j + 1] == orig[i + 1 + j]);
            }
        }
        let pos = insertion_point(&out, &h.name);
        proof {
            lemma_upper_pos(views(out@), h.name@);
            lemma_views_insert(out@, pos as int, h);
            assert(orig.take(i + 1).drop_last() =~= orig.take(i as int));
            assert(orig.take(i + 1).last() == orig[i as int]);
        }
        out.insert(pos, h);
        i += 1;
    }
    assert(orig.take(n as int) =~= orig);
    out
}

/// The history that a parameter starts with: its value as default and as only value.
pub open spec fn fresh_hist(name: Seq<char>, p: Param) -> HistView {
    HistView {
        name: name,
        default: p.value,
        min: p.min,
        max: p.max,
        c_end: p.c_end,
        r_end: p.r_end,
        values: seq![p.value],
        tune: p.tune,
        show: true,
    }
}

fn start_hist(name: &String, p: Param) -> (h: ParamHist)
    ensures
        h@ == fresh_hist(name@, p),
{
    let mut values: Vec<u64> = Vec::new();
    values.push(p.value);
    assert(values@ =~= seq![p.value]);
    ParamHist {
        name: name.clone(),
        default: p.value,
        min: p.min,
        max: p.max,
        c_end: p.c_end,
        r_end: p.r_end,
        values,
        tune: p.tune,
        show: true,
    }
}

/// No other history before index `i` has the name of history `i`.
pub open spec fn first_of_name(s: Seq<HistView>, i: int) -> bool {
    forall|j: int| 0 <= j < i ==> s[j].name != s[i].name
}

/// The histories with each parameter's latest value appended to the first history of
/// its name.
pub open spec fn with_latest(s: Seq<HistView>, m: Map<Seq<char>, Param>) -> Seq<HistView> {
    Seq::new(
        s.len(),
        |i: int|
            if m.contains_key(s[i].name) && first_of_name(s, i) {
                HistView { values: s[i].values.push(m[s[i].name].value), ..s[i] }
            } else {
                s[i]
            },
    )
}

/// The parameter that a history ends with: its last value, or its default where it has none.
pub open spec fn latest_param(h: HistView) -> Param {
    Param {
        value: if h.values.len() > 0 {
            h.values.last()
        } else {
            h.default
        },
        min: h.min,
        max: h.max,
        c_end: h.c_end,
        r_end: h.r_end,
        tune: h.tune,
    }
}

/// The parameters that the histories end with; of two histories with one name, the
/// later one counts.
pub open spec fn latest_map(s: Seq<HistView>) -> Map<Seq<char>, Param>
    decreases s.len(),
{
    if s.len() == 0 {
        Map::empty()
    } else {
        latest_map(s.drop_last()).insert(s.last().name, latest_param(s.last()))
    }
}

/// Whether some history among `hists` is named `name`.
fn name_taken(hists: &Vec<ParamHist>, name: &String) -> (r: bool)
    ensures
        r == exists|j: int| 0 <= j < hists@.len() && hists@[j].name@ == name@,
{
    let mut j: usize = 0;
    while j < hists.len()
        invariant
            j <= hists@.len(),
            forall|k: int| 0 <= k < j ==> hists@[k].name@ != name@,
        decreases hists.len() - j,
    {
        if same_text(hists[j].name.as_str(), name.as_str()) {
            return true;
        }
        j += 1;
    }
    false
}

impl Checkpoint {
    /// A checkpoint for a run that has not started: each parameter with its value as
    /// default and only value, sorted by name.
    pub fn new(engine: String, book: String, tc: String, total_iterations: usize, params: &ParamSet)
        -> (c: Checkpoint)
        ensures
            c.engine == engine,
            c.book == book,
            c.tc == tc,
            c.total_iterations == total_iterations,
            c.current_iteration == 0,
            c.wins == 0,
            c.draws == 0,
            c.losses == 0,
            c.time_iter == 0,
            c.time_samples == 0,
            c.params@.len() == params@.len(),
            sorted_by_name(views(c.params@)),
            names_distinct(views(c.params@)),
            forall|i: int|
                0 <= i < c.params@.len() ==> params@.contains_key(#[trigger] c.params@[i].name@)
                    && c.params@[i]@ == fresh_hist(c.params@[i].name@, params@[c.params@[i].name@]),
            forall|i: int|
                0 <= i < c.params@.len() ==> {
                    let h = #[trigger] c.params@[i];
                    let p = params@[h.name@];
                    &&& h.default == p.value
                    &&& h.values@ == seq![p.value]
                    &&& h.min == p.min
                    &&& h.max == p.max
                    &&& h.c_end == p.c_end
                    &&& h.r_end == p.r_end
                    &&& h.tune == p.tune
                    &&& h.show
                },
            forall|n: Seq<char>|
                #[trigger] params@.contains_key(n) ==> exists|i: int|
                    0 <= i < c.params@.len() && c.params@[i].name@ == n,
    {
        let es = params.entries();
        let ghost m = params@;
        proof {
            lemma_entries_map(es@);
        }
        let mut hists: Vec<ParamHist> = Vec::new();
        let mut i: usize = 0;
        while i < es.len()
            invariant
                i <= es@.len(),
                unique_names(es@),
                entries_map(es@) == m,
                hists@.len() == i,
                forall|k: int| 0 <= k < i ==> #[trigger] hists@[k]@ == fresh_hist(es@[k].0@, es@[k].1),
            decreases es.len() - i,
        {
            let h = start_hist(&es[i].0, es[i].1);
            hists.push(h);
            i += 1;
        }
        let ghost unsorted = views(hists@);
        assert(unsorted.len() == es@.len());
        proof {
            assert(names_distinct(unsorted)) by {
                assert forall|a: int, b: int| 0 <= a < b < unsorted.len() implies unsorted[a].name
                    != unsorted[b].name by {
                    assert(unsorted[a] == hists@[a]@);
                    assert(unsorted[b] == hists@[b]@);
                }
            }
        }
        let sorted = sort_hists(hists);
        proof {
            let v = views(sorted@);
            lemma_entries_map(es@);
            lemma_sort_by_name(unsorted);
            lemma_sort_by_name_elements(unsorted);
            assert forall|k: int| 0 <= k < sorted@.len() implies m.contains_key(
                #[trigger] sorted@[k].name@,
            ) && sorted@[k]@ == fresh_hist(sorted@[k].name@, m[sorted@[k].name@]) by {
                assert(v[k] == sorted@[k]@);
                let i = choose|i: int| 0 <= i < unsorted.len() && unsorted[i] == v[k];
                assert(unsorted[i] == hists@[i]@);
                assert(hists@[i]@ == fresh_hist(es@[i].0@, es@[i].1));
                assert(0 <= i < es@.len());
                assert(entries_map(es@).contains_key(es@[i].0@));
                assert(m.contains_key(es@[i].0@) && m[es@[i].0@] == es@[i].1);
            }
            assert forall|n: Seq<char>| #[trigger] m.contains_key(n) implies exists|k: int|
                0 <= k < sorted@.len() && sorted@[k].name@ == n by {
                let i = choose|i: int| 0 <= i < es@.len() && es@[i].0@ == n;
                assert(unsorted[i] == hists@[i]@);
                assert(unsorted.contains(unsorted[i]));
                assert(v.contains(unsorted[i]));
                let k = choose|k: int| 0 <= k < v.len() && v[k] == unsorted[i];
                assert(v[k] == sorted@[k]@);
            }
            assert forall|k: int| 0 <= k < sorted@.len() implies {
                let h = #[trigger] sorted@[k];
                let p = m[h.name@];
                &&& h.default == p.value
                &&& h.values@ == seq![p.value]
                &&& h.min == p.min
                &&& h.max == p.max
                &&& h.c_end == p.c_end
                &&& h.r_end == p.r_end
                &&& h.tune == p.tune
                &&& h.show
            } by {
                assert(sorted@[k]@ == fresh_hist(sorted@[k].name@, m[sorted@[k].name@]));
            }
        }
        Checkpoint {
            engine,
            book,
            tc,
            total_iterations,
            current_iteration: 0,
            wins: 0,
            draws: 0,
            losses: 0,
            time_iter: 0,
            time_samples: 0,
            params: sorted,
        }
    }
}

proof fn lemma_latest_map(s: Seq<HistView>)
    requires
        names_distinct(s),
    ensures
        forall|i: int|
            0 <= i < s.len() ==> #[trigger] latest_map(s).contains_key(s[i].name)
                && latest_map(s)[s[i].name] == latest_param(s[i]),
        forall|n: Seq<char>|
            #[trigger] latest_map(s).contains_key(n) ==> exists|i: int|
                0 <= i < s.len() && s[i].name == n,
    decreases s.len(),
{
    if s.len() > 0 {
        let init = s.drop_last();
        assert(names_distinct(init)) by {
            assert forall|a: int, b: int| 0 <= a < b < init.len() implies init[a].name
                != init[b].name by {
                assert(init[a] == s[a] && init[b] == s[b]);
            }
        }
        lemma_latest_map(init);
        assert(latest_map(s) == latest_map(init).insert(s.last().name, latest_param(s.last())));
        assert forall|i: int| 0 <= i < s.len() implies #[trigger] latest_map(s).contains_key(
            s[i].name,
        ) && latest_map(s)[s[i].name] == latest_param(s[i]) by {
            if i < s.len() - 1 {
                assert(s[i] == init[i]);
                assert(s[i].name != s[s.len() - 1].name);
                assert(latest_map(init).contains_key(init[i].name));
            }
        }
        assert forall|n: Seq<char>| #[trigger] latest_map(s).contains_key(n) implies exists|
            i: int,
        | 0 <= i < s.len() && s[i].name == n by {
            if n != s.last().name {
                assert(latest_map(init).contains_key(n));
                let i = choose|i: int| 0 <= i < init.len() && init[i].name == n;
                assert(s[i] == init[i]);
            } else {
                assert(s[s.len() - 1].name == n);
            }
        }
    }
}

/// The parameter a name ends with is that of its last history.
proof fn lemma_latest_map_last(s: Seq<HistView>, i: int)
    requires
        0 <= i < s.len(),
        forall|j: int| i < j < s.len() ==> s[j].name != s[i].name,
    ensures
        latest_map(s).contains_key(s[i].name),
        latest_map(s)[s[i].name] == latest_param(s[i]),
    decreases s.len(),
{
    if i < s.len() - 1 {
        let init = s.drop_last();
        assert forall|j: int| i < j < init.len() implies init[j].name != init[i].name by {
            assert(init[j] == s[j]);
        }
        lemma_latest_map_last(init, i);
        assert(s.last().name != s[i].name);
    }
}

/// Every name the latest parameters hold is that of some history.
proof fn lemma_latest_map_domain(s: Seq<HistView>)
    ensures
        forall|n: Seq<char>|
            #[trigger] latest_map(s).contains_key(n) ==> exists|i: int| 0 <= i < s.len() && s[i].name == n,
    decreases s.len(),
{
    if s.len() > 0 {
        let init = s.drop_last();
        lemma_latest_map_domain(init);
        assert(latest_map(s) == latest_map(init).insert(s.last().name, latest_param(s.last())));
        assert forall|n: Seq<char>| #[trigger] latest_map(s).contains_key(n) implies exists|i: int|
            0 <= i < s.len() && s[i].name == n by {
            if n != s.last().name {
                assert(latest_map(init).contains_key(n));
                let i = choose|i: int| 0 <= i < init.len() && init[i].name == n;
                assert(s[i] == init[i]);
            } else {
                assert(s[s.len() - 1].name == n);
            }
        }
    }
}

/// A history keeps its parameter's bounds, constants and tune flag: a fresh history
/// takes each of them from the parameter, with the parameter's value as default and only
/// value, and the parameter a history ends with takes each of them back from the history.
/// So the parameter a fresh history ends with is the one it was made from.
pub proof fn law_history_keeps_parameter_fields(name: Seq<char>, p: Param, h: HistView)
    ensures
        fresh_hist(name, p).name == name,
        fresh_hist(name, p).default == p.value,
        fresh_hist(name, p).values == seq![p.value],
        fresh_hist(name, p).min == p.min,
        fresh_hist(name, p).max == p.max,
        fresh_hist(name, p).c_end == p.c_end,
        fresh_hist(name, p).r_end == p.r_end,
        fresh_hist(name, p).tune == p.tune,
        fresh_hist(name, p).show,
        latest_param(h).min == h.min,
        latest_param(h).max == h.max,
        latest_param(h).c_end == h.c_end,
        latest_param(h).r_end == h.r_end,
        latest_param(h).tune == h.tune,
        h.values.len() > 0 ==> latest_param(h).value == h.values.last(),
        h.values.len() == 0 ==> latest_param(h).value == h.default,
        latest_param(fresh_hist(name, p)) == p,
{
}

/// A new checkpoint gives back, as its latest parameters, the parameters it was made from:
/// a run resumed from it starts where the saved one stood.
pub proof fn law_new_checkpoint_keeps_params(hists: Seq<HistView>, params: Map<Seq<char>, Param>)
    requires
        names_distinct(hists),
        forall|i: int|
            0 <= i < hists.len() ==> params.contains_key(#[trigger] hists[i].name) && hists[i]
                == fresh_hist(hists[i].name, params[hists[i].name]),
        forall|n: Seq<char>|
            #[trigger] params.contains_key(n) ==> exists|i: int|
                0 <= i < hists.len() && hists[i].name == n,
    ensures
        latest_map(hists) == params,
{
    lemma_latest_map(hists);
    assert forall|n: Seq<char>| #[trigger] params.contains_key(n) implies latest_map(hists).contains_key(n)
        && latest_map(hists)[n] == params[n] by {
        let i = choose|i: int| 0 <= i < hists.len() && hists[i].name == n;
        assert(latest_map(hists).contains_key(hists[i].name));
        assert(hists[i].values.last() == params[n].value);
    }
    assert forall|n: Seq<char>| #[trigger] latest_map(hists).contains_key(n) implies params.contains_key(n) by {
        let i = choose|i: int| 0 <= i < hists.len() && hists[i].name == n;
        assert(params.contains_key(hists[i].name));
    }
    assert(latest_map(hists) =~= params);
}

/// After an update, the histories are sorted by name and are the recorded histories
/// (see `law_with_latest_appends`) in another order, and where no name occurred twice,
/// the history of each updated parameter ends with the parameter's new value and has
/// one value more than before.
pub proof fn law_update_records_values(hists: Seq<HistView>, params: Map<Seq<char>, Param>)
    ensures
        sorted_by_name(sort_by_name(with_latest(hists, params))),
        sort_by_name(with_latest(hists, params)).len() == hists.len(),
        sort_by_name(with_latest(hists, params)).to_multiset() == with_latest(hists, params).to_multiset(),
        names_distinct(hists) ==> forall|k: int|
            0 <= k < hists.len() && params.contains_key(
                #[trigger] sort_by_name(with_latest(hists, params))[k].name,
            ) ==> sort_by_name(with_latest(hists, params))[k].values.last()
                == params[sort_by_name(with_latest(hists, params))[k].name].value
                && exists|i: int|
                0 <= i < hists.len() && hists[i].name == sort_by_name(with_latest(hists, params))[k].name
                    && sort_by_name(with_latest(hists, params))[k].values.len() == hists[i].values.len() + 1,
{
    let w = with_latest(hists, params);
    lemma_sort_by_name(w);
    lemma_sort_by_name_elements(w);
    law_sort_is_permutation(w);
    if names_distinct(hists) {
        let r = sort_by_name(w);
        assert forall|k: int|
            0 <= k < hists.len() && params.contains_key(#[trigger] r[k].name) implies r[k].values.last()
                == params[r[k].name].value && exists|i: int|
                0 <= i < hists.len() && hists[i].name == r[k].name && r[k].values.len()
                    == hists[i].values.len() + 1 by {
            let i = choose|i: int| 0 <= i < w.len() && w[i] == r[k];
            assert(first_of_name(hists, i));
            assert(w[i].name == hists[i].name);
        }
    }
}

/// Sorting by name is a permutation: it keeps every history as often as it occurs.
pub proof fn law_sort_is_permutation(s: Seq<HistView>)
    ensures
        sort_by_name(s).to_multiset() == s.to_multiset(),
    decreases s.len(),
{
    if s.len() > 0 {
        let init = s.drop_last();
        law_sort_is_permutation(init);
        lemma_sort_by_name(init);
        let t = sort_by_name(init);
        lemma_upper_pos(t, s.last().name);
        vstd::seq_lib::to_multiset_insert(t, upper_pos(t, s.last().name), s.last());
        vstd::seq_lib::to_multiset_build(init, s.last());
        assert(init.push(s.last()) =~= s);
    }
}

/// Recording the latest values keeps each history in its place, with its name, its other
/// fields and its old values as a prefix; at most one value is appended to each.
pub proof fn law_with_latest_appends(s: Seq<HistView>, m: Map<Seq<char>, Param>)
    ensures
        with_latest(s, m).len() == s.len(),
        forall|i: int| 0 <= i < s.len() ==> {
            let h = #[trigger] with_latest(s, m)[i];
            &&& h.name == s[i].name
            &&& h.default == s[i].default
            &&& h.min == s[i].min
            &&& h.max == s[i].max
            &&& h.c_end == s[i].c_end
            &&& h.r_end == s[i].r_end
            &&& h.tune == s[i].tune
            &&& h.show == s[i].show
            &&& h.values.subrange(0, s[i].values.len() as int) == s[i].values
            &&& s[i].values.len() <= h.values.len() <= s[i].values.len() + 1
        },
{
    assert forall|i: int| 0 <= i < s.len() implies {
        let h = #[trigger] with_latest(s, m)[i];
        &&& h.name == s[i].name
        &&& h.default == s[i].default
        &&& h.min == s[i].min
        &&& h.max == s[i].max
        &&& h.c_end == s[i].c_end
        &&& h.r_end == s[i].r_end
        &&& h.tune == s[i].tune
        &&& h.show == s[i].show
        &&& h.values.subrange(0, s[i].values.len() as int) == s[i].values
        &&& s[i].values.len() <= h.values.len() <= s[i].values.len() + 1
    } by {
        let h = with_latest(s, m)[i];
        assert(h.values.subrange(0, s[i].values.len() as int) =~= s[i].values);
    }
}

/// After an update, the latest parameters carry the values just recorded: for a parameter
/// whose name has a history, where no name occurs twice.
pub proof fn law_latest_after_update(hists: Seq<HistView>, params: Map<Seq<char>, Param>, n: Seq<char>)
    requires
        names_distinct(hists),
        params.contains_key(n),
        exists|i: int| 0 <= i < hists.len() && hists[i].name == n,
    ensures
        latest_map(sort_by_name(with_latest(hists, params))).contains_key(n),
        latest_map(sort_by_name(with_latest(hists, params)))[n].value == params[n].value,
{
    let w = with_latest(hists, params);
    let r = sort_by_name(w);
    assert(names_distinct(w)) by {
        assert forall|a: int, b: int| 0 <= a < b < w.len() implies w[a].name != w[b].name by {
            assert(w[a].name == hists[a].name && w[b].name == hists[b].name);
        }
    }
    lemma_sort_by_name(w);
    lemma_sort_by_name_elements(w);
    law_update_records_values(hists, params);
    lemma_latest_map(r);
    let i = choose|i: int| 0 <= i < hists.len() && hists[i].name == n;
    assert(w[i].name == n);
    assert(w.contains(w[i]));
    assert(r.contains(w[i]));
    let k = choose|k: int| 0 <= k < r.len() && r[k] == w[i];
    assert(latest_map(r).contains_key(r[k].name));
    assert(params.contains_key(r[k].name));
}

/// The parameters with each one's tune flag taken from the history of its name, the
/// histories taken in order (a later history of a name wins); parameters without a
/// history are left as they are.
pub open spec fn with_tune_flags(m: Map<Seq<char>, Param>, hs: Seq<HistView>) -> Map<Seq<char>, Param>
    decreases hs.len(),
{
    if hs.len() == 0 {
        m
    } else {
        let before = with_tune_flags(m, hs.drop_last());
        let n = hs.last().name;
        if before.contains_key(n) {
            before.insert(n, Param { tune: hs.last().tune, ..before[n] })
        } else {
            before
        }
    }
}

/// Taking the tune flags from the histories keeps every parameter and everything but its
/// tune flag, and where no name has two histories, each parameter with a history takes
/// that history's flag.
pub proof fn law_tune_flags_taken(m: Map<Seq<char>, Param>, hs: Seq<HistView>)
    ensures
        with_tune_flags(m, hs).dom() == m.dom(),
        forall|n: Seq<char>| #[trigger] m.contains_key(n) ==> {
            let p = with_tune_flags(m, hs)[n];
            &&& p.value == m[n].value
            &&& p.min == m[n].min
            &&& p.max == m[n].max
            &&& p.c_end == m[n].c_end
            &&& p.r_end == m[n].r_end
        },
        names_distinct(hs) ==> forall|i: int|
            0 <= i < hs.len() && m.contains_key(#[trigger] hs[i].name) ==> with_tune_flags(m, hs)[hs[i].name].tune
                == hs[i].tune,
        forall|n: Seq<char>|
            m.contains_key(n) && (forall|i: int| 0 <= i < hs.len() ==> #[trigger] hs[i].name != n)
                ==> #[trigger] with_tune_flags(m, hs)[n] == m[n],
    decreases hs.len(),
{
    if hs.len() > 0 {
        let init = hs.drop_last();
        law_tune_flags_taken(m, init);
        let before = with_tune_flags(m, init);
        assert(with_tune_flags(m, hs).dom() =~= m.dom());
        if names_distinct(hs) {
            assert(names_distinct(init)) by {
                assert forall|a: int, b: int| 0 <= a < b < init.len() implies init[a].name
                    != init[b].name by {
                    assert(init[a] == hs[a] && init[b] == hs[b]);
                }
            }
            assert forall|i: int| 0 <= i < hs.len() && m.contains_key(#[trigger] hs[i].name) implies with_tune_flags(
                m,
                hs,
            )[hs[i].name].tune == hs[i].tune by {
                if i < hs.len() - 1 {
                    assert(hs[i] == init[i]);
                    assert(hs[i].name != hs[hs.len() - 1].name);
                }
            }
        }
        assert forall|n: Seq<char>|
            m.contains_key(n) && (forall|i: int| 0 <= i < hs.len() ==> #[trigger] hs[i].name != n)
                implies #[trigger] with_tune_flags(m, hs)[n] == m[n] by {
            assert forall|i: int| 0 <= i < init.len() implies #[trigger] init[i].name != n by {
                assert(init[i] == hs[i]);
            }
            assert(hs[hs.len() - 1].name != n);
        }
    }
}

/// The parameters' histories with tuning of the `idx`-th switched.
pub open spec fn toggled(s: Seq<HistView>, idx: int) -> Seq<HistView> {
    if 0 <= idx < s.len() {
        s.update(idx, HistView { tune: !s[idx].tune, ..s[idx] })
    } else {
        s
    }
}

/// Switching tuning of the `idx`-th parameter flips its tune flag and changes nothing
/// else: the other histories, and every other field of that one, stay as they were. An
/// index past the end changes nothing.
pub proof fn law_toggle_flips_one(s: Seq<HistView>, idx: int)
    ensures
        toggled(s, idx).len() == s.len(),
        0 <= idx < s.len() ==> toggled(s, idx)[idx].tune == !s[idx].tune,
        0 <= idx < s.len() ==> toggled(s, idx)[idx] == (HistView { tune: toggled(s, idx)[idx].tune, ..s[idx] }),
        forall|j: int| 0 <= j < s.len() && j != idx ==> #[trigger] toggled(s, idx)[j] == s[j],
{
}

/// Switching tuning of a parameter twice leaves the histories as they were.
pub proof fn law_toggle_twice(s: Seq<HistView>, idx: int)
    ensures
        toggled(toggled(s, idx), idx) == s,
{
    if 0 <= idx < s.len() {
        assert(toggled(toggled(s, idx), idx) =~= s);
    }
}

impl Checkpoint {
    /// Records a finished iteration `k`: each parameter's new value is appended to the
    /// history of its name (the first one, where a name occurs twice), the histories are
    /// sorted by name again, and the match result and iteration count are taken over.
    /// The time per iteration becomes `time` for the first sample and `blended_time`
    /// (the caller's running average of the old time per iteration and `time`) after.
    pub fn update(
        &mut self,
        params: &ParamSet,
        k: usize,
        wins: usize,
        draws: usize,
        losses: usize,
        time: usize,
        blended_time: usize,
    )
        requires
            old(self).time_samples < u32::MAX,
        ensures
            final(self).engine == old(self).engine,
            final(self).book == old(self).book,
            final(self).tc == old(self).tc,
            final(self).wins == wins,
            final(self).draws == draws,
            final(self).losses == losses,
            final(self).total_iterations == if old(self).total_iterations >= k {
                old(self).total_iterations
            } else {
                k
            },
            final(self).current_iteration == k,
            final(self).time_iter == if old(self).time_samples == 0 {
                time
            } else {
                blended_time
            },
            final(self).time_samples == old(self).time_samples + 1,
            views(final(self).params@) == sort_by_name(with_latest(views(old(self).params@), params@)),
    {
        let ghost m = params@;
        let mut src: Vec<ParamHist> = Vec::new();
        std::mem::swap(&mut src, &mut self.params);
        let ghost orig = views(src@);
        let ghost target = with_latest(orig, m);
        let n = src.len();
        let mut out: Vec<ParamHist> = Vec::new();
        let mut i: usize = 0;
        assert(views(src@) =~= orig.subrange(0, n as int));
        assert(views(out@) =~= target.take(0));
        while i < n
            invariant
                i <= n == orig.len(),
                views(src@) == orig.subrange(i as int, n as int),
                views(out@) == target.take(i as int),
                target == with_latest(orig, m),
                m == params@,
            decreases n - i,
        {
            let ghost before = src@;
            assert(views(before).len() == before.len());
            assert(views(before)[0] == before[0]@);
            let mut h = src.remove(0);
            assert(h@ == orig[i as int]);
            assert(views(src@) =~= orig.subrange(i + 1, n as int)) by {
                assert(src@ =~= before.subrange(1, before.len() as int));
                assert forall|j: int| 0 <= j < src@.len() implies views(src@)[j] == orig[i + 1
                    + j] by {
                    assert(src@[j] == before[j + 1]);
                    assert(views(before)[j + 1] == before[j + 1]@);
                    assert(orig.subrange(i as int, n as int)[j + 1] == orig[i + 1 + j]);
                }
            }
            let seen = name_taken(&out, &h.name);
            proof {
                assert(views(out@).len() == out@.len());
                assert(out@.len() == i);
                assert forall|j: int| 0 <= j < i implies #[trigger] out@[j].name@ == orig[j].name by {
                    assert(views(out@)[j] == out@[j]@);
                    assert(target.take(i as int)[j] == target[j]);
                }
                assert(seen == !first_of_name(orig, i as int)) by {
                    if seen {
                        let j = choose|j: int| 0 <= j < out@.len() && out@[j].name@ == h.name@;
                        assert(orig[j].name == orig[i as int].name);
                    }
                    if !first_of_name(orig, i as int) {
                        let j = choose|j: int| 0 <= j < i && orig[j].name == orig[i as int].name;
                        assert(out@[j].name@ == h.name@);
                    }
                }
            }
            if !seen {
                match params.get(h.name.as_str()) {
                    Some(p) => {
                        h.values.push(p.value);
                    },
                    None => {},
                }
            }
            proof {
                assert(h@ == target[i as int]);
                assert(views(out@).len() == out@.len());
            }
            out.push(h);
            proof {
                assert(views(out@) =~= target.take(i + 1)) by {
                    assert forall|j: int| 0 <= j <= i implies views(out@)[j] == target[j] by {
                        if j < i {
                            assert(target.take(i as int)[j] == target[j]);
                        }
                    }
                }
            }
            i += 1;
        }
        assert(target.take(n as int) =~= target);
        self.params = sort_hists(out);
        self.wins = wins;
        self.draws = draws;
        self.losses = losses;
        if self.total_iterations < k {
            self.total_iterations = k;
        }
        self.current_iteration = k;
        if self.time_samples == 0 {
            self.time_iter = time;
        } else {
            self.time_iter = blended_time;
        }
        self.time_samples = self.time_samples + 1;
    }

    /// The parameters as the histories leave them: each with its last value (its default
    /// where it has none).
    pub fn latest_params(&self) -> (r: ParamSet)
        ensures
            r@ == latest_map(views(self.params@)),
            forall|i: int|
                0 <= i < self.params@.len() && (forall|j: int|
                    i < j < self.params@.len() ==> self.params@[j].name@ != #[trigger] self.params@[i].name@)
                    ==> {
                    let h = self.params@[i];
                    &&& r@.contains_key(h.name@)
                    &&& r@[h.name@] == (Param {
                        value: if h.values@.len() > 0 {
                            h.values@.last()
                        } else {
                            h.default
                        },
                        min: h.min,
                        max: h.max,
                        c_end: h.c_end,
                        r_end: h.r_end,
                        tune: h.tune,
                    })
                },
            forall|n: Seq<char>|
                #[trigger] r@.contains_key(n) ==> exists|i: int|
                    0 <= i < self.params@.len() && self.params@[i].name@ == n,
    {
        let ghost vs = views(self.params@);
        let mut r = ParamSet::new();
        let mut i: usize = 0;
        assert(vs.take(0) =~= Seq::<HistView>::empty());
        while i < self.params.len()
            invariant
                i <= self.params@.len(),
                vs == views(self.params@),
                r@ == latest_map(vs.take(i as int)),
            decreases self.params.len() - i,
        {
            let h = &self.params[i];
            let value = if h.values.len() > 0 {
                h.values[h.values.len() - 1]
            } else {
                h.default
            };
            let p = Param {
                value,
                min: h.min,
                max: h.max,
                c_end: h.c_end,
                r_end: h.r_end,
                tune: h.tune,
            };
            proof {
                assert(vs[i as int] == h@);
                assert(vs.take(i + 1).drop_last() =~= vs.take(i as int));
                assert(p == latest_param(vs[i as int]));
            }
            r.insert(h.name.clone(), p);
            i += 1;
        }
        assert(vs.take(self.params@.len() as int) =~= vs);
        proof {
            lemma_latest_map_domain(vs);
            assert forall|i: int|
                0 <= i < self.params@.len() && (forall|j: int|
                    i < j < self.params@.len() ==> self.params@[j].name@ != #[trigger] self.params@[i].name@)
                    implies r@.contains_key(self.params@[i].name@) && r@[self.params@[i].name@]
                    == latest_param(vs[i]) by {
                assert(vs[i] == self.params@[i]@);
                assert forall|j: int| i < j < vs.len() implies vs[j].name != vs[i].name by {
                    assert(vs[j] == self.params@[j]@);
                }
                lemma_latest_map_last(vs, i);
            }
            assert forall|n: Seq<char>| #[trigger] r@.contains_key(n) implies exists|i: int|
                0 <= i < self.params@.len() && self.params@[i].name@ == n by {
                let i = choose|i: int| 0 <= i < vs.len() && vs[i].name == n;
                assert(vs[i] == self.params@[i]@);
            }
        }
        r
    }

    /// Switches tuning of the `idx`-th parameter, where there is one.
    pub fn toggle_tune(&mut self, idx: usize)
        ensures
            final(self).engine == old(self).engine,
            final(self).book == old(self).book,
            final(self).tc == old(self).tc,
            final(self).total_iterations == old(self).total_iterations,
            final(self).current_iteration == old(self).current_iteration,
            final(self).wins == old(self).wins,
            final(self).draws == old(self).draws,
            final(self).losses == old(self).losses,
            final(self).time_iter == old(self).time_iter,
            final(self).time_samples == old(self).time_samples,
            views(final(self).params@) == toggled(views(old(self).params@), idx as int),
            final(self).params@.len() == old(self).params@.len(),
            idx < old(self).params@.len() ==> final(self).params@[idx as int].tune
                == !old(self).params@[idx as int].tune,
            idx < old(self).params@.len() ==> final(self).params@[idx as int]@ == (HistView {
                tune: !old(self).params@[idx as int].tune,
                ..old(self).params@[idx as int]@
            }),
            forall|j: int|
                0 <= j < old(self).params@.len() && j != idx ==> #[trigger] final(self).params@[j]@
                    == old(self).params@[j]@,
    {
        if idx < self.params.len() {
            let mut v: Vec<ParamHist> = Vec::new();
            std::mem::swap(&mut v, &mut self.params);
            let ghost before = v@;
            let mut h = v.remove(idx);
            h.tune = !h.tune;
            v.insert(idx, h);
            assert(views(v@) =~= views(before).update(
                idx as int,
                HistView { tune: !before[idx as int].tune, ..before[idx as int]@ },
            ));
            self.params = v;
        }
    }

    /// Sets, for each history in turn, the tune flag of the parameter of its name, where
    /// there is one.
    pub fn apply_tune_flags(&self, params: &mut ParamSet)
        ensures
            final(params)@ == with_tune_flags(old(params)@, views(self.params@)),
    {
        let ghost vs = views(self.params@);
        let ghost start = params@;
        let mut i: usize = 0;
        assert(vs.take(0) =~= Seq::<HistView>::empty());
        while i < self.params.len()
            invariant
                i <= self.params@.len(),
                vs == views(self.params@),
                params@ == with_tune_flags(start, vs.take(i as int)),
            decreases self.params.len() - i,
        {
            let h = &self.params[i];
            proof {
                assert(vs[i as int] == h@);
                assert(vs.take(i + 1).drop_last() =~= vs.take(i as int));
            }
            params.set_param_enabled(h.name.as_str(), h.tune);
            i += 1;
        }
        assert(vs.take(self.params@.len() as int) =~= vs);
    }

    /// The iteration a run resumed from this checkpoint starts at: the one after the last
    /// recorded.
    pub fn resume_iteration(&self) -> (k: usize)
        requires
            self.current_iteration < usize::MAX,
        ensures
            k == self.current_iteration + 1,
    {
        self.current_iteration + 1
    }

    /// Shows exactly the parameters that are tuned.
    pub fn show_tuned(&mut self)
        ensures
            final(self).engine == old(self).engine,
            final(self).book == old(self).book,
            final(self).tc == old(self).tc,
            final(self).total_iterations == old(self).total_iterations,
            final(self).current_iteration == old(self).current_iteration,
            final(self).wins == old(self).wins,
            final(self).draws == old(self).draws,
            final(self).losses == old(self).losses,
            final(self).time_iter == old(self).time_iter,
            final(self).time_samples == old(self).time_samples,
            views(final(self).params@) == views(old(self).params@).map_values(
                |h: HistView| HistView { show: h.tune, ..h },
            ),
    {
        let mut v: Vec<ParamHist> = Vec::new();
        std::mem::swap(&mut v, &mut self.params);
        let ghost orig = views(v@);
        let ghost target = orig.map_values(|h: HistView| HistView { show: h.tune, ..h });
        let n = v.len();
        let mut out: Vec<ParamHist> = Vec::new();
        let mut i: usize = 0;
        assert(views(v@) =~= orig.subrange(0, n as int));
        while i < n
            invariant
                i <= n == orig.len(),
                views(v@) == orig.subrange(i as int, n as int),
                views(out@) =~= target.take(i as int),
                target == orig.map_values(|h: HistView| HistView { show: h.tune, ..h }),
            decreases n - i,
        {
            let ghost before = v@;
            assert(views(before).len() == before.len());
            assert(views(before)[0] == before[0]@);
            let mut h = v.remove(0);
            assert(h@ == orig[i as int]);
            assert(views(v@) =~= orig.subrange(i + 1, n as int)) by {
                assert(v@ =~= before.subrange(1, before.len() as int));
                assert forall|j: int| 0 <= j < v@.len() implies views(v@)[j] == orig[i + 1 + j] by {
                    assert(v@[j] == before[j + 1]);
                    assert(views(before)[j + 1] == before[j + 1]@);
                    assert(orig.subrange(i as int, n as int)[j + 1] == orig[i + 1 + j]);
                }
            }
            h.show = h.tune;
            assert(views(out@).len() == out@.len());
            out.push(h);
            assert(views(out@) =~= target.take(i + 1)) by {
                assert forall|j: int| 0 <= j <= i implies views(out@)[j] == target[j] by {
                    if j < i {
                        assert(target.take(i as int)[j] == target[j]);
                    }
                }
            }
            i += 1;
        }
        assert(target.take(n as int) =~= target);
        self.params = out;
    }
}

} // verus!
