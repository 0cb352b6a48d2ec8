//! The module list: standard-module filtering, ordering with duplicates
//! removed, and renaming through the user's import mappings.
use vstd::prelude::*;
use crate::text::{chars_of, lines_of, string_from_range};

verus! {

/// The character sequences of a list of strings.
pub open spec fn views(s: Seq<String>) -> Seq<Seq<char>> {
    s.map_values(|x: String| x@)
}

/// Lexicographic order on character sequences by code point, which is the
/// order of `String`'s `Ord` (UTF-8 encoding keeps code point order).
pub open spec fn name_lt(a: Seq<char>, b: Seq<char>) -> bool
    decreases a.len(),
{
    if a.len() == 0 {
        b.len() > 0
    } else if b.len() == 0 {
        false
    } else if a[0] != b[0] {
        a[0] < b[0]
    } else {
        name_lt(a.drop_first(), b.drop_first())
    }
}

/// Every earlier name is strictly smaller than every later one.
pub open spec fn strictly_sorted(s: Seq<Seq<char>>) -> bool {
    forall|i: int, j: int| 0 <= i < j < s.len() ==> name_lt(s[i], s[j])
}

pub proof fn lemma_name_lt_irreflexive(a: Seq<char>)
    ensures
        !name_lt(a, a),
    decreases a.len(),
{
    if a.len() > 0 {
        lemma_name_lt_irreflexive(a.drop_first());
    }
}

pub proof fn lemma_name_lt_total(a: Seq<char>, b: Seq<char>)
    ensures
        a == b || name_lt(a, b) || name_lt(b, a),
    decreases a.len(),
{
    if a.len() > 0 && b.len() > 0 && a[0] == b[0] {
        lemma_name_lt_total(a.drop_first(), b.drop_first());
        if a.drop_first() == b.drop_first() {
            assert(a =~= seq![a[0]] + a.drop_first());
            assert(b =~= seq![b[0]] + b.drop_first());
        }
    } else if a.len() == 0 && b.len() == 0 {
        assert(a =~= b);
    } else if a.len() > 0 && b.len() > 0 {
    }
}

pub proof fn lemma_name_lt_transitive(a: Seq<char>, b: Seq<char>, c: Seq<char>)
    requires
        name_lt(a, b),
        name_lt(b, c),
    ensures
        name_lt(a, c),
    decreases a.len(),
{
    if a.len() > 0 && b.len() > 0 && c.len() > 0 && a[0] == b[0] && b[0] == c[0] {
        lemma_name_lt_transitive(a.drop_first(), b.drop_first(), c.drop_first());
    }
}

proof fn lemma_name_lt_asymmetric(a: Seq<char>, b: Seq<char>)
    requires
        name_lt(a, b),
    ensures
        !name_lt(b, a),
{
    if name_lt(b, a) {
        lemma_name_lt_transitive(a, b, a);
        lemma_name_lt_irreflexive(a);
    }
}

/// Whether `a` comes strictly before `b`.
pub fn name_less(a: &String, b: &String) -> (r: bool)
    ensures
        r == name_lt(a@, b@),
{
    let x = chars_of(a.as_str());
    let y = chars_of(b.as_str());
    let mut i: usize = 0;
    proof {
        assert(x@.subrange(0, x@.len() as int) =~= x@);
        assert(y@.subrange(0, y@.len() as int) =~= y@);
    }
    while i < x.len() && i < y.len() && x[i] == y[i]
        invariant
            i <= x@.len(),
            i <= y@.len(),
            name_lt(x@, y@) == name_lt(
                x@.subrange(i as int, x@.len() as int),
                y@.subrange(i as int, y@.len() as int),
            ),
        decreases x@.len() - i,
    {
        proof {
            assert(x@.subrange(i as int, x@.len() as int).drop_first() =~= x@.subrange(
                i + 1,
                x@.len() as int,
            ));
            assert(y@.subrange(i as int, y@.len() as int).drop_first() =~= y@.subrange(
                i + 1,
                y@.len() as int,
            ));
        }
        i = i + 1;
    }
    if i == x.len() {
        i < y.len()
    } else if i == y.len() {
        false
    } else {
        x[i] < y[i]
    }
}

/// The names in `modules`, each once, in ascending order.
pub fn sort_dedup(modules: &[String]) -> (r: Vec<String>)
    ensures
        strictly_sorted(views(r@)),
        forall|x: Seq<char>| views(r@).contains(x) <==> views(modules@).contains(x),
{
    let mut out: Vec<String> = Vec::new();
    let mut i: usize = 0;
    while i < modules.len()
        invariant
            i <= modules@.len(),
            strictly_sorted(views(out@)),
            forall|x: Seq<char>|
                views(out@).contains(x) <==> views(modules@.subrange(0, i as int)).contains(x),
        decreases modules@.len() - i,
    {
        let m = &modules[i];
        let mut j: usize = 0;
        while j < out.len() && name_less(&out[j], m)
            invariant
                j <= out@.len(),
                forall|k: int| 0 <= k < j ==> name_lt(#[trigger] out@[k]@, m@),
            decreases out@.len() - j,
        {
            j = j + 1;
        }
        let ghost old_views = views(out@);
        let ghost prefix = views(modules@.subrange(0, i as int));
        let ghost next = views(modules@.subrange(0, i + 1));
        proof {
            assert(next =~= prefix.push(m@));
        }
        if j < out.len() && out[j] == *m {
            proof {
                assert forall|x: Seq<char>| views(out@).contains(x) <==> next.contains(x) by {
                    if x == m@ {
                        assert(old_views[j as int] == x);
                    }
                    if prefix.contains(x) {
                        let w = choose|w: int| 0 <= w < prefix.len() && prefix[w] == x;
                        assert(next[w] == x);
                    }
                    if next.contains(x) && x != m@ {
                        let w = choose|w: int| 0 <= w < next.len() && next[w] == x;
                        assert(prefix[w] == x);
                    }
                }
            }
        } else {
            proof {
                if j < out@.len() {
                    lemma_name_lt_total(out@[j as int]@, m@);
                }
            }
            out.insert(j, m.clone());
            proof {
                let nv = views(out@);
                assert(nv =~= old_views.insert(j as int, m@));
                assert forall|a: int, b: int| 0 <= a < b < nv.len() implies name_lt(
                    nv[a],
                    nv[b],
                ) by {
                    if b == j {
                    } else if a == j {
                        if b > j + 1 {
                            lemma_name_lt_transitive(m@, old_views[j as int], old_views[b - 1]);
                        }
                    } else if a < j && b > j {
                    } else if b < j {
                    } else {
                    }
                }
                assert forall|x: Seq<char>| nv.contains(x) <==> next.contains(x) by {
                    if x == m@ {
                        assert(nv[j as int] == x);
                        assert(next[i as int] == x);
                    }
                    if old_views.contains(x) {
                        let w = choose|w: int| 0 <= w < old_views.len() && old_views[w] == x;
                        if w < j {
                            assert(nv[w] == x);
                        } else {
                            assert(nv[w + 1] == x);
                        }
                    }
                    if nv.contains(x) && x != m@ {
                        let w = choose|w: int| 0 <= w < nv.len() && nv[w] == x;
                        if w < j {
                            assert(old_views[w] == x);
                        } else {
                            assert(old_views[w - 1] == x);
                        }
                    }
                    if prefix.contains(x) {
                        let w = choose|w: int| 0 <= w < prefix.len() && prefix[w] == x;
                        assert(next[w] == x);
                    }
                    if next.contains(x) && x != m@ {
                        let w = choose|w: int| 0 <= w < next.len() && next[w] == x;
                        assert(prefix[w] == x);
                    }
                }
            }
        }
        i = i + 1;
    }
    proof {
        assert(modules@.subrange(0, modules@.len() as int) =~= modules@);
    }
    out
}

/// Whether `name` is one of the standard modules.
pub fn is_std_module(stdlib: &[String], name: &String) -> (r: bool)
    ensures
        r == views(stdlib@).contains(name@),
{
    let mut i: usize = 0;
    while i < stdlib.len()
        invariant
            i <= stdlib@.len(),
            forall|k: int| 0 <= k < i ==> stdlib@[k]@ != name@,
        decreases stdlib@.len() - i,
    {
        if stdlib[i] == *name {
            proof {
                assert(views(stdlib@)[i as int] == name@);
            }
            return true;
        }
        i = i + 1;
    }
    proof {
        if views(stdlib@).contains(name@) {
            let w = choose|w: int| 0 <= w < views(stdlib@).len() && views(stdlib@)[w] == name@;
            assert(stdlib@[w]@ == name@);
        }
    }
    false
}

/// A line without one trailing carriage return.
pub open spec fn strip_cr(l: Seq<char>) -> Seq<char> {
    if l.len() > 0 && l.last() == '\r' {
        l.drop_last()
    } else {
        l
    }
}

/// The lines of `s` as `str::lines` gives them: cut at `'\n'`, a `"\r\n"`
/// ending counts as one, and text after the last newline is a line only when
/// it is not empty.
pub open spec fn text_lines(s: Seq<char>) -> Seq<Seq<char>> {
    let ls = lines_of(s);
    let body = ls.drop_last().map_values(|l: Seq<char>| strip_cr(l));
    if ls.last().len() == 0 {
        body
    } else {
        body.push(ls.last())
    }
}

/// The module names that the runtime printed, one per line.
pub fn parse_module_list(output: &str) -> (r: Vec<String>)
    ensures
        views(r@) == text_lines(output@),
{
    let v = chars_of(output);
    let mut out: Vec<String> = Vec::new();
    let mut start: usize = 0;
    let mut i: usize = 0;
    proof {
        assert(v@.subrange(0, 0) =~= Seq::<char>::empty());
    }
    while i < v.len()
        invariant
            start <= i <= v@.len(),
            lines_of(v@.subrange(0, i as int)).len() >= 1,
            lines_of(v@.subrange(0, i as int)).last() == v@.subrange(start as int, i as int),
            views(out@) == lines_of(v@.subrange(0, i as int)).drop_last().map_values(
                |l: Seq<char>| strip_cr(l),
            ),
        decreases v@.len() - i,
    {
        let ghost before = lines_of(v@.subrange(0, i as int));
        let ghost pre = v@.subrange(0, i + 1);
        proof {
            assert(pre.drop_last() =~= v@.subrange(0, i as int));
        }
        if v[i] == '\n' {
            let end = if i > start && v[i - 1] == '\r' {
                i - 1
            } else {
                i
            };
            let line = string_from_range(&v, start, end);
            let ghost old_out = views(out@);
            out.push(line);
            proof {
                assert(views(out@) =~= old_out.push(line@));
                let l = v@.subrange(start as int, i as int);
                assert(strip_cr(l) =~= v@.subrange(start as int, end as int));
                assert(lines_of(pre) == before.push(Seq::<char>::empty()));
                assert(lines_of(pre).drop_last() =~= before);
                assert(before =~= before.drop_last().push(l));
                assert(before.map_values(|l: Seq<char>| strip_cr(l)) =~= before.drop_last().map_values(
                    |l: Seq<char>| strip_cr(l),
                ).push(strip_cr(l)));
                assert(views(out@) =~= before.map_values(|l: Seq<char>| strip_cr(l)));
                assert(v@.subrange(i + 1, i + 1) =~= Seq::<char>::empty());
            }
            start = i + 1;
        } else {
            proof {
                let after = lines_of(pre);
                assert(after == before.update(before.len() - 1, before.last().push(v@[i as int])));
                assert(after.drop_last() =~= before.drop_last());
                assert(after.last() =~= v@.subrange(start as int, i + 1));
            }
        }
        i = i + 1;
    }
    proof {
        assert(v@.subrange(0, v@.len() as int) =~= v@);
    }
    if start < v.len() {
        let line = string_from_range(&v, start, v.len());
        out.push(line);
        proof {
            assert(views(out@) =~= text_lines(v@));
        }
    } else {
        proof {
            assert(views(out@) =~= text_lines(v@));
        }
    }
    out
}

/// A table that renames import names. Later entries win over earlier ones
/// with the same key, so the table behaves as a map.
pub struct ImportMappings {
    pub entries: Vec<(String, String)>,
}

/// The replacement for `k` in `es`: the value of its last entry.
pub open spec fn lookup_in(es: Seq<(String, String)>, k: Seq<char>) -> Option<Seq<char>>
    decreases es.len(),
{
    if es.len() == 0 {
        None
    } else if es.last().0@ == k {
        Some(es.last().1@)
    } else {
        lookup_in(es.drop_last(), k)
    }
}

impl View for ImportMappings {
    type V = Map<Seq<char>, Seq<char>>;

    open spec fn view(&self) -> Map<Seq<char>, Seq<char>> {
        Map::new(
            |k: Seq<char>| lookup_in(self.entries@, k) is Some,
            |k: Seq<char>| lookup_in(self.entries@, k)->0,
        )
    }
}

impl ImportMappings {
    pub fn new() -> (r: Self)
        ensures
            r@ == Map::<Seq<char>, Seq<char>>::empty(),
    {
        let r = ImportMappings { entries: Vec::new() };
        proof {
            assert(r@ =~= Map::<Seq<char>, Seq<char>>::empty());
        }
        r
    }

    /// Maps `from` to `to`, replacing any earlier mapping of `from`.
    pub fn insert(&mut self, from: String, to: String)
        ensures
            final(self)@ == old(self)@.insert(from@, to@),
    {
        self.entries.push((from, to));
        proof {
            let es = self.entries@;
            assert(es.drop_last() =~= old(self).entries@);
            assert(self@ =~= old(self)@.insert(from@, to@));
        }
    }

    /// The replacement for `name`, if one is mapped.
    pub fn get(&self, name: &String) -> (r: Option<String>)
        ensures
            match r {
                Some(t) => self@.contains_key(name@) && self@[name@] == t@,
                None => !self@.contains_key(name@),
            },
    {
        let mut i = self.entries.len();
        proof {
            assert(self.entries@.subrange(0, i as int) =~= self.entries@);
        }
        while i > 0
            invariant
                i <= self.entries@.len(),
                lookup_in(self.entries@, name@) == lookup_in(
                    self.entries@.subrange(0, i as int),
                    name@,
                ),
            decreases i,
        {
            proof {
                assert(self.entries@.subrange(0, i as int).drop_last() =~= self.entries@.subrange(
                    0,
                    i - 1,
                ));
            }
            if self.entries[i - 1].0 == *name {
                return Some(self.entries[i - 1].1.clone());
            }
            i = i - 1;
        }
        None
    }
}

/// `m` renamed through `mappings`, or unchanged where nothing maps it.
pub open spec fn remap_name(mappings: Option<Map<Seq<char>, Seq<char>>>, m: Seq<char>) -> Seq<
    char,
> {
    match mappings {
        Some(map) => if map.contains_key(m) {
            map[m]
        } else {
            m
        },
        None => m,
    }
}

pub open spec fn mappings_view(mappings: Option<ImportMappings>) -> Option<Map<Seq<char>, Seq<char>>> {
    match mappings {
        Some(t) => Some(t@),
        None => None,
    }
}

/// `modules` with each name renamed through `mappings`.
pub open spec fn remap_all(mappings: Option<Map<Seq<char>, Seq<char>>>, modules: Seq<Seq<char>>) -> Seq<
    Seq<char>,
> {
    modules.map_values(|m: Seq<char>| remap_name(mappings, m))
}

/// Each name replaced by its mapping where one exists; order and length kept.
pub fn remap_modules(modules: &[String], mappings: &Option<ImportMappings>) -> (r: Vec<String>)
    ensures
        views(r@) == remap_all(mappings_view(*mappings), views(modules@)),
{
    let mut out: Vec<String> = Vec::new();
    let mut i: usize = 0;
    while i < modules.len()
        invariant
            i <= modules@.len(),
            views(out@) == remap_all(
                mappings_view(*mappings),
                views(modules@.subrange(0, i as int)),
            ),
        decreases modules@.len() - i,
    {
        let m = &modules[i];
        let found = match mappings {
            Some(t) => t.get(m),
            None => None,
        };
        let name = match found {
            Some(t) => t,
            None => m.clone(),
        };
        let ghost old_out = views(out@);
        out.push(name);
        proof {
            assert(name@ == remap_name(mappings_view(*mappings), m@));
            assert(views(out@) =~= old_out.push(name@));
            assert(views(modules@.subrange(0, i + 1)) =~= views(modules@.subrange(0, i as int)).push(m@));
            assert(views(out@) =~= remap_all(
                mappings_view(*mappings),
                views(modules@.subrange(0, i + 1)),
            ));
        }
        i = i + 1;
    }
    proof {
        assert(modules@.subrange(0, modules@.len() as int) =~= modules@);
    }
    out
}

/// Two strictly ascending lists that hold the same names are the same list.
pub proof fn lemma_sorted_same_names_equal(a: Seq<Seq<char>>, b: Seq<Seq<char>>)
    requires
        strictly_sorted(a),
        strictly_sorted(b),
        forall|x: Seq<char>| a.contains(x) <==> b.contains(x),
    ensures
        a == b,
    decreases a.len(),
{
    if a.len() == 0 {
        if b.len() > 0 {
            assert(b.contains(b[0]));
        }
        assert(a =~= b);
    } else {
        assert(a.contains(a[0]));
        let j = choose|j: int| 0 <= j < b.len() && b[j] == a[0];
        assert(b.contains(b[0]));
        let i = choose|i: int| 0 <= i < a.len() && a[i] == b[0];
        if j > 0 {
            assert(name_lt(b[0], b[j]));
            if i == 0 {
                lemma_name_lt_irreflexive(a[0]);
            } else {
                assert(name_lt(a[0], a[i]));
                lemma_name_lt_asymmetric(a[0], a[i]);
            }
        }
        assert(a[0] == b[0]);
        let ta = a.drop_first();
        let tb = b.drop_first();
        assert forall|x: Seq<char>| ta.contains(x) <==> tb.contains(x) by {
            if ta.contains(x) {
                let w = choose|w: int| 0 <= w < ta.len() && ta[w] == x;
                assert(a[w + 1] == x);
                assert(name_lt(a[0], x));
                lemma_name_lt_irreflexive(x);
                assert(a.contains(x));
                assert(b.contains(x));
                let u = choose|u: int| 0 <= u < b.len() && b[u] == x;
                assert(u != 0);
                assert(tb[u - 1] == x);
            }
            if tb.contains(x) {
                let w = choose|w: int| 0 <= w < tb.len() && tb[w] == x;
                assert(b[w + 1] == x);
                assert(name_lt(b[0], x));
                lemma_name_lt_irreflexive(x);
                assert(b.contains(x));
                assert(a.contains(x));
                let u = choose|u: int| 0 <= u < a.len() && a[u] == x;
                assert(u != 0);
                assert(ta[u - 1] == x);
            }
        }
        lemma_sorted_same_names_equal(ta, tb);
        assert(a =~= seq![a[0]] + ta);
        assert(b =~= seq![b[0]] + tb);
    }
}

/// Sorting with duplicates removed depends only on which names occur: any two
/// inputs with the same names, in whatever order and multiplicity, give the
/// same result.
pub proof fn lemma_sort_dedup_order_independent(
    m1: Seq<Seq<char>>,
    m2: Seq<Seq<char>>,
    r1: Seq<Seq<char>>,
    r2: Seq<Seq<char>>,
)
    requires
        forall|x: Seq<char>| m1.contains(x) <==> m2.contains(x),
        strictly_sorted(r1),
        forall|x: Seq<char>| r1.contains(x) <==> m1.contains(x),
        strictly_sorted(r2),
        forall|x: Seq<char>| r2.contains(x) <==> m2.contains(x),
    ensures
        r1 == r2,
{
    lemma_sorted_same_names_equal(r1, r2);
}

/// Renaming keeps the length and renames each name on its own; with no table,
/// or an empty one, it changes nothing.
pub proof fn lemma_remap_identity(modules: Seq<Seq<char>>)
    ensures
        remap_all(None, modules) == modules,
        remap_all(Some(Map::<Seq<char>, Seq<char>>::empty()), modules) == modules,
{
    assert(remap_all(None, modules) =~= modules);
    assert(remap_all(Some(Map::<Seq<char>, Seq<char>>::empty()), modules) =~= modules);
}

/// Each renamed name depends on its own original only.
pub proof fn lemma_remap_pointwise(mappings: Option<Map<Seq<char>, Seq<char>>>, modules: Seq<Seq<char>>)
    ensures
        remap_all(mappings, modules).len() == modules.len(),
        forall|i: int|
            0 <= i < modules.len() ==> #[trigger] remap_all(mappings, modules)[i] == remap_name(
                mappings,
                modules[i],
            ),
{
}

} // verus!
