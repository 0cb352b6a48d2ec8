//! Recognising import statements in Python source, one line at a time.
use vstd::prelude::*;
use crate::text::{
    chars_of, has_non_ws, has_prefix_at, lemma_trim_end_append, lemma_trim_of_trim_end, lines_of,
    starts_with, string_from_range, subvec, trim, trim_bounds,
};

verus! {

/// One import statement: `import m`, or `from m import x`.
#[derive(Debug, Clone, PartialEq, Eq)]
pub enum PythonImport {
    ModuleOnly(String),
    ModuleWithMember(String, String),
}

/// The module name and, for a `from` import, the imported member.
pub type ImportModel = (Seq<char>, Option<Seq<char>>);

impl View for PythonImport {
    type V = ImportModel;

    open spec fn view(&self) -> ImportModel {
        match self {
            PythonImport::ModuleOnly(m) => (m@, None),
            PythonImport::ModuleWithMember(m, x) => (m@, Some(x@)),
        }
    }
}

pub open spec fn import_keyword() -> Seq<char> {
    seq!['i', 'm', 'p', 'o', 'r', 't', ' ']
}

pub open spec fn from_keyword() -> Seq<char> {
    seq!['f', 'r', 'o', 'm', ' ']
}

/// The delimiter between module and member in a `from` line.
pub open spec fn import_separator() -> Seq<char> {
    seq![' ', 'i', 'm', 'p', 'o', 'r', 't', ' ']
}

/// Whether the separator occurs in `s` at position `p`.
pub open spec fn separator_at(s: Seq<char>, p: int) -> bool {
    0 <= p && p + 8 <= s.len() && s.subrange(p, p + 8) == import_separator()
}

/// The leftmost occurrence of the separator in `s` at or after `k`.
pub open spec fn first_separator(s: Seq<char>, k: int) -> Option<int>
    decreases s.len() - k,
{
    if k < 0 || k + 8 > s.len() {
        None
    } else if separator_at(s, k) {
        Some(k)
    } else {
        first_separator(s, k + 1)
    }
}

/// Splitting `r` at the separator, when it yields exactly two parts: one
/// occurrence, with no further one after it (occurrences do not overlap).
pub open spec fn split_in_two(r: Seq<char>) -> Option<(Seq<char>, Seq<char>)> {
    match first_separator(r, 0) {
        Some(p) => if first_separator(r, p + 8) is None {
            Some((r.subrange(0, p), r.subrange(p + 8, r.len() as int)))
        } else {
            None
        },
        None => None,
    }
}

/// The import that one source line declares, if any.
pub open spec fn line_import(line: Seq<char>) -> Option<ImportModel> {
    let t = trim(line);
    if starts_with(t, import_keyword()) {
        Some((trim(t.subrange(7, t.len() as int)), None))
    } else if starts_with(t, from_keyword()) {
        match split_in_two(t.subrange(5, t.len() as int)) {
            Some((m, x)) => Some((trim(m), Some(trim(x)))),
            None => None,
        }
    } else {
        None
    }
}

/// The imports of the given lines, in order.
pub open spec fn imports_of_lines(ls: Seq<Seq<char>>) -> Seq<ImportModel>
    decreases ls.len(),
{
    if ls.len() == 0 {
        Seq::<ImportModel>::empty()
    } else {
        let before = imports_of_lines(ls.drop_last());
        match line_import(ls.last()) {
            Some(i) => before.push(i),
            None => before,
        }
    }
}

/// The imports that a source text declares, in order, duplicates kept.
pub open spec fn source_imports(s: Seq<char>) -> Seq<ImportModel> {
    imports_of_lines(lines_of(s))
}

pub open spec fn imports_view(v: Seq<PythonImport>) -> Seq<ImportModel> {
    v.map_values(|i: PythonImport| i@)
}

pub open spec fn import_option_view(o: Option<PythonImport>) -> Option<ImportModel> {
    match o {
        Some(i) => Some(i@),
        None => None,
    }
}

proof fn lemma_first_separator_found(s: Seq<char>, k: int)
    requires
        first_separator(s, k) is Some,
    ensures
        k <= first_separator(s, k)->0,
        separator_at(s, first_separator(s, k)->0),
    decreases s.len() - k,
{
    if k >= 0 && k + 8 <= s.len() && !separator_at(s, k) {
        lemma_first_separator_found(s, k + 1);
    }
}

fn import_keyword_chars() -> (r: Vec<char>)
    ensures
        r@ == import_keyword(),
{
    let r = vec!['i', 'm', 'p', 'o', 'r', 't', ' '];
    proof {
        assert(r@ =~= import_keyword());
    }
    r
}

fn from_keyword_chars() -> (r: Vec<char>)
    ensures
        r@ == from_keyword(),
{
    let r = vec!['f', 'r', 'o', 'm', ' '];
    proof {
        assert(r@ =~= from_keyword());
    }
    r
}

fn separator_chars() -> (r: Vec<char>)
    ensures
        r@ == import_separator(),
{
    let r = vec![' ', 'i', 'm', 'p', 'o', 'r', 't', ' '];
    proof {
        assert(r@ =~= import_separator());
    }
    r
}

/// The leftmost separator in `r` at or after `k`.
fn find_separator(r: &Vec<char>, k: usize, sep: &Vec<char>) -> (res: Option<usize>)
    requires
        sep@ == import_separator(),
    ensures
        match res {
            Some(p) => first_separator(r@, k as int) == Some(p as int),
            None => first_separator(r@, k as int) is None,
        },
{
    if r.len() < 8 || k > r.len() - 8 {
        return None;
    }
    let mut i = k;
    while i <= r.len() - 8
        invariant
            r@.len() >= 8,
            k <= i,
            sep@ == import_separator(),
            first_separator(r@, k as int) == first_separator(r@, i as int),
        decreases r@.len() - i,
    {
        let hit = has_prefix_at(r, i, sep);
        proof {
            assert(r@.subrange(i as int, r@.len() as int).subrange(0, 8) =~= r@.subrange(
                i as int,
                i + 8,
            ));
        }
        if hit {
            return Some(i);
        }
        i = i + 1;
    }
    None
}

/// The import declared by one line, if it declares one.
pub fn parse_line(line: &Vec<char>) -> (r: Option<PythonImport>)
    ensures
        import_option_view(r) == line_import(line@),
{
    let (a, b) = trim_bounds(line, 0, line.len());
    proof {
        assert(line@.subrange(0, line@.len() as int) =~= line@);
    }
    let t = subvec(line, a, b);
    proof {
        assert(t@.subrange(0, t@.len() as int) =~= t@);
    }
    let import_kw = import_keyword_chars();
    let from_kw = from_keyword_chars();
    if has_prefix_at(&t, 0, &import_kw) {
        let (x, y) = trim_bounds(&t, 7, t.len());
        Some(PythonImport::ModuleOnly(string_from_range(&t, x, y)))
    } else if has_prefix_at(&t, 0, &from_kw) {
        let rest = subvec(&t, 5, t.len());
        let sep = separator_chars();
        match find_separator(&rest, 0, &sep) {
            Some(p) => {
                proof {
                    lemma_first_separator_found(rest@, 0);
                }
                match find_separator(&rest, p + 8, &sep) {
                    Some(_) => None,
                    None => {
                        let (x1, y1) = trim_bounds(&rest, 0, p);
                        let (x2, y2) = trim_bounds(&rest, p + 8, rest.len());
                        let m = string_from_range(&rest, x1, y1);
                        let x = string_from_range(&rest, x2, y2);
                        Some(PythonImport::ModuleWithMember(m, x))
                    },
                }
            },
            None => None,
        }
    } else {
        None
    }
}

/// Every import that `content` declares, in source order, duplicates kept.
pub fn parse_python_source(content: &str) -> (r: Vec<PythonImport>)
    ensures
        imports_view(r@) == source_imports(content@),
{
    let v = chars_of(content);
    let mut out: Vec<PythonImport> = Vec::new();
    let mut start: usize = 0;
    let mut i: usize = 0;
    proof {
        assert(v@.subrange(0, 0) =~= Seq::<char>::empty());
    }
    while i < v.len()
        invariant
            start <= i <= v@.len(),
            lines_of(v@.subrange(0, i as int)).len() >= 1,
            lines_of(v@.subrange(0, i as int)).last() == v@.subrange(start as int, i as int),
            imports_view(out@) == imports_of_lines(lines_of(v@.subrange(0, i as int)).drop_last()),
        decreases v@.len() - i,
    {
        let ghost before = lines_of(v@.subrange(0, i as int));
        let ghost pre = v@.subrange(0, i + 1);
        proof {
            assert(pre.drop_last() =~= v@.subrange(0, i as int));
            assert(pre.last() == v@[i as int]);
        }
        if v[i] == '\n' {
            let line = subvec(&v, start, i);
            let parsed = parse_line(&line);
            match parsed {
                Some(imp) => {
                    out.push(imp);
                },
                None => {},
            }
            proof {
                assert(lines_of(pre) == before.push(Seq::<char>::empty()));
                assert(lines_of(pre).drop_last() =~= before);
                assert(before.drop_last() =~= before.subrange(0, before.len() - 1));
                assert(imports_view(out@) =~= imports_of_lines(before));
                assert(v@.subrange(i + 1, i + 1) =~= Seq::<char>::empty());
            }
            start = i + 1;
        } else {
            proof {
                let after = lines_of(pre);
                assert(after == before.update(before.len() - 1, before.last().push(v@[i as int])));
                assert(after.drop_last() =~= before.drop_last());
                assert(after.last() =~= v@.subrange(start as int, i + 1));
            }
        }
        i = i + 1;
    }
    let line = subvec(&v, start, v.len());
    let parsed = parse_line(&line);
    match parsed {
        Some(imp) => {
            out.push(imp);
        },
        None => {},
    }
    proof {
        let ls = lines_of(v@);
        assert(v@.subrange(0, v@.len() as int) =~= v@);
        assert(imports_view(out@) =~= imports_of_lines(ls));
    }
    out
}

/// How many times the separator occurs in `s` from `k` on, counted left to
/// right without overlap.
pub open spec fn separator_count(s: Seq<char>, k: int) -> nat
    decreases s.len() - k,
{
    if k < 0 || k + 8 > s.len() {
        0
    } else if separator_at(s, k) {
        1 + separator_count(s, k + 8)
    } else {
        separator_count(s, k + 1)
    }
}

proof fn lemma_count_by_first(s: Seq<char>, k: int)
    ensures
        match first_separator(s, k) {
            None => separator_count(s, k) == 0,
            Some(p) => separator_count(s, k) == 1 + separator_count(s, p + 8),
        },
    decreases s.len() - k,
{
    if k >= 0 && k + 8 <= s.len() && !separator_at(s, k) {
        lemma_count_by_first(s, k + 1);
    }
}

/// A line `import X` declares the module `X`, trimmed and never split.
pub proof fn lemma_import_line(x: Seq<char>)
    requires
        has_non_ws(x),
    ensures
        line_import(import_keyword() + x) == Some((trim(x), None::<Seq<char>>)),
{
    let line = import_keyword() + x;
    assert(line[0] == 'i');
    assert(!crate::text::is_ws('i'));
    lemma_trim_end_append(import_keyword(), x);
    let t = import_keyword() + crate::text::trim_end(x);
    assert(trim(line) == t);
    assert(t.subrange(0, 7) =~= import_keyword());
    assert(t.subrange(7, t.len() as int) =~= crate::text::trim_end(x));
    lemma_trim_of_trim_end(x);
}

/// A line `from X import Y` declares member `Y` of module `X` when the
/// separator ` import ` occurs exactly once after `from `; with no occurrence,
/// or more than one, the line declares nothing.
pub proof fn lemma_from_line(line: Seq<char>)
    requires
        starts_with(trim(line), from_keyword()),
    ensures
        ({
            let t = trim(line);
            let r = t.subrange(5, t.len() as int);
            let p = first_separator(r, 0)->0;
            &&& separator_count(r, 0) == 1 ==> line_import(line) == Some(
                (trim(r.subrange(0, p)), Some(trim(r.subrange(p + 8, r.len() as int)))),
            )
            &&& separator_count(r, 0) != 1 ==> line_import(line) is None
        }),
{
    let t = trim(line);
    let r = t.subrange(5, t.len() as int);
    assert(t.subrange(0, 5)[0] == 'f');
    if t.len() >= 7 {
        assert(t.subrange(0, 7)[0] == t[0]);
        assert(t.subrange(0, 7) != import_keyword());
    }
    lemma_count_by_first(r, 0);
    match first_separator(r, 0) {
        Some(p) => {
            lemma_first_separator_found(r, 0);
            lemma_count_by_first(r, p + 8);
        },
        None => {},
    }
}

} // verus!
