//! Filling the build-file template.
use vstd::prelude::*;
use vstd::string::StringExecFns;
use crate::modules::views;
use crate::text::{chars_of, extend_chars, has_prefix_at, starts_with, string_from_chars, subvec};

verus! {

/// The build file used when no template of the user's own can be read.
pub const DEFAULT_TEMPLATE: &'static str = r#"
FROM python:{{PYTHON_VERSION}}

RUN useradd -ms /bin/bash dock
USER dock

RUN pip install {{MODULES}}

COPY {{SCRIPT_NAME}} /home/dock/{{SCRIPT_NAME}}
WORKDIR /home/dock

ENTRYPOINT ["python3", "{{SCRIPT_NAME}}"]
"#;

pub const VERSION_PLACEHOLDER: &'static str = "{{PYTHON_VERSION}}";

pub const MODULES_PLACEHOLDER: &'static str = "{{MODULES}}";

pub const SCRIPT_PLACEHOLDER: &'static str = "{{SCRIPT_NAME}}";

/// Every occurrence of `pat` in `s`, taken left to right without overlap,
/// replaced by `rep`, as `str::replace` does for a non-empty pattern.
pub open spec fn replace_all(s: Seq<char>, pat: Seq<char>, rep: Seq<char>) -> Seq<char>
    decreases s.len(),
{
    if pat.len() == 0 || s.len() < pat.len() {
        s
    } else if s.subrange(0, pat.len() as int) == pat {
        rep + replace_all(s.subrange(pat.len() as int, s.len() as int), pat, rep)
    } else {
        seq![s[0]] + replace_all(s.drop_first(), pat, rep)
    }
}

/// Whether `pat` occurs anywhere in `s`.
pub open spec fn occurs_in(s: Seq<char>, pat: Seq<char>) -> bool {
    exists|p: int| 0 <= p && p + pat.len() <= s.len() && #[trigger] s.subrange(p, p + pat.len()) == pat
}

/// The names joined with single spaces.
pub open spec fn join_spaced(ms: Seq<Seq<char>>) -> Seq<char>
    decreases ms.len(),
{
    if ms.len() == 0 {
        Seq::<char>::empty()
    } else if ms.len() == 1 {
        ms[0]
    } else {
        join_spaced(ms.drop_last()) + seq![' '] + ms.last()
    }
}

/// The template with the version, then the module list, then the script name
/// substituted for their placeholders, one pass each.
pub open spec fn rendered(t: Seq<char>, version: Seq<char>, modules: Seq<char>, script: Seq<char>) -> Seq<char> {
    replace_all(
        replace_all(replace_all(t, VERSION_PLACEHOLDER@, version), MODULES_PLACEHOLDER@, modules),
        SCRIPT_PLACEHOLDER@,
        script,
    )
}

/// `s` with each occurrence of `pat` replaced by `rep`.
pub fn replace_chars(s: &Vec<char>, pat: &Vec<char>, rep: &Vec<char>) -> (r: Vec<char>)
    requires
        pat@.len() > 0,
    ensures
        r@ == replace_all(s@, pat@, rep@),
{
    let mut out: Vec<char> = Vec::new();
    let mut i: usize = 0;
    proof {
        assert(s@.subrange(0, s@.len() as int) =~= s@);
        assert(out@ + s@ =~= s@);
    }
    while pat.len() <= s.len() - i
        invariant
            i <= s@.len(),
            pat@.len() > 0,
            out@ + replace_all(s@.subrange(i as int, s@.len() as int), pat@, rep@) == replace_all(
                s@,
                pat@,
                rep@,
            ),
        decreases s@.len() - i,
    {
        let ghost rest = s@.subrange(i as int, s@.len() as int);
        let ghost prev = out@;
        let hit = has_prefix_at(s, i, pat);
        if hit {
            extend_chars(&mut out, rep);
            proof {
                assert(rest.subrange(pat@.len() as int, rest.len() as int) =~= s@.subrange(
                    i + pat@.len(),
                    s@.len() as int,
                ));
                let tail = replace_all(s@.subrange(i + pat@.len(), s@.len() as int), pat@, rep@);
                assert(prev + (rep@ + tail) =~= (prev + rep@) + tail);
            }
            i = i + pat.len();
        } else {
            out.push(s[i]);
            proof {
                assert(rest.drop_first() =~= s@.subrange(i + 1, s@.len() as int));
                let tail = replace_all(s@.subrange(i + 1, s@.len() as int), pat@, rep@);
                assert(prev + (seq![s@[i as int]] + tail) =~= prev.push(s@[i as int]) + tail);
            }
            i = i + 1;
        }
    }
    let rest = subvec(s, i, s.len());
    extend_chars(&mut out, &rest);
    out
}

/// The names joined with single spaces.
pub fn join_modules(modules: &[String]) -> (r: String)
    ensures
        r@ == join_spaced(views(modules@)),
{
    let mut out = String::new();
    let mut i: usize = 0;
    while i < modules.len()
        invariant
            i <= modules@.len(),
            out@ == join_spaced(views(modules@.subrange(0, i as int))),
        decreases modules@.len() - i,
    {
        let ghost ms = views(modules@.subrange(0, i + 1));
        proof {
            assert(ms.drop_last() =~= views(modules@.subrange(0, i as int)));
        }
        if i > 0 {
            out.append(" ");
            proof {
                reveal_strlit(" ");
            }
        }
        out.append(modules[i].as_str());
        proof {
            if i > 0 {
                assert(out@ =~= join_spaced(ms));
            } else {
                assert(out@ =~= join_spaced(ms));
            }
        }
        i = i + 1;
    }
    proof {
        assert(modules@.subrange(0, modules@.len() as int) =~= modules@);
    }
    out
}

/// The template to fill: the user's own when it could be read, else the
/// default one.
pub fn select_template(user_template: Option<String>) -> (r: String)
    ensures
        match user_template {
            Some(t) => r == t,
            None => r@ == DEFAULT_TEMPLATE@,
        },
{
    match user_template {
        Some(t) => t,
        None => String::from_str(DEFAULT_TEMPLATE),
    }
}

/// The build file: `template` with the runtime version, the modules joined by
/// spaces and the script's file name put in for their placeholders.
pub fn render_template(template: &str, python_version: &str, modules: &[String], script_name: &str) -> (r: String)
    ensures
        r@ == rendered(template@, python_version@, join_spaced(views(modules@)), script_name@),
{
    proof {
        reveal_strlit("{{PYTHON_VERSION}}");
        reveal_strlit("{{MODULES}}");
        reveal_strlit("{{SCRIPT_NAME}}");
    }
    let t = chars_of(template);
    let version = chars_of(python_version);
    let joined = join_modules(modules);
    let listed = chars_of(joined.as_str());
    let script = chars_of(script_name);
    let p1 = chars_of(VERSION_PLACEHOLDER);
    let p2 = chars_of(MODULES_PLACEHOLDER);
    let p3 = chars_of(SCRIPT_PLACEHOLDER);
    let a = replace_chars(&t, &p1, &version);
    let b = replace_chars(&a, &p2, &listed);
    let c = replace_chars(&b, &p3, &script);
    string_from_chars(&c)
}

/// Replacing a pattern that does not occur leaves the text as it is.
pub proof fn lemma_replace_absent(s: Seq<char>, pat: Seq<char>, rep: Seq<char>)
    requires
        !occurs_in(s, pat),
    ensures
        replace_all(s, pat, rep) == s,
    decreases s.len(),
{
    if pat.len() == 0 || s.len() < pat.len() {
    } else {
        assert(s.subrange(0, 0 + pat.len() as int) != pat);
        let t = s.drop_first();
        assert forall|p: int| 0 <= p && p + pat.len() <= t.len() implies #[trigger] t.subrange(
            p,
            p + pat.len(),
        ) != pat by {
            assert(t.subrange(p, p + pat.len()) =~= s.subrange(p + 1, p + 1 + pat.len()));
        }
        lemma_replace_absent(t, pat, rep);
        assert(seq![s[0]] + t =~= s);
    }
}

/// A template holding none of the three placeholders comes out unchanged.
pub proof fn lemma_render_without_placeholders(
    t: Seq<char>,
    version: Seq<char>,
    modules: Seq<char>,
    script: Seq<char>,
)
    requires
        !occurs_in(t, VERSION_PLACEHOLDER@),
        !occurs_in(t, MODULES_PLACEHOLDER@),
        !occurs_in(t, SCRIPT_PLACEHOLDER@),
    ensures
        rendered(t, version, modules, script) == t,
{
    lemma_replace_absent(t, VERSION_PLACEHOLDER@, version);
    lemma_replace_absent(t, MODULES_PLACEHOLDER@, modules);
    lemma_replace_absent(t, SCRIPT_PLACEHOLDER@, script);
}

pub open spec fn is_brace(c: char) -> bool {
    c == '{' || c == '}'
}

/// `s` holds no `'{'` and no `'}'`.
pub open spec fn brace_free(s: Seq<char>) -> bool {
    forall|i: int| 0 <= i < s.len() ==> !is_brace(#[trigger] s[i])
}

/// The first of `pats` that `s` begins with.
pub open spec fn first_pattern(s: Seq<char>, pats: Seq<Seq<char>>) -> Option<Seq<char>>
    decreases pats.len(),
{
    if pats.len() == 0 {
        None
    } else if starts_with(s, pats[0]) {
        Some(pats[0])
    } else {
        first_pattern(s, pats.drop_first())
    }
}

/// Whether `s`, read left to right with each occurrence of one of `pats`
/// taken as a whole, holds a brace outside those occurrences.
pub open spec fn stray_braces(s: Seq<char>, pats: Seq<Seq<char>>) -> bool
    decreases s.len(),
{
    if s.len() == 0 {
        false
    } else {
        match first_pattern(s, pats) {
            Some(p) => if 0 < p.len() <= s.len() {
                stray_braces(s.subrange(p.len() as int, s.len() as int), pats)
            } else {
                true
            },
            None => is_brace(s[0]) || stray_braces(s.drop_first(), pats),
        }
    }
}

/// A placeholder: two opening braces, then no other opening brace.
pub open spec fn placeholder_shaped(p: Seq<char>) -> bool {
    &&& p.len() >= 3
    &&& p[0] == '{'
    &&& p[1] == '{'
    &&& forall|i: int| 2 <= i < p.len() ==> #[trigger] p[i] != '{'
}

/// Each pattern is placeholder-shaped and none begins with another.
pub open spec fn placeholder_set(pats: Seq<Seq<char>>) -> bool {
    &&& forall|a: int| 0 <= a < pats.len() ==> placeholder_shaped(#[trigger] pats[a])
    &&& forall|a: int, b: int|
        0 <= a < pats.len() && 0 <= b < pats.len() && a != b ==> !starts_with(
            #[trigger] pats[a],
            #[trigger] pats[b],
        )
}

proof fn lemma_first_pattern_found(s: Seq<char>, pats: Seq<Seq<char>>)
    requires
        first_pattern(s, pats) is Some,
    ensures
        starts_with(s, first_pattern(s, pats)->0),
        pats.contains(first_pattern(s, pats)->0),
    decreases pats.len(),
{
    if !starts_with(s, pats[0]) {
        lemma_first_pattern_found(s, pats.drop_first());
        let q = first_pattern(s, pats)->0;
        let w = choose|w: int| 0 <= w < pats.drop_first().len() && pats.drop_first()[w] == q;
        assert(pats[w + 1] == q);
    } else {
        assert(pats[0] == pats[0]);
    }
}

proof fn lemma_first_pattern_none_on_plain(s: Seq<char>, pats: Seq<Seq<char>>)
    requires
        s.len() > 0,
        s[0] != '{',
        forall|a: int| 0 <= a < pats.len() ==> placeholder_shaped(#[trigger] pats[a]),
    ensures
        first_pattern(s, pats) is None,
    decreases pats.len(),
{
    if pats.len() > 0 {
        assert(placeholder_shaped(pats[0]));
        if starts_with(s, pats[0]) {
            assert(s.subrange(0, pats[0].len() as int)[0] == s[0]);
        }
        assert forall|a: int| 0 <= a < pats.drop_first().len() implies placeholder_shaped(
            #[trigger] pats.drop_first()[a],
        ) by {
            assert(placeholder_shaped(pats[a + 1]));
        }
        lemma_first_pattern_none_on_plain(s, pats.drop_first());
    }
}

proof fn lemma_first_pattern_stable(s: Seq<char>, z: Seq<char>, pats: Seq<Seq<char>>)
    requires
        placeholder_set(pats),
        first_pattern(s, pats) is Some,
    ensures
        first_pattern(first_pattern(s, pats)->0 + z, pats) == first_pattern(s, pats),
    decreases pats.len(),
{
    let q = first_pattern(s, pats)->0;
    lemma_first_pattern_found(s, pats);
    let w = choose|w: int| 0 <= w < pats.len() && pats[w] == q;
    let t = q + z;
    assert(t.subrange(0, q.len() as int) =~= q);
    if starts_with(s, pats[0]) {
        assert(starts_with(t, q));
    } else {
        let r = pats[0];
        if starts_with(t, r) {
            if r.len() <= q.len() {
                assert(s.subrange(0, q.len() as int) == q);
                assert(s.subrange(0, r.len() as int) =~= q.subrange(0, r.len() as int));
                assert(t.subrange(0, r.len() as int) =~= q.subrange(0, r.len() as int));
            } else {
                assert(w != 0);
                assert(r.subrange(0, q.len() as int) =~= t.subrange(0, q.len() as int));
                assert(!starts_with(pats[0], pats[w]));
            }
        }
        let rest = pats.drop_first();
        assert forall|a: int| 0 <= a < rest.len() implies placeholder_shaped(#[trigger] rest[a]) by {
            assert(placeholder_shaped(pats[a + 1]));
        }
        assert forall|a: int, b: int|
            0 <= a < rest.len() && 0 <= b < rest.len() && a != b implies !starts_with(
                #[trigger] rest[a],
                #[trigger] rest[b],
            ) by {
            assert(!starts_with(pats[a + 1], pats[b + 1]));
        }
        lemma_first_pattern_stable(s, z, rest);
    }
}

/// Replacing `p` does not touch an occurrence of another placeholder `q`
/// at the start of `s`: the text from position `j` on becomes the rest of `q`
/// followed by the replacement of what follows `q`.
proof fn lemma_replace_skips_placeholder(
    s: Seq<char>,
    p: Seq<char>,
    q: Seq<char>,
    rep: Seq<char>,
    j: int,
)
    requires
        placeholder_shaped(p),
        placeholder_shaped(q),
        starts_with(s, q),
        !starts_with(s, p),
        0 <= j <= q.len(),
    ensures
        replace_all(s.subrange(j, s.len() as int), p, rep) == q.subrange(j, q.len() as int)
            + replace_all(s.subrange(q.len() as int, s.len() as int), p, rep),
    decreases q.len() - j,
{
    let t = s.subrange(j, s.len() as int);
    let tail = s.subrange(q.len() as int, s.len() as int);
    assert(s.subrange(0, q.len() as int) == q);
    if j == q.len() {
        assert(q.subrange(j, q.len() as int) =~= Seq::<char>::empty());
        assert(t =~= tail);
        assert(Seq::<char>::empty() + replace_all(tail, p, rep) =~= replace_all(tail, p, rep));
    } else {
        lemma_replace_skips_placeholder(s, p, q, rep, j + 1);
        assert(t.drop_first() =~= s.subrange(j + 1, s.len() as int));
        assert(t[0] == q[j]);
        if t.len() >= p.len() {
            if t.subrange(0, p.len() as int) == p {
                if j == 0 {
                    assert(t =~= s);
                } else if j == 1 {
                    assert(t.subrange(0, p.len() as int)[1] == t[1]);
                    assert(t[1] == q[2]);
                } else {
                    assert(t.subrange(0, p.len() as int)[0] == t[0]);
                }
            }
            assert(q.subrange(j, q.len() as int) =~= seq![q[j]] + q.subrange(j + 1, q.len() as int));
            assert(seq![q[j]] + (q.subrange(j + 1, q.len() as int) + replace_all(tail, p, rep))
                =~= q.subrange(j, q.len() as int) + replace_all(tail, p, rep));
        } else {
            assert(tail.len() < p.len());
            assert(t =~= q.subrange(j, q.len() as int) + tail);
        }
    }
}

proof fn lemma_stray_after_plain(r: Seq<char>, y: Seq<char>, pats: Seq<Seq<char>>)
    requires
        brace_free(r),
        forall|a: int| 0 <= a < pats.len() ==> placeholder_shaped(#[trigger] pats[a]),
    ensures
        stray_braces(r + y, pats) == stray_braces(y, pats),
    decreases r.len(),
{
    if r.len() == 0 {
        assert(r + y =~= y);
    } else {
        assert((r + y)[0] == r[0]);
        assert(!is_brace(r[0]));
        lemma_first_pattern_none_on_plain(r + y, pats);
        assert((r + y).drop_first() =~= r.drop_first() + y);
        assert(brace_free(r.drop_first())) by {
            assert forall|i: int| 0 <= i < r.drop_first().len() implies !is_brace(
                #[trigger] r.drop_first()[i],
            ) by {
                assert(!is_brace(r[i + 1]));
            }
        }
        lemma_stray_after_plain(r.drop_first(), y, pats);
    }
}

/// One replacement pass: where every brace of `s` lies in an occurrence of
/// `pats[0]` or of the later placeholders, and `rep` holds no brace, every
/// brace of the result lies in an occurrence of the later placeholders.
pub proof fn lemma_pass_clears_placeholder(s: Seq<char>, pats: Seq<Seq<char>>, rep: Seq<char>)
    requires
        pats.len() > 0,
        placeholder_set(pats),
        brace_free(rep),
        !stray_braces(s, pats),
    ensures
        !stray_braces(replace_all(s, pats[0], rep), pats.drop_first()),
    decreases s.len(),
{
    let p = pats[0];
    let rest = pats.drop_first();
    assert(placeholder_shaped(p));
    assert forall|a: int| 0 <= a < rest.len() implies placeholder_shaped(#[trigger] rest[a]) by {
        assert(placeholder_shaped(pats[a + 1]));
    }
    assert(placeholder_set(rest)) by {
        assert forall|a: int, b: int|
            0 <= a < rest.len() && 0 <= b < rest.len() && a != b implies !starts_with(
                #[trigger] rest[a],
                #[trigger] rest[b],
            ) by {
            assert(!starts_with(pats[a + 1], pats[b + 1]));
        }
    }
    if s.len() == 0 {
    } else if starts_with(s, p) {
        let tail = s.subrange(p.len() as int, s.len() as int);
        lemma_pass_clears_placeholder(tail, pats, rep);
        lemma_stray_after_plain(rep, replace_all(tail, p, rep), rest);
    } else {
        match first_pattern(s, rest) {
            Some(q) => {
                lemma_first_pattern_found(s, rest);
                let w = choose|w: int| 0 <= w < rest.len() && rest[w] == q;
                assert(placeholder_shaped(q));
                let tail = s.subrange(q.len() as int, s.len() as int);
                lemma_pass_clears_placeholder(tail, pats, rep);
                lemma_replace_skips_placeholder(s, p, q, rep, 0);
                assert(s.subrange(0, s.len() as int) =~= s);
                assert(q.subrange(0, q.len() as int) =~= q);
                let z = replace_all(tail, p, rep);
                lemma_first_pattern_stable(s, z, rest);
                assert((q + z).subrange(q.len() as int, (q + z).len() as int) =~= z);
            },
            None => {
                assert(!is_brace(s[0]));
                let d = s.drop_first();
                lemma_pass_clears_placeholder(d, pats, rep);
                let z = replace_all(d, p, rep);
                if s.len() < p.len() {
                    assert(z == d);
                    assert(s =~= seq![s[0]] + d);
                }
                let out = seq![s[0]] + z;
                assert(out[0] == s[0]);
                lemma_first_pattern_none_on_plain(out, rest);
                assert(out.drop_first() =~= z);
            },
        }
    }
}

pub proof fn lemma_no_stray_means_brace_free(s: Seq<char>)
    requires
        !stray_braces(s, Seq::<Seq<char>>::empty()),
    ensures
        brace_free(s),
    decreases s.len(),
{
    if s.len() > 0 {
        lemma_no_stray_means_brace_free(s.drop_first());
        assert forall|i: int| 0 <= i < s.len() implies !is_brace(#[trigger] s[i]) by {
            if i > 0 {
                assert(s[i] == s.drop_first()[i - 1]);
            }
        }
    }
}

/// The three placeholders, in the order they are filled.
pub open spec fn placeholders() -> Seq<Seq<char>> {
    seq![VERSION_PLACEHOLDER@, MODULES_PLACEHOLDER@, SCRIPT_PLACEHOLDER@]
}

proof fn lemma_placeholders_are_a_set()
    ensures
        placeholder_set(placeholders()),
{
    reveal_strlit("{{PYTHON_VERSION}}");
    reveal_strlit("{{MODULES}}");
    reveal_strlit("{{SCRIPT_NAME}}");
    let ps = placeholders();
    assert forall|a: int| 0 <= a < ps.len() implies placeholder_shaped(#[trigger] ps[a]) by {
        if a == 0 {
            assert(placeholder_shaped(ps[0]));
        } else if a == 1 {
            assert(placeholder_shaped(ps[1]));
        } else {
            assert(placeholder_shaped(ps[2]));
        }
    }
    assert forall|a: int, b: int|
        0 <= a < ps.len() && 0 <= b < ps.len() && a != b implies !starts_with(
            #[trigger] ps[a],
            #[trigger] ps[b],
        ) by {
        if starts_with(ps[a], ps[b]) {
            assert(ps[a].subrange(0, ps[b].len() as int)[2] == ps[a][2]);
            assert(ps[b][2] == ps[a][2]);
        }
    }
}

/// Every placeholder is replaced: when the template's braces all belong to
/// occurrences of the three placeholders and none of the values holds a
/// brace, the rendered text holds no brace at all.
pub proof fn lemma_render_fills_every_placeholder(
    t: Seq<char>,
    version: Seq<char>,
    modules: Seq<char>,
    script: Seq<char>,
)
    requires
        !stray_braces(t, placeholders()),
        brace_free(version),
        brace_free(modules),
        brace_free(script),
    ensures
        brace_free(rendered(t, version, modules, script)),
{
    lemma_placeholders_are_a_set();
    let ps = placeholders();
    lemma_pass_clears_placeholder(t, ps, version);
    let t1 = replace_all(t, ps[0], version);
    let ps1 = ps.drop_first();
    assert(placeholder_set(ps1)) by {
        assert forall|a: int| 0 <= a < ps1.len() implies placeholder_shaped(#[trigger] ps1[a]) by {
            assert(placeholder_shaped(ps[a + 1]));
        }
        assert forall|a: int, b: int|
            0 <= a < ps1.len() && 0 <= b < ps1.len() && a != b implies !starts_with(
                #[trigger] ps1[a],
                #[trigger] ps1[b],
            ) by {
            assert(!starts_with(ps[a + 1], ps[b + 1]));
        }
    }
    lemma_pass_clears_placeholder(t1, ps1, modules);
    let t2 = replace_all(t1, ps1[0], modules);
    let ps2 = ps1.drop_first();
    assert(placeholder_set(ps2)) by {
        assert(placeholder_shaped(ps1[1]));
    }
    lemma_pass_clears_placeholder(t2, ps2, script);
    assert(ps2.drop_first() =~= Seq::<Seq<char>>::empty());
    lemma_no_stray_means_brace_free(replace_all(t2, ps2[0], script));
}

} // verus!
