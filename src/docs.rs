//! Choosing the documentation files of a project directory: which names count
//! as documentation, and in what order they are offered.
use vstd::prelude::*;

use crate::text::{chars_of, same_chars};

verus! {

broadcast use {vstd::seq_lib::to_multiset_build, vstd::seq_lib::to_multiset_insert};

/// The characters of each string.
pub open spec fn str_views(v: Seq<String>) -> Seq<Seq<char>> {
    v.map_values(|s: String| s@)
}

/// The code of `c` with ASCII upper case letters taken to lower case.
pub open spec fn lower_code(c: char) -> u32 {
    if 65 <= c as u32 <= 90 {
        (c as u32 + 32) as u32
    } else {
        c as u32
    }
}

/// Equal up to the case of ASCII letters, as `str::eq_ignore_ascii_case` compares.
pub open spec fn same_ignoring_ascii_case(a: Seq<char>, b: Seq<char>) -> bool {
    a.len() == b.len() && forall|i: int| 0 <= i < a.len() ==> lower_code(#[trigger] a[i]) == lower_code(b[i])
}

/// The names that count as documentation whatever their case.
pub open spec fn doc_patterns() -> Seq<Seq<char>> {
    seq![
        "README.md"@, "readme.md"@, "README.rst"@, "readme.rst"@, "README.txt"@, "readme.txt"@,
        "README"@, "readme"@, "DOCS.md"@, "docs.md"@, "DOCUMENTATION.md"@, "documentation.md"@,
        "GUIDE.md"@, "guide.md"@, "MANUAL.md"@, "manual.md"@,
    ]
}

pub open spec fn matches_pattern(name: Seq<char>) -> bool {
    exists|k: int| 0 <= k < doc_patterns().len() && same_ignoring_ascii_case(name, #[trigger] doc_patterns()[k])
}

pub open spec fn is_markdown(name: Seq<char>) -> bool {
    name.len() >= 3 && name.skip(name.len() - 3) == ".md"@
}

/// The documentation files among `names`, in their order: a name matching a
/// pattern is always taken; another Markdown name is taken unless already there.
pub open spec fn selected_docs(names: Seq<Seq<char>>) -> Seq<Seq<char>>
    decreases names.len(),
{
    if names.len() == 0 {
        Seq::empty()
    } else {
        let prev = selected_docs(names.drop_last());
        let n = names.last();
        if matches_pattern(n) || (is_markdown(n) && !prev.contains(n)) {
            prev.push(n)
        } else {
            prev
        }
    }
}

/// Whether a name starts with `readme` in any case.
pub open spec fn is_readme(name: Seq<char>) -> bool {
    name.len() >= 6 && same_ignoring_ascii_case(name.take(6), "readme"@)
}

/// Lexicographic order by character code, which is the byte order of UTF-8.
pub open spec fn lex_less(a: Seq<char>, b: Seq<char>) -> bool
    decreases a.len(),
{
    if a.len() == 0 {
        b.len() > 0
    } else if b.len() == 0 {
        false
    } else if a[0] != b[0] {
        (a[0] as u32) < (b[0] as u32)
    } else {
        lex_less(a.drop_first(), b.drop_first())
    }
}

/// `a` is offered before `b`: README files first, then by name.
pub open spec fn doc_before(a: Seq<char>, b: Seq<char>) -> bool {
    (is_readme(a) && !is_readme(b)) || (is_readme(a) == is_readme(b) && lex_less(a, b))
}

pub open spec fn docs_in_order(s: Seq<Seq<char>>) -> bool {
    forall|i: int, j: int| 0 <= i < j < s.len() ==> !doc_before(#[trigger] s[j], #[trigger] s[i])
}

proof fn lemma_lex_trans(a: Seq<char>, b: Seq<char>, c: Seq<char>)
    requires
        lex_less(a, b),
        lex_less(b, c),
    ensures
        lex_less(a, c),
    decreases a.len(),
{
    if a.len() > 0 && a[0] == b[0] && b[0] == c[0] {
        lemma_lex_trans(a.drop_first(), b.drop_first(), c.drop_first());
    }
}

proof fn lemma_lex_irreflexive(a: Seq<char>)
    ensures
        !lex_less(a, a),
    decreases a.len(),
{
    if a.len() > 0 {
        lemma_lex_irreflexive(a.drop_first());
    }
}

proof fn lemma_before_trans(a: Seq<char>, b: Seq<char>, c: Seq<char>)
    requires
        doc_before(a, b),
        doc_before(b, c),
    ensures
        doc_before(a, c),
{
    if lex_less(a, b) && lex_less(b, c) {
        lemma_lex_trans(a, b, c);
    }
}

proof fn lemma_before_asym(a: Seq<char>, b: Seq<char>)
    requires
        doc_before(a, b),
    ensures
        !doc_before(b, a),
{
    if doc_before(b, a) {
        lemma_before_trans(a, b, a);
        lemma_lex_irreflexive(a);
    }
}

fn lower_code_of(c: char) -> (r: u32)
    ensures
        r == lower_code(c),
{
    let u = c as u32;
    if 65 <= u && u <= 90 {
        u + 32
    } else {
        u
    }
}

/// Whether `a[..n]` and `b` are equal up to the case of ASCII letters.
fn eq_ignore_case(a: &[char], n: usize, b: &[char]) -> (r: bool)
    requires
        n <= a@.len(),
    ensures
        r == same_ignoring_ascii_case(a@.take(n as int), b@),
{
    if n != b.len() {
        return false;
    }
    let mut i: usize = 0;
    while i < n
        invariant
            n == b@.len(),
            n <= a@.len(),
            i <= n,
            forall|j: int| 0 <= j < i ==> lower_code(a@[j]) == lower_code(b@[j]),
        decreases n - i,
    {
        if lower_code_of(a[i]) != lower_code_of(b[i]) {
            assert(a@.take(n as int)[i as int] == a@[i as int]);
            return false;
        }
        i = i + 1;
    }
    assert forall|j: int| 0 <= j < n implies lower_code(#[trigger] a@.take(n as int)[j]) == lower_code(
        b@[j],
    ) by {
        assert(a@.take(n as int)[j] == a@[j]);
    }
    true
}

fn lex_less_of(a: &[char], b: &[char]) -> (r: bool)
    ensures
        r == lex_less(a@, b@),
{
    let mut i: usize = 0;
    assert(a@.skip(0) =~= a@);
    assert(b@.skip(0) =~= b@);
    while i < a.len() && i < b.len() && a[i] == b[i]
        invariant
            i <= a@.len(),
            i <= b@.len(),
            lex_less(a@, b@) == lex_less(a@.skip(i as int), b@.skip(i as int)),
        decreases a.len() - i,
    {
        assert(a@.skip(i as int).drop_first() =~= a@.skip(i + 1));
        assert(b@.skip(i as int).drop_first() =~= b@.skip(i + 1));
        i = i + 1;
    }
    if i == a.len() {
        i < b.len()
    } else if i == b.len() {
        false
    } else {
        (a[i] as u32) < (b[i] as u32)
    }
}

fn is_readme_of(a: &[char], readme: &[char]) -> (r: bool)
    requires
        readme@ == "readme"@,
    ensures
        r == is_readme(a@),
{
    proof {
        reveal_strlit("readme");
    }
    a.len() >= 6 && eq_ignore_case(a, 6, readme)
}

fn before_of(a: &[char], b: &[char], readme: &[char]) -> (r: bool)
    requires
        readme@ == "readme"@,
    ensures
        r == doc_before(a@, b@),
{
    let ra = is_readme_of(a, readme);
    let rb = is_readme_of(b, readme);
    (ra && !rb) || (ra == rb && lex_less_of(a, b))
}

fn matches_pattern_of(name: &[char], patterns: &Vec<Vec<char>>) -> (r: bool)
    requires
        patterns@.len() == doc_patterns().len(),
        forall|k: int| 0 <= k < patterns@.len() ==> (#[trigger] patterns@[k])@ == doc_patterns()[k],
    ensures
        r == matches_pattern(name@),
{
    assert(name@.take(name@.len() as int) =~= name@);
    let mut k: usize = 0;
    while k < patterns.len()
        invariant
            k <= patterns@.len() == doc_patterns().len(),
            name@.take(name@.len() as int) == name@,
            forall|q: int| 0 <= q < patterns@.len() ==> (#[trigger] patterns@[q])@ == doc_patterns()[q],
            forall|q: int| 0 <= q < k ==> !same_ignoring_ascii_case(name@, #[trigger] doc_patterns()[q]),
        decreases patterns.len() - k,
    {
        if eq_ignore_case(name, name.len(), patterns[k].as_slice()) {
            assert(same_ignoring_ascii_case(name@, doc_patterns()[k as int]));
            return true;
        }
        k = k + 1;
    }
    false
}

fn is_markdown_of(name: &[char], ext: &[char]) -> (r: bool)
    requires
        ext@ == ".md"@,
    ensures
        r == is_markdown(name@),
{
    proof {
        reveal_strlit(".md");
    }
    let n = name.len();
    if n < 3 {
        return false;
    }
    let r = name[n - 3] == ext[0] && name[n - 2] == ext[1] && name[n - 1] == ext[2];
    assert(r == (name@.skip(n - 3) =~= ext@));
    r
}

fn contains_name(names: &Vec<String>, name: &[char]) -> (r: bool)
    ensures
        r == str_views(names@).contains(name@),
{
    let mut i: usize = 0;
    while i < names.len()
        invariant
            i <= names@.len(),
            forall|j: int| 0 <= j < i ==> names@[j]@ != name@,
        decreases names.len() - i,
    {
        let other = chars_of(names[i].as_str());
        if same_chars(other.as_slice(), name) {
            assert(str_views(names@)[i as int] == name@);
            return true;
        }
        i = i + 1;
    }
    proof {
        if str_views(names@).contains(name@) {
            let j = choose|j: int| 0 <= j < names@.len() && str_views(names@)[j] == name@;
            assert(names@[j]@ == name@);
        }
    }
    false
}

/// The documentation files among the regular files `names` of a directory:
/// exactly those that `selected_docs` keeps, README files first and then in
/// name order.
pub fn select_documentation_files(names: &Vec<String>) -> (r: Vec<String>)
    ensures
        str_views(r@).to_multiset() == selected_docs(str_views(names@)).to_multiset(),
        docs_in_order(str_views(r@)),
{
    let patterns: Vec<Vec<char>> = vec![
        chars_of("README.md"), chars_of("readme.md"), chars_of("README.rst"),
        chars_of("readme.rst"), chars_of("README.txt"), chars_of("readme.txt"),
        chars_of("README"), chars_of("readme"), chars_of("DOCS.md"), chars_of("docs.md"),
        chars_of("DOCUMENTATION.md"), chars_of("documentation.md"), chars_of("GUIDE.md"),
        chars_of("guide.md"), chars_of("MANUAL.md"), chars_of("manual.md"),
    ];
    assert(patterns@.len() == doc_patterns().len());
    let ext = chars_of(".md");
    let readme = chars_of("readme");
    let ghost nv = str_views(names@);

    let mut sel: Vec<String> = Vec::new();
    let mut i: usize = 0;
    assert(nv.take(0) =~= Seq::<Seq<char>>::empty());
    assert(str_views(sel@) =~= Seq::<Seq<char>>::empty());
    while i < names.len()
        invariant
            i <= names@.len(),
            nv == str_views(names@),
            ext@ == ".md"@,
            patterns@.len() == doc_patterns().len(),
            forall|k: int| 0 <= k < patterns@.len() ==> (#[trigger] patterns@[k])@ == doc_patterns()[k],
            str_views(sel@) == selected_docs(nv.take(i as int)),
        decreases names.len() - i,
    {
        let name = chars_of(names[i].as_str());
        assert(nv.take(i + 1).drop_last() =~= nv.take(i as int));
        assert(name@ == nv[i as int]);
        let take = matches_pattern_of(name.as_slice(), &patterns) || (is_markdown_of(
            name.as_slice(),
            ext.as_slice(),
        ) && !contains_name(&sel, name.as_slice()));
        if take {
            sel.push(names[i].clone());
            assert(str_views(sel@) =~= selected_docs(nv.take(i + 1)));
        }
        i = i + 1;
    }
    assert(nv.take(names@.len() as int) =~= nv);

    let ghost sv = str_views(sel@);
    let mut out: Vec<String> = Vec::new();
    let mut i: usize = 0;
    assert(sv.take(0) =~= Seq::<Seq<char>>::empty());
    assert(str_views(out@) =~= Seq::<Seq<char>>::empty());
    while i < sel.len()
        invariant
            i <= sel@.len(),
            sv == str_views(sel@),
            readme@ == "readme"@,
            str_views(out@).to_multiset() == sv.take(i as int).to_multiset(),
            docs_in_order(str_views(out@)),
        decreases sel.len() - i,
    {
        let x = chars_of(sel[i].as_str());
        let ghost ov = str_views(out@);
        let mut p: usize = 0;
        while p < out.len() && !before_of(x.as_slice(), chars_of(out[p].as_str()).as_slice(), readme.as_slice())
            invariant
                p <= out@.len(),
                ov == str_views(out@),
                readme@ == "readme"@,
                forall|k: int| 0 <= k < p ==> !doc_before(x@, #[trigger] ov[k]),
            decreases out.len() - p,
        {
            p = p + 1;
        }
        let ghost was_before = p < out@.len() && doc_before(x@, ov[p as int]);
        assert(p < out@.len() ==> was_before);
        out.insert(p, sel[i].clone());
        let ghost nvw = str_views(out@);
        assert(nvw =~= ov.insert(p as int, x@));
        assert(sv.take(i + 1) =~= sv.take(i as int).push(x@));
        assert forall|a: int, b: int| 0 <= a < b < nvw.len() implies !doc_before(
            #[trigger] nvw[b],
            #[trigger] nvw[a],
        ) by {
            if b < p {
                assert(nvw[a] == ov[a] && nvw[b] == ov[b]);
            } else if b == p {
                assert(nvw[a] == ov[a]);
            } else if a < p {
                assert(nvw[a] == ov[a] && nvw[b] == ov[b - 1]);
            } else if a == p {
                assert(nvw[b] == ov[b - 1]);
                if b - 1 == p {
                    lemma_before_asym(x@, ov[p as int]);
                } else if doc_before(ov[b - 1], x@) {
                    lemma_before_trans(ov[b - 1], x@, ov[p as int]);
                }
            } else {
                assert(nvw[a] == ov[a - 1] && nvw[b] == ov[b - 1]);
            }
        }
        i = i + 1;
    }
    assert(sv.take(sel@.len() as int) =~= sv);
    out
}

} // verus!
