//! The record file: a default documentation file and a list of mappings, one
//! per line as `id|doc_partition|code_partition|doc_hash|code_hash|description`.
use vstd::prelude::*;

use crate::text::{
    append_range, append_str, chars_of, lines_of, same_chars, split_chars, split_lines, split_on, string_of,
    lemma_concat_lacks, lemma_lines_of_terminated, lemma_split_on_concat, lemma_split_on_plain,
    lemma_trim_keeps_first, lemma_trim_plain, no_outer_space, strip_cr, terminated, trim, trim_bounds,
    views,
};

verus! {

/// A link between a documentation partition and a code partition, with the
/// fingerprints their contents had when the link was last accepted.
#[derive(Debug, Clone, PartialEq, Eq)]
pub struct Mapping {
    pub id: String,
    pub doc_partition: String,
    pub code_partition: String,
    pub doc_hash: String,
    pub code_hash: String,
    pub description: Option<String>,
}

/// What a [`Mapping`] holds, as characters.
pub struct MappingView {
    pub id: Seq<char>,
    pub doc_partition: Seq<char>,
    pub code_partition: Seq<char>,
    pub doc_hash: Seq<char>,
    pub code_hash: Seq<char>,
    pub description: Option<Seq<char>>,
}

pub open spec fn opt_view(s: Option<String>) -> Option<Seq<char>> {
    match s {
        Some(d) => Some(d@),
        None => None,
    }
}

impl View for Mapping {
    type V = MappingView;

    open spec fn view(&self) -> MappingView {
        MappingView {
            id: self.id@,
            doc_partition: self.doc_partition@,
            code_partition: self.code_partition@,
            doc_hash: self.doc_hash@,
            code_hash: self.code_hash@,
            description: opt_view(self.description),
        }
    }
}

/// The record file's contents.
#[derive(Debug, Clone)]
pub struct DoksConfig {
    pub default_doc: String,
    pub mappings: Vec<Mapping>,
}

/// What a [`DoksConfig`] holds, as characters.
pub struct ConfigView {
    pub default_doc: Seq<char>,
    pub mappings: Seq<MappingView>,
}

pub open spec fn mapping_views(ms: Seq<Mapping>) -> Seq<MappingView> {
    ms.map_values(|m: Mapping| m@)
}

impl View for DoksConfig {
    type V = ConfigView;

    open spec fn view(&self) -> ConfigView {
        ConfigView { default_doc: self.default_doc@, mappings: mapping_views(self.mappings@) }
    }
}

/// Why a record file could not be read.
#[derive(Debug, Clone, Copy, PartialEq, Eq, Structural)]
pub enum ConfigError {
    /// A line holds `|` but fewer than five fields.
    InvalidMappingLine,
    /// No non-empty `default_doc=` line.
    MissingDefaultDoc,
}

pub open spec fn starts_with(s: Seq<char>, prefix: Seq<char>) -> bool {
    prefix.len() <= s.len() && s.take(prefix.len() as int) == prefix
}

/// The mapping that the `|`-separated fields of a line describe, each field
/// trimmed; a sixth field that is blank or absent gives no description.
pub open spec fn mapping_from(parts: Seq<Seq<char>>) -> MappingView {
    MappingView {
        id: trim(parts[0]),
        doc_partition: trim(parts[1]),
        code_partition: trim(parts[2]),
        doc_hash: trim(parts[3]),
        code_hash: trim(parts[4]),
        description: if parts.len() > 5 && trim(parts[5]).len() > 0 {
            Some(trim(parts[5]))
        } else {
            None
        },
    }
}

/// The effect of one line on the default document and mappings read so far.
/// Blank lines and lines starting with `#` are comments; so is any other line
/// that neither sets the default document nor holds a `|`.
pub open spec fn apply_line(acc: (Seq<char>, Seq<MappingView>), line: Seq<char>) -> Result<
    (Seq<char>, Seq<MappingView>),
    ConfigError,
> {
    let t = trim(line);
    if t.len() == 0 || t[0] == '#' {
        Ok(acc)
    } else if starts_with(t, "default_doc="@) {
        Ok((t.skip("default_doc="@.len() as int), acc.1))
    } else if t.contains('|') {
        let parts = split_on(t, '|');
        if parts.len() < 5 {
            Err(ConfigError::InvalidMappingLine)
        } else {
            Ok((acc.0, acc.1.push(mapping_from(parts))))
        }
    } else {
        Ok(acc)
    }
}

/// The default document and mappings that a sequence of lines sets, in order.
pub open spec fn read_lines(ls: Seq<Seq<char>>) -> Result<
    (Seq<char>, Seq<MappingView>),
    ConfigError,
>
    decreases ls.len(),
{
    if ls.len() == 0 {
        Ok((Seq::empty(), Seq::empty()))
    } else {
        match read_lines(ls.drop_last()) {
            Err(e) => Err(e),
            Ok(acc) => apply_line(acc, ls.last()),
        }
    }
}

/// The record file that a text describes.
pub open spec fn config_of(content: Seq<char>) -> Result<ConfigView, ConfigError> {
    match read_lines(lines_of(content)) {
        Err(e) => Err(e),
        Ok((d, ms)) => if d.len() == 0 {
            Err(ConfigError::MissingDefaultDoc)
        } else {
            Ok(ConfigView { default_doc: d, mappings: ms })
        },
    }
}

/// The description as written in a record line: empty when absent.
pub open spec fn description_text(d: Option<Seq<char>>) -> Seq<char> {
    match d {
        Some(t) => t,
        None => Seq::empty(),
    }
}

/// A mapping's line in the record file, without its line break.
pub open spec fn mapping_line(m: MappingView) -> Seq<char> {
    m.id + seq!['|'] + m.doc_partition + seq!['|'] + m.code_partition + seq!['|'] + m.doc_hash
        + seq!['|'] + m.code_hash + seq!['|'] + description_text(m.description)
}

/// The lines of the record file: a heading comment, the default document, a
/// blank line, then, if there are mappings, a comment naming the fields and
/// one line per mapping.
pub open spec fn config_lines(c: ConfigView) -> Seq<Seq<char>> {
    seq!["# .doks - Mapping doks to code "@, "default_doc="@ + c.default_doc, Seq::empty()] + if c.mappings.len()
        == 0 {
        Seq::empty()
    } else {
        seq!["# Format: id|doc_partition|code_partition|doc_hash|code_hash|description"@]
            + c.mappings.map_values(|m: MappingView| mapping_line(m))
    }
}

/// The record file's text.
pub open spec fn config_text(c: ConfigView) -> Seq<char> {
    terminated(config_lines(c))
}

/// `i` is the position of the first mapping with the given id.
pub open spec fn is_first_with_id(ms: Seq<MappingView>, id: Seq<char>, i: int) -> bool {
    &&& 0 <= i < ms.len()
    &&& ms[i].id == id
    &&& forall|j: int| 0 <= j < i ==> (#[trigger] ms[j]).id != id
}

/// The description a free-text answer gives: none when blank, else the
/// answer trimmed.
pub open spec fn description_of(input: Seq<char>) -> Option<Seq<char>> {
    if trim(input).len() == 0 {
        None
    } else {
        Some(trim(input))
    }
}

/// The mappings whose flag is not set, in order.
pub open spec fn unflagged(ms: Seq<MappingView>, flags: Seq<bool>) -> Seq<MappingView>
    decreases ms.len(),
{
    if ms.len() == 0 {
        Seq::empty()
    } else {
        let rest = unflagged(ms.drop_last(), flags);
        if flags[ms.len() - 1] {
            rest
        } else {
            rest.push(ms.last())
        }
    }
}

/// `i` is the position of the first mapping whose id starts with `prefix`.
pub open spec fn is_first_with_prefix(ms: Seq<MappingView>, prefix: Seq<char>, i: int) -> bool {
    &&& 0 <= i < ms.len()
    &&& starts_with(ms[i].id, prefix)
    &&& forall|j: int| 0 <= j < i ==> !starts_with(#[trigger] ms[j].id, prefix)
}

/// A field that a record line carries unchanged: no white space at either
/// end, no `|` and no line break.
pub open spec fn is_plain_field(f: Seq<char>) -> bool {
    no_outer_space(f) && !f.contains('|') && !f.contains('\n')
}

/// A mapping that its record line carries exactly: plain fields, a
/// description that is not empty, and an id that starts with neither `#` nor
/// `default_doc=`.
pub open spec fn is_recordable(m: MappingView) -> bool {
    &&& is_plain_field(m.id)
    &&& is_plain_field(m.doc_partition)
    &&& is_plain_field(m.code_partition)
    &&& is_plain_field(m.doc_hash)
    &&& is_plain_field(m.code_hash)
    &&& match m.description {
        Some(d) => d.len() > 0 && is_plain_field(d),
        None => true,
    }
    &&& !(m.id.len() > 0 && m.id[0] == '#')
    &&& !starts_with(m.id, "default_doc="@)
}

/// A record file that its text carries exactly: a default document that is
/// not empty, has no white space at either end and no line break, and
/// recordable mappings.
pub open spec fn is_recordable_config(c: ConfigView) -> bool {
    &&& c.default_doc.len() > 0
    &&& no_outer_space(c.default_doc)
    &&& !c.default_doc.contains('\n')
    &&& forall|i: int| 0 <= i < c.mappings.len() ==> is_recordable(#[trigger] c.mappings[i])
}

proof fn lemma_join_lacks(x: Seq<char>, y: Seq<char>, sep: char, c: char)
    requires
        !x.contains(c),
        !y.contains(c),
        sep != c,
    ensures
        !(x + seq![sep] + y).contains(c),
{
    assert(!seq![sep].contains(c)) by {
        assert forall|i: int| 0 <= i < 1 implies seq![sep][i] != c by {}
    }
    lemma_concat_lacks(x, seq![sep], c);
    lemma_concat_lacks(x + seq![sep], y, c);
}

/// Reading a recordable mapping's line adds that mapping.
proof fn lemma_read_mapping_line(acc: (Seq<char>, Seq<MappingView>), m: MappingView)
    requires
        is_recordable(m),
    ensures
        !mapping_line(m).contains('\n'),
        strip_cr(mapping_line(m)) == mapping_line(m),
        apply_line(acc, mapping_line(m)) == Ok::<(Seq<char>, Seq<MappingView>), ConfigError>(
            (acc.0, acc.1.push(m)),
        ),
{
    let key = "default_doc="@;
    reveal_strlit("default_doc=");
    let dt = description_text(m.description);
    let p2 = m.id + seq!['|'] + m.doc_partition;
    let p3 = p2 + seq!['|'] + m.code_partition;
    let p4 = p3 + seq!['|'] + m.doc_hash;
    let p5 = p4 + seq!['|'] + m.code_hash;
    let l = p5 + seq!['|'] + dt;
    assert(l == mapping_line(m));
    assert(is_plain_field(dt));
    lemma_join_lacks(m.id, m.doc_partition, '|', '\n');
    lemma_join_lacks(p2, m.code_partition, '|', '\n');
    lemma_join_lacks(p3, m.doc_hash, '|', '\n');
    lemma_join_lacks(p4, m.code_hash, '|', '\n');
    lemma_join_lacks(p5, dt, '|', '\n');
    let rest = seq!['|'] + m.doc_partition + seq!['|'] + m.code_partition + seq!['|'] + m.doc_hash
        + seq!['|'] + m.code_hash + seq!['|'] + dt;
    assert(l =~= m.id + rest);
    assert(l =~= (p5 + seq!['|']) + dt);
    let k = m.id.len() as int;
    assert(l[k] == '|');
    assert(l.len() > 0);
    assert(no_outer_space(l)) by {
        if m.id.len() > 0 {
            assert(l[0] == m.id[0]);
        }
        if dt.len() > 0 {
            assert(l.last() == dt.last());
        }
    }
    lemma_trim_plain(l);
    assert(!starts_with(l, key)) by {
        if starts_with(l, key) {
            if k >= key.len() {
                assert(l.take(key.len() as int) =~= m.id.take(key.len() as int));
            } else {
                assert(l.take(key.len() as int)[k] == '|');
            }
        }
    }
    assert(l.contains('|'));
    lemma_split_on_plain(m.id, '|');
    lemma_split_on_plain(m.doc_partition, '|');
    lemma_split_on_plain(m.code_partition, '|');
    lemma_split_on_plain(m.doc_hash, '|');
    lemma_split_on_plain(m.code_hash, '|');
    lemma_split_on_plain(dt, '|');
    lemma_split_on_concat(m.id, m.doc_partition, '|');
    lemma_split_on_concat(p2, m.code_partition, '|');
    lemma_split_on_concat(p3, m.doc_hash, '|');
    lemma_split_on_concat(p4, m.code_hash, '|');
    lemma_split_on_concat(p5, dt, '|');
    let parts = split_on(l, '|');
    assert(parts =~= seq![m.id, m.doc_partition, m.code_partition, m.doc_hash, m.code_hash, dt]);
    lemma_trim_plain(m.id);
    lemma_trim_plain(m.doc_partition);
    lemma_trim_plain(m.code_partition);
    lemma_trim_plain(m.doc_hash);
    lemma_trim_plain(m.code_hash);
    lemma_trim_plain(dt);
    assert(mapping_from(parts) == m);
}

proof fn lemma_read_mappings(c: ConfigView, k: int)
    requires
        is_recordable_config(c),
        c.mappings.len() > 0,
        0 <= k <= c.mappings.len(),
        read_lines(config_lines(c).take(4)) == Ok::<(Seq<char>, Seq<MappingView>), ConfigError>(
            (c.default_doc, Seq::empty()),
        ),
    ensures
        read_lines(config_lines(c).take(4 + k)) == Ok::<
            (Seq<char>, Seq<MappingView>),
            ConfigError,
        >((c.default_doc, c.mappings.take(k))),
    decreases k,
{
    let ls = config_lines(c);
    if k == 0 {
        assert(c.mappings.take(0) =~= Seq::<MappingView>::empty());
    } else {
        lemma_read_mappings(c, k - 1);
        assert(ls.take(4 + k).drop_last() =~= ls.take(4 + k - 1));
        assert(ls[4 + k - 1] == mapping_line(c.mappings[k - 1]));
        lemma_read_mapping_line((c.default_doc, c.mappings.take(k - 1)), c.mappings[k - 1]);
        assert(c.mappings.take(k - 1).push(c.mappings[k - 1]) =~= c.mappings.take(k));
    }
}

/// Reading the text of a recordable record file gives that record file back.
pub proof fn lemma_config_round_trip(c: ConfigView)
    requires
        is_recordable_config(c),
    ensures
        config_of(config_text(c)) == Ok::<ConfigView, ConfigError>(c),
{
    let ls = config_lines(c);
    let head = "# .doks - Mapping doks to code "@;
    let key = "default_doc="@;
    let fmt = "# Format: id|doc_partition|code_partition|doc_hash|code_hash|description"@;
    reveal_strlit("# .doks - Mapping doks to code ");
    reveal_strlit("default_doc=");
    reveal_strlit("# Format: id|doc_partition|code_partition|doc_hash|code_hash|description");
    let e = Seq::<char>::empty();
    let d = c.default_doc;
    assert(!head.contains('\n'));
    assert(!key.contains('\n'));
    assert(!fmt.contains('\n'));
    lemma_concat_lacks(key, d, '\n');
    assert(strip_cr(key + d) == key + d) by {
        assert((key + d).last() == d.last());
    }
    assert forall|i: int| 0 <= i < ls.len() implies !(#[trigger] ls[i]).contains('\n') && strip_cr(
        ls[i],
    ) == ls[i] by {
        if i >= 4 {
            lemma_read_mapping_line((e, Seq::empty()), c.mappings[i - 4]);
        }
    }
    lemma_lines_of_terminated(ls);
    let acc0 = (e, Seq::<MappingView>::empty());
    assert(ls.take(0) =~= Seq::<Seq<char>>::empty());
    assert(ls.take(1).drop_last() =~= ls.take(0));
    assert(ls.take(2).drop_last() =~= ls.take(1));
    assert(ls.take(3).drop_last() =~= ls.take(2));
    lemma_trim_keeps_first(head);
    assert(read_lines(ls.take(0)) == Ok::<(Seq<char>, Seq<MappingView>), ConfigError>(acc0));
    assert(ls.take(1).last() == head);
    assert(trim(head)[0] == '#');
    assert(read_lines(ls.take(1)) == Ok::<(Seq<char>, Seq<MappingView>), ConfigError>(acc0));
    assert((key + d)[0] == 'd');
    lemma_trim_plain(key + d);
    assert((key + d).take(key.len() as int) =~= key);
    assert((key + d).skip(key.len() as int) =~= d);
    assert(read_lines(ls.take(2)) == Ok::<(Seq<char>, Seq<MappingView>), ConfigError>(
        (d, Seq::empty()),
    ));
    assert(ls[2] == e);
    assert(trim(e) == e);
    assert(read_lines(ls.take(3)) == Ok::<(Seq<char>, Seq<MappingView>), ConfigError>(
        (d, Seq::empty()),
    ));
    if c.mappings.len() == 0 {
        assert(ls.take(3) =~= ls);
        assert(c.mappings =~= Seq::<MappingView>::empty());
    } else {
        assert(ls.take(4).drop_last() =~= ls.take(3));
        lemma_trim_keeps_first(fmt);
        lemma_read_mappings(c, c.mappings.len() as int);
        assert(ls.take(4 + c.mappings.len() as int) =~= ls);
        assert(c.mappings.take(c.mappings.len() as int) =~= c.mappings);
    }
}

proof fn lemma_read_lines_err(ls: Seq<Seq<char>>, i: int, e: ConfigError)
    requires
        0 <= i <= ls.len(),
        read_lines(ls.take(i)) == Err::<(Seq<char>, Seq<MappingView>), ConfigError>(e),
    ensures
        read_lines(ls) == Err::<(Seq<char>, Seq<MappingView>), ConfigError>(e),
    decreases ls.len() - i,
{
    if i < ls.len() {
        assert(ls.take(i + 1).drop_last() =~= ls.take(i));
        lemma_read_lines_err(ls, i + 1, e);
    } else {
        assert(ls.take(i) =~= ls);
    }
}

/// `trim(s)` as a string.
fn trimmed(s: &[char]) -> (r: String)
    ensures
        r@ == trim(s@),
{
    let (lo, hi) = trim_bounds(s, 0, s.len());
    let mut out: Vec<char> = Vec::new();
    append_range(&mut out, s, lo, hi);
    assert(s@.subrange(0, s@.len() as int) =~= s@);
    assert(out@ =~= trim(s@));
    string_of(&out)
}

/// The description that a free-text answer gives: `None` when it is blank,
/// else the answer without leading and trailing white space.
pub fn description_from_input(input: &str) -> (r: Option<String>)
    ensures
        match r {
            Some(d) => description_of(input@) == Some(d@),
            None => description_of(input@) is None,
        },
{
    let cs = chars_of(input);
    let d = trimmed(cs.as_slice());
    if d.as_str().is_empty() {
        None
    } else {
        Some(d)
    }
}

fn mapping_from_parts(parts: &Vec<Vec<char>>) -> (m: Mapping)
    requires
        parts@.len() >= 5,
    ensures
        m@ == mapping_from(views(parts@)),
{
    let description = if parts.len() > 5 {
        let d = trimmed(parts[5].as_slice());
        if d.as_str().is_empty() {
            None
        } else {
            Some(d)
        }
    } else {
        None
    };
    Mapping {
        id: trimmed(parts[0].as_slice()),
        doc_partition: trimmed(parts[1].as_slice()),
        code_partition: trimmed(parts[2].as_slice()),
        doc_hash: trimmed(parts[3].as_slice()),
        code_hash: trimmed(parts[4].as_slice()),
        description,
    }
}

/// Whether `s[a..b]` starts with `prefix`.
fn range_starts_with(s: &[char], a: usize, b: usize, prefix: &[char]) -> (r: bool)
    requires
        a <= b <= s@.len(),
    ensures
        r == starts_with(s@.subrange(a as int, b as int), prefix@),
{
    let n = prefix.len();
    if n > b - a {
        return false;
    }
    let mut i: usize = 0;
    while i < n
        invariant
            n == prefix@.len(),
            a + n <= b <= s@.len(),
            i <= n,
            forall|j: int| 0 <= j < i ==> s@[a + j] == prefix@[j],
        decreases n - i,
    {
        if s[a + i] != prefix[i] {
            assert(s@.subrange(a as int, b as int).take(n as int)[i as int] != prefix@[i as int]);
            return false;
        }
        i = i + 1;
    }
    assert(s@.subrange(a as int, b as int).take(n as int) =~= prefix@);
    true
}

/// Whether `s[a..b]` holds `c`.
fn range_contains(s: &[char], a: usize, b: usize, c: char) -> (r: bool)
    requires
        a <= b <= s@.len(),
    ensures
        r == s@.subrange(a as int, b as int).contains(c),
{
    let mut i = a;
    while i < b
        invariant
            a <= i <= b <= s@.len(),
            forall|j: int| a <= j < i ==> s@[j] != c,
        decreases b - i,
    {
        if s[i] == c {
            assert(s@.subrange(a as int, b as int)[i - a] == c);
            return true;
        }
        i = i + 1;
    }
    assert forall|j: int| 0 <= j < b - a implies s@.subrange(a as int, b as int)[j] != c by {
        assert(s@.subrange(a as int, b as int)[j] == s@[a + j]);
    }
    false
}

impl DoksConfig {
    /// A record file with the given default document and no mappings.
    pub fn new(default_doc: String) -> (r: Self)
        ensures
            r@.default_doc == default_doc@,
            r@.mappings == Seq::<MappingView>::empty(),
    {
        let r = DoksConfig { default_doc, mappings: Vec::new() };
        assert(r@.mappings =~= Seq::<MappingView>::empty());
        r
    }

    /// Reads a record file's text.
    pub fn parse(content: &str) -> (r: Result<Self, ConfigError>)
        ensures
            match r {
                Ok(c) => config_of(content@) == Ok::<ConfigView, ConfigError>(c@),
                Err(e) => config_of(content@) == Err::<ConfigView, ConfigError>(e),
            },
    {
        let cs = chars_of(content);
        let ls = split_lines(cs.as_slice());
        let ghost lv = views(ls@);
        let key = chars_of("default_doc=");
        let mut default_doc: Vec<char> = Vec::new();
        let mut mappings: Vec<Mapping> = Vec::new();
        let mut i: usize = 0;
        assert(lv.take(0) =~= Seq::<Seq<char>>::empty());
        assert(mapping_views(mappings@) =~= Seq::<MappingView>::empty());
        while i < ls.len()
            invariant
                i <= ls@.len(),
                lv == views(ls@),
                lv == lines_of(content@),
                key@ == "default_doc="@,
                read_lines(lv.take(i as int)) == Ok::<
                    (Seq<char>, Seq<MappingView>),
                    ConfigError,
                >((default_doc@, mapping_views(mappings@))),
            decreases ls.len() - i,
        {
            let line = ls[i].as_slice();
            assert(line@ == lv[i as int]);
            assert(lv.take(i + 1).drop_last() =~= lv.take(i as int));
            let ghost acc = (default_doc@, mapping_views(mappings@));
            let (lo, hi) = trim_bounds(line, 0, line.len());
            let ghost t = line@.subrange(lo as int, hi as int);
            assert(line@.subrange(0, line@.len() as int) =~= line@);
            if lo == hi || line[lo] == '#' {
                assert(t.len() == 0 || t[0] == '#');
            } else if range_starts_with(line, lo, hi, key.as_slice()) {
                let mut d: Vec<char> = Vec::new();
                append_range(&mut d, line, lo + key.len(), hi);
                assert(d@ =~= t.skip(key@.len() as int));
                default_doc = d;
            } else if range_contains(line, lo, hi, '|') {
                let mut tv: Vec<char> = Vec::new();
                append_range(&mut tv, line, lo, hi);
                let parts = split_chars(tv.as_slice(), '|');
                if parts.len() < 5 {
                    proof {
                        lemma_read_lines_err(lv, i + 1, ConfigError::InvalidMappingLine);
                    }
                    return Err(ConfigError::InvalidMappingLine);
                }
                let m = mapping_from_parts(&parts);
                mappings.push(m);
                assert(mapping_views(mappings@) =~= acc.1.push(mapping_from(split_on(t, '|'))));
            }
            i = i + 1;
        }
        assert(lv.take(ls@.len() as int) =~= lv);
        if default_doc.len() == 0 {
            return Err(ConfigError::MissingDefaultDoc);
        }
        Ok(DoksConfig { default_doc: string_of(default_doc.as_slice()), mappings })
    }
    /// The record file's text, which [`DoksConfig::parse`] reads back into the
    /// same record file when it is recordable.
    pub fn to_string(&self) -> (r: String)
        ensures
            r@ == config_text(self@),
    {
        let ghost ls = config_lines(self@);
        let mut out: Vec<char> = Vec::new();
        assert(ls.take(0) =~= Seq::<Seq<char>>::empty());
        assert(terminated(ls.take(0)) =~= Seq::<char>::empty());
        assert(ls.take(1).drop_last() =~= ls.take(0));
        assert(ls.take(2).drop_last() =~= ls.take(1));
        assert(ls.take(3).drop_last() =~= ls.take(2));
        append_str(&mut out, "# .doks - Mapping doks to code ");
        out.push('\n');
        assert(out@ =~= terminated(ls.take(1)));
        append_str(&mut out, "default_doc=");
        append_str(&mut out, self.default_doc.as_str());
        out.push('\n');
        assert(out@ =~= terminated(ls.take(2)));
        out.push('\n');
        assert(out@ =~= terminated(ls.take(3)));
        let ghost ms = mapping_views(self.mappings@);
        if self.mappings.len() > 0 {
            append_str(
                &mut out,
                "# Format: id|doc_partition|code_partition|doc_hash|code_hash|description",
            );
            out.push('\n');
            assert(ls.take(4).drop_last() =~= ls.take(3));
            assert(out@ =~= terminated(ls.take(4)));
            let mut i: usize = 0;
            while i < self.mappings.len()
                invariant
                    i <= self.mappings@.len(),
                    ms == mapping_views(self.mappings@),
                    ls == config_lines(self@),
                    ms.len() > 0,
                    out@ == terminated(ls.take(4 + i)),
                decreases self.mappings.len() - i,
            {
                let m = &self.mappings[i];
                let ghost before = out@;
                append_str(&mut out, m.id.as_str());
                out.push('|');
                append_str(&mut out, m.doc_partition.as_str());
                out.push('|');
                append_str(&mut out, m.code_partition.as_str());
                out.push('|');
                append_str(&mut out, m.doc_hash.as_str());
                out.push('|');
                append_str(&mut out, m.code_hash.as_str());
                out.push('|');
                match &m.description {
                    Some(d) => append_str(&mut out, d.as_str()),
                    None => {},
                }
                out.push('\n');
                assert(ms[i as int] == m@);
                assert(ls[4 + i] == mapping_line(m@));
                assert(ls.take(4 + i + 1).drop_last() =~= ls.take(4 + i));
                assert(out@ =~= before + mapping_line(m@) + seq!['\n']);
                i = i + 1;
            }
            assert(ls.take(4 + ms.len() as int) =~= ls);
        } else {
            assert(ls.take(3) =~= ls);
        }
        string_of(out.as_slice())
    }

    /// Appends a mapping.
    pub fn add_mapping(&mut self, mapping: Mapping)
        ensures
            final(self)@.default_doc == old(self)@.default_doc,
            final(self)@.mappings == old(self)@.mappings.push(mapping@),
    {
        self.mappings.push(mapping);
        assert(mapping_views(self.mappings@) =~= mapping_views(old(self).mappings@).push(mapping@));
    }

    /// The first mapping whose id is `id`, to be read or changed in place.
    pub fn find_mapping_by_id(&mut self, id: &str) -> (r: Option<&mut Mapping>)
        ensures
            match r {
                Some(m) => exists|i: int|
                    is_first_with_id(old(self)@.mappings, id@, i) && *m == old(self).mappings@[i]
                        && final(self).default_doc == old(self).default_doc
                        && final(self).mappings@ == old(self).mappings@.update(i, *final(m)),
                None => (forall|i: int|
                    0 <= i < old(self)@.mappings.len() ==> (#[trigger] old(self)@.mappings[i]).id
                        != id@) && *final(self) == *old(self),
            },
    {
        let key = chars_of(id);
        let mut i: usize = 0;
        while i < self.mappings.len()
            invariant
                i <= self.mappings@.len(),
                key@ == id@,
                *self == *old(self),
                forall|j: int| 0 <= j < i ==> (#[trigger] self@.mappings[j]).id != id@,
            decreases self.mappings.len() - i,
        {
            let candidate = chars_of(self.mappings[i].id.as_str());
            if same_chars(candidate.as_slice(), key.as_slice()) {
                assert(is_first_with_id(old(self)@.mappings, id@, i as int));
                return Some(&mut self.mappings[i]);
            }
            i = i + 1;
        }
        None
    }
    /// The position of the first mapping whose id starts with `prefix`.
    pub fn position_by_id_prefix(&self, prefix: &str) -> (r: Option<usize>)
        ensures
            match r {
                Some(i) => is_first_with_prefix(self@.mappings, prefix@, i as int),
                None => forall|i: int|
                    0 <= i < self@.mappings.len() ==> !starts_with(
                        #[trigger] self@.mappings[i].id,
                        prefix@,
                    ),
            },
    {
        let key = chars_of(prefix);
        let mut i: usize = 0;
        while i < self.mappings.len()
            invariant
                i <= self.mappings@.len(),
                key@ == prefix@,
                forall|j: int| 0 <= j < i ==> !starts_with(#[trigger] self@.mappings[j].id, prefix@),
            decreases self.mappings.len() - i,
        {
            let id = chars_of(self.mappings[i].id.as_str());
            assert(id@.subrange(0, id@.len() as int) =~= id@);
            if range_starts_with(id.as_slice(), 0, id.len(), key.as_slice()) {
                return Some(i);
            }
            i = i + 1;
        }
        None
    }

    /// The position of the first mapping whose id is `id`.
    pub fn position_by_id(&self, id: &str) -> (r: Option<usize>)
        ensures
            match r {
                Some(i) => is_first_with_id(self@.mappings, id@, i as int),
                None => forall|i: int|
                    0 <= i < self@.mappings.len() ==> (#[trigger] self@.mappings[i]).id != id@,
            },
    {
        let key = chars_of(id);
        let mut i: usize = 0;
        while i < self.mappings.len()
            invariant
                i <= self.mappings@.len(),
                key@ == id@,
                forall|j: int| 0 <= j < i ==> (#[trigger] self@.mappings[j]).id != id@,
            decreases self.mappings.len() - i,
        {
            let candidate = chars_of(self.mappings[i].id.as_str());
            if same_chars(candidate.as_slice(), key.as_slice()) {
                return Some(i);
            }
            i = i + 1;
        }
        None
    }

    /// Drops the mappings whose flag is set, keeping the others in order.
    pub fn remove_flagged(&mut self, flags: &[bool])
        requires
            flags@.len() == old(self).mappings@.len(),
        ensures
            final(self)@.default_doc == old(self)@.default_doc,
            final(self)@.mappings == unflagged(old(self)@.mappings, flags@),
    {
        let ghost ms = self@.mappings;
        let mut kept: Vec<Mapping> = Vec::new();
        let mut rest: Vec<Mapping> = Vec::new();
        std::mem::swap(&mut rest, &mut self.mappings);
        let n = rest.len();
        let mut i: usize = 0;
        assert(ms.take(0) =~= Seq::<MappingView>::empty());
        assert(mapping_views(kept@) =~= Seq::<MappingView>::empty());
        while i < n
            invariant
                i <= n == ms.len() == flags@.len(),
                rest@.len() == n - i,
                forall|j: int| 0 <= j < n - i ==> (#[trigger] rest@[j])@ == ms[i + j],
                mapping_views(kept@) == unflagged(ms.take(i as int), flags@),
            decreases n - i,
        {
            let m = rest.remove(0);
            assert(m@ == ms[i as int]);
            assert(ms.take(i + 1).drop_last() =~= ms.take(i as int));
            if !flags[i] {
                kept.push(m);
                assert(mapping_views(kept@) =~= unflagged(ms.take(i as int), flags@).push(ms[i as int]));
            }
            i = i + 1;
        }
        assert(ms.take(n as int) =~= ms);
        self.mappings = kept;
    }
}

} // verus!
