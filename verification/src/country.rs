//! The country catalog: which folders to read names and flags from, which
//! localisation lines name a country, which name and flag win when several
//! files and folders have one, and what is reported along the way.

use vstd::prelude::*;
use crate::flag::{png_data_url_text, png_encoding, tga_decoding, tga_to_png_data_url};
use crate::sort::{SortKey, is_stable_sort_of, stable_sort};
use crate::text::{
    chars_less, chars_lt, chars_of, find_char, index_of, lemma_chars_lt_irreflexive,
    lemma_index_of_bounds, lemma_text_order, push_str, slice_chars, string_of, strip_leading,
    strip_leading_chars, trim, trim_chars,
};

verus! {

/// A localisation line's tag and English name: the first two `;`-separated
/// fields, trimmed, the tag without leading byte-order marks. Empty lines,
/// comments (`#`) and lines without both fields name nothing.
pub open spec fn localisation_entry(line: Seq<char>) -> Option<(Seq<char>, Seq<char>)> {
    let t = trim(line);
    let k = index_of(t, ';');
    if t.len() == 0 || t[0] == '#' || k >= t.len() {
        None
    } else {
        let rest = t.skip(k + 1);
        let tag = strip_leading(trim(t.take(k)), '\u{feff}');
        let name = trim(rest.take(index_of(rest, ';')));
        if tag.len() == 0 || name.len() == 0 {
            None
        } else {
            Some((tag, name))
        }
    }
}

/// The tag and English name a line of characters gives, if any.
fn localisation_entry_of(line: &Vec<char>) -> (r: Option<(Vec<char>, Vec<char>)>)
    ensures
        match r {
            Some((tag, name)) => localisation_entry(line@) == Some((tag@, name@)),
            None => localisation_entry(line@) is None,
        },
{
    let t = trim_chars(line);
    if t.len() == 0 || t[0] == '#' {
        return None;
    }
    let k = find_char(&t, ';');
    if k >= t.len() {
        return None;
    }
    let first = slice_chars(&t, 0, k);
    let rest = slice_chars(&t, k + 1, t.len());
    assert(first@ =~= t@.take(k as int));
    assert(rest@ =~= t@.skip(k + 1));
    let k2 = find_char(&rest, ';');
    let second = slice_chars(&rest, 0, k2);
    assert(second@ =~= rest@.take(k2 as int));
    let tag = strip_leading_chars(&trim_chars(&first), '\u{feff}');
    let name = trim_chars(&second);
    if tag.len() == 0 || name.len() == 0 {
        return None;
    }
    Some((tag, name))
}

/// The tag and English name a localisation line gives, if any.
pub fn parse_localisation_line(line: &str) -> (r: Option<(String, String)>)
    ensures
        match r {
            Some((tag, name)) => localisation_entry(line@) == Some((tag@, name@)),
            None => localisation_entry(line@) is None,
        },
{
    match localisation_entry_of(&chars_of(line)) {
        Some((tag, name)) => Some((string_of(&tag), string_of(&name))),
        None => None,
    }
}

/// The texts of a sequence of strings.
pub open spec fn texts(v: Seq<String>) -> Seq<Seq<char>> {
    v.map_values(|s: String| s@)
}

/// The text of an optional string.
pub open spec fn opt_text(o: Option<String>) -> Option<Seq<char>> {
    match o {
        Some(s) => Some(s@),
        None => None,
    }
}

/// What the file system says of one folder to read from: its path as shown,
/// whether it exists and is a directory, and the same of its `localisation`
/// and `gfx/flags` subfolders.
#[derive(Debug, Clone, PartialEq, Eq)]
pub struct SourceProbe {
    pub root: String,
    pub exists: bool,
    pub is_dir: bool,
    pub localisation: String,
    pub localisation_is_dir: bool,
    pub flags: String,
    pub flags_is_dir: bool,
}

/// A folder to read from, under its label, with the subfolders it has.
#[derive(Debug, Clone, PartialEq, Eq)]
pub struct DataSource {
    pub label: String,
    pub localisation_dir: Option<String>,
    pub flags_dir: Option<String>,
}

/// The warning about a folder's root: missing, or not a directory.
pub open spec fn root_warnings(label: Seq<char>, probe: SourceProbe) -> Seq<Seq<char>> {
    if !probe.exists {
        seq![label + " does not exist: "@ + probe.root@]
    } else if !probe.is_dir {
        seq![label + " is not a directory: "@ + probe.root@]
    } else {
        Seq::empty()
    }
}

/// The warning about a missing subfolder.
pub open spec fn subdirectory_warnings(
    label: Seq<char>,
    child: Seq<char>,
    path: Seq<char>,
    is_dir: bool,
) -> Seq<Seq<char>> {
    if is_dir {
        Seq::empty()
    } else {
        seq![label + " is missing "@ + child + " at "@ + path]
    }
}

/// The warning about a missing flags folder.
pub open spec fn flags_warnings(label: Seq<char>, probe: SourceProbe) -> Seq<Seq<char>> {
    if probe.flags_is_dir {
        Seq::empty()
    } else {
        seq![label + " is missing a flags folder at "@ + probe.flags@]
    }
}

/// Everything reported about one folder, in order.
pub open spec fn source_warnings(label: Seq<char>, probe: SourceProbe) -> Seq<Seq<char>> {
    root_warnings(label, probe) + subdirectory_warnings(
        label,
        "localisation"@,
        probe.localisation@,
        probe.localisation_is_dir,
    ) + flags_warnings(label, probe)
}

/// The folder described by a probe, under `label`: a subfolder is kept
/// where it is a directory.
pub open spec fn source_of(label: Seq<char>, probe: SourceProbe) -> (Seq<char>, Option<Seq<char>>, Option<Seq<char>>) {
    (
        label,
        if probe.localisation_is_dir { Some(probe.localisation@) } else { None },
        if probe.flags_is_dir { Some(probe.flags@) } else { None },
    )
}

/// A data source as plain text.
pub open spec fn source_view(s: DataSource) -> (Seq<char>, Option<Seq<char>>, Option<Seq<char>>) {
    (s.label@, opt_text(s.localisation_dir), opt_text(s.flags_dir))
}

fn join3(a: &str, b: &str, c: &str) -> (r: String)
    ensures
        r@ == a@ + b@ + c@,
{
    let mut text: Vec<char> = Vec::new();
    push_str(&mut text, a);
    push_str(&mut text, b);
    push_str(&mut text, c);
    string_of(&text)
}

fn join5(a: &str, b: &str, c: &str, d: &str, e: &str) -> (r: String)
    ensures
        r@ == a@ + b@ + c@ + d@ + e@,
{
    let mut text: Vec<char> = Vec::new();
    push_str(&mut text, a);
    push_str(&mut text, b);
    push_str(&mut text, c);
    push_str(&mut text, d);
    push_str(&mut text, e);
    string_of(&text)
}

fn push_text(warnings: &mut Vec<String>, w: String)
    ensures
        texts(final(warnings)@) == texts(old(warnings)@).push(w@),
{
    warnings.push(w);
    assert(texts(warnings@) =~= texts(old(warnings)@).push(w@));
}

/// The subfolder at `path`, named `child`, if it is a directory; else a
/// warning that `label` is missing it.
pub fn validate_subdirectory(
    label: &str,
    child: &str,
    path: &String,
    is_dir: bool,
    warnings: &mut Vec<String>,
) -> (r: Option<String>)
    ensures
        opt_text(r) == (if is_dir { Some(path@) } else { None::<Seq<char>> }),
        texts(final(warnings)@) == texts(old(warnings)@) + subdirectory_warnings(
            label@,
            child@,
            path@,
            is_dir,
        ),
{
    if is_dir {
        assert(texts(warnings@) =~= texts(warnings@) + Seq::<Seq<char>>::empty());
        Some(path.clone())
    } else {
        let w = join5(label, " is missing ", child, " at ", path.as_str());
        push_text(warnings, w);
        assert(seq![label@ + " is missing "@ + child@ + " at "@ + path@] =~= seq![w@]);
        None
    }
}

/// The folder a probe describes, under `label`, reporting a missing or
/// non-directory root and each missing subfolder.
pub fn describe_source(label: &str, probe: &SourceProbe, warnings: &mut Vec<String>) -> (r:
    DataSource)
    ensures
        source_view(r) == source_of(label@, *probe),
        texts(final(warnings)@) == texts(old(warnings)@) + source_warnings(label@, *probe),
{
    let ghost start = texts(warnings@);
    if !probe.exists {
        push_text(warnings, join3(label, " does not exist: ", probe.root.as_str()));
    } else if !probe.is_dir {
        push_text(warnings, join3(label, " is not a directory: ", probe.root.as_str()));
    }
    assert(texts(warnings@) =~= start + root_warnings(label@, *probe));
    let localisation_dir = validate_subdirectory(
        label,
        "localisation",
        &probe.localisation,
        probe.localisation_is_dir,
        warnings,
    );
    let flags_dir = if probe.flags_is_dir {
        Some(probe.flags.clone())
    } else {
        push_text(warnings, join3(label, " is missing a flags folder at ", probe.flags.as_str()));
        None
    };
    assert(texts(warnings@) =~= start + source_warnings(label@, *probe));
    let label_text = label.to_string();
    DataSource { label: label_text, localisation_dir, flags_dir }
}

/// The folders to read from, the mod's first when there is one, each
/// reported on as `describe_source` does.
pub fn build_sources(
    game: &SourceProbe,
    mod_folder: Option<&SourceProbe>,
    warnings: &mut Vec<String>,
) -> (r: Vec<DataSource>)
    ensures
        r@.map_values(|s: DataSource| source_view(s)) == match mod_folder {
            Some(m) => seq![source_of("mod folder"@, *m), source_of("base game folder"@, *game)],
            None => seq![source_of("base game folder"@, *game)],
        },
        texts(final(warnings)@) == texts(old(warnings)@) + match mod_folder {
            Some(m) => source_warnings("mod folder"@, *m) + source_warnings(
                "base game folder"@,
                *game,
            ),
            None => source_warnings("base game folder"@, *game),
        },
{
    let ghost start = texts(warnings@);
    let mut sources: Vec<DataSource> = Vec::new();
    if let Some(m) = mod_folder {
        sources.push(describe_source("mod folder", m, warnings));
    }
    sources.push(describe_source("base game folder", game, warnings));
    proof {
        match mod_folder {
            Some(m) => {
                assert(texts(warnings@) =~= start + (source_warnings("mod folder"@, *m)
                    + source_warnings("base game folder"@, *game)));
            },
            None => {},
        }
    }
    assert(sources@.map_values(|s: DataSource| source_view(s)) =~= match mod_folder {
        Some(m) => seq![source_of("mod folder"@, *m), source_of("base game folder"@, *game)],
        None => seq![source_of("base game folder"@, *game)],
    });
    sources
}

/// Each text comes strictly before the next in code-point order.
pub open spec fn strictly_ascending(s: Seq<Seq<char>>) -> bool {
    forall|i: int, j: int| 0 <= i < j < s.len() ==> chars_lt(#[trigger] s[i], #[trigger] s[j])
}

/// The tags asked for among the first `k`: each trimmed, the empty ones
/// left out.
pub open spec fn requested_among(tags: Seq<String>, k: int) -> Set<Seq<char>> {
    Set::new(
        |t: Seq<char>| t.len() > 0 && exists|i: int| 0 <= i < k && #[trigger] trim(tags[i]@) == t,
    )
}

/// The tags asked for: each given tag trimmed, the empty ones left out.
pub open spec fn requested_tags(tags: Seq<String>) -> Set<Seq<char>> {
    requested_among(tags, tags.len() as int)
}

fn same_chars(a: &Vec<char>, b: &Vec<char>) -> (r: bool)
    ensures
        r == (a@ == b@),
{
    if a.len() != b.len() {
        return false;
    }
    let mut i: usize = 0;
    while i < a.len()
        invariant
            a@.len() == b@.len(),
            i <= a@.len(),
            a@.take(i as int) == b@.take(i as int),
        decreases a.len() - i,
    {
        if a[i] != b[i] {
            assert(a@[i as int] != b@[i as int]);
            return false;
        }
        assert(a@.take(i + 1) == a@.take(i as int).push(a@[i as int]));
        assert(b@.take(i + 1) == b@.take(i as int).push(b@[i as int]));
        i += 1;
    }
    assert(a@ =~= a@.take(i as int));
    assert(b@ =~= b@.take(i as int));
    true
}

/// The requested country tags, each trimmed, without empty ones, each once,
/// in code-point order.
pub fn normalize_country_tags(tags: &Vec<String>) -> (r: Vec<String>)
    ensures
        strictly_ascending(texts(r@)),
        texts(r@).to_set() == requested_tags(tags@),
{
    let mut keys: Vec<Vec<char>> = Vec::new();
    let mut k: usize = 0;
    while k < tags.len()
        invariant
            k <= tags@.len(),
            strictly_ascending(keys@.map_values(|c: Vec<char>| c@)),
            keys@.map_values(|c: Vec<char>| c@).to_set() == requested_among(tags@, k as int),
        decreases tags.len() - k,
    {
        let ghost ks = keys@.map_values(|c: Vec<char>| c@);
        let t = trim_chars(&chars_of(tags[k].as_str()));
        if t.len() > 0 {
            let mut j: usize = 0;
            while j < keys.len() && chars_less(&keys[j], &t)
                invariant
                    j <= keys@.len(),
                    ks == keys@.map_values(|c: Vec<char>| c@),
                    forall|i: int| 0 <= i < j ==> chars_lt(#[trigger] ks[i], t@),
                decreases keys.len() - j,
            {
                j += 1;
            }
            if j < keys.len() && same_chars(&keys[j], &t) {
                assert(requested_among(tags@, k + 1) =~= requested_among(tags@, k as int)) by {
                    assert(ks.to_set().contains(ks[j as int]));
                    assert forall|x: Seq<char>| requested_among(tags@, k + 1).contains(x)
                        implies requested_among(tags@, k as int).contains(x) by {
                        let i = choose|i: int| 0 <= i < k + 1 && #[trigger] trim(tags@[i]@) == x;
                        if i == k {
                            assert(ks.to_set().contains(x));
                        }
                    }
                }
            } else {
                proof {
                    if j < keys.len() {
                        lemma_text_order(ks[j as int], t@, t@);
                    }
                }
                keys.insert(j, t);
                proof {
                    let nks = keys@.map_values(|c: Vec<char>| c@);
                    assert(nks =~= ks.insert(j as int, t@));
                    assert forall|a: int, b: int| 0 <= a < b < nks.len() implies chars_lt(
                        #[trigger] nks[a],
                        #[trigger] nks[b],
                    ) by {
                        if b == j {
                            assert(chars_lt(ks[a], t@));
                        } else if a == j {
                            lemma_text_order(t@, ks[j as int], ks[b - 1]);
                            if b - 1 > j {
                                assert(chars_lt(ks[j as int], ks[b - 1]));
                            }
                        } else if a < j && b > j {
                            lemma_text_order(ks[a], t@, ks[b - 1]);
                            lemma_text_order(ks[a], ks[j as int], ks[b - 1]);
                            if b - 1 > j {
                                assert(chars_lt(ks[j as int], ks[b - 1]));
                            }
                            assert(chars_lt(ks[a], t@));
                            lemma_text_order(t@, ks[j as int], ks[b - 1]);
                        } else if a > j {
                            assert(chars_lt(ks[a - 1], ks[b - 1]));
                        }
                    }
                    assert forall|x: Seq<char>| nks.to_set().contains(x) == requested_among(
                        tags@,
                        k + 1,
                    ).contains(x) by {
                        if nks.to_set().contains(x) {
                            let i = choose|i: int| 0 <= i < nks.len() && nks[i] == x;
                            if i < j {
                                assert(ks[i] == x && ks.to_set().contains(x));
                            } else if i > j {
                                assert(ks[i - 1] == x && ks.to_set().contains(x));
                            } else {
                                assert(trim(tags@[k as int]@) == x);
                            }
                        }
                        if requested_among(tags@, k + 1).contains(x) {
                            let i = choose|i: int| 0 <= i < k + 1 && #[trigger] trim(tags@[i]@) == x;
                            if i == k {
                                assert(nks[j as int] == x);
                            } else {
                                assert(requested_among(tags@, k as int).contains(x));
                                assert(ks.to_set().contains(x));
                                let m = choose|m: int| 0 <= m < ks.len() && ks[m] == x;
                                if m < j {
                                    assert(nks[m] == x);
                                } else {
                                    assert(nks[m + 1] == x);
                                }
                            }
                        }
                    }
                    assert(nks.to_set() =~= requested_among(tags@, k + 1));
                }
            }
        } else {
            assert(requested_among(tags@, k + 1) =~= requested_among(tags@, k as int));
        }
        k += 1;
    }
    let mut r: Vec<String> = Vec::new();
    let mut i: usize = 0;
    while i < keys.len()
        invariant
            i <= keys@.len(),
            texts(r@) == keys@.map_values(|c: Vec<char>| c@).take(i as int),
        decreases keys.len() - i,
    {
        let ghost before = texts(r@);
        let text = string_of(&keys[i]);
        r.push(text);
        assert(texts(r@) =~= before.push(keys@[i as int]@));
        i += 1;
        assert(keys@.map_values(|c: Vec<char>| c@).take(i as int) =~= keys@.map_values(
            |c: Vec<char>| c@,
        ).take(i - 1).push(keys@[i - 1]@));
    }
    assert(texts(r@) =~= keys@.map_values(|c: Vec<char>| c@));
    r
}

/// The mod folder given, trimmed, unless nothing is left of it.
pub fn mod_folder_path(mod_path: &Option<String>) -> (r: Option<String>)
    ensures
        opt_text(r) == match mod_path {
            Some(p) => if trim(p@).len() > 0 {
                Some(trim(p@))
            } else {
                None
            },
            None => None,
        },
{
    match mod_path {
        Some(p) => {
            let t = trim_chars(&chars_of(p.as_str()));
            if t.len() > 0 {
                Some(string_of(&t))
            } else {
                None
            }
        },
        None => None,
    }
}

/// `c` matches the lowercase ASCII letter `lower` in either case.
pub open spec fn ascii_letter_is(c: char, lower: char) -> bool {
    c == lower || (c as int) == (lower as int) - 32
}

/// A localisation file's extension: `csv` in any ASCII case.
pub open spec fn is_csv_extension(e: Seq<char>) -> bool {
    e.len() == 3 && ascii_letter_is(e[0], 'c') && ascii_letter_is(e[1], 's') && ascii_letter_is(
        e[2],
        'v',
    )
}

/// Whether a file with this extension holds localisation lines.
pub fn is_localisation_extension(extension: &str) -> (r: bool)
    ensures
        r == is_csv_extension(extension@),
{
    let e = chars_of(extension);
    e.len() == 3 && (e[0] == 'c' || e[0] == 'C') && (e[1] == 's' || e[1] == 'S') && (e[2] == 'v'
        || e[2] == 'V')
}

impl SortKey for String {
    open spec fn spec_before(&self, other: &Self) -> bool {
        chars_lt(self@, other@)
    }

    proof fn lemma_irreflexive(a: &Self) {
        lemma_chars_lt_irreflexive(a@);
    }

    proof fn lemma_transitive(a: &Self, b: &Self, c: &Self) {
        lemma_text_order(a@, b@, c@);
    }

    proof fn lemma_connected(a: &Self, b: &Self, c: &Self) {
        lemma_text_order(a@, b@, c@);
        lemma_text_order(a@, c@, b@);
        lemma_text_order(c@, b@, a@);
    }

    fn before(&self, other: &Self) -> (r: bool) {
        chars_less(&chars_of(self.as_str()), &chars_of(other.as_str()))
    }
}

/// File names in code-point order, the order in which localisation files
/// are read.
pub fn sort_file_names(names: Vec<String>) -> (r: Vec<String>)
    ensures
        is_stable_sort_of(r@, names@),
{
    stable_sort(names)
}

/// The lines of a text as `str::lines` splits it: at each `\n`, without a
/// `\r` just before it; the last line needs no line ending.
pub open spec fn text_lines(t: Seq<char>) -> Seq<Seq<char>>
    decreases t.len(),
{
    if t.len() == 0 {
        Seq::empty()
    } else {
        let k = index_of(t, '\n');
        if k >= t.len() {
            seq![t]
        } else {
            let line = t.take(k);
            let line = if line.len() > 0 && line.last() == '\r' {
                line.drop_last()
            } else {
                line
            };
            proof {
                lemma_index_of_bounds(t, '\n');
            }
            seq![line] + text_lines(t.skip(k + 1))
        }
    }
}

/// The lines of `text`, as `text_lines` gives them.
pub fn split_lines(text: &Vec<char>) -> (r: Vec<Vec<char>>)
    ensures
        r@.map_values(|l: Vec<char>| l@) == text_lines(text@),
{
    let mut r: Vec<Vec<char>> = Vec::new();
    let mut start: usize = 0;
    assert(text@.skip(0) == text@);
    while start < text.len()
        invariant
            start <= text@.len(),
            r@.map_values(|l: Vec<char>| l@) + text_lines(text@.skip(start as int)) == text_lines(
                text@,
            ),
        decreases text.len() - start,
    {
        let ghost rest = text@.skip(start as int);
        let mut end = start;
        while end < text.len() && text[end] != '\n'
            invariant
                start <= end <= text@.len(),
                forall|i: int| start <= i < end ==> text@[i] != '\n',
            decreases text.len() - end,
        {
            end += 1;
        }
        proof {
            let k = end - start;
            assert forall|i: int| 0 <= i < k implies rest[i] != '\n' by {
                assert(rest[i] == text@[start + i]);
            }
            lemma_index_of_prefix(rest, '\n', k);
        }
        let mut stop = end;
        if end < text.len() && end > start && text[end - 1] == '\r' {
            stop = end - 1;
        }
        let line = slice_chars(text, start, stop);
        let ghost old_r = r@.map_values(|l: Vec<char>| l@);
        r.push(line);
        proof {
            let k = end - start;
            assert(r@.map_values(|l: Vec<char>| l@) =~= old_r.push(line@));
            if end < text.len() {
                assert(rest.skip(k + 1) =~= text@.skip(end + 1));
                let l0 = rest.take(k as int);
                assert(l0 =~= text@.subrange(start as int, end as int));
                if stop < end {
                    assert(l0.last() == '\r');
                    assert(l0.drop_last() =~= line@);
                } else {
                    assert(l0 =~= line@);
                }
                assert(text_lines(rest) == seq![line@] + text_lines(text@.skip(end + 1)));
                assert(old_r.push(line@) + text_lines(text@.skip(end + 1)) =~= old_r + (seq![line@]
                    + text_lines(text@.skip(end + 1))));
            } else {
                assert(rest =~= text@.subrange(start as int, end as int));
                assert(text@.skip(end as int) =~= Seq::<char>::empty());
                assert(old_r.push(line@) + text_lines(text@.skip(end as int)) =~= old_r + text_lines(
                    rest,
                ));
            }
        }
        start = if end < text.len() {
            end + 1
        } else {
            end
        };
    }
    assert(text@.skip(start as int) =~= Seq::<char>::empty());
    assert(r@.map_values(|l: Vec<char>| l@) + Seq::<Seq<char>>::empty() =~= r@.map_values(
        |l: Vec<char>| l@,
    ));
    r
}

proof fn lemma_index_of_prefix(s: Seq<char>, c: char, k: int)
    requires
        0 <= k <= s.len(),
        forall|i: int| 0 <= i < k ==> s[i] != c,
        k == s.len() || s[k] == c,
    ensures
        index_of(s, c) == k,
    decreases k,
{
    if k > 0 {
        lemma_index_of_prefix(s.drop_first(), c, k - 1);
    }
}

/// The names found for requested tags after one more line: a line naming a
/// requested tag that has no name yet gives it that name.
pub open spec fn names_after_line(
    requested: Seq<Seq<char>>,
    found: Seq<Option<Seq<char>>>,
    line: Seq<char>,
) -> Seq<Option<Seq<char>>> {
    match localisation_entry(line) {
        Some((tag, name)) => Seq::new(
            found.len(),
            |i: int|
                if requested[i] == tag && found[i] is None {
                    Some(name)
                } else {
                    found[i]
                },
        ),
        None => found,
    }
}

/// The names found for requested tags after the given lines, in order.
pub open spec fn names_after_lines(
    requested: Seq<Seq<char>>,
    found: Seq<Option<Seq<char>>>,
    lines: Seq<Seq<char>>,
) -> Seq<Option<Seq<char>>>
    decreases lines.len(),
{
    if lines.len() == 0 {
        found
    } else {
        names_after_lines(
            requested,
            names_after_line(requested, found, lines[0]),
            lines.drop_first(),
        )
    }
}

/// The name found for `tag`, where it is requested and has one.
pub open spec fn found_name(
    requested: Seq<Seq<char>>,
    found: Seq<Option<Seq<char>>>,
    tag: Seq<char>,
) -> Option<Seq<char>>
    decreases requested.len(),
{
    if requested.len() == 0 || found.len() == 0 {
        None
    } else if requested[0] == tag {
        found[0]
    } else {
        found_name(requested.drop_first(), found.drop_first(), tag)
    }
}

/// The country names one folder's localisation files give to the requested
/// tags: for each tag, the first name met, file after file and line after
/// line.
pub struct CountryNames {
    requested: Vec<Vec<char>>,
    found: Vec<Option<Vec<char>>>,
}

/// The text of an optional character vector.
pub open spec fn opt_chars(o: Option<Vec<char>>) -> Option<Seq<char>> {
    match o {
        Some(c) => Some(c@),
        None => None,
    }
}

impl CountryNames {
    /// Each requested tag has a place for its name.
    #[verifier::type_invariant]
    spec fn aligned(&self) -> bool {
        self.found@.len() == self.requested@.len()
    }

    /// The requested tags.
    pub closed spec fn requested(&self) -> Seq<Seq<char>> {
        self.requested@.map_values(|c: Vec<char>| c@)
    }

    /// For each requested tag, the name found for it so far.
    pub closed spec fn found(&self) -> Seq<Option<Seq<char>>> {
        self.found@.map_values(|o: Option<Vec<char>>| opt_chars(o))
    }

    /// No names yet for the requested tags.
    pub fn new(requested: &Vec<String>) -> (r: Self)
        ensures
            r.requested() == texts(requested@),
            r.found() == Seq::new(requested@.len(), |i: int| None::<Seq<char>>),
    {
        let mut tags: Vec<Vec<char>> = Vec::new();
        let mut found: Vec<Option<Vec<char>>> = Vec::new();
        let mut i: usize = 0;
        while i < requested.len()
            invariant
                i <= requested@.len(),
                tags@.map_values(|c: Vec<char>| c@) == texts(requested@).take(i as int),
                found@.map_values(|o: Option<Vec<char>>| opt_chars(o)) == Seq::new(
                    i as nat,
                    |k: int| None::<Seq<char>>,
                ),
            decreases requested.len() - i,
        {
            let ghost old_tags = tags@.map_values(|c: Vec<char>| c@);
            let ghost old_found = found@.map_values(|o: Option<Vec<char>>| opt_chars(o));
            let tag = chars_of(requested[i].as_str());
            tags.push(tag);
            found.push(None);
            assert(tags@.map_values(|c: Vec<char>| c@) =~= old_tags.push(requested@[i as int]@));
            assert(found@.map_values(|o: Option<Vec<char>>| opt_chars(o)) =~= old_found.push(None));
            i += 1;
            assert(texts(requested@).take(i as int) =~= texts(requested@).take(i - 1).push(
                requested@[i - 1]@,
            ));
            assert(Seq::new(i as nat, |k: int| None::<Seq<char>>) =~= Seq::new(
                (i - 1) as nat,
                |k: int| None::<Seq<char>>,
            ).push(None));
        }
        assert(texts(requested@).take(i as int) =~= texts(requested@));
        CountryNames { requested: tags, found }
    }

    /// Whether every requested tag has a name.
    pub fn is_complete(&self) -> (r: bool)
        ensures
            r == forall|i: int| 0 <= i < self.found().len() ==> #[trigger] self.found()[i] is Some,
    {
        let mut i: usize = 0;
        while i < self.found.len()
            invariant
                i <= self.found@.len(),
                forall|k: int| 0 <= k < i ==> #[trigger] self.found()[k] is Some,
            decreases self.found.len() - i,
        {
            if self.found[i].is_none() {
                assert(self.found()[i as int] is None);
                return false;
            }
            i += 1;
        }
        true
    }

    /// Takes in one more line: a line naming a requested tag that has no
    /// name yet gives it that name.
    fn add_line(&mut self, line: &Vec<char>)
        ensures
            final(self).requested() == old(self).requested(),
            final(self).found() == names_after_line(
                old(self).requested(),
                old(self).found(),
                line@,
            ),
    {
        proof {
            use_type_invariant(&*self);
        }
        let entry = localisation_entry_of(line);
        if let Some((tag, name)) = entry {
            let ghost req = self.requested();
            let ghost before = self.found();
            let mut next: Vec<Option<Vec<char>>> = Vec::new();
            let mut i: usize = 0;
            while i < self.found.len()
                invariant
                    i <= self.found@.len(),
                    self.found@.len() == self.requested@.len(),
                    req == self.requested@.map_values(|c: Vec<char>| c@),
                    before == self.found@.map_values(|o: Option<Vec<char>>| opt_chars(o)),
                    next@.len() == i,
                    forall|k: int|
                        0 <= k < i ==> #[trigger] opt_chars(next@[k]) == if req[k] == tag@
                            && before[k] is None {
                            Some(name@)
                        } else {
                            before[k]
                        },
                decreases self.found.len() - i,
            {
                assert(req[i as int] == self.requested@[i as int]@);
                assert(opt_chars(self.found@[i as int]) == before[i as int]);
                let value = match &self.found[i] {
                    Some(found) => {
                        let copy = slice_chars(found, 0, found.len());
                        assert(copy@ =~= found@);
                        Some(copy)
                    },
                    None => if same_chars(&self.requested[i], &tag) {
                        let copy = slice_chars(&name, 0, name.len());
                        assert(copy@ =~= name@);
                        Some(copy)
                    } else {
                        None
                    },
                };
                next.push(value);
                i += 1;
            }
            self.found = next;
            assert(self.found() =~= names_after_line(req, before, line@));
        } else {
            assert(self.found() =~= names_after_line(self.requested(), self.found(), line@));
        }
    }

    /// Takes in a localisation file's text, line after line.
    pub fn add_localisation_text(&mut self, text: &str)
        ensures
            final(self).requested() == old(self).requested(),
            final(self).found() == names_after_lines(
                old(self).requested(),
                old(self).found(),
                text_lines(text@),
            ),
    {
        let lines = split_lines(&chars_of(text));
        let ghost all = lines@.map_values(|l: Vec<char>| l@);
        let mut i: usize = 0;
        assert(all.skip(0) =~= all);
        while i < lines.len()
            invariant
                i <= lines@.len(),
                all == lines@.map_values(|l: Vec<char>| l@),
                all == text_lines(text@),
                self.requested() == old(self).requested(),
                names_after_lines(old(self).requested(), old(self).found(), all) == names_after_lines(
                    self.requested(),
                    self.found(),
                    all.skip(i as int),
                ),
            decreases lines.len() - i,
        {
            assert(all.skip(i as int).drop_first() =~= all.skip(i + 1));
            assert(all.skip(i as int)[0] == lines@[i as int]@);
            self.add_line(&lines[i]);
            i += 1;
        }
    }

    /// The name found for `tag`, where it is requested and has one.
    pub fn name_of(&self, tag: &str) -> (r: Option<String>)
        ensures
            opt_text(r) == found_name(self.requested(), self.found(), tag@),
    {
        proof {
            use_type_invariant(self);
        }
        let t = chars_of(tag);
        let mut i: usize = 0;
        assert(self.requested().skip(0) =~= self.requested());
        assert(self.found().skip(0) =~= self.found());
        while i < self.requested.len()
            invariant
                i <= self.requested@.len(),
                self.found@.len() == self.requested@.len(),
                t@ == tag@,
                found_name(self.requested(), self.found(), tag@) == found_name(
                    self.requested().skip(i as int),
                    self.found().skip(i as int),
                    tag@,
                ),
            decreases self.requested.len() - i,
        {
            assert(self.requested().skip(i as int)[0] == self.requested@[i as int]@);
            if same_chars(&self.requested[i], &t) {
                assert(self.found().skip(i as int)[0] == opt_chars(self.found@[i as int]));
                return match &self.found[i] {
                    Some(name) => Some(string_of(name)),
                    None => None,
                };
            }
            assert(self.requested().skip(i as int).drop_first() =~= self.requested().skip(i + 1));
            assert(self.found().skip(i as int).drop_first() =~= self.found().skip(i + 1));
            i += 1;
        }
        None
    }
}

/// Each folder's requested tags and the names found for them.
pub open spec fn names_view(per_source: Seq<CountryNames>) -> Seq<
    (Seq<Seq<char>>, Seq<Option<Seq<char>>>),
> {
    per_source.map_values(|c: CountryNames| (c.requested(), c.found()))
}

/// The name a tag gets: the name the first folder found for it, or the
/// tag itself where none did.
pub open spec fn name_from_sources(
    sources: Seq<(Seq<Seq<char>>, Seq<Option<Seq<char>>>)>,
    tag: Seq<char>,
) -> Seq<char>
    decreases sources.len(),
{
    if sources.len() == 0 {
        tag
    } else {
        match found_name(sources[0].0, sources[0].1, tag) {
            Some(name) => name,
            None => name_from_sources(sources.drop_first(), tag),
        }
    }
}

/// The name shown for `tag`: the first folder's name for it, else the tag.
pub fn country_name(tag: &String, per_source: &Vec<CountryNames>) -> (r: String)
    requires
    ensures
        r@ == name_from_sources(names_view(per_source@), tag@),
{
    let ghost all = names_view(per_source@);
    let mut i: usize = 0;
    assert(all.skip(0) =~= all);
    while i < per_source.len()
        invariant
            i <= per_source@.len(),
            all == names_view(per_source@),
            name_from_sources(all, tag@) == name_from_sources(all.skip(i as int), tag@),
        decreases per_source.len() - i,
    {
        assert(all.skip(i as int)[0] == (per_source@[i as int].requested(), per_source@[i as int].found()));
        assert(all.skip(i as int).drop_first() =~= all.skip(i + 1));
        if let Some(name) = per_source[i].name_of(tag.as_str()) {
            return name;
        }
        i += 1;
    }
    assert(all.skip(i as int).len() == 0);
    tag.clone()
}

/// A flag file found for a tag: its path as shown, and its bytes or the
/// reason they could not be read.
#[derive(Debug, PartialEq, Eq)]
pub struct FlagFile {
    pub path: String,
    pub contents: Result<Vec<u8>, String>,
}

/// A flag file as plain values.
pub open spec fn flag_file_view(f: FlagFile) -> (Seq<char>, Result<Seq<u8>, Seq<char>>) {
    (
        f.path@,
        match f.contents {
            Ok(bytes) => Ok(bytes@),
            Err(e) => Err(e@),
        },
    )
}

/// Flag files as plain values.
pub open spec fn flag_files_view(files: Seq<FlagFile>) -> Seq<(Seq<char>, Result<Seq<u8>, Seq<char>>)> {
    files.map_values(|f: FlagFile| flag_file_view(f))
}

/// What a flag file gives: its PNG data URL, or why it cannot be read or
/// decoded.
pub open spec fn flag_attempt(contents: Result<Seq<u8>, Seq<char>>) -> Result<Seq<char>, Seq<char>> {
    match contents {
        Err(e) => Err(e),
        Ok(bytes) => match tga_decoding(bytes) {
            Ok((width, height, rgba)) => Ok(
                png_data_url_text(png_encoding(width as u32, height as u32, rgba)),
            ),
            Err(e) => Err(e),
        },
    }
}

/// The flag a tag gets from its flag files, tried in order: the first that
/// decodes, with a warning for each one before it that does not.
pub open spec fn flag_search(
    tag: Seq<char>,
    files: Seq<(Seq<char>, Result<Seq<u8>, Seq<char>>)>,
) -> (Option<Seq<char>>, Seq<Seq<char>>)
    decreases files.len(),
{
    if files.len() == 0 {
        (None, Seq::empty())
    } else {
        match flag_attempt(files[0].1) {
            Ok(url) => (Some(url), Seq::empty()),
            Err(e) => {
                let rest = flag_search(tag, files.drop_first());
                (
                    rest.0,
                    seq!["Failed to decode flag "@ + tag + " from "@ + files[0].0 + ": "@ + e]
                        + rest.1,
                )
            },
        }
    }
}

fn join6(a: &str, b: &str, c: &str, d: &str, e: &str, f: &str) -> (r: String)
    ensures
        r@ == a@ + b@ + c@ + d@ + e@ + f@,
{
    let mut text: Vec<char> = Vec::new();
    push_str(&mut text, a);
    push_str(&mut text, b);
    push_str(&mut text, c);
    push_str(&mut text, d);
    push_str(&mut text, e);
    push_str(&mut text, f);
    string_of(&text)
}

/// The flag data URL for `tag` from its flag files, tried in order; each
/// file before the first good one is reported.
pub fn resolve_flag_data_url(tag: &String, files: &Vec<FlagFile>, warnings: &mut Vec<String>) -> (r:
    Option<String>)
    ensures
        opt_text(r) == flag_search(tag@, flag_files_view(files@)).0,
        texts(final(warnings)@) == texts(old(warnings)@) + flag_search(
            tag@,
            flag_files_view(files@),
        ).1,
{
    let ghost all = flag_files_view(files@);
    let mut i: usize = 0;
    assert(all.skip(0) =~= all);
    while i < files.len()
        invariant
            i <= files@.len(),
            all == flag_files_view(files@),
            flag_search(tag@, all).0 == flag_search(tag@, all.skip(i as int)).0,
            texts(old(warnings)@) + flag_search(tag@, all).1 == texts(warnings@) + flag_search(
                tag@,
                all.skip(i as int),
            ).1,
        decreases files.len() - i,
    {
        let file = &files[i];
        assert(all.skip(i as int)[0] == flag_file_view(*file));
        assert(all.skip(i as int).drop_first() =~= all.skip(i + 1));
        let attempt = match &file.contents {
            Ok(bytes) => tga_to_png_data_url(bytes.as_slice()),
            Err(e) => Err(e.clone()),
        };
        match attempt {
            Ok(url) => {
                assert(texts(warnings@) + Seq::<Seq<char>>::empty() =~= texts(warnings@));
                return Some(url);
            },
            Err(e) => {
                let ghost before = texts(warnings@);
                let w = join6(
                    "Failed to decode flag ",
                    tag.as_str(),
                    " from ",
                    file.path.as_str(),
                    ": ",
                    e.as_str(),
                );
                push_text(warnings, w);
                assert(before + (seq![w@] + flag_search(tag@, all.skip(i + 1)).1) =~= before.push(
                    w@,
                ) + flag_search(tag@, all.skip(i + 1)).1);
            },
        }
        i += 1;
    }
    assert(texts(warnings@) + Seq::<Seq<char>>::empty() =~= texts(warnings@));
    None
}

/// A country as the catalog shows it.
#[derive(Debug, Clone, PartialEq, Eq)]
pub struct CountryView {
    pub tag: String,
    pub name: String,
    pub flag_data_url: Option<String>,
}

/// The countries asked for, in tag order, and what was reported while
/// finding their names and flags.
#[derive(Debug, Clone, PartialEq, Eq)]
pub struct CountryCatalogView {
    pub countries: Vec<CountryView>,
    pub warnings: Vec<String>,
}

impl CountryCatalogView {
    /// The first country shown under `tag`, if any.
    pub fn get(&self, tag: &str) -> (r: Option<&CountryView>)
        ensures
            match r {
                Some(c) => exists|i: int|
                    0 <= i < self.countries@.len() && self.countries@[i] == *c && c.tag@ == tag@
                        && forall|k: int|
                        0 <= k < i ==> (#[trigger] self.countries@[k]).tag@ != tag@,
                None => forall|k: int|
                    0 <= k < self.countries@.len() ==> (#[trigger] self.countries@[k]).tag@
                        != tag@,
            },
    {
        let t = chars_of(tag);
        let mut i: usize = 0;
        while i < self.countries.len()
            invariant
                i <= self.countries@.len(),
                t@ == tag@,
                forall|k: int| 0 <= k < i ==> (#[trigger] self.countries@[k]).tag@ != tag@,
            decreases self.countries.len() - i,
        {
            if same_chars(&chars_of(self.countries[i].tag.as_str()), &t) {
                return Some(&self.countries[i]);
            }
            i += 1;
        }
        None
    }
}

/// The warnings about the flags of the first `n` tags, in order.
pub open spec fn flag_warnings_for(
    tags: Seq<Seq<char>>,
    files: Seq<Seq<(Seq<char>, Result<Seq<u8>, Seq<char>>)>>,
    n: nat,
) -> Seq<Seq<char>>
    decreases n,
{
    if n == 0 {
        Seq::empty()
    } else {
        flag_warnings_for(tags, files, (n - 1) as nat) + flag_search(
            tags[n - 1],
            files[n - 1],
        ).1
    }
}

/// The catalog of the requested countries: each with its name from the
/// folders' localisation files and its flag from its flag files, after the
/// `warnings` so far the flag warnings, tag after tag.
pub fn build_country_catalog(
    requested: &Vec<String>,
    per_source: &Vec<CountryNames>,
    flag_files: &Vec<Vec<FlagFile>>,
    warnings: Vec<String>,
) -> (r: CountryCatalogView)
    requires
        flag_files@.len() == requested@.len(),
        strictly_ascending(texts(requested@)),
    ensures
        r.countries@.len() == requested@.len(),
        strictly_ascending(r.countries@.map_values(|c: CountryView| c.tag@)),
        forall|i: int|
            0 <= i < requested@.len() ==> {
                &&& (#[trigger] r.countries@[i]).tag@ == requested@[i]@
                &&& r.countries@[i].name@ == name_from_sources(
                    names_view(per_source@),
                    requested@[i]@,
                )
                &&& opt_text(r.countries@[i].flag_data_url) == flag_search(
                    requested@[i]@,
                    flag_files_view(flag_files@[i]@),
                ).0
            },
        texts(r.warnings@) == texts(warnings@) + flag_warnings_for(
            texts(requested@),
            flag_files@.map_values(|v: Vec<FlagFile>| flag_files_view(v@)),
            requested@.len(),
        ),
{
    let ghost tags = texts(requested@);
    let ghost files = flag_files@.map_values(|v: Vec<FlagFile>| flag_files_view(v@));
    let mut warnings = warnings;
    let ghost start = texts(warnings@);
    let mut countries: Vec<CountryView> = Vec::new();
    let mut i: usize = 0;
    while i < requested.len()
        invariant
            i <= requested@.len(),
            flag_files@.len() == requested@.len(),
            tags == texts(requested@),
            files == flag_files@.map_values(|v: Vec<FlagFile>| flag_files_view(v@)),
            countries@.len() == i,
            forall|k: int|
                0 <= k < i ==> {
                    &&& (#[trigger] countries@[k]).tag@ == requested@[k]@
                    &&& countries@[k].name@ == name_from_sources(
                        names_view(per_source@),
                        requested@[k]@,
                    )
                    &&& opt_text(countries@[k].flag_data_url) == flag_search(
                        requested@[k]@,
                        flag_files_view(flag_files@[k]@),
                    ).0
                },
            texts(warnings@) == start + flag_warnings_for(tags, files, i as nat),
        decreases requested.len() - i,
    {
        let tag = &requested[i];
        let name = country_name(tag, per_source);
        let ghost before = texts(warnings@);
        let flag_data_url = resolve_flag_data_url(tag, &flag_files[i], &mut warnings);
        proof {
            assert(tags[i as int] == tag@);
            assert(files[i as int] == flag_files_view(flag_files@[i as int]@));
            assert(start + flag_warnings_for(tags, files, (i + 1) as nat) =~= before + flag_search(
                tag@,
                flag_files_view(flag_files@[i as int]@),
            ).1);
        }
        countries.push(CountryView { tag: tag.clone(), name, flag_data_url });
        i += 1;
    }
    proof {
        let tags_shown = countries@.map_values(|c: CountryView| c.tag@);
        assert forall|a: int, b: int| 0 <= a < b < tags_shown.len() implies chars_lt(
            #[trigger] tags_shown[a],
            #[trigger] tags_shown[b],
        ) by {
            assert(tags_shown[a] == tags[a] && tags_shown[b] == tags[b]);
        }
    }
    CountryCatalogView { countries, warnings }
}

/// A name once found for a requested tag is never replaced by later lines,
/// and every tag keeps its place.
pub proof fn lemma_found_names_stay(
    requested: Seq<Seq<char>>,
    found: Seq<Option<Seq<char>>>,
    lines: Seq<Seq<char>>,
)
    ensures
        names_after_lines(requested, found, lines).len() == found.len(),
        forall|i: int|
            0 <= i < found.len() && (#[trigger] found[i]) is Some ==> names_after_lines(
                requested,
                found,
                lines,
            )[i] == found[i],
    decreases lines.len(),
{
    if lines.len() > 0 {
        let next = names_after_line(requested, found, lines[0]);
        lemma_found_names_stay(requested, next, lines.drop_first());
        assert forall|i: int| 0 <= i < found.len() && (#[trigger] found[i]) is Some implies next[i]
            == found[i] by {}
    }
}

/// The name from the first folder that found one for a tag wins over the
/// later folders'.
pub proof fn lemma_first_folder_name_wins(
    sources: Seq<(Seq<Seq<char>>, Seq<Option<Seq<char>>>)>,
    tag: Seq<char>,
    k: int,
)
    requires
        0 <= k < sources.len(),
        found_name(sources[k].0, sources[k].1, tag) is Some,
        forall|j: int| 0 <= j < k ==> (found_name(#[trigger] sources[j].0, sources[j].1, tag) is None),
    ensures
        Some(name_from_sources(sources, tag)) == found_name(sources[k].0, sources[k].1, tag),
    decreases k,
{
    if k > 0 {
        assert(found_name(sources[0].0, sources[0].1, tag) is None);
        let rest = sources.drop_first();
        assert forall|j: int| 0 <= j < k - 1 implies (found_name(
            #[trigger] rest[j].0,
            rest[j].1,
            tag,
        ) is None) by {
            assert(rest[j] == sources[j + 1]);
        }
        lemma_first_folder_name_wins(rest, tag, k - 1);
    }
}

/// A tag no folder names is shown under the tag itself.
pub proof fn lemma_unnamed_tag_shows_the_tag(
    sources: Seq<(Seq<Seq<char>>, Seq<Option<Seq<char>>>)>,
    tag: Seq<char>,
)
    requires
        forall|j: int| 0 <= j < sources.len() ==> (found_name(
            #[trigger] sources[j].0,
            sources[j].1,
            tag,
        ) is None),
    ensures
        name_from_sources(sources, tag) == tag,
    decreases sources.len(),
{
    if sources.len() > 0 {
        assert(found_name(sources[0].0, sources[0].1, tag) is None);
        let rest = sources.drop_first();
        assert forall|j: int| 0 <= j < rest.len() implies (found_name(
            #[trigger] rest[j].0,
            rest[j].1,
            tag,
        ) is None) by {
            assert(rest[j] == sources[j + 1]);
        }
        lemma_unnamed_tag_shows_the_tag(rest, tag);
    }
}

/// The first flag file that decodes gives the flag, after one warning for
/// each file before it.
pub proof fn lemma_first_decodable_flag_wins(
    tag: Seq<char>,
    files: Seq<(Seq<char>, Result<Seq<u8>, Seq<char>>)>,
    k: int,
)
    requires
        0 <= k < files.len(),
        flag_attempt(files[k].1) is Ok,
        forall|j: int| 0 <= j < k ==> (flag_attempt(#[trigger] files[j].1) is Err),
    ensures
        flag_search(tag, files).0 == Some(flag_attempt(files[k].1)->Ok_0),
        flag_search(tag, files).1.len() == k,
    decreases k,
{
    if k > 0 {
        assert(flag_attempt(files[0].1) is Err);
        let rest = files.drop_first();
        assert forall|j: int| 0 <= j < k - 1 implies (flag_attempt(#[trigger] rest[j].1) is Err) by {
            assert(rest[j] == files[j + 1]);
        }
        lemma_first_decodable_flag_wins(tag, rest, k - 1);
    }
}

/// A line without the `\r` it may end with.
pub open spec fn without_carriage_return(line: Seq<char>) -> Seq<char> {
    if line.len() > 0 && line.last() == '\r' {
        line.drop_last()
    } else {
        line
    }
}

/// Every `\n` ends a line: text without `\n` before the first one is the
/// first line (less a `\r` at its end), and the lines after it are those of
/// the rest.
pub proof fn lemma_lines_split_at_newline(a: Seq<char>, rest: Seq<char>)
    requires
        forall|i: int| 0 <= i < a.len() ==> #[trigger] a[i] != '\n',
    ensures
        text_lines(a + seq!['\n'] + rest) == seq![without_carriage_return(a)] + text_lines(rest),
{
    let t = a + seq!['\n'] + rest;
    assert forall|i: int| 0 <= i < a.len() implies t[i] != '\n' by {
        assert(t[i] == a[i]);
    }
    lemma_index_of_prefix(t, '\n', a.len() as int);
    assert(t.take(a.len() as int) =~= a);
    assert(t.skip(a.len() + 1int) =~= rest);
}

/// Text without `\n` is one line, kept whole.
pub proof fn lemma_single_line(b: Seq<char>)
    requires
        b.len() > 0,
        forall|i: int| 0 <= i < b.len() ==> #[trigger] b[i] != '\n',
    ensures
        text_lines(b) == seq![b],
{
    lemma_index_of_prefix(b, '\n', b.len() as int);
}

/// Two lines joined by `\n` read as those two lines, the first without a
/// `\r` at its end.
pub proof fn lemma_two_lines(a: Seq<char>, b: Seq<char>)
    requires
        b.len() > 0,
        forall|i: int| 0 <= i < a.len() ==> #[trigger] a[i] != '\n',
        forall|i: int| 0 <= i < b.len() ==> #[trigger] b[i] != '\n',
    ensures
        text_lines(a + seq!['\n'] + b) == seq![without_carriage_return(a), b],
{
    lemma_lines_split_at_newline(a, b);
    lemma_single_line(b);
    assert(seq![without_carriage_return(a)] + seq![b] =~= seq![without_carriage_return(a), b]);
}

} // verus!
