//! Raw-text view of a `*.core.yml` file: where each `custom_features:`
//! entry sits in the source lines, whether it is commented out, and how to
//! comment or uncomment it in place without disturbing any other byte.
use vstd::prelude::*;
use crate::strmap::{
    first_key_index, has_key, lemma_first_key_index, lemma_insert_has_key, lemma_remove_has_key,
    pairs_insert, pairs_remove, StrMap,
};
use crate::model::{CoreYml, CustomFeature};
use crate::outside::{feature_entries, features_insert, features_into_vec, features_new, features_shift_remove};
use indexmap::IndexMap;
use crate::text::{
    push_char, lemma_join_push, lemma_join_terminated, split_state, strip_cr, terminated,
    blank, chars_eq, chars_of, push_chars, split_lines, str_eq, string_of, text_lines, has_char, has_indent, is_blank, is_whitespace, is_ws, join, lead_spaces, lemma_lead_spaces,
    lemma_lead_spaces_unique, lemma_trim_end_unique, lemma_trim_fixed, trim, trim_end,
};

verus! {

// ---------------------------------------------------------------------------
// The scanning rules, stated over lines of characters
// ---------------------------------------------------------------------------

/// Our own disable marker: a leading `"# "`, or failing that a bare `"#"`,
/// is removed, and whether one was found is reported.
pub open spec fn marker_strip(s: Seq<char>) -> (bool, Seq<char>) {
    if s.len() >= 2 && s[0] == '#' && s[1] == ' ' {
        (true, s.skip(2))
    } else if s.len() >= 1 && s[0] == '#' {
        (true, s.skip(1))
    } else {
        (false, s)
    }
}

/// The key of a line that is a bare `identifier:` once trailing whitespace
/// is gone: the key is nonempty, has no surrounding whitespace and no `':'`.
pub open spec fn bare_key_of(content: Seq<char>) -> Option<Seq<char>> {
    let t = trim_end(content);
    if t.len() > 0 && t.last() == ':' {
        let key = t.drop_last();
        if key.len() > 0 && trim(key) == key && !has_char(key, ':') {
            Some(key)
        } else {
            None
        }
    } else {
        None
    }
}

/// The line that opens the section of feature entries.
pub open spec fn header_text() -> Seq<char> {
    "custom_features:"@
}

/// `h` is the first line that is exactly the section header.
pub open spec fn header_at(lines: Seq<Seq<char>>, h: int) -> bool {
    &&& 0 <= h < lines.len()
    &&& lines[h] == header_text()
    &&& forall|j: int| 0 <= j < h ==> #[trigger] lines[j] != header_text()
}

/// The index of the section header, if the text has one.
pub open spec fn header_index(lines: Seq<Seq<char>>) -> Option<int> {
    if exists|h: int| header_at(lines, h) {
        Some(choose|h: int| header_at(lines, h))
    } else {
        None
    }
}

/// `j` is the first non-blank line after line `h`.
pub open spec fn first_nonblank_at(lines: Seq<Seq<char>>, h: int, j: int) -> bool {
    &&& h < j < lines.len()
    &&& !is_blank(lines[j])
    &&& forall|m: int| h < m < j ==> is_blank(#[trigger] lines[m])
}

/// The indentation of feature keys: that of the first non-blank line after
/// the header, or 0 when there is none.
pub open spec fn indent_after(lines: Seq<Seq<char>>, h: int) -> nat {
    if exists|j: int| first_nonblank_at(lines, h, j) {
        lead_spaces(lines[choose|j: int| first_nonblank_at(lines, h, j)])
    } else {
        0
    }
}

/// A non-blank line indented less than the keys closes the section.
pub open spec fn closes_section(l: Seq<char>, ki: nat) -> bool {
    !is_blank(l) && lead_spaces(l) < ki
}

/// `e` is where the section after header `h` ends: the first line that
/// closes it, or the end of the text.
pub open spec fn section_end_at(lines: Seq<Seq<char>>, h: int, ki: nat, e: int) -> bool {
    &&& h < e <= lines.len()
    &&& e < lines.len() ==> closes_section(lines[e], ki)
    &&& forall|m: int| h < m < e ==> !closes_section(#[trigger] lines[m], ki)
}

/// The end of the section after header `h`.
pub open spec fn section_end(lines: Seq<Seq<char>>, h: int, ki: nat) -> int {
    choose|e: int| section_end_at(lines, h, ki, e)
}

/// A line that starts a feature entry: indented exactly `ki`, and after an
/// optional disable marker a bare key.
pub open spec fn opens_block(l: Seq<char>, ki: nat) -> bool {
    &&& !is_blank(l)
    &&& lead_spaces(l) == ki
    &&& bare_key_of(marker_strip(l.skip(ki as int)).1) is Some
}

/// The lines strictly between `h` and `k` that start a feature entry, in
/// order.
pub open spec fn starts_upto(lines: Seq<Seq<char>>, ki: nat, h: int, k: int) -> Seq<int>
    decreases k - h,
{
    if k <= h + 1 {
        Seq::empty()
    } else {
        starts_upto(lines, ki, h, k - 1) + if opens_block(lines[k - 1], ki) {
            seq![k - 1]
        } else {
            Seq::empty()
        }
    }
}

/// The entry that starts at line `s` and runs up to line `e`: its key,
/// range, and whether it is active (not commented out).
pub open spec fn block_at(lines: Seq<Seq<char>>, ki: nat, s: int, e: int) -> (
    Seq<char>,
    int,
    int,
    bool,
) {
    let (commented, rest) = marker_strip(lines[s].skip(ki as int));
    (bare_key_of(rest).unwrap(), s, e, !commented)
}

/// The entries of a section that runs from after `h` up to `end`: each one
/// reaches to where the next starts, the last one to `end`.
pub open spec fn scanned_blocks(lines: Seq<Seq<char>>, ki: nat, h: int, end: int) -> Seq<
    (Seq<char>, int, int, bool),
> {
    let st = starts_upto(lines, ki, h, end);
    Seq::new(
        st.len(),
        |j: int| block_at(lines, ki, st[j], if j + 1 < st.len() { st[j + 1] } else { end }),
    )
}

/// Whether `s` holds a `"\r\n"`.
pub open spec fn has_crlf(s: Seq<char>) -> bool {
    exists|i: int| 0 <= i < s.len() - 1 && s[i] == '\r' && #[trigger] s[i + 1] == '\n'
}

/// The line terminator a file is written back with.
pub open spec fn newline_text(crlf: bool) -> Seq<char> {
    if crlf {
        seq!['\r', '\n']
    } else {
        seq!['\n']
    }
}

/// A line as the toggle rewrites it: blank lines and lines shorter than the
/// key indentation are left alone; otherwise the marker is removed
/// (`enable`) or `"# "` is put (disable) right after the first `ki`
/// columns.
pub open spec fn toggled_line(l: Seq<char>, ki: nat, enable: bool) -> Seq<char> {
    if is_blank(l) || l.len() < ki {
        l
    } else if enable {
        l.take(ki as int) + marker_strip(l.skip(ki as int)).1
    } else {
        l.take(ki as int) + seq!['#', ' '] + l.skip(ki as int)
    }
}

/// What the enabled-state overrides of a list of entries are: each entry's
/// key mapped to whether it is active, a later entry winning over an
/// earlier one with the same key.
pub open spec fn overrides_of(bs: Seq<(Seq<char>, int, int, bool)>) -> Map<Seq<char>, bool>
    decreases bs.len(),
{
    if bs.len() == 0 {
        Map::empty()
    } else {
        overrides_of(bs.drop_last()).insert(bs.last().0, bs.last().3)
    }
}

/// A line as it goes into a reconstructed entry: blank lines become empty,
/// others lose the key indentation and the disable marker.
pub open spec fn dedented(l: Seq<char>, ki: nat) -> Seq<char> {
    if is_blank(l) {
        Seq::empty()
    } else {
        marker_strip(if l.len() >= ki { l.skip(ki as int) } else { l }).1
    }
}

/// The YAML fragment that a run of lines reconstructs to: each line
/// dedented and terminated by `'\n'`.
pub open spec fn fragment_of(ls: Seq<Seq<char>>, ki: nat) -> Seq<char>
    decreases ls.len(),
{
    if ls.len() == 0 {
        Seq::empty()
    } else {
        fragment_of(ls.drop_last(), ki) + dedented(ls.last(), ki) + seq!['\n']
    }
}

/// Lines of characters, by their contents.
pub open spec fn view_lines(v: Seq<Vec<char>>) -> Seq<Seq<char>> {
    v.map_values(|l: Vec<char>| l@)
}

/// Entries, by key, range and state.
pub open spec fn view_blocks(v: Seq<FeatureBlock>) -> Seq<(Seq<char>, int, int, bool)> {
    v.map_values(|b: FeatureBlock| b.spec_view())
}

/// The entry starts found below `k` lie between `h` and `k`, rise strictly,
/// and each opens an entry.
pub proof fn lemma_starts(lines: Seq<Seq<char>>, ki: nat, h: int, k: int)
    ensures
        forall|j: int|
            0 <= j < starts_upto(lines, ki, h, k).len() ==> h < #[trigger] starts_upto(
                lines,
                ki,
                h,
                k,
            )[j] < k && opens_block(lines[starts_upto(lines, ki, h, k)[j]], ki),
        forall|a: int, b: int|
            0 <= a < b < starts_upto(lines, ki, h, k).len() ==> #[trigger] starts_upto(
                lines,
                ki,
                h,
                k,
            )[a] < #[trigger] starts_upto(lines, ki, h, k)[b],
    decreases k - h,
{
    if k > h + 1 {
        lemma_starts(lines, ki, h, k - 1);
        let st = starts_upto(lines, ki, h, k);
        let prev = starts_upto(lines, ki, h, k - 1);
        if opens_block(lines[k - 1], ki) {
            assert(st == prev + seq![k - 1]);
            assert(st[prev.len() as int] == k - 1);
            assert forall|j: int| 0 <= j < prev.len() implies st[j] == prev[j] by {}
        } else {
            assert(st == prev + Seq::<int>::empty());
            assert(st =~= prev);
        }
    }
}

/// A non-blank line indented at least `ki` has `ki` leading spaces.
pub proof fn lemma_indent_from_lead(l: Seq<char>, ki: nat)
    requires
        lead_spaces(l) >= ki,
    ensures
        has_indent(l, ki),
{
    lemma_lead_spaces(l);
}

/// Toggling keeps a line's key indentation, and a blank line blank.
pub proof fn lemma_toggled_indent(l: Seq<char>, ki: nat, enable: bool)
    requires
        !is_blank(l) ==> has_indent(l, ki),
    ensures
        !is_blank(toggled_line(l, ki, enable)) ==> has_indent(toggled_line(l, ki, enable), ki),
{
    let t = toggled_line(l, ki, enable);
    if !is_blank(l) && l.len() >= ki {
        assert forall|c: int| 0 <= c < ki implies t[c] == ' ' by {
            assert(t[c] == l[c]);
        }
    }
}

/// The index of the first entry with key `key`, if any.
pub open spec fn first_with_key(bs: Seq<(Seq<char>, int, int, bool)>, key: Seq<char>) -> Option<int> {
    if exists|j: int| 0 <= j < bs.len() && #[trigger] bs[j].0 == key {
        Some(
            choose|j: int|
                0 <= j < bs.len() && #[trigger] bs[j].0 == key && forall|i: int|
                    0 <= i < j ==> bs[i].0 != key,
        )
    } else {
        None
    }
}

/// The first entry with a key is one with that key, and none before it
/// has it.
pub proof fn lemma_first_with_key(bs: Seq<(Seq<char>, int, int, bool)>, key: Seq<char>)
    ensures
        first_with_key(bs, key) matches Some(j) ==> 0 <= j < bs.len() && bs[j].0 == key && forall|
            i: int,
        | 0 <= i < j ==> bs[i].0 != key,
        first_with_key(bs, key) is None ==> forall|j: int| 0 <= j < bs.len() ==> bs[j].0 != key,
{
    if exists|j: int| 0 <= j < bs.len() && #[trigger] bs[j].0 == key {
        let k = choose|j: int| 0 <= j < bs.len() && #[trigger] bs[j].0 == key;
        lemma_minimal_key(bs, key, k);
    }
}

proof fn lemma_minimal_key(bs: Seq<(Seq<char>, int, int, bool)>, key: Seq<char>, k: int)
    requires
        0 <= k < bs.len(),
        bs[k].0 == key,
    ensures
        exists|j: int|
            0 <= j < bs.len() && #[trigger] bs[j].0 == key && forall|i: int| 0 <= i < j ==> bs[i].0 != key,
    decreases k,
{
    if exists|i: int| 0 <= i < k && #[trigger] bs[i].0 == key {
        let i = choose|i: int| 0 <= i < k && #[trigger] bs[i].0 == key;
        lemma_minimal_key(bs, key, i);
    } else {
        assert(forall|i: int| 0 <= i < k ==> bs[i].0 != key);
    }
}

/// The lines and entries after the first entry with key `key` is set to
/// `enable`: nothing changes when there is no such entry or it already is
/// in that state; otherwise each line of its range is toggled and its
/// state recorded.
pub open spec fn set_enabled_effect(
    ls: Seq<Seq<char>>,
    bs: Seq<(Seq<char>, int, int, bool)>,
    ki: nat,
    key: Seq<char>,
    enable: bool,
) -> (Seq<Seq<char>>, Seq<(Seq<char>, int, int, bool)>) {
    match first_with_key(bs, key) {
        None => (ls, bs),
        Some(j) => if bs[j].3 == enable {
            (ls, bs)
        } else {
            (
                Seq::new(
                    ls.len(),
                    |l: int|
                        if bs[j].1 <= l < bs[j].2 {
                            toggled_line(ls[l], ki, enable)
                        } else {
                            ls[l]
                        },
                ),
                bs.update(j, (bs[j].0, bs[j].1, bs[j].2, enable)),
            )
        },
    }
}

// ---------------------------------------------------------------------------
// The data
// ---------------------------------------------------------------------------

/// A single `custom_features:` entry's location in the source lines,
/// tracked whether or not it is currently commented out: lines
/// `start_line..end_line`.
pub struct FeatureBlock {
    pub key: String,
    pub start_line: usize,
    pub end_line: usize,
    pub enabled: bool,
}

impl FeatureBlock {
    /// Key, range and state.
    pub open spec fn spec_view(&self) -> (Seq<char>, int, int, bool) {
        (self.key@, self.start_line as int, self.end_line as int, self.enabled)
    }
}

/// The raw text of a `*.core.yml` file, split into lines, with the feature
/// entries found in it.
pub struct SourceFile {
    lines: Vec<Vec<char>>,
    crlf: bool,
    trailing_newline: bool,
    key_indent: usize,
    blocks: Vec<FeatureBlock>,
}

impl SourceFile {
    /// The lines, without terminators.
    pub closed spec fn lines_view(&self) -> Seq<Seq<char>> {
        view_lines(self.lines@)
    }

    /// The entries found, in file order.
    pub closed spec fn blocks_view(&self) -> Seq<(Seq<char>, int, int, bool)> {
        self.blocks@.map_values(|b: FeatureBlock| b.spec_view())
    }

    /// Whether the file is written back with `"\r\n"` terminators.
    pub closed spec fn crlf_view(&self) -> bool {
        self.crlf
    }

    /// Whether the file ends with a line terminator.
    pub closed spec fn trailing_view(&self) -> bool {
        self.trailing_newline
    }

    /// The indentation of feature keys in the section.
    pub closed spec fn indent_view(&self) -> nat {
        self.key_indent as nat
    }

    /// An entry's range lies within the text, and each non-blank line of it
    /// is indented at least as deep as the feature keys.
    pub open spec fn covers(&self, b: (Seq<char>, int, int, bool)) -> bool {
        &&& 0 <= b.1 <= b.2 <= self.lines_view().len()
        &&& forall|l: int|
            b.1 <= l < b.2 ==> !is_blank(#[trigger] self.lines_view()[l]) ==> has_indent(
                self.lines_view()[l],
                self.indent_view(),
            )
    }

    /// Every entry covers its lines.
    pub open spec fn wf(&self) -> bool {
        forall|j: int| 0 <= j < self.blocks_view().len() ==> self.covers(#[trigger] self.blocks_view()[j])
    }

    /// The index of the first entry with key `key`.
    pub open spec fn first_block(&self, key: Seq<char>) -> Option<int> {
        first_with_key(self.blocks_view(), key)
    }

    /// The text this source renders to.
    pub open spec fn rendered(&self) -> Seq<char> {
        join(self.lines_view(), newline_text(self.crlf_view())) + if self.trailing_view() {
            newline_text(self.crlf_view())
        } else {
            Seq::empty()
        }
    }
}

// ---------------------------------------------------------------------------
// Line-level helpers
// ---------------------------------------------------------------------------

/// Strips our own `"# "` (or bare `"#"`) disable marker from the start of
/// `s`, if present.
fn strip_marker(s: &[char]) -> (r: (bool, Vec<char>))
    ensures
        (r.0, r.1@) == marker_strip(s@),
{
    if s.len() >= 2 && s[0] == '#' && s[1] == ' ' {
        (true, tail(s, 2))
    } else if s.len() >= 1 && s[0] == '#' {
        (true, tail(s, 1))
    } else {
        (false, tail(s, 0))
    }
}

/// The characters of `s` from position `from` on.
fn tail(s: &[char], from: usize) -> (v: Vec<char>)
    requires
        from <= s@.len(),
    ensures
        v@ == s@.skip(from as int),
{
    let mut v: Vec<char> = Vec::new();
    let mut i = from;
    while i < s.len()
        invariant
            from <= i <= s@.len(),
            v@ == s@.subrange(from as int, i as int),
        decreases s.len() - i,
    {
        v.push(s[i]);
        i = i + 1;
    }
    v
}

/// The first `n` characters of `s`.
fn head(s: &[char], n: usize) -> (v: Vec<char>)
    requires
        n <= s@.len(),
    ensures
        v@ == s@.take(n as int),
{
    let mut v: Vec<char> = Vec::new();
    let mut i: usize = 0;
    while i < n
        invariant
            i <= n <= s@.len(),
            v@ == s@.take(i as int),
        decreases n - i,
    {
        v.push(s[i]);
        i = i + 1;
    }
    v
}

/// Number of spaces at the start of `line`.
fn leading_spaces(line: &[char]) -> (n: usize)
    ensures
        n == lead_spaces(line@),
{
    let mut i: usize = 0;
    while i < line.len() && line[i] == ' '
        invariant
            i <= line@.len(),
            forall|j: int| 0 <= j < i ==> line@[j] == ' ',
        decreases line.len() - i,
    {
        i = i + 1;
    }
    proof {
        lemma_lead_spaces_unique(line@, i as nat);
    }
    i
}

/// The key of a bare `identifier:` line (after indentation and marker are
/// stripped), if it is one.
fn bare_key(content: &[char]) -> (r: Option<Vec<char>>)
    ensures
        r is Some <==> bare_key_of(content@) is Some,
        r matches Some(k) ==> k@ == bare_key_of(content@).unwrap(),
{
    let mut k = content.len();
    while k > 0 && is_whitespace(content[k - 1])
        invariant
            k <= content@.len(),
            forall|i: int| k <= i < content@.len() ==> is_ws(#[trigger] content@[i]),
        decreases k,
    {
        k = k - 1;
    }
    proof {
        lemma_trim_end_unique(content@, k as int);
    }
    let ghost t = content@.take(k as int);
    if k == 0 || content[k - 1] != ':' {
        return None;
    }
    let key = head(content, k - 1);
    assert(key@ == t.drop_last());
    assert(t.last() == ':');
    assert(trim_end(content@) == t);
    if key.len() == 0 {
        return None;
    }
    proof {
        lemma_trim_fixed(key@);
    }
    if is_whitespace(key[0]) || is_whitespace(key[key.len() - 1]) {
        return None;
    }
    let mut i: usize = 0;
    while i < key.len()
        invariant
            i <= key@.len(),
            forall|j: int| 0 <= j < i ==> key@[j] != ':',
            trim_end(content@).len() > 0,
            trim_end(content@).last() == ':',
            key@ == trim_end(content@).drop_last(),
        decreases key.len() - i,
    {
        if key[i] == ':' {
            assert(key@[i as int] == ':');
            assert(has_char(key@, ':'));
            return None;
        }
        i = i + 1;
    }
    Some(key)
}

/// The key and state of a line that starts a feature entry at indentation
/// `ki`, if it is one.
fn block_opener(line: &Vec<char>, ki: usize) -> (r: Option<(Vec<char>, bool)>)
    ensures
        r is Some <==> opens_block(line@, ki as nat),
        r matches Some((k, en)) ==> k@ == bare_key_of(marker_strip(line@.skip(ki as int)).1).unwrap()
            && en == !marker_strip(line@.skip(ki as int)).0,
{
    if blank(line.as_slice()) {
        return None;
    }
    let indent = leading_spaces(line.as_slice());
    if indent != ki {
        return None;
    }
    proof {
        lemma_lead_spaces(line@);
    }
    let rest = tail(line.as_slice(), ki);
    let (commented, content) = strip_marker(rest.as_slice());
    match bare_key(content.as_slice()) {
        Some(k) => Some((k, !commented)),
        None => None,
    }
}

/// Whether `s` holds a `"\r\n"`.
fn contains_crlf(s: &Vec<char>) -> (b: bool)
    ensures
        b == has_crlf(s@),
{
    let mut i: usize = 0;
    while i < s.len()
        invariant
            i <= s@.len(),
            forall|j: int| 0 <= j < i && j < s@.len() - 1 ==> !(s@[j] == '\r' && #[trigger] s@[j + 1] == '\n'),
        decreases s.len() - i,
    {
        if i + 1 < s.len() && s[i] == '\r' && s[i + 1] == '\n' {
            return true;
        }
        i = i + 1;
    }
    proof {
        if has_crlf(s@) {
            let j = choose|j: int| 0 <= j < s@.len() - 1 && s@[j] == '\r' && #[trigger] s@[j + 1] == '\n';
            assert(!(s@[j] == '\r' && s@[j + 1] == '\n'));
        }
    }
    false
}


/// The index of the first line that is exactly the section header.
fn find_header(lines: &Vec<Vec<char>>) -> (r: Option<usize>)
    ensures
        header_index(view_lines(lines@)) is None ==> r is None,
        header_index(view_lines(lines@)) matches Some(h) ==> r == Some(h as usize),
        r matches Some(h) ==> h < lines@.len(),
{
    let header = chars_of("custom_features:");
    let ghost ls = view_lines(lines@);
    let mut i: usize = 0;
    while i < lines.len()
        invariant
            i <= lines@.len(),
            ls == view_lines(lines@),
            header@ == header_text(),
            forall|j: int| 0 <= j < i ==> #[trigger] ls[j] != header_text(),
        decreases lines.len() - i,
    {
        assert(ls[i as int] == lines@[i as int]@);
        if chars_eq(lines[i].as_slice(), header.as_slice()) {
            proof {
                assert(header_at(ls, i as int));
                assert forall|h: int| header_at(ls, h) implies h == i by {
                    if h < i {
                        assert(ls[h] != header_text());
                    } else if h > i {
                        assert(ls[i as int] != header_text());
                    }
                }
            }
            return Some(i);
        }
        i = i + 1;
    }
    proof {
        assert forall|h: int| !header_at(ls, h) by {
            if 0 <= h < ls.len() {
                assert(ls[h] != header_text());
            }
        }
    }
    None
}

/// The first non-blank line after line `h`.
fn first_nonblank(lines: &Vec<Vec<char>>, h: usize) -> (r: Option<usize>)
    requires
        h < lines@.len(),
    ensures
        r is None <==> !exists|j: int| first_nonblank_at(view_lines(lines@), h as int, j),
        r matches Some(j) ==> first_nonblank_at(view_lines(lines@), h as int, j as int),
{
    let ghost ls = view_lines(lines@);
    let n = lines.len();
    let mut i: usize = h + 1;
    while i < lines.len()
        invariant
            h < i <= lines@.len(),
            ls == view_lines(lines@),
            forall|m: int| h < m < i ==> is_blank(#[trigger] ls[m]),
        decreases lines.len() - i,
    {
        assert(ls[i as int] == lines@[i as int]@);
        if !blank(lines[i].as_slice()) {
            assert(first_nonblank_at(ls, h as int, i as int));
            return Some(i);
        }
        i = i + 1;
    }
    proof {
        assert forall|j: int| !first_nonblank_at(ls, h as int, j) by {
            if h < j < ls.len() {
                assert(is_blank(ls[j]));
            }
        }
    }
    None
}

/// A first non-blank line is unique.
proof fn lemma_first_nonblank_unique(lines: Seq<Seq<char>>, h: int, j: int, k: int)
    requires
        first_nonblank_at(lines, h, j),
        first_nonblank_at(lines, h, k),
    ensures
        j == k,
{
    if j < k {
        assert(is_blank(lines[j]));
    } else if k < j {
        assert(is_blank(lines[k]));
    }
}

/// A section end is unique.
proof fn lemma_section_end_unique(lines: Seq<Seq<char>>, h: int, ki: nat, e: int, f: int)
    requires
        section_end_at(lines, h, ki, e),
        section_end_at(lines, h, ki, f),
    ensures
        e == f,
{
    if e < f {
        assert(!closes_section(lines[e], ki));
    } else if f < e {
        assert(!closes_section(lines[f], ki));
    }
}

impl SourceFile {
    /// Splits `text` into lines and finds the feature entries under its
    /// `custom_features:` header: an entry starts at each line indented
    /// exactly as deep as the first non-blank line after the header that,
    /// once an optional `#` marker is set aside, is a bare `key:`, and runs
    /// up to the next entry or the end of the section.
    pub fn scan(text: &str) -> (r: Self)
        ensures
            r.wf(),
            r.lines_view() == text_lines(text@),
            r.crlf_view() == has_crlf(text@),
            r.trailing_view() == ends_with_newline(text@),
            consistent_endings(text@) ==> r.rendered() == text@,
            header_index(r.lines_view()) is None ==> r.indent_view() == 0 && r.blocks_view()
                == Seq::<(Seq<char>, int, int, bool)>::empty(),
            header_index(r.lines_view()) matches Some(h) ==> {
                &&& r.indent_view() == indent_after(r.lines_view(), h)
                &&& r.blocks_view() == scanned_blocks(
                    r.lines_view(),
                    r.indent_view(),
                    h,
                    section_end(r.lines_view(), h, r.indent_view()),
                )
            },
    {
        let chars = chars_of(text);
        let crlf = contains_crlf(&chars);
        let trailing_newline = chars.len() > 0 && chars[chars.len() - 1] == '\n';
        let lines = split_lines(&chars);
        let ghost ls = view_lines(lines@);
        let mut blocks: Vec<FeatureBlock> = Vec::new();
        let mut key_indent: usize = 0;
        match find_header(&lines) {
            None => {
                let r = SourceFile { lines, crlf, trailing_newline, key_indent, blocks };
                assert(r.blocks_view() =~= Seq::<(Seq<char>, int, int, bool)>::empty());
                proof {
                    if consistent_endings(text@) {
                        law_render_after_scan(text@);
                    }
                }
                return r;
            },
            Some(h) => {
                match first_nonblank(&lines, h) {
                    Some(j) => {
                        assert(ls[j as int] == lines@[j as int]@);
                        key_indent = leading_spaces(lines[j].as_slice());
                        proof {
                            assert forall|k: int| first_nonblank_at(ls, h as int, k) implies k
                                == j by {
                                lemma_first_nonblank_unique(ls, h as int, j as int, k);
                            }
                        }
                    },
                    None => {},
                }
                let ki = key_indent;
                assert(ki == indent_after(ls, h as int));
                // Where the section ends.
                let n = lines.len();
                assert(h < n);
                let mut end: usize = h + 1;
                while end < lines.len() && !(!blank(lines[end].as_slice()) && leading_spaces(
                    lines[end].as_slice(),
                ) < ki)
                    invariant
                        h < end <= lines@.len(),
                        ls == view_lines(lines@),
                        forall|m: int| h < m < end ==> !closes_section(#[trigger] ls[m], ki as nat),
                    decreases lines.len() - end,
                {
                    assert(ls[end as int] == lines@[end as int]@);
                    end = end + 1;
                }
                proof {
                    if end < lines.len() {
                        assert(ls[end as int] == lines@[end as int]@);
                    }
                    assert(section_end_at(ls, h as int, ki as nat, end as int));
                    assert forall|f: int| section_end_at(ls, h as int, ki as nat, f) implies f
                        == end by {
                        lemma_section_end_unique(ls, h as int, ki as nat, end as int, f);
                    }
                }
                // The entries.
                let mut cur: Option<FeatureBlock> = None;
                let mut i: usize = h + 1;
                while i < end
                    invariant
                        h < i <= end <= lines@.len(),
                        ls == view_lines(lines@),
                        forall|m: int| h < m < end ==> !closes_section(#[trigger] ls[m], ki as nat),
                        ({
                            let st = starts_upto(ls, ki as nat, h as int, i as int);
                            &&& cur is None <==> st.len() == 0
                            &&& blocks@.len() == if st.len() == 0 {
                                0
                            } else {
                                st.len() - 1
                            }
                            &&& forall|j: int|
                                0 <= j < blocks@.len() ==> (#[trigger] blocks@[j]).spec_view()
                                    == block_at(ls, ki as nat, st[j], st[j + 1])
                            &&& cur matches Some(b) ==> b.spec_view() == block_at(
                                ls,
                                ki as nat,
                                st.last(),
                                st.last(),
                            )
                        }),
                    decreases end - i,
                {
                    assert(ls[i as int] == lines@[i as int]@);
                    let ghost st0 = starts_upto(ls, ki as nat, h as int, i as int);
                    let ghost st1 = starts_upto(ls, ki as nat, h as int, i + 1);
                    match block_opener(&lines[i], ki) {
                        Some((k, en)) => {
                            assert(st1 == st0.push(i as int));
                            match cur {
                                Some(prev) => {
                                    blocks.push(
                                        FeatureBlock {
                                            key: prev.key,
                                            start_line: prev.start_line,
                                            end_line: i,
                                            enabled: prev.enabled,
                                        },
                                    );
                                },
                                None => {},
                            }
                            cur = Some(
                                FeatureBlock {
                                    key: string_of(k.as_slice()),
                                    start_line: i,
                                    end_line: i,
                                    enabled: en,
                                },
                            );
                        },
                        None => {
                            assert(st1 == st0);
                        },
                    }
                    i = i + 1;
                }
                match cur {
                    Some(prev) => {
                        blocks.push(
                            FeatureBlock {
                                key: prev.key,
                                start_line: prev.start_line,
                                end_line: end,
                                enabled: prev.enabled,
                            },
                        );
                    },
                    None => {},
                }
                let r = SourceFile { lines, crlf, trailing_newline, key_indent, blocks };
                proof {
                    let st = starts_upto(ls, ki as nat, h as int, end as int);
                    lemma_starts(ls, ki as nat, h as int, end as int);
                    assert(r.blocks_view() =~= scanned_blocks(ls, ki as nat, h as int, end as int));
                    assert forall|j: int| 0 <= j < r.blocks_view().len() implies r.covers(
                        #[trigger] r.blocks_view()[j],
                    ) by {
                        let b = r.blocks_view()[j];
                        assert forall|l: int| b.1 <= l < b.2 && !is_blank(
                            #[trigger] r.lines_view()[l],
                        ) implies has_indent(r.lines_view()[l], r.indent_view()) by {
                            assert(!closes_section(ls[l], ki as nat));
                            lemma_indent_from_lead(ls[l], ki as nat);
                        }
                    }
                    if consistent_endings(text@) {
                        law_render_after_scan(text@);
                    }
                }
                r
            },
        }
    }
}


impl SourceFile {
    /// The entries found, in file order.
    pub fn blocks(&self) -> (r: &Vec<FeatureBlock>)
        ensures
            view_blocks(r@) == self.blocks_view(),
    {
        &self.blocks
    }

    /// The indentation of feature keys.
    pub fn key_indent(&self) -> (r: usize)
        ensures
            r == self.indent_view(),
    {
        self.key_indent
    }

    /// The number of lines.
    pub fn line_count(&self) -> (r: usize)
        ensures
            r == self.lines_view().len(),
    {
        self.lines.len()
    }

    /// The text: the lines joined by the file's line terminator, with a
    /// final terminator when the scanned text had one.
    pub fn render(&self) -> (s: String)
        ensures
            s@ == self.rendered(),
    {
        let ghost ls = self.lines_view();
        let mut nl: Vec<char> = Vec::new();
        if self.crlf {
            nl.push('\r');
        }
        nl.push('\n');
        assert(nl@ =~= newline_text(self.crlf));
        let mut s = String::new();
        let mut i: usize = 0;
        while i < self.lines.len()
            invariant
                i <= self.lines@.len(),
                ls == view_lines(self.lines@),
                nl@ == newline_text(self.crlf),
                s@ == join(ls.take(i as int), nl@),
            decreases self.lines.len() - i,
        {
            assert(ls[i as int] == self.lines@[i as int]@);
            assert(ls.take(i + 1).drop_last() =~= ls.take(i as int));
            if i > 0 {
                push_chars(&mut s, nl.as_slice());
            } else {
                assert(join(ls.take(1), nl@) == ls[0]);
                assert(s@ + ls[0] =~= ls[0]);
            }
            push_chars(&mut s, self.lines[i].as_slice());
            i = i + 1;
        }
        assert(ls.take(ls.len() as int) =~= ls);
        if self.trailing_newline {
            push_chars(&mut s, nl.as_slice());
        } else {
            assert(s@ + Seq::<char>::empty() =~= s@);
        }
        s
    }

    /// Every entry's key mapped to whether it is active (a later entry with
    /// the same key wins).
    pub fn enabled_overrides(&self) -> (m: StrMap<bool>)
        ensures
            m@ == overrides_of(self.blocks_view()),
    {
        let ghost bs = self.blocks_view();
        let mut m: StrMap<bool> = StrMap::new();
        let mut i: usize = 0;
        while i < self.blocks.len()
            invariant
                i <= self.blocks@.len(),
                bs == view_blocks(self.blocks@),
                m@ == overrides_of(bs.take(i as int)),
            decreases self.blocks.len() - i,
        {
            assert(bs.take(i + 1).drop_last() =~= bs.take(i as int));
            assert(bs[i as int] == self.blocks@[i as int].spec_view());
            let b = &self.blocks[i];
            m.insert(b.key.clone(), b.enabled);
            i = i + 1;
        }
        assert(bs.take(bs.len() as int) =~= bs);
        m
    }

    /// The index of the first entry with key `key`.
    fn find_block(&self, key: &str) -> (r: Option<usize>)
        ensures
            self.first_block(key@) is None <==> r is None,
            r matches Some(i) ==> i < self.blocks_view().len() && self.first_block(key@) == Some(
                i as int,
            ),
    {
        let ghost bs = self.blocks_view();
        let mut idx: usize = 0;
        while idx < self.blocks.len()
            invariant
                idx <= self.blocks@.len(),
                bs == view_blocks(self.blocks@),
                bs == self.blocks_view(),
                forall|i: int| 0 <= i < idx ==> #[trigger] bs[i].0 != key@,
            decreases self.blocks.len() - idx,
        {
            assert(bs[idx as int] == self.blocks@[idx as int].spec_view());
            if str_eq(self.blocks[idx].key.as_str(), key) {
                proof {
                    assert(bs[idx as int].0 == key@);
                    let f = self.first_block(key@);
                    assert(f is Some);
                    let j = f->0;
                    if j != idx {
                        if j < idx {
                            assert(bs[j].0 != key@);
                        } else {
                            assert(bs[idx as int].0 != key@);
                        }
                    }
                }
                return Some(idx);
            }
            idx = idx + 1;
        }
        proof {
            assert forall|j: int| 0 <= j < bs.len() implies #[trigger] bs[j].0 != key@ by {}
        }
        None
    }

    /// Comments out (`enabled == false`) or uncomments the first entry with
    /// key `key`, line by line, in place. Does nothing when no entry has
    /// that key or it is already in the requested state. No line is ever
    /// inserted or removed and no range changes, so no other entry is
    /// affected.
    pub fn set_enabled(&mut self, key: &str, enabled: bool)
        requires
            old(self).wf(),
        ensures
            final(self).wf(),
            final(self).crlf_view() == old(self).crlf_view(),
            final(self).trailing_view() == old(self).trailing_view(),
            final(self).indent_view() == old(self).indent_view(),
            (final(self).lines_view(), final(self).blocks_view()) == set_enabled_effect(
                old(self).lines_view(),
                old(self).blocks_view(),
                old(self).indent_view(),
                key@,
                enabled,
            ),
    {
        let ghost bs = self.blocks_view();
        let idx = match self.find_block(key) {
            Some(i) => i,
            None => {
                return;
            },
        };
        assert(bs[idx as int] == self.blocks@[idx as int].spec_view());
        let start = self.blocks[idx].start_line;
        let end = self.blocks[idx].end_line;
        if self.blocks[idx].enabled == enabled {
            return;
        }
        let ki = self.key_indent;
        let ghost old_lines = self.lines_view();
        assert(self.covers(bs[idx as int]));
        let mut l = start;
        while l < end
            invariant
                start <= l <= end <= old_lines.len(),
                self.lines@.len() == old_lines.len(),
                ki == old(self).indent_view(),
                forall|m: int|
                    start <= m < end && !is_blank(#[trigger] old_lines[m]) ==> has_indent(
                        old_lines[m],
                        ki as nat,
                    ),
                forall|m: int|
                    0 <= m < old_lines.len() ==> #[trigger] self.lines_view()[m] == if start <= m
                        < l {
                        toggled_line(old_lines[m], ki as nat, enabled)
                    } else {
                        old_lines[m]
                    },
                self.blocks == old(self).blocks,
                self.crlf == old(self).crlf,
                self.trailing_newline == old(self).trailing_newline,
                self.key_indent == old(self).key_indent,
            decreases end - l,
        {
            assert(self.lines_view()[l as int] == self.lines@[l as int]@);
            let ghost pre = self.lines_view();
            let line = &self.lines[l];
            assert(self.lines_view()[l as int] == old_lines[l as int]);
            if !blank(line.as_slice()) && line.len() >= ki {
                let before = head(line.as_slice(), ki);
                let after = tail(line.as_slice(), ki);
                let mut new_line = before;
                if enabled {
                    let (_, stripped) = strip_marker(after.as_slice());
                    new_line.append(&mut stripped.clone());
                } else {
                    new_line.push('#');
                    new_line.push(' ');
                    let mut a = after;
                    new_line.append(&mut a);
                }
                assert(new_line@ == toggled_line(old_lines[l as int], ki as nat, enabled));
                self.lines.set(l, new_line);
            } else {
                assert(toggled_line(old_lines[l as int], ki as nat, enabled) == old_lines[l as int]);
            }
            proof {
                assert forall|m: int| 0 <= m < old_lines.len() implies #[trigger] self.lines_view()[m]
                    == if start <= m < l + 1 {
                    toggled_line(old_lines[m], ki as nat, enabled)
                } else {
                    old_lines[m]
                } by {
                    assert(self.lines_view()[m] == self.lines@[m]@);
                    if m != l {
                        assert(self.lines_view()[m] == pre[m]);
                    }
                }
            }
            l = l + 1;
        }
        let ghost after_loop = self.lines_view();
        assert(forall|m: int|
            0 <= m < old_lines.len() ==> #[trigger] after_loop[m] == if start <= m < end {
                toggled_line(old_lines[m], ki as nat, enabled)
            } else {
                old_lines[m]
            });
        let b = &self.blocks[idx];
        let nb = FeatureBlock {
            key: b.key.clone(),
            start_line: b.start_line,
            end_line: b.end_line,
            enabled,
        };
        self.blocks.set(idx, nb);
        assert(self.lines_view() == after_loop);
        proof {
            assert(self.blocks_view() =~= bs.update(idx as int, (bs[idx as int].0, bs[idx as int].1, bs[idx as int].2, enabled)));
            assert forall|j: int| 0 <= j < self.blocks_view().len() implies self.covers(
                #[trigger] self.blocks_view()[j],
            ) by {
                let bj = self.blocks_view()[j];
                assert(old(self).covers(bs[j]));
                assert forall|m: int| bj.1 <= m < bj.2 && !is_blank(
                    #[trigger] self.lines_view()[m],
                ) implies has_indent(self.lines_view()[m], self.indent_view()) by {
                    let o = old_lines[m];
                    assert(old_lines[m] == old(self).lines_view()[m]);
                    assert(!is_blank(o) ==> has_indent(o, ki as nat));
                    if start <= m < end {
                        lemma_toggled_indent(o, ki as nat, enabled);
                        assert(self.lines_view()[m] == toggled_line(o, ki as nat, enabled));
                    } else {
                        assert(self.lines_view()[m] == o);
                    }
                }
            }
        }
    }

    /// Sets each key in turn to its state (see `set_enabled`): the changes
    /// a session asks to save.
    pub fn apply_changes(&mut self, changes: &[(String, bool)])
        requires
            old(self).wf(),
        ensures
            final(self).wf(),
            final(self).crlf_view() == old(self).crlf_view(),
            final(self).trailing_view() == old(self).trailing_view(),
            final(self).indent_view() == old(self).indent_view(),
            (final(self).lines_view(), final(self).blocks_view()) == changes_effect(
                old(self).lines_view(),
                old(self).blocks_view(),
                old(self).indent_view(),
                changes@.map_values(|c: (String, bool)| (c.0@, c.1)),
            ),
    {
        let ghost cs = changes@.map_values(|c: (String, bool)| (c.0@, c.1));
        let mut i: usize = 0;
        while i < changes.len()
            invariant
                i <= changes@.len(),
                cs == changes@.map_values(|c: (String, bool)| (c.0@, c.1)),
                self.wf(),
                self.crlf_view() == old(self).crlf_view(),
                self.trailing_view() == old(self).trailing_view(),
                self.indent_view() == old(self).indent_view(),
                (self.lines_view(), self.blocks_view()) == changes_effect(
                    old(self).lines_view(),
                    old(self).blocks_view(),
                    old(self).indent_view(),
                    cs.take(i as int),
                ),
            decreases changes.len() - i,
        {
            assert(cs.take(i + 1).drop_last() =~= cs.take(i as int));
            assert(cs.take(i + 1).last() == cs[i as int]);
            self.set_enabled(changes[i].0.as_str(), changes[i].1);
            i = i + 1;
        }
        assert(cs.take(cs.len() as int) =~= cs);
    }
}

/// The lines and entries after setting each key of `changes` in turn to its
/// state.
pub open spec fn changes_effect(
    ls: Seq<Seq<char>>,
    bs: Seq<(Seq<char>, int, int, bool)>,
    ki: nat,
    changes: Seq<(Seq<char>, bool)>,
) -> (Seq<Seq<char>>, Seq<(Seq<char>, int, int, bool)>)
    decreases changes.len(),
{
    if changes.len() == 0 {
        (ls, bs)
    } else {
        let (l1, b1) = changes_effect(ls, bs, ki, changes.drop_last());
        set_enabled_effect(l1, b1, ki, changes.last().0, changes.last().1)
    }
}



// ---------------------------------------------------------------------------
// Reconstructing and merging commented-out entries
// ---------------------------------------------------------------------------

/// The entries after the merge has gone through entries `bs`: the merged
/// map so far, and what is left of the parsed map. An active entry takes
/// its parsed value out of the parsed map (when present); a commented-out
/// entry takes the value reconstructed for it (when that succeeded).
pub open spec fn merge_state(
    bs: Seq<(Seq<char>, int, int, bool)>,
    parsed: Seq<(Seq<char>, CustomFeature)>,
    recon: Seq<Option<CustomFeature>>,
) -> (Seq<(Seq<char>, CustomFeature)>, Seq<(Seq<char>, CustomFeature)>)
    decreases bs.len(),
{
    if bs.len() == 0 {
        (Seq::empty(), parsed)
    } else {
        let (merged, rest) = merge_state(bs.drop_last(), parsed, recon);
        let b = bs.last();
        if b.3 {
            let (rest2, got) = pairs_remove(rest, b.0);
            match got {
                Some(cf) => (pairs_insert(merged, b.0, cf), rest2),
                None => (merged, rest2),
            }
        } else {
            match recon[bs.len() - 1] {
                Some(cf) => (pairs_insert(merged, b.0, cf), rest),
                None => (merged, rest),
            }
        }
    }
}

/// Entries after inserting each of `extra` in turn.
pub open spec fn insert_each(
    merged: Seq<(Seq<char>, CustomFeature)>,
    extra: Seq<(Seq<char>, CustomFeature)>,
) -> Seq<(Seq<char>, CustomFeature)>
    decreases extra.len(),
{
    if extra.len() == 0 {
        merged
    } else {
        pairs_insert(insert_each(merged, extra.drop_last()), extra.last().0, extra.last().1)
    }
}

/// The feature map after a merge: entries in file order (active ones with
/// their parsed value, commented-out ones with their reconstructed value),
/// then whatever parsed entry no scanned entry claimed, in its order.
pub open spec fn merged_features(
    bs: Seq<(Seq<char>, int, int, bool)>,
    parsed: Seq<(Seq<char>, CustomFeature)>,
    recon: Seq<Option<CustomFeature>>,
) -> Seq<(Seq<char>, CustomFeature)> {
    let (merged, rest) = merge_state(bs, parsed, recon);
    insert_each(merged, rest)
}

/// The value of the first entry with key `key`, if any.
pub open spec fn value_for_key(p: Seq<(Seq<char>, CustomFeature)>, key: Seq<char>) -> Option<CustomFeature> {
    match first_key_index(p, key) {
        Some(i) => Some(p[i].1),
        None => None,
    }
}

/// Why a commented-out entry could not be read back as a feature.
#[derive(Debug, PartialEq, Eq)]
pub enum ReconstructError {
    /// Its fragment does not parse as a map of features.
    Unparsable,
    /// Its fragment parses, but not to an entry with its key.
    KeyNotFound,
}

/// The feature stored under `key` in a map parsed from a reconstructed
/// fragment, if there is one.
fn feature_for_key(map: IndexMap<String, CustomFeature>, key: &str) -> (r: Option<CustomFeature>)
    ensures
        r == value_for_key(feature_entries(map), key@),
{
    let ghost es = feature_entries(map);
    let mut v = features_into_vec(map);
    let ghost vv = v@;
    let mut i: usize = 0;
    while i < v.len()
        invariant
            i <= v@.len(),
            v@ == vv,
            vv.map_values(|e: (String, CustomFeature)| (e.0@, e.1)) == es,
            es == feature_entries(map),
            forall|j: int| 0 <= j < i ==> #[trigger] es[j].0 != key@,
        decreases v.len() - i,
    {
        assert(es[i as int] == (v@[i as int].0@, v@[i as int].1));
        if str_eq(v[i].0.as_str(), key) {
            proof {
                lemma_first_key_index(es, key@);
                assert(has_key(es, key@));
                let f = first_key_index(es, key@)->0;
                if f < i {
                    assert(es[f].0 != key@);
                } else if f > i {
                    assert(es[i as int].0 != key@);
                }
                assert(first_key_index(es, key@) == Some(i as int));
            }
            let e = v.remove(i);
            assert(e == vv[i as int]);
            assert(es[i as int].1 == e.1);
            let (_, cf) = e;
            return Some(cf);
        }
        i = i + 1;
    }
    proof {
        lemma_first_key_index(es, key@);
        if has_key(es, key@) {
            let f = first_key_index(es, key@)->0;
            assert(es[f].0 != key@);
        }
    }
    None
}

impl SourceFile {
    /// The YAML fragment a (possibly commented-out) entry reconstructs to:
    /// every line of its range with the disable marker stripped and the key
    /// indentation removed, so that it reads like an active entry anchored
    /// at column 0.
    pub fn reconstruct_fragment(&self, block: &FeatureBlock) -> (s: String)
        requires
            self.covers(block.spec_view()),
        ensures
            s@ == fragment_of(
                self.lines_view().subrange(block.start_line as int, block.end_line as int),
                self.indent_view(),
            ),
    {
        let ghost ls = self.lines_view().subrange(block.start_line as int, block.end_line as int);
        let ki = self.key_indent;
        let mut s = String::new();
        let mut l = block.start_line;
        while l < block.end_line
            invariant
                block.start_line <= l <= block.end_line <= self.lines@.len(),
                ls == self.lines_view().subrange(block.start_line as int, block.end_line as int),
                ki == self.indent_view(),
                s@ == fragment_of(ls.take(l - block.start_line), ki as nat),
            decreases block.end_line - l,
        {
            let ghost k = l - block.start_line;
            assert(ls.take(k + 1).drop_last() =~= ls.take(k));
            assert(ls.take(k + 1).last() == self.lines@[l as int]@);
            let line = &self.lines[l];
            if blank(line.as_slice()) {
                assert(dedented(line@, ki as nat) =~= Seq::<char>::empty());
            } else {
                let rest = if line.len() >= ki {
                    tail(line.as_slice(), ki)
                } else {
                    tail(line.as_slice(), 0)
                };
                let (_, content) = strip_marker(rest.as_slice());
                push_chars(&mut s, content.as_slice());
            }
            push_char(&mut s, '\n');
            assert(s@ =~= fragment_of(ls.take(k), ki as nat) + dedented(line@, ki as nat) + seq!['\n']);
            l = l + 1;
        }
        assert(ls.take(block.end_line - block.start_line) =~= ls);
        s
    }

    /// The feature a (possibly commented-out) entry reads back as, given
    /// what its fragment (see `reconstruct_fragment`) parsed to as a map of
    /// features: `None` when it did not parse. The first entry with the
    /// block's key is taken.
    pub fn reconstruct_feature(
        &self,
        block: &FeatureBlock,
        parsed: Option<IndexMap<String, CustomFeature>>,
    ) -> (r: Result<CustomFeature, ReconstructError>)
        ensures
            parsed is None ==> r == Err::<CustomFeature, ReconstructError>(ReconstructError::Unparsable),
            parsed matches Some(m) ==> r == match value_for_key(feature_entries(m), block.key@) {
                Some(cf) => Ok::<CustomFeature, ReconstructError>(cf),
                None => Err(ReconstructError::KeyNotFound),
            },
    {
        match parsed {
            None => Err(ReconstructError::Unparsable),
            Some(map) => match feature_for_key(map, block.key.as_str()) {
                Some(cf) => Ok(cf),
                None => Err(ReconstructError::KeyNotFound),
            },
        }
    }

    /// Rebuilds `core.custom_features` in true file order: an active entry
    /// keeps its parsed value, a commented-out entry takes the value
    /// reconstructed for it (`reconstructed[i]` for entry `i`; `None` when
    /// reconstruction failed, and the entry is then skipped), and any parsed
    /// entry the scan did not find is appended, never dropped.
    pub fn merge_into(&self, core: &mut CoreYml, reconstructed: Vec<Option<CustomFeature>>)
        requires
            reconstructed@.len() == self.blocks_view().len(),
        ensures
            feature_entries(final(core).custom_features) == merged_features(
                self.blocks_view(),
                feature_entries(old(core).custom_features),
                reconstructed@,
            ),
            final(core).shared_features == old(core).shared_features,
    {
        let ghost bs = self.blocks_view();
        let ghost recon0 = reconstructed@;
        let ghost parsed = feature_entries(core.custom_features);
        let mut recon = reconstructed;
        let mut merged = features_new();
        let mut j: usize = 0;
        while j < self.blocks.len()
            invariant
                j <= self.blocks@.len(),
                bs == view_blocks(self.blocks@),
                recon0.len() == bs.len(),
                recon@ == recon0.skip(j as int),
                (feature_entries(merged), feature_entries(core.custom_features)) == merge_state(
                    bs.take(j as int),
                    parsed,
                    recon0,
                ),
                core.shared_features == old(core).shared_features,
            decreases self.blocks.len() - j,
        {
            let ghost pre = bs.take(j as int);
            assert(bs.take(j + 1).drop_last() =~= pre);
            assert(bs.take(j + 1).last() == bs[j as int]);
            assert(bs[j as int] == self.blocks@[j as int].spec_view());
            let item = recon.remove(0);
            assert(item == recon0[j as int]);
            assert(recon@ =~= recon0.skip(j + 1));
            let b = &self.blocks[j];
            if b.enabled {
                match features_shift_remove(&mut core.custom_features, b.key.as_str()) {
                    Some(cf) => {
                        features_insert(&mut merged, b.key.clone(), cf);
                    },
                    None => {},
                }
            } else {
                match item {
                    Some(cf) => {
                        features_insert(&mut merged, b.key.clone(), cf);
                    },
                    None => {},
                }
            }
            j = j + 1;
        }
        assert(bs.take(bs.len() as int) =~= bs);
        let ghost merged_v = feature_entries(merged);
        std::mem::swap(&mut core.custom_features, &mut merged);
        let rest = features_into_vec(merged);
        let ghost restv = rest@.map_values(|e: (String, CustomFeature)| (e.0@, e.1));
        let mut rest = rest;
        let mut k: usize = 0;
        let n = rest.len();
        while k < n
            invariant
                k <= n,
                rest@.len() == n - k,
                restv.len() == n,
                forall|m: int| 0 <= m < rest@.len() ==> (#[trigger] rest@[m].0@, rest@[m].1) == restv[m + k],
                feature_entries(core.custom_features) == insert_each(merged_v, restv.take(k as int)),
                core.shared_features == old(core).shared_features,
            decreases n - k,
        {
            assert(restv.take(k + 1).drop_last() =~= restv.take(k as int));
            assert(restv.take(k + 1).last() == restv[k as int]);
            let (key, cf) = rest.remove(0);
            features_insert(&mut core.custom_features, key, cf);
            k = k + 1;
        }
        assert(restv.take(n as int) =~= restv);
    }
}

// ---------------------------------------------------------------------------
// Laws
// ---------------------------------------------------------------------------

/// Whether `t` ends with a line terminator.
pub open spec fn ends_with_newline(t: Seq<char>) -> bool {
    t.len() > 0 && t.last() == '\n'
}

/// A text's line endings are consistent when, if any line ends in
/// `"\r\n"`, every one does.
pub open spec fn consistent_endings(t: Seq<char>) -> bool {
    has_crlf(t) ==> forall|i: int| 0 <= i < t.len() && #[trigger] t[i] == '\n' ==> i > 0 && t[i - 1] == '\r'
}

/// Reading a prefix of a consistently terminated text: the finished lines,
/// each terminated, followed by the unfinished rest, are the prefix.
proof fn lemma_split_prefix(t: Seq<char>, k: int)
    requires
        consistent_endings(t),
        0 <= k <= t.len(),
    ensures
        ({
            let (d, c) = split_state(t.take(k));
            &&& terminated(d, newline_text(has_crlf(t))) + c == t.take(k)
            &&& c.len() > 0 ==> c.last() == t[k - 1] && t[k - 1] != '\n'
            &&& c.len() == 0 && k > 0 ==> t[k - 1] == '\n'
        }),
    decreases k,
{
    let nl = newline_text(has_crlf(t));
    if k == 0 {
        assert(t.take(0) =~= Seq::<char>::empty());
        assert(terminated(Seq::<Seq<char>>::empty(), nl) == Seq::<char>::empty());
        assert(Seq::<char>::empty() + Seq::<char>::empty() =~= Seq::<char>::empty());
    } else {
        lemma_split_prefix(t, k - 1);
        let p = t.take(k);
        assert(p.drop_last() =~= t.take(k - 1));
        assert(p.last() == t[k - 1]);
        let (d, c) = split_state(t.take(k - 1));
        if t[k - 1] == '\n' {
            let sc = strip_cr(c);
            let d2 = d.push(sc);
            assert(d2.drop_last() == d);
            assert(terminated(d2, nl) == terminated(d, nl) + sc + nl);
            if has_crlf(t) {
                assert(k - 1 > 0 && t[k - 2] == '\r');
                assert(c.len() > 0);
                assert(sc + nl =~= c + seq!['\n']);
            } else {
                if c.len() > 0 && c.last() == '\r' {
                    assert(t[k - 2] == '\r' && t[(k - 2) + 1] == '\n');
                    assert(has_crlf(t));
                }
                assert(sc == c);
                assert(sc + nl =~= c + seq!['\n']);
            }
            assert(t.take(k) =~= t.take(k - 1) + seq!['\n']);
            assert(terminated(d2, nl) + Seq::<char>::empty() =~= t.take(k));
        } else {
            assert(t.take(k) =~= t.take(k - 1).push(t[k - 1]));
            assert(terminated(d, nl) + c.push(t[k - 1]) =~= (terminated(d, nl) + c).push(t[k - 1]));
        }
    }
}

/// Scanning a text and rendering it back without changes gives the very
/// same text, whenever its line endings are consistent (all `"\n"`, or all
/// `"\r\n"`).
pub proof fn law_render_after_scan(t: Seq<char>)
    requires
        consistent_endings(t),
    ensures
        join(text_lines(t), newline_text(has_crlf(t))) + (if ends_with_newline(t) {
            newline_text(has_crlf(t))
        } else {
            Seq::empty()
        }) == t,
{
    let nl = newline_text(has_crlf(t));
    lemma_split_prefix(t, t.len() as int);
    assert(t.take(t.len() as int) =~= t);
    let (d, c) = split_state(t);
    if c.len() > 0 {
        lemma_join_push(d, c, nl);
        assert(join(text_lines(t), nl) + Seq::<char>::empty() =~= join(text_lines(t), nl));
    } else if t.len() == 0 {
        assert(terminated(d, nl) == t);
        if d.len() > 0 {
            assert(terminated(d, nl) == terminated(d.drop_last(), nl) + d.last() + nl);
            assert(nl.len() > 0);
        }
        assert(join(d, nl) == Seq::<char>::empty());
        assert(Seq::<char>::empty() + Seq::<char>::empty() =~= t);
    } else {
        if d.len() == 0 {
            assert(terminated(d, nl) == Seq::<char>::empty());
            assert(Seq::<char>::empty() + c =~= c);
        }
        lemma_join_terminated(d, nl);
        assert(terminated(d, nl) + c =~= terminated(d, nl));
    }
}

/// Commenting out a line and then uncommenting it gives the line back.
pub proof fn law_toggle_line_round_trip(l: Seq<char>, ki: nat)
    ensures
        toggled_line(toggled_line(l, ki, false), ki, true) == l,
{
    if !is_blank(l) && l.len() >= ki {
        let t = toggled_line(l, ki, false);
        assert(t[ki as int] == '#');
        assert(!is_blank(t)) by {
            assert(!is_ws(t[ki as int]));
        }
        assert(t.take(ki as int) =~= l.take(ki as int));
        assert(t.skip(ki as int) =~= seq!['#', ' '] + l.skip(ki as int));
        assert(marker_strip(t.skip(ki as int)).1 =~= l.skip(ki as int));
        assert(l.take(ki as int) + l.skip(ki as int) =~= l);
    }
}

/// Disabling an active entry and then enabling it again restores every
/// line and every entry exactly.
pub proof fn law_disable_then_enable(
    ls: Seq<Seq<char>>,
    bs: Seq<(Seq<char>, int, int, bool)>,
    ki: nat,
    key: Seq<char>,
)
    requires
        first_with_key(bs, key) matches Some(j) && 0 <= j < bs.len() && bs[j].3,
    ensures
        ({
            let (ls1, bs1) = set_enabled_effect(ls, bs, ki, key, false);
            set_enabled_effect(ls1, bs1, ki, key, true)
        }) == (ls, bs),
{
    let j = first_with_key(bs, key)->0;
    lemma_first_with_key(bs, key);
    let (ls1, bs1) = set_enabled_effect(ls, bs, ki, key, false);
    assert(first_with_key(bs1, key) == Some(j)) by {
        assert(bs1[j].0 == key);
        lemma_first_with_key(bs1, key);
        let f = first_with_key(bs1, key)->0;
        if f < j {
            assert(bs[f].0 == bs1[f].0);
        } else if f > j {
            assert(bs1[j].0 != key);
        }
    }
    let (ls2, bs2) = set_enabled_effect(ls1, bs1, ki, key, true);
    assert forall|l: int| 0 <= l < ls.len() implies ls2[l] == ls[l] by {
        if bs[j].1 <= l < bs[j].2 {
            law_toggle_line_round_trip(ls[l], ki);
        }
    }
    assert(ls2 =~= ls);
    assert(bs2 =~= bs);
}

/// Changing the state of the only entry with its key changes that key's
/// override and no other.
proof fn lemma_overrides_update(bs: Seq<(Seq<char>, int, int, bool)>, j: int, e: bool)
    requires
        0 <= j < bs.len(),
        forall|i: int| 0 <= i < bs.len() && i != j ==> #[trigger] bs[i].0 != bs[j].0,
    ensures
        overrides_of(bs.update(j, (bs[j].0, bs[j].1, bs[j].2, e))) == overrides_of(bs).insert(bs[j].0, e),
    decreases bs.len(),
{
    let k = bs[j].0;
    let u = bs.update(j, (k, bs[j].1, bs[j].2, e));
    if j == bs.len() - 1 {
        assert(u.drop_last() =~= bs.drop_last());
        assert(overrides_of(bs).insert(k, e) =~= overrides_of(bs.drop_last()).insert(k, e));
    } else {
        let d = bs.drop_last();
        assert forall|i: int| 0 <= i < d.len() && i != j implies #[trigger] d[i].0 != d[j].0 by {
            assert(d[i] == bs[i]);
        }
        lemma_overrides_update(d, j, e);
        assert(u.drop_last() =~= d.update(j, (d[j].0, d[j].1, d[j].2, e)));
        assert(bs.last().0 != k);
        assert(overrides_of(u) =~= overrides_of(bs).insert(k, e));
    }
}

/// When exactly one entry has key `key`, reading the overrides after
/// setting that entry's state reports the new state for `key`, and every
/// other key's as before.
pub proof fn law_overrides_after_set_enabled(
    ls: Seq<Seq<char>>,
    bs: Seq<(Seq<char>, int, int, bool)>,
    ki: nat,
    key: Seq<char>,
    enable: bool,
)
    requires
        first_with_key(bs, key) is Some,
        forall|i: int, j: int|
            0 <= i < bs.len() && 0 <= j < bs.len() && #[trigger] bs[i].0 == key && #[trigger] bs[j].0
                == key ==> i == j,
    ensures
        overrides_of(set_enabled_effect(ls, bs, ki, key, enable).1) == overrides_of(bs).insert(
            key,
            enable,
        ),
{
    lemma_first_with_key(bs, key);
    let j = first_with_key(bs, key)->0;
    lemma_overrides_update(bs, j, enable);
    if bs[j].3 == enable {
        lemma_overrides_update(bs, j, bs[j].3);
        assert(bs.update(j, (bs[j].0, bs[j].1, bs[j].2, bs[j].3)) =~= bs);
    }
}

/// A key of the parsed map is, after each step of the merge, in the merged
/// entries or still among the parsed ones left.
proof fn lemma_merge_state_keeps(
    bs: Seq<(Seq<char>, int, int, bool)>,
    parsed: Seq<(Seq<char>, CustomFeature)>,
    recon: Seq<Option<CustomFeature>>,
    q: Seq<char>,
)
    requires
        has_key(parsed, q),
    ensures
        has_key(merge_state(bs, parsed, recon).0, q) || has_key(merge_state(bs, parsed, recon).1, q),
    decreases bs.len(),
{
    if bs.len() > 0 {
        lemma_merge_state_keeps(bs.drop_last(), parsed, recon, q);
        let (merged, rest) = merge_state(bs.drop_last(), parsed, recon);
        let b = bs.last();
        if b.3 {
            lemma_remove_has_key(rest, b.0, q);
            let (rest2, got) = pairs_remove(rest, b.0);
            match got {
                Some(cf) => {
                    lemma_insert_has_key(merged, b.0, cf, q);
                },
                None => {},
            }
        } else {
            match recon[bs.len() - 1] {
                Some(cf) => {
                    lemma_insert_has_key(merged, b.0, cf, q);
                },
                None => {},
            }
        }
    }
}

/// Inserting each of `extra` leaves exactly the keys of both.
proof fn lemma_insert_each_keys(
    merged: Seq<(Seq<char>, CustomFeature)>,
    extra: Seq<(Seq<char>, CustomFeature)>,
    q: Seq<char>,
)
    ensures
        has_key(insert_each(merged, extra), q) <==> (has_key(merged, q) || has_key(extra, q)),
    decreases extra.len(),
{
    if extra.len() > 0 {
        let d = extra.drop_last();
        lemma_insert_each_keys(merged, d, q);
        lemma_insert_has_key(insert_each(merged, d), extra.last().0, extra.last().1, q);
        if has_key(d, q) {
            let w = choose|w: int| 0 <= w < d.len() && #[trigger] d[w].0 == q;
            assert(extra[w].0 == q);
        }
        if extra.last().0 == q {
            assert(extra[extra.len() - 1].0 == q);
        }
        if has_key(extra, q) {
            let w = choose|w: int| 0 <= w < extra.len() && #[trigger] extra[w].0 == q;
            if w < d.len() {
                assert(d[w].0 == q);
            }
        }
    }
}

/// The merge never drops a parsed feature: every key of the parsed map is
/// a key of the merged one.
pub proof fn law_merge_keeps_parsed_keys(
    bs: Seq<(Seq<char>, int, int, bool)>,
    parsed: Seq<(Seq<char>, CustomFeature)>,
    recon: Seq<Option<CustomFeature>>,
    q: Seq<char>,
)
    requires
        has_key(parsed, q),
    ensures
        has_key(merged_features(bs, parsed, recon), q),
{
    lemma_merge_state_keeps(bs, parsed, recon, q);
    let (merged, rest) = merge_state(bs, parsed, recon);
    lemma_insert_each_keys(merged, rest, q);
}

/// Setting an entry's state never inserts or removes a line, never moves or
/// renames an entry, and leaves every line outside that entry's range
/// alone, so no other entry is affected.
pub proof fn law_set_enabled_keeps_layout(
    ls: Seq<Seq<char>>,
    bs: Seq<(Seq<char>, int, int, bool)>,
    ki: nat,
    key: Seq<char>,
    enable: bool,
)
    ensures
        set_enabled_effect(ls, bs, ki, key, enable).0.len() == ls.len(),
        set_enabled_effect(ls, bs, ki, key, enable).1.len() == bs.len(),
        forall|i: int|
            0 <= i < bs.len() ==> {
                let e = #[trigger] set_enabled_effect(ls, bs, ki, key, enable).1[i];
                e.0 == bs[i].0 && e.1 == bs[i].1 && e.2 == bs[i].2
            },
        forall|i: int|
            0 <= i < bs.len() && bs[i].0 != key ==> #[trigger] set_enabled_effect(
                ls,
                bs,
                ki,
                key,
                enable,
            ).1[i] == bs[i],
        forall|l: int|
            0 <= l < ls.len() && (first_with_key(bs, key) matches Some(j) ==> !(bs[j].1 <= l
                < bs[j].2)) ==> #[trigger] set_enabled_effect(ls, bs, ki, key, enable).0[l] == ls[l],
{
    lemma_first_with_key(bs, key);
}

/// A line as commenting out writes it: blank, shorter than the key
/// indentation, or holding `"# "` right after it with something left on
/// the line once that marker is gone.
pub open spec fn marked_line(l: Seq<char>, ki: nat) -> bool {
    ||| is_blank(l)
    ||| l.len() < ki
    ||| (l.len() >= ki + 2 && l[ki as int] == '#' && l[ki + 1int] == ' ' && !is_blank(
        l.take(ki as int) + l.skip(ki + 2int),
    ))
}

/// Uncommenting a line that commenting out wrote, and commenting it out
/// again, gives the line back.
pub proof fn law_toggle_marked_line_round_trip(l: Seq<char>, ki: nat)
    requires
        marked_line(l, ki),
    ensures
        toggled_line(toggled_line(l, ki, true), ki, false) == l,
{
    if !is_blank(l) && l.len() >= ki {
        let t = toggled_line(l, ki, true);
        assert(l.skip(ki as int).skip(2) =~= l.skip(ki + 2int));
        assert(t == l.take(ki as int) + l.skip(ki + 2int));
        assert(t.take(ki as int) =~= l.take(ki as int));
        assert(t.skip(ki as int) =~= l.skip(ki + 2int));
        assert(l.take(ki as int) + seq!['#', ' '] + l.skip(ki + 2int) =~= l);
    }
}

/// Enabling a commented-out entry whose lines are all as commenting out
/// writes them, and then disabling it again, restores every line and every
/// entry exactly.
pub proof fn law_enable_then_disable(
    ls: Seq<Seq<char>>,
    bs: Seq<(Seq<char>, int, int, bool)>,
    ki: nat,
    key: Seq<char>,
)
    requires
        first_with_key(bs, key) matches Some(j) && 0 <= j < bs.len() && !bs[j].3 && forall|l: int|
            bs[j].1 <= l < bs[j].2 && 0 <= l < ls.len() ==> marked_line(#[trigger] ls[l], ki),
    ensures
        ({
            let (ls1, bs1) = set_enabled_effect(ls, bs, ki, key, true);
            set_enabled_effect(ls1, bs1, ki, key, false)
        }) == (ls, bs),
{
    let j = first_with_key(bs, key)->0;
    lemma_first_with_key(bs, key);
    let (ls1, bs1) = set_enabled_effect(ls, bs, ki, key, true);
    assert(first_with_key(bs1, key) == Some(j)) by {
        assert(bs1[j].0 == key);
        lemma_first_with_key(bs1, key);
        let f = first_with_key(bs1, key)->0;
        if f < j {
            assert(bs[f].0 == bs1[f].0);
        } else if f > j {
            assert(bs1[j].0 != key);
        }
    }
    let (ls2, bs2) = set_enabled_effect(ls1, bs1, ki, key, false);
    assert forall|l: int| 0 <= l < ls.len() implies ls2[l] == ls[l] by {
        if bs[j].1 <= l < bs[j].2 {
            law_toggle_marked_line_round_trip(ls[l], ki);
        }
    }
    assert(ls2 =~= ls);
    assert(bs2 =~= bs);
}

/// A line of an active entry that holds no `#` right at the key
/// indentation (as any line of an entry does, unless it is a YAML comment
/// at that column).
pub open spec fn unmarked_line(l: Seq<char>, ki: nat) -> bool {
    is_blank(l) || l.len() <= ki || l[ki as int] != '#'
}

/// Commenting a line out does not change what it reconstructs to.
proof fn lemma_dedent_disabled(l: Seq<char>, ki: nat)
    requires
        unmarked_line(l, ki),
    ensures
        dedented(toggled_line(l, ki, false), ki) == dedented(l, ki),
{
    if !is_blank(l) && l.len() >= ki {
        let t = toggled_line(l, ki, false);
        assert(t[ki as int] == '#');
        assert(!is_blank(t)) by {
            assert(!is_ws(t[ki as int]));
        }
        assert(t.skip(ki as int) =~= seq!['#', ' '] + l.skip(ki as int));
        assert(marker_strip(t.skip(ki as int)).1 =~= l.skip(ki as int));
        if l.len() > ki {
            assert(l.skip(ki as int)[0] == l[ki as int]);
        }
    }
}

/// A commented-out entry reconstructs to the very fragment its active form
/// does, so it parses to the same feature: every line commented out gives
/// the same fragment, whenever no line of the active entry holds a `#` at
/// the key indentation.
pub proof fn law_disabled_fragment_matches_active(ls: Seq<Seq<char>>, ki: nat)
    requires
        forall|i: int| 0 <= i < ls.len() ==> unmarked_line(#[trigger] ls[i], ki),
    ensures
        fragment_of(ls.map_values(|l: Seq<char>| toggled_line(l, ki, false)), ki) == fragment_of(ls, ki),
    decreases ls.len(),
{
    if ls.len() > 0 {
        let d = ls.drop_last();
        assert forall|i: int| 0 <= i < d.len() implies unmarked_line(#[trigger] d[i], ki) by {
            assert(d[i] == ls[i]);
        }
        law_disabled_fragment_matches_active(d, ki);
        let t = ls.map_values(|l: Seq<char>| toggled_line(l, ki, false));
        assert(t.drop_last() =~= d.map_values(|l: Seq<char>| toggled_line(l, ki, false)));
        assert(unmarked_line(ls[ls.len() - 1], ki));
        lemma_dedent_disabled(ls.last(), ki);
    }
}

/// Setting an entry to the state it already has, or a key no entry has,
/// changes no line and no entry; and so setting a key to a state twice is
/// setting it once.
pub proof fn law_set_enabled_idempotent(
    ls: Seq<Seq<char>>,
    bs: Seq<(Seq<char>, int, int, bool)>,
    ki: nat,
    key: Seq<char>,
    enable: bool,
)
    ensures
        (forall|j: int| 0 <= j < bs.len() && #[trigger] bs[j].0 == key ==> bs[j].3 == enable)
            ==> set_enabled_effect(ls, bs, ki, key, enable) == (ls, bs),
        ({
            let (ls1, bs1) = set_enabled_effect(ls, bs, ki, key, enable);
            set_enabled_effect(ls1, bs1, ki, key, enable)
        }) == set_enabled_effect(ls, bs, ki, key, enable),
{
    lemma_first_with_key(bs, key);
    let (ls1, bs1) = set_enabled_effect(ls, bs, ki, key, enable);
    match first_with_key(bs, key) {
        None => {},
        Some(j) => {
            assert(bs1[j].0 == key && bs1[j].3 == enable);
            lemma_first_with_key(bs1, key);
            let f = first_with_key(bs1, key)->0;
            if f < j {
                assert(bs[f].0 == bs1[f].0);
            } else if f > j {
                assert(bs1[j].0 != key);
            }
        },
    }
}

} // verus!
