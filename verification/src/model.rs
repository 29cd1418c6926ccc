//! The parsed core yml and the menu tree built from it.
use vstd::prelude::*;
use indexmap::IndexMap;
use serde_yaml::Value;
use crate::outside::{
    bucket_at, bucket_entries, bucket_index_of, bucket_insert, buckets_len, buckets_new,
    choice_at, choice_entries, choices_len, feature_at, feature_entries, features_len,
    number_text, number_to_string, scalar_shape, shape_of, value_to_yaml, yaml_text, ScalarShape,
};
use crate::strmap::{lemma_first_key_index, StrMap};
use crate::text::{trim, trim_string};
use vstd::string::StringExecFns;

verus! {

/// A parsed `*.core.yml`: features defined elsewhere, and the file's own
/// `custom_features` in file order.
pub struct CoreYml {
    pub shared_features: Vec<String>,
    pub custom_features: IndexMap<String, CustomFeature>,
}

/// One `custom_features` entry.
#[derive(Debug, PartialEq)]
pub struct CustomFeature {
    pub group: Option<String>,
    pub submenu: Option<String>,
    pub prompt: String,
    pub description: Option<String>,
    pub choices: IndexMap<Value, Value>,
}

/// A menu row.
pub enum Row {
    Toggle {
        key: String,
        prompt: String,
        description: Option<String>,
        choices: [(String, String); 2],
        enabled: bool,
    },
    Choice {
        key: String,
        prompt: String,
        description: Option<String>,
        choices: Vec<(String, String)>,
        enabled: bool,
    },
    Submenu { title: String, rows: Vec<Row> },
    /// An inline, non-interactive section header (from `group:`) that
    /// clusters the rows following it within the same screen, distinct from
    /// `Submenu`, which drills into a separate screen.
    GroupHeader { title: String },
    Placeholder { label: String, note: &'static str, enabled: bool },
}

/// A menu row, by the characters of its texts.
pub enum RowSpec {
    Toggle {
        key: Seq<char>,
        prompt: Seq<char>,
        description: Option<Seq<char>>,
        choices: Seq<(Seq<char>, Seq<char>)>,
        enabled: bool,
    },
    Choice {
        key: Seq<char>,
        prompt: Seq<char>,
        description: Option<Seq<char>>,
        choices: Seq<(Seq<char>, Seq<char>)>,
        enabled: bool,
    },
    Submenu { title: Seq<char>, rows: Seq<RowSpec> },
    GroupHeader { title: Seq<char> },
    Placeholder { label: Seq<char>, note: Seq<char>, enabled: bool },
}

/// An optional string, by its characters.
pub open spec fn opt_view(o: Option<String>) -> Option<Seq<char>> {
    match o {
        Some(s) => Some(s@),
        None => None,
    }
}

/// A (label, value) pair, by characters.
pub open spec fn pair_view(p: (String, String)) -> (Seq<char>, Seq<char>) {
    (p.0@, p.1@)
}

/// Choice pairs, by characters.
pub open spec fn pairs_view(ps: Seq<(String, String)>) -> Seq<(Seq<char>, Seq<char>)> {
    ps.map_values(|p: (String, String)| pair_view(p))
}

impl Row {
    /// This row, by the characters of its texts.
    pub open spec fn spec_view(self) -> RowSpec
        decreases self,
    {
        match self {
            Row::Toggle { key, prompt, description, choices, enabled } => RowSpec::Toggle {
                key: key@,
                prompt: prompt@,
                description: opt_view(description),
                choices: seq![pair_view(choices[0]), pair_view(choices[1])],
                enabled,
            },
            Row::Choice { key, prompt, description, choices, enabled } => RowSpec::Choice {
                key: key@,
                prompt: prompt@,
                description: opt_view(description),
                choices: pairs_view(choices@),
                enabled,
            },
            Row::Submenu { title, rows } => RowSpec::Submenu {
                title: title@,
                rows: rows_spec(rows@),
            },
            Row::GroupHeader { title } => RowSpec::GroupHeader { title: title@ },
            Row::Placeholder { label, note, enabled } => RowSpec::Placeholder {
                label: label@,
                note: note@,
                enabled,
            },
        }
    }
}

/// Rows, each by the characters of its texts.
pub open spec fn rows_spec(rows: Seq<Row>) -> Seq<RowSpec>
    decreases rows,
{
    if rows.len() == 0 {
        Seq::empty()
    } else {
        rows_spec(rows.subrange(0, rows.len() - 1)).push(rows[rows.len() - 1].spec_view())
    }
}

impl RowSpec {
    /// The text a row is listed under: prompt, title or label.
    pub open spec fn prompt_text(self) -> Seq<char> {
        match self {
            RowSpec::Toggle { prompt, .. } => prompt,
            RowSpec::Choice { prompt, .. } => prompt,
            RowSpec::Submenu { title, .. } => title,
            RowSpec::GroupHeader { title } => title,
            RowSpec::Placeholder { label, .. } => label,
        }
    }

    /// The longer description shown for a row, if any.
    pub open spec fn description_text(self) -> Option<Seq<char>> {
        match self {
            RowSpec::Toggle { description, .. } => description,
            RowSpec::Choice { description, .. } => description,
            RowSpec::Submenu { .. } => None,
            RowSpec::GroupHeader { .. } => None,
            RowSpec::Placeholder { note, .. } => Some(note),
        }
    }

    /// Whether the row's feature entry is active; rows not backed by one
    /// entry are.
    pub open spec fn is_enabled(self) -> bool {
        match self {
            RowSpec::Toggle { enabled, .. } => enabled,
            RowSpec::Choice { enabled, .. } => enabled,
            RowSpec::Placeholder { enabled, .. } => enabled,
            _ => true,
        }
    }

    /// The feature key backing a toggleable row.
    pub open spec fn key_text(self) -> Option<Seq<char>> {
        match self {
            RowSpec::Toggle { key, .. } => Some(key),
            RowSpec::Choice { key, .. } => Some(key),
            _ => None,
        }
    }
}

impl Row {
    /// The text this row is listed under.
    pub fn prompt(&self) -> (r: &str)
        ensures
            r@ == self.spec_view().prompt_text(),
    {
        match self {
            Row::Toggle { prompt, .. } => prompt.as_str(),
            Row::Choice { prompt, .. } => prompt.as_str(),
            Row::Submenu { title, .. } => title.as_str(),
            Row::GroupHeader { title } => title.as_str(),
            Row::Placeholder { label, .. } => label.as_str(),
        }
    }

    /// The longer description shown for this row, if any.
    pub fn description(&self) -> (r: Option<&str>)
        ensures
            r is Some <==> self.spec_view().description_text() is Some,
            r matches Some(d) ==> d@ == self.spec_view().description_text()->0,
    {
        match self {
            Row::Toggle { description, .. } => match description {
                Some(d) => Some(d.as_str()),
                None => None,
            },
            Row::Choice { description, .. } => match description {
                Some(d) => Some(d.as_str()),
                None => None,
            },
            Row::Submenu { .. } => None,
            Row::GroupHeader { .. } => None,
            Row::Placeholder { note, .. } => Some(note),
        }
    }

    /// Whether this row's `custom_features` entry is currently active in the
    /// source file (rather than commented out). Always `true` for rows not
    /// backed by a single entry (`Submenu`, `GroupHeader`).
    pub fn enabled(&self) -> (b: bool)
        ensures
            b == self.spec_view().is_enabled(),
    {
        match self {
            Row::Toggle { enabled, .. } => *enabled,
            Row::Choice { enabled, .. } => *enabled,
            Row::Placeholder { enabled, .. } => *enabled,
            Row::Submenu { .. } => true,
            Row::GroupHeader { .. } => true,
        }
    }

    /// The `custom_features` key backing this row, if any: only `Toggle` and
    /// `Choice` rows have one.
    pub fn key(&self) -> (r: Option<&str>)
        ensures
            r is Some <==> self.spec_view().key_text() is Some,
            r matches Some(k) ==> k@ == self.spec_view().key_text()->0,
    {
        match self {
            Row::Toggle { key, .. } => Some(key.as_str()),
            Row::Choice { key, .. } => Some(key.as_str()),
            Row::Submenu { .. } => None,
            Row::GroupHeader { .. } => None,
            Row::Placeholder { .. } => None,
        }
    }
}


// ---------------------------------------------------------------------------
// YAML scalars as text
// ---------------------------------------------------------------------------

/// What a YAML node reads as once its kind and text are known: a string,
/// a number with its rendered text, a boolean, null, or any other node with
/// its YAML serialization (when that succeeded).
pub enum ScalarText {
    Str(String),
    Num(String),
    Bool(bool),
    Null,
    Other(Option<String>),
}

/// The label a node of the given kind and text shows as: strings as they
/// are, numbers as rendered, booleans as `true`/`false`, null as `~`, any
/// other node as its YAML text with surrounding whitespace trimmed (empty
/// when serialization failed).
pub open spec fn scalar_label_spec(t: ScalarText) -> Seq<char> {
    match t {
        ScalarText::Str(s) => s@,
        ScalarText::Num(s) => s@,
        ScalarText::Bool(b) => if b {
            "true"@
        } else {
            "false"@
        },
        ScalarText::Null => "~"@,
        ScalarText::Other(o) => trim(
            match o {
                Some(s) => s@,
                None => Seq::empty(),
            },
        ),
    }
}

/// The label a node of the given kind and text shows as.
pub fn scalar_label(t: ScalarText) -> (s: String)
    ensures
        s@ == scalar_label_spec(t),
{
    match t {
        ScalarText::Str(s) => s,
        ScalarText::Num(s) => s,
        ScalarText::Bool(b) => if b {
            String::from_str("true")
        } else {
            String::from_str("false")
        },
        ScalarText::Null => String::from_str("~"),
        ScalarText::Other(o) => match o {
            Some(s) => trim_string(s.as_str()),
            None => {
                let e = String::new();
                trim_string(e.as_str())
            },
        },
    }
}

/// The text that a YAML value shows as.
pub open spec fn scalar_text(v: Value) -> Seq<char> {
    match shape_of(v) {
        ScalarShape::Str(s) => scalar_label_spec(ScalarText::Str(s)),
        ScalarShape::Num(n) => number_text(n),
        ScalarShape::Bool(b) => scalar_label_spec(ScalarText::Bool(b)),
        ScalarShape::Null => scalar_label_spec(ScalarText::Null),
        ScalarShape::Other => trim(
            match yaml_text(v) {
                Some(t) => t,
                None => Seq::empty(),
            },
        ),
    }
}

/// Stringify a YAML scalar the way it actually resolved (a bare unquoted
/// `100` or `true` resolves as a number or boolean, not the string the
/// author probably meant), so that such authoring slips are shown rather
/// than hidden.
pub fn yaml_scalar_to_string(v: &Value) -> (s: String)
    ensures
        s@ == scalar_text(*v),
{
    let t = match scalar_shape(v) {
        ScalarShape::Str(s) => ScalarText::Str(s),
        ScalarShape::Num(n) => ScalarText::Num(number_to_string(&n)),
        ScalarShape::Bool(b) => ScalarText::Bool(b),
        ScalarShape::Null => ScalarText::Null,
        ScalarShape::Other => ScalarText::Other(
            match value_to_yaml(v) {
                Ok(s) => Some(s),
                Err(_) => None,
            },
        ),
    };
    scalar_label(t)
}

// ---------------------------------------------------------------------------
// From features to rows
// ---------------------------------------------------------------------------

/// The (label, value) texts of a feature's choices, in file order.
pub open spec fn choice_texts(f: CustomFeature) -> Seq<(Seq<char>, Seq<char>)> {
    choice_entries(f.choices).map_values(|e: (Value, Value)| (scalar_text(e.0), scalar_text(e.1)))
}

/// Whether the entry `key` is active under the given overrides; entries
/// with no override are.
pub open spec fn enabled_under(key: Seq<char>, en: Map<Seq<char>, bool>) -> bool {
    if en.contains_key(key) {
        en[key]
    } else {
        true
    }
}

/// The row a feature becomes: a placeholder when it has no choices (it is
/// driven by a preset), a toggle with exactly two, a choice otherwise.
pub open spec fn feature_row_spec(key: Seq<char>, f: CustomFeature, en: Map<Seq<char>, bool>) -> RowSpec {
    let cs = choice_texts(f);
    if cs.len() == 0 {
        RowSpec::Placeholder {
            label: f.prompt@,
            note: "(preset-based option, not shown)"@,
            enabled: enabled_under(key, en),
        }
    } else if cs.len() == 2 {
        RowSpec::Toggle {
            key,
            prompt: f.prompt@,
            description: opt_view(f.description),
            choices: cs,
            enabled: enabled_under(key, en),
        }
    } else {
        RowSpec::Choice {
            key,
            prompt: f.prompt@,
            description: opt_view(f.description),
            choices: cs,
            enabled: enabled_under(key, en),
        }
    }
}

/// Whether every choice row in a tree offers at least one choice.
pub open spec fn choices_nonempty(rows: Seq<RowSpec>) -> bool
    decreases rows,
{
    forall|i: int|
        0 <= i < rows.len() ==> match #[trigger] rows[i] {
            RowSpec::Choice { choices, .. } => choices.len() > 0,
            RowSpec::Submenu { rows: sub, .. } => choices_nonempty(sub),
            _ => true,
        }
}

/// Whether every keyed row in a tree, at any depth, has its key in `ks`.
pub open spec fn keys_within(rows: Seq<RowSpec>, ks: Set<Seq<char>>) -> bool
    decreases rows,
{
    forall|i: int|
        0 <= i < rows.len() ==> match #[trigger] rows[i] {
            RowSpec::Submenu { rows: sub, .. } => keys_within(sub, ks),
            RowSpec::Toggle { key, .. } => ks.contains(key),
            RowSpec::Choice { key, .. } => ks.contains(key),
            _ => true,
        }
}

fn feature_to_row(key: &str, feature: &CustomFeature, enabled: &StrMap<bool>) -> (row: Row)
    ensures
        row.spec_view() == feature_row_spec(key@, *feature, enabled@),
{
    let is_enabled = match enabled.get(key) {
        Some(b) => *b,
        None => true,
    };
    let n = choices_len(&feature.choices);
    let ghost es = choice_entries(feature.choices);
    let mut choices: Vec<(String, String)> = Vec::new();
    let mut i: usize = 0;
    while i < n
        invariant
            i <= n == es.len(),
            es == choice_entries(feature.choices),
            pairs_view(choices@) == choice_texts(*feature).take(i as int),
        decreases n - i,
    {
        let (label, value) = choice_at(&feature.choices, i);
        let l = yaml_scalar_to_string(label);
        let v = yaml_scalar_to_string(value);
        assert(choice_texts(*feature)[i as int] == (scalar_text(es[i as int].0), scalar_text(
            es[i as int].1,
        )));
        let ghost before = choices@;
        choices.push((l, v));
        assert(pairs_view(choices@) =~= pairs_view(before).push((l@, v@)));
        assert(choice_texts(*feature).take(i + 1) =~= choice_texts(*feature).take(i as int).push(
            choice_texts(*feature)[i as int],
        ));
        i = i + 1;
    }
    assert(choice_texts(*feature).take(n as int) =~= choice_texts(*feature));
    if choices.len() == 0 {
        return Row::Placeholder {
            label: feature.prompt.clone(),
            note: "(preset-based option, not shown)",
            enabled: is_enabled,
        };
    }
    if choices.len() == 2 {
        let second = choices.pop().unwrap();
        let first = choices.pop().unwrap();
        let row = Row::Toggle {
            key: String::from_str(key),
            prompt: feature.prompt.clone(),
            description: clone_opt(&feature.description),
            choices: [first, second],
            enabled: is_enabled,
        };
        assert(row.spec_view() == feature_row_spec(key@, *feature, enabled@)) by {
            assert(seq![pair_view(first), pair_view(second)] =~= choice_texts(*feature));
        }
        return row;
    }
    Row::Choice {
        key: String::from_str(key),
        prompt: feature.prompt.clone(),
        description: clone_opt(&feature.description),
        choices,
        enabled: is_enabled,
    }
}

/// A copy of an optional string.
fn clone_opt(o: &Option<String>) -> (r: Option<String>)
    ensures
        opt_view(r) == opt_view(*o),
{
    match o {
        Some(s) => Some(s.clone()),
        None => None,
    }
}


// ---------------------------------------------------------------------------
// The menu tree
// ---------------------------------------------------------------------------

/// A feature's `submenu`, by characters.
pub open spec fn submenu_of(f: CustomFeature) -> Option<Seq<char>> {
    opt_view(f.submenu)
}

/// A feature's `group`, by characters.
pub open spec fn group_of(f: CustomFeature) -> Option<Seq<char>> {
    opt_view(f.group)
}

/// The distinct names among `names`, in order of first appearance.
pub open spec fn first_seen(names: Seq<Option<Seq<char>>>) -> Seq<Seq<char>>
    decreases names.len(),
{
    if names.len() == 0 {
        Seq::empty()
    } else {
        let p = first_seen(names.drop_last());
        match names.last() {
            Some(n) => if p.contains(n) {
                p
            } else {
                p.push(n)
            },
            None => p,
        }
    }
}

/// The rows of the features among `items` whose `submenu` is `sub`, in
/// order.
pub open spec fn rows_in(
    items: Seq<(Seq<char>, CustomFeature)>,
    sub: Option<Seq<char>>,
    en: Map<Seq<char>, bool>,
) -> Seq<RowSpec>
    decreases items.len(),
{
    if items.len() == 0 {
        Seq::empty()
    } else {
        let p = rows_in(items.drop_last(), sub, en);
        if submenu_of(items.last().1) == sub {
            p.push(feature_row_spec(items.last().0, items.last().1, en))
        } else {
            p
        }
    }
}

/// The submenu names used by `items`, in order of first use.
pub open spec fn submenu_names(items: Seq<(Seq<char>, CustomFeature)>) -> Seq<Seq<char>> {
    first_seen(items.map_values(|it: (Seq<char>, CustomFeature)| submenu_of(it.1)))
}

/// One submenu row per name, each holding the rows of the features with
/// that `submenu`.
pub open spec fn submenu_rows(
    items: Seq<(Seq<char>, CustomFeature)>,
    names: Seq<Seq<char>>,
    en: Map<Seq<char>, bool>,
) -> Seq<RowSpec> {
    names.map_values(|n: Seq<char>| RowSpec::Submenu { title: n, rows: rows_in(items, Some(n), en) })
}

/// A run of features bucketed by `submenu`: the features without one, in
/// order, then one submenu row per name in order of first use.
pub open spec fn bucket_spec(items: Seq<(Seq<char>, CustomFeature)>, en: Map<Seq<char>, bool>) -> Seq<RowSpec> {
    rows_in(items, None, en) + submenu_rows(items, submenu_names(items), en)
}

/// The features among `items` whose `group` is `g`, in order.
pub open spec fn in_group(items: Seq<(Seq<char>, CustomFeature)>, g: Option<Seq<char>>) -> Seq<
    (Seq<char>, CustomFeature),
>
    decreases items.len(),
{
    if items.len() == 0 {
        Seq::empty()
    } else {
        let p = in_group(items.drop_last(), g);
        if group_of(items.last().1) == g {
            p.push(items.last())
        } else {
            p
        }
    }
}

/// The group names used by `items`, in order of first use.
pub open spec fn group_names(items: Seq<(Seq<char>, CustomFeature)>) -> Seq<Seq<char>> {
    first_seen(items.map_values(|it: (Seq<char>, CustomFeature)| group_of(it.1)))
}

/// For each group name in turn: a header, then that group's features
/// bucketed by submenu.
pub open spec fn groups_rows(
    items: Seq<(Seq<char>, CustomFeature)>,
    gs: Seq<Seq<char>>,
    en: Map<Seq<char>, bool>,
) -> Seq<RowSpec>
    decreases gs.len(),
{
    if gs.len() == 0 {
        Seq::empty()
    } else {
        groups_rows(items, gs.drop_last(), en) + seq![RowSpec::GroupHeader { title: gs.last() }]
            + bucket_spec(in_group(items, Some(gs.last())), en)
    }
}

/// One placeholder row per shared feature.
pub open spec fn shared_rows(shared: Seq<Seq<char>>) -> Seq<RowSpec> {
    shared.map_values(
        |s: Seq<char>|
            RowSpec::Placeholder {
                label: s,
                note: "(shared feature, defined elsewhere)"@,
                enabled: true,
            },
    )
}

/// The top-level menu: the ungrouped features bucketed by submenu; then
/// each group, in order of first use, as a header followed by its own
/// features bucketed by submenu; then the shared features as placeholders.
pub open spec fn menu_spec(
    items: Seq<(Seq<char>, CustomFeature)>,
    shared: Seq<Seq<char>>,
    en: Map<Seq<char>, bool>,
) -> Seq<RowSpec> {
    bucket_spec(in_group(items, None), en) + groups_rows(items, group_names(items), en)
        + shared_rows(shared)
}

/// The name a feature is bucketed under: its group, or its submenu.
pub open spec fn tag_of(f: CustomFeature, by_group: bool) -> Option<Seq<char>> {
    if by_group {
        group_of(f)
    } else {
        submenu_of(f)
    }
}

/// The names the features among `items` are bucketed under, in order.
pub open spec fn tags(items: Seq<(Seq<char>, CustomFeature)>, by_group: bool) -> Seq<Option<Seq<char>>> {
    items.map_values(|it: (Seq<char>, CustomFeature)| tag_of(it.1, by_group))
}

/// The features among `items` bucketed under `t`, in order.
pub open spec fn tagged(items: Seq<(Seq<char>, CustomFeature)>, t: Option<Seq<char>>, by_group: bool) -> Seq<
    (Seq<char>, CustomFeature),
>
    decreases items.len(),
{
    if items.len() == 0 {
        Seq::empty()
    } else {
        let p = tagged(items.drop_last(), t, by_group);
        if tag_of(items.last().1, by_group) == t {
            p.push(items.last())
        } else {
            p
        }
    }
}

/// The items at positions `ps`, in that order.
pub open spec fn at_positions(items: Seq<(Seq<char>, CustomFeature)>, ps: Seq<usize>) -> Seq<
    (Seq<char>, CustomFeature),
> {
    ps.map_values(|p: usize| items[p as int])
}

/// Every position of `ps` is below `n`.
pub open spec fn below(ps: Seq<usize>, n: int) -> bool {
    forall|k: int| 0 <= k < ps.len() ==> #[trigger] ps[k] < n
}

proof fn lemma_in_group_tagged(items: Seq<(Seq<char>, CustomFeature)>, g: Option<Seq<char>>)
    ensures
        in_group(items, g) == tagged(items, g, true),
    decreases items.len(),
{
    if items.len() > 0 {
        lemma_in_group_tagged(items.drop_last(), g);
    }
}

proof fn lemma_rows_in_tagged(items: Seq<(Seq<char>, CustomFeature)>, sub: Option<Seq<char>>, en: Map<Seq<char>, bool>)
    ensures
        rows_in(items, sub, en) == tagged(items, sub, false).map_values(
            |it: (Seq<char>, CustomFeature)| feature_row_spec(it.0, it.1, en),
        ),
    decreases items.len(),
{
    if items.len() > 0 {
        lemma_rows_in_tagged(items.drop_last(), sub, en);
        let p = tagged(items.drop_last(), sub, false);
        if submenu_of(items.last().1) == sub {
            assert(p.push(items.last()).map_values(
                |it: (Seq<char>, CustomFeature)| feature_row_spec(it.0, it.1, en),
            ) =~= p.map_values(|it: (Seq<char>, CustomFeature)| feature_row_spec(it.0, it.1, en)).push(
                feature_row_spec(items.last().0, items.last().1, en),
            ));
        }
    }
}

/// The names first seen are distinct.
proof fn lemma_first_seen_distinct(names: Seq<Option<Seq<char>>>)
    ensures
        forall|i: int, j: int|
            0 <= i < first_seen(names).len() && 0 <= j < first_seen(names).len() && i != j
                ==> #[trigger] first_seen(names)[i] != #[trigger] first_seen(names)[j],
    decreases names.len(),
{
    if names.len() > 0 {
        lemma_first_seen_distinct(names.drop_last());
        let p = first_seen(names.drop_last());
        match names.last() {
            Some(n) => if !p.contains(n) {
                assert forall|i: int, j: int|
                    0 <= i < p.push(n).len() && 0 <= j < p.push(n).len() && i != j
                        implies #[trigger] p.push(n)[i] != #[trigger] p.push(n)[j] by {
                    if i < p.len() && j < p.len() {
                    } else if i == p.len() {
                        assert(p[j] != n);
                    } else {
                        assert(p[i] != n);
                    }
                }
            },
            None => {},
        }
    }
}

/// A name some feature is bucketed under has been seen.
proof fn lemma_tagged_seen(items: Seq<(Seq<char>, CustomFeature)>, n: Seq<char>, by_group: bool)
    ensures
        tagged(items, Some(n), by_group).len() > 0 ==> first_seen(tags(items, by_group)).contains(n),
    decreases items.len(),
{
    if items.len() > 0 {
        let d = items.drop_last();
        lemma_tagged_seen(d, n, by_group);
        assert(tags(items, by_group).drop_last() =~= tags(d, by_group));
        let ts = tags(items, by_group);
        assert(ts.last() == tag_of(items.last().1, by_group));
        let p = first_seen(tags(d, by_group));
        if p.contains(n) {
            let w = choose|w: int| 0 <= w < p.len() && p[w] == n;
            match ts.last() {
                Some(m) => if !p.contains(m) {
                    assert(p.push(m)[w] == n);
                },
                None => {},
            }
        }
        if tag_of(items.last().1, by_group) == Some(n) && !p.contains(n) {
            assert(first_seen(ts) == p.push(n));
            assert(p.push(n)[p.len() as int] == n);
        }
    }
}

/// A copy of a list of positions.
fn copy_positions(ps: &Vec<usize>) -> (r: Vec<usize>)
    ensures
        r@ == ps@,
{
    let mut r: Vec<usize> = Vec::new();
    let mut k: usize = 0;
    while k < ps.len()
        invariant
            k <= ps@.len(),
            r@ == ps@.take(k as int),
        decreases ps.len() - k,
    {
        r.push(ps[k]);
        assert(ps@.take(k + 1) =~= ps@.take(k as int).push(ps@[k as int]));
        k = k + 1;
    }
    assert(ps@.take(ps@.len() as int) =~= ps@);
    r
}

/// What bucketing `items` by group (`by_group`) or by submenu gives: the
/// positions of the features with no such name, and a map from each name,
/// in order of first use, to the positions of its features.
pub open spec fn bucketed(
    iv: Seq<(Seq<char>, CustomFeature)>,
    n: int,
    by_group: bool,
    untagged: Seq<usize>,
    e: Seq<(Seq<char>, Seq<usize>)>,
) -> bool {
    let tv = iv.take(n);
    let names = first_seen(tags(tv, by_group));
    &&& below(untagged, n)
    &&& at_positions(iv, untagged) == tagged(tv, None, by_group)
    &&& e.len() == names.len()
    &&& forall|j: int|
        0 <= j < e.len() ==> #[trigger] e[j].0 == names[j] && below(e[j].1, n) && at_positions(iv, e[j].1)
            == tagged(tv, Some(names[j]), by_group)
}

/// Buckets `items` by their group (`by_group`) or their submenu, in one
/// pass: features without one by position, the others by name in a map
/// whose order is the order in which the names are first used.
fn bucket_positions(items: &Vec<(&String, &CustomFeature)>, by_group: bool) -> (r: (
    Vec<usize>,
    IndexMap<String, Vec<usize>>,
))
    ensures
        bucketed(items_view(items@), items@.len() as int, by_group, r.0@, bucket_entries(r.1)),
{
    let ghost iv = items_view(items@);
    let mut untagged: Vec<usize> = Vec::new();
    let mut m = buckets_new();
    let mut i: usize = 0;
    proof {
        assert(iv.take(0) =~= Seq::<(Seq<char>, CustomFeature)>::empty());
        assert(first_seen(tags(iv.take(0), by_group)) =~= Seq::<Seq<char>>::empty());
        assert(at_positions(iv, untagged@) =~= Seq::<(Seq<char>, CustomFeature)>::empty());
    }
    while i < items.len()
        invariant
            i <= items@.len(),
            iv == items_view(items@),
            bucketed(iv, i as int, by_group, untagged@, bucket_entries(m)),
        decreases items.len() - i,
    {
        let ghost tv = iv.take(i as int);
        let ghost tv1 = iv.take(i + 1);
        let ghost e0 = bucket_entries(m);
        let ghost names0 = first_seen(tags(tv, by_group));
        let ghost u0 = untagged@;
        proof {
            assert(tv1.drop_last() =~= tv);
            assert(tv1.last() == iv[i as int]);
            assert(tags(tv1, by_group).drop_last() =~= tags(tv, by_group));
            assert(tags(tv1, by_group).last() == tag_of(iv[i as int].1, by_group));
            lemma_first_seen_distinct(tags(tv, by_group));
        }
        let (_, feature) = items[i];
        assert(iv[i as int].1 == *feature);
        let t: &Option<String> = if by_group {
            &feature.group
        } else {
            &feature.submenu
        };
        assert(opt_view(*t) == tag_of(iv[i as int].1, by_group));
        match t {
            None => {
                untagged.push(i);
                proof {
                    assert(at_positions(iv, untagged@) =~= at_positions(iv, u0).push(iv[i as int]));
                    assert forall|j: int| 0 <= j < e0.len() implies #[trigger] e0[j].0 == names0[j] && below(
                        e0[j].1,
                        i + 1,
                    ) && at_positions(iv, e0[j].1) == tagged(tv1, Some(names0[j]), by_group) by {
                        assert(e0[j].0 == names0[j]);
                    }
                    assert(first_seen(tags(tv1, by_group)) == names0);
                    assert(below(untagged@, i + 1));
                    assert(at_positions(iv, untagged@) == tagged(tv1, None, by_group));
                    assert(bucketed(iv, i + 1, by_group, untagged@, bucket_entries(m)));
                }
            },
            Some(n) => {
                match bucket_index_of(&m, n.as_str()) {
                    Some(j) => {
                        let (_, ps) = bucket_at(&m, j);
                        let mut v = copy_positions(ps);
                        v.push(i);
                        let ghost vv = v@;
                        bucket_insert(&mut m, n.clone(), v);
                        proof {
                            lemma_first_key_index(e0, n@);
                            assert(e0[j as int].0 == n@);
                            assert(bucket_entries(m) == e0.update(j as int, (n@, vv)));
                            assert(names0.contains(n@)) by {
                                assert(names0[j as int] == n@);
                            }
                            assert(at_positions(iv, vv) =~= at_positions(iv, e0[j as int].1).push(iv[i as int]));
                            let e1 = bucket_entries(m);
                            assert forall|k: int| 0 <= k < e1.len() implies #[trigger] e1[k].0 == names0[k] && below(
                                e1[k].1,
                                i + 1,
                            ) && at_positions(iv, e1[k].1) == tagged(tv1, Some(names0[k]), by_group) by {
                                assert(e0[k].0 == names0[k]);
                                if k != j {
                                    assert(names0[k] != names0[j as int]);
                                }
                            }
                            assert(first_seen(tags(tv1, by_group)) == names0);
                            assert(at_positions(iv, untagged@) == tagged(tv1, None, by_group));
                            assert(bucketed(iv, i + 1, by_group, untagged@, bucket_entries(m)));
                        }
                    },
                    None => {
                        let mut v: Vec<usize> = Vec::new();
                        v.push(i);
                        let ghost vv = v@;
                        bucket_insert(&mut m, n.clone(), v);
                        proof {
                            lemma_first_key_index(e0, n@);
                            assert(bucket_entries(m) == e0.push((n@, vv)));
                            assert(!names0.contains(n@)) by {
                                if names0.contains(n@) {
                                    let w = choose|w: int| 0 <= w < names0.len() && names0[w] == n@;
                                    assert(e0[w].0 == n@);
                                }
                            }
                            lemma_tagged_seen(tv, n@, by_group);
                            assert(tagged(tv, Some(n@), by_group) =~= Seq::<(Seq<char>, CustomFeature)>::empty());
                            let names1 = first_seen(tags(tv1, by_group));
                            assert(names1 == names0.push(n@));
                            assert(at_positions(iv, vv) =~= seq![iv[i as int]]);
                            assert(tagged(tv1, Some(n@), by_group) =~= seq![iv[i as int]]);
                            let e1 = bucket_entries(m);
                            assert forall|k: int| 0 <= k < e1.len() implies #[trigger] e1[k].0 == names1[k] && below(
                                e1[k].1,
                                i + 1,
                            ) && at_positions(iv, e1[k].1) == tagged(tv1, Some(names1[k]), by_group) by {
                                if k < e0.len() {
                                    assert(e0[k].0 == names0[k]);
                                    assert(names0[k] != n@);
                                }
                            }
                            assert(at_positions(iv, untagged@) == tagged(tv1, None, by_group));
                            assert(bucketed(iv, i + 1, by_group, untagged@, bucket_entries(m)));
                        }
                    },
                }
            },
        }
        i = i + 1;
    }
    (untagged, m)
}

/// Feature references, by key characters and feature.
pub open spec fn items_view(v: Seq<(&String, &CustomFeature)>) -> Seq<(Seq<char>, CustomFeature)> {
    v.map_values(|it: (&String, &CustomFeature)| (it.0@, *it.1))
}

/// The rows the features at positions `ps` of `items` become, in that
/// order.
fn rows_at(items: &Vec<(&String, &CustomFeature)>, ps: &Vec<usize>, enabled: &StrMap<bool>) -> (rows: Vec<Row>)
    requires
        below(ps@, items@.len() as int),
    ensures
        rows_spec(rows@) == at_positions(items_view(items@), ps@).map_values(
            |it: (Seq<char>, CustomFeature)| feature_row_spec(it.0, it.1, enabled@),
        ),
{
    let ghost iv = items_view(items@);
    let mut rows: Vec<Row> = Vec::new();
    let mut k: usize = 0;
    while k < ps.len()
        invariant
            k <= ps@.len(),
            iv == items_view(items@),
            below(ps@, items@.len() as int),
            rows_spec(rows@) == at_positions(iv, ps@.take(k as int)).map_values(
                |it: (Seq<char>, CustomFeature)| feature_row_spec(it.0, it.1, enabled@),
            ),
        decreases ps.len() - k,
    {
        let p = ps[k];
        assert(p < items@.len());
        let (key, feature) = items[p];
        assert(iv[p as int] == (key@, *feature));
        let row = feature_to_row(key.as_str(), feature, enabled);
        let ghost before = rows@;
        rows.push(row);
        proof {
            lemma_rows_spec_push(before, row);
            assert(rows@ == before.push(row));
            assert(ps@.take(k + 1) =~= ps@.take(k as int).push(p));
            assert(at_positions(iv, ps@.take(k + 1)) =~= at_positions(iv, ps@.take(k as int)).push(iv[p as int]));
            assert(at_positions(iv, ps@.take(k + 1)).map_values(
                |it: (Seq<char>, CustomFeature)| feature_row_spec(it.0, it.1, enabled@),
            ) =~= at_positions(iv, ps@.take(k as int)).map_values(
                |it: (Seq<char>, CustomFeature)| feature_row_spec(it.0, it.1, enabled@),
            ).push(feature_row_spec(key@, *feature, enabled@)));
        }
        k = k + 1;
    }
    assert(ps@.take(ps@.len() as int) =~= ps@);
    rows
}

/// The features at positions `ps` of `items`, in that order.
fn items_at<'a>(items: &Vec<(&'a String, &'a CustomFeature)>, ps: &Vec<usize>) -> (r: Vec<
    (&'a String, &'a CustomFeature),
>)
    requires
        below(ps@, items@.len() as int),
    ensures
        items_view(r@) == at_positions(items_view(items@), ps@),
{
    let ghost iv = items_view(items@);
    let mut r: Vec<(&'a String, &'a CustomFeature)> = Vec::new();
    let mut k: usize = 0;
    while k < ps.len()
        invariant
            k <= ps@.len(),
            iv == items_view(items@),
            below(ps@, items@.len() as int),
            items_view(r@) == at_positions(iv, ps@.take(k as int)),
        decreases ps.len() - k,
    {
        let p = ps[k];
        assert(p < items@.len());
        let ghost before = r@;
        r.push(items[p]);
        assert(ps@.take(k + 1) =~= ps@.take(k as int).push(p));
        assert(items_view(r@) =~= items_view(before).push(iv[p as int]));
        assert(at_positions(iv, ps@.take(k + 1)) =~= at_positions(iv, ps@.take(k as int)).push(iv[p as int]));
        k = k + 1;
    }
    assert(ps@.take(ps@.len() as int) =~= ps@);
    r
}

/// Bucket a run of features by first-seen `submenu` name: the features
/// without a submenu stay in order, followed by one `Submenu` row per name,
/// each holding its features in order.
fn bucket_by_submenu(items: &Vec<(&String, &CustomFeature)>, enabled: &StrMap<bool>) -> (rows: Vec<Row>)
    ensures
        rows_spec(rows@) == bucket_spec(items_view(items@), enabled@),
{
    let ghost iv = items_view(items@);
    let ghost en = enabled@;
    let (untagged, buckets) = bucket_positions(items, false);
    let ghost e = bucket_entries(buckets);
    let ghost names = first_seen(tags(iv, false));
    proof {
        assert(iv.take(items@.len() as int) =~= iv);
        lemma_rows_in_tagged(iv, None, en);
        assert(tags(iv, false) =~= iv.map_values(|it: (Seq<char>, CustomFeature)| submenu_of(it.1)));
        assert(names == submenu_names(iv));
    }
    let mut rows = rows_at(items, &untagged, enabled);
    let ghost base = rows_spec(rows@);
    assert(base == rows_in(iv, None, en));
    let n = buckets_len(&buckets);
    let mut k: usize = 0;
    while k < n
        invariant
            k <= n == e.len() == names.len(),
            iv == items_view(items@),
            en == enabled@,
            e == bucket_entries(buckets),
            bucketed(iv, items@.len() as int, false, untagged@, e),
            iv.take(items@.len() as int) == iv,
            names == submenu_names(iv),
            names == first_seen(tags(iv, false)),
            base == rows_in(iv, None, en),
            rows_spec(rows@) == base + submenu_rows(iv, names.take(k as int), en),
        decreases n - k,
    {
        let (name, ps) = bucket_at(&buckets, k);
        assert(e[k as int].0 == names[k as int]);
        let sub = rows_at(items, ps, enabled);
        proof {
            lemma_rows_in_tagged(iv, Some(names[k as int]), en);
        }
        let row = Row::Submenu { title: name.clone(), rows: sub };
        let ghost rv = row.spec_view();
        assert(rv == RowSpec::Submenu { title: names[k as int], rows: rows_in(iv, Some(names[k as int]), en) });
        let ghost before = rows@;
        rows.push(row);
        proof {
            lemma_rows_spec_push(before, row);
            assert(rows@ == before.push(row));
            assert(submenu_rows(iv, names.take(k + 1), en) =~= submenu_rows(iv, names.take(k as int), en).push(rv));
        }
        k = k + 1;
    }
    assert(names.take(n as int) =~= names);
    rows
}

/// The view of rows with one more row is the view with that row's view.
pub proof fn lemma_rows_spec_push(rows: Seq<Row>, r: Row)
    ensures
        rows_spec(rows.push(r)) == rows_spec(rows).push(r.spec_view()),
{
    let s = rows.push(r);
    assert(s.subrange(0, s.len() - 1) =~= rows);
}

/// The view of rows has one row view per row, in order.
pub proof fn lemma_rows_spec_index(rows: Seq<Row>)
    ensures
        rows_spec(rows).len() == rows.len(),
        forall|i: int| 0 <= i < rows.len() ==> #[trigger] rows_spec(rows)[i] == rows[i].spec_view(),
    decreases rows.len(),
{
    if rows.len() > 0 {
        let r0 = rows.subrange(0, rows.len() - 1);
        lemma_rows_spec_index(r0);
        assert forall|i: int| 0 <= i < rows.len() implies #[trigger] rows_spec(rows)[i]
            == rows[i].spec_view() by {
            if i < rows.len() - 1 {
                assert(r0[i] == rows[i]);
            }
        }
    }
}

/// The view of joined rows is the joined views.
pub proof fn lemma_rows_spec_concat(a: Seq<Row>, b: Seq<Row>)
    ensures
        rows_spec(a + b) == rows_spec(a) + rows_spec(b),
    decreases b.len(),
{
    if b.len() == 0 {
        assert(a + b =~= a);
        assert(rows_spec(b) =~= Seq::<RowSpec>::empty());
        assert(rows_spec(a) + rows_spec(b) =~= rows_spec(a));
    } else {
        let b0 = b.subrange(0, b.len() - 1);
        lemma_rows_spec_concat(a, b0);
        assert(a + b =~= (a + b0).push(b[b.len() - 1]));
        lemma_rows_spec_push(a + b0, b[b.len() - 1]);
        assert(b =~= b0.push(b[b.len() - 1]));
        lemma_rows_spec_push(b0, b[b.len() - 1]);
    }
}

/// Build the top-level menu tree from a parsed core yml.
///
/// `group` and `submenu` are independent: `group` renders as an inline,
/// non-interactive header clustering the rows that follow it on the same
/// screen; `submenu` is a drill-down into a separate screen; a feature may
/// set both. Group headers only ever appear at the top level, so submenu
/// bucketing is always scoped within one group's features (or the
/// ungrouped ones).
///
/// Order: the ungrouped features bucketed by first-seen submenu (features
/// without a submenu first, in file order); then each group in first-seen
/// order, as a header followed by its own features bucketed the same way;
/// features without choices become placeholders in their spot; the shared
/// features come last, as placeholders.
pub fn build_menu(core: &CoreYml, enabled: &StrMap<bool>) -> (rows: Vec<Row>)
    ensures
        rows_spec(rows@) == menu_spec(
            feature_entries(core.custom_features),
            core.shared_features@.map_values(|s: String| s@),
            enabled@,
        ),
        choices_nonempty(rows_spec(rows@)),
{
    let ghost es = feature_entries(core.custom_features);
    let n = features_len(&core.custom_features);
    let mut items: Vec<(&String, &CustomFeature)> = Vec::new();
    let mut i: usize = 0;
    while i < n
        invariant
            i <= n == es.len(),
            es == feature_entries(core.custom_features),
            items_view(items@) == es.take(i as int),
        decreases n - i,
    {
        let it = feature_at(&core.custom_features, i);
        let ghost before = items@;
        items.push(it);
        assert(items_view(items@) =~= items_view(before).push(es[i as int]));
        assert(es.take(i + 1) =~= es.take(i as int).push(es[i as int]));
        i = i + 1;
    }
    assert(es.take(n as int) =~= es);
    let (ungrouped_at, groups) = bucket_positions(&items, true);
    let ghost e = bucket_entries(groups);
    let ghost nv = first_seen(tags(es, true));
    proof {
        assert(es.take(items@.len() as int) =~= es);
        lemma_in_group_tagged(es, None);
        assert(tags(es, true) =~= es.map_values(|it: (Seq<char>, CustomFeature)| group_of(it.1)));
        assert(nv == group_names(es));
    }
    let ungrouped = items_at(&items, &ungrouped_at);
    let mut top = bucket_by_submenu(&ungrouped, enabled);
    let ghost base = rows_spec(top@);
    assert(base == bucket_spec(in_group(es, None), enabled@));
    let n_groups = buckets_len(&groups);
    let mut k: usize = 0;
    while k < n_groups
        invariant
            k <= n_groups == e.len() == nv.len(),
            items_view(items@) == es,
            e == bucket_entries(groups),
            bucketed(es, items@.len() as int, true, ungrouped_at@, e),
            es.take(items@.len() as int) == es,
            nv == group_names(es),
            nv == first_seen(tags(es, true)),
            base == bucket_spec(in_group(es, None), enabled@),
            rows_spec(top@) == base + groups_rows(es, nv.take(k as int), enabled@),
        decreases n_groups - k,
    {
        let (name, ps) = bucket_at(&groups, k);
        assert(e[k as int].0 == nv[k as int]);
        let header = Row::GroupHeader { title: name.clone() };
        let ghost before = top@;
        let ghost hdr = header;
        top.push(header);
        proof {
            lemma_rows_spec_push(before, hdr);
            assert(top@ == before.push(hdr));
            lemma_in_group_tagged(es, Some(nv[k as int]));
        }
        let members = items_at(&items, ps);
        let mut bucket = bucket_by_submenu(&members, enabled);
        let ghost mid = top@;
        let ghost bv = bucket@;
        top.append(&mut bucket);
        proof {
            lemma_rows_spec_concat(mid, bv);
            assert(nv.take(k + 1).drop_last() =~= nv.take(k as int));
        }
        k = k + 1;
    }
    assert(nv.take(n_groups as int) =~= nv);
    let ghost sv = core.shared_features@.map_values(|s: String| s@);
    let ghost head = rows_spec(top@);
    let mut m: usize = 0;
    while m < core.shared_features.len()
        invariant
            m <= core.shared_features@.len(),
            sv == core.shared_features@.map_values(|s: String| s@),
            rows_spec(top@) == head + shared_rows(sv.take(m as int)),
        decreases core.shared_features.len() - m,
    {
        let row = Row::Placeholder {
            label: core.shared_features[m].clone(),
            note: "(shared feature, defined elsewhere)",
            enabled: true,
        };
        let ghost before = top@;
        let ghost rw = row;
        top.push(row);
        proof {
            lemma_rows_spec_push(before, rw);
            assert(top@ == before.push(rw));
            assert(sv[m as int] == core.shared_features@[m as int]@);
            assert(shared_rows(sv.take(m + 1)) =~= shared_rows(sv.take(m as int)).push(rw.spec_view()));
        }
        m = m + 1;
    }
    assert(sv.take(sv.len() as int) =~= sv);
    proof {
        law_menu_shape(es, sv, enabled@);
    }
    top
}

// ---------------------------------------------------------------------------
// Laws
// ---------------------------------------------------------------------------

/// A row a feature can become: a toggle, a choice with at least one
/// choice, or a placeholder.
pub open spec fn feature_row_ok(r: RowSpec) -> bool {
    match r {
        RowSpec::Toggle { .. } => true,
        RowSpec::Choice { choices, .. } => choices.len() > 0,
        RowSpec::Placeholder { .. } => true,
        _ => false,
    }
}

/// A top-level row as the menu builds it: a submenu holds only feature
/// rows (no group header, no nested submenu), and a choice row has a
/// choice.
pub open spec fn top_row_ok(r: RowSpec) -> bool {
    match r {
        RowSpec::Submenu { rows, .. } => forall|j: int| 0 <= j < rows.len() ==> feature_row_ok(#[trigger] rows[j]),
        RowSpec::Choice { choices, .. } => choices.len() > 0,
        _ => true,
    }
}

proof fn lemma_rows_in_ok(items: Seq<(Seq<char>, CustomFeature)>, sub: Option<Seq<char>>, en: Map<Seq<char>, bool>)
    ensures
        forall|i: int| 0 <= i < rows_in(items, sub, en).len() ==> feature_row_ok(#[trigger] rows_in(items, sub, en)[i]),
    decreases items.len(),
{
    if items.len() > 0 {
        lemma_rows_in_ok(items.drop_last(), sub, en);
        let r = feature_row_spec(items.last().0, items.last().1, en);
        assert(feature_row_ok(r));
        let p = rows_in(items.drop_last(), sub, en);
        assert forall|i: int| 0 <= i < rows_in(items, sub, en).len() implies feature_row_ok(
            #[trigger] rows_in(items, sub, en)[i],
        ) by {
            if i < p.len() {
                assert(rows_in(items, sub, en)[i] == p[i]);
            }
        }
    }
}

proof fn lemma_bucket_ok(items: Seq<(Seq<char>, CustomFeature)>, en: Map<Seq<char>, bool>)
    ensures
        forall|i: int| 0 <= i < bucket_spec(items, en).len() ==> top_row_ok(#[trigger] bucket_spec(items, en)[i]),
{
    lemma_rows_in_ok(items, None, en);
    let a = rows_in(items, None, en);
    let b = submenu_rows(items, submenu_names(items), en);
    assert forall|i: int| 0 <= i < bucket_spec(items, en).len() implies top_row_ok(#[trigger] bucket_spec(items, en)[i]) by {
        if i < a.len() {
            assert(bucket_spec(items, en)[i] == a[i]);
        } else {
            let n = submenu_names(items)[i - a.len()];
            assert(bucket_spec(items, en)[i] == b[i - a.len()]);
            lemma_rows_in_ok(items, Some(n), en);
        }
    }
}

proof fn lemma_groups_ok(items: Seq<(Seq<char>, CustomFeature)>, gs: Seq<Seq<char>>, en: Map<Seq<char>, bool>)
    ensures
        forall|i: int| 0 <= i < groups_rows(items, gs, en).len() ==> top_row_ok(#[trigger] groups_rows(items, gs, en)[i]),
    decreases gs.len(),
{
    if gs.len() > 0 {
        lemma_groups_ok(items, gs.drop_last(), en);
        let g = in_group(items, Some(gs.last()));
        lemma_bucket_ok(g, en);
        let a = groups_rows(items, gs.drop_last(), en) + seq![RowSpec::GroupHeader { title: gs.last() }];
        let b = bucket_spec(g, en);
        assert forall|i: int| 0 <= i < groups_rows(items, gs, en).len() implies top_row_ok(#[trigger] groups_rows(items, gs, en)[i]) by {
            if i < a.len() {
                assert(groups_rows(items, gs, en)[i] == a[i]);
                if i < a.len() - 1 {
                    assert(a[i] == groups_rows(items, gs.drop_last(), en)[i]);
                }
            } else {
                assert(groups_rows(items, gs, en)[i] == b[i - a.len()]);
            }
        }
    }
}

/// Rows whose top-level rows are as the menu builds them offer a choice in
/// every choice row, at any depth.
proof fn lemma_top_ok_nonempty(rows: Seq<RowSpec>)
    requires
        forall|i: int| 0 <= i < rows.len() ==> top_row_ok(#[trigger] rows[i]),
    ensures
        choices_nonempty(rows),
{
    assert forall|i: int| 0 <= i < rows.len() implies match #[trigger] rows[i] {
        RowSpec::Choice { choices, .. } => choices.len() > 0,
        RowSpec::Submenu { rows: sub, .. } => choices_nonempty(sub),
        _ => true,
    } by {
        assert(top_row_ok(rows[i]));
        if let RowSpec::Submenu { rows: sub, .. } = rows[i] {
            assert forall|j: int| 0 <= j < sub.len() implies match #[trigger] sub[j] {
                RowSpec::Choice { choices, .. } => choices.len() > 0,
                RowSpec::Submenu { rows: sub2, .. } => choices_nonempty(sub2),
                _ => true,
            } by {
                assert(feature_row_ok(sub[j]));
            }
        }
    }
}

/// The menu built from any core yml has its group headers at the top level
/// only, submenus that hold only feature rows (never a group header or a
/// nested submenu), and a choice in every choice row at any depth, so that
/// it can always be browsed.
pub proof fn law_menu_shape(
    items: Seq<(Seq<char>, CustomFeature)>,
    shared: Seq<Seq<char>>,
    en: Map<Seq<char>, bool>,
)
    ensures
        forall|i: int| 0 <= i < menu_spec(items, shared, en).len() ==> top_row_ok(#[trigger] menu_spec(items, shared, en)[i]),
        choices_nonempty(menu_spec(items, shared, en)),
{
    let a = bucket_spec(in_group(items, None), en);
    let b = groups_rows(items, group_names(items), en);
    let c = shared_rows(shared);
    lemma_bucket_ok(in_group(items, None), en);
    lemma_groups_ok(items, group_names(items), en);
    let m = menu_spec(items, shared, en);
    assert forall|i: int| 0 <= i < m.len() implies top_row_ok(#[trigger] m[i]) by {
        if i < a.len() {
            assert(m[i] == a[i]);
        } else if i < a.len() + b.len() {
            assert(m[i] == b[i - a.len()]);
        } else {
            assert(m[i] == c[i - a.len() - b.len()]);
        }
    }
    lemma_top_ok_nonempty(m);
}

/// A row with its enabled flag, where it has one, set aside.
pub open spec fn without_flag(r: RowSpec) -> RowSpec {
    match r {
        RowSpec::Toggle { key, prompt, description, choices, .. } => RowSpec::Toggle {
            key,
            prompt,
            description,
            choices,
            enabled: true,
        },
        RowSpec::Choice { key, prompt, description, choices, .. } => RowSpec::Choice {
            key,
            prompt,
            description,
            choices,
            enabled: true,
        },
        RowSpec::Placeholder { label, note, .. } => RowSpec::Placeholder { label, note, enabled: true },
        _ => r,
    }
}

/// Whether two row trees are the same but for the enabled flags of their
/// rows, at any depth.
pub open spec fn differ_in_flags(a: Seq<RowSpec>, b: Seq<RowSpec>) -> bool
    decreases a,
{
    &&& a.len() == b.len()
    &&& forall|i: int|
        0 <= i < a.len() ==> match #[trigger] a[i] {
            RowSpec::Submenu { title, rows } => b[i] matches RowSpec::Submenu { title: t2, rows: r2 }
                && title == t2 && differ_in_flags(rows, r2),
            _ => without_flag(a[i]) == without_flag(b[i]),
        }
}

proof fn lemma_flags_concat(a1: Seq<RowSpec>, a2: Seq<RowSpec>, b1: Seq<RowSpec>, b2: Seq<RowSpec>)
    requires
        differ_in_flags(a1, a2),
        differ_in_flags(b1, b2),
    ensures
        differ_in_flags(a1 + b1, a2 + b2),
{
    let x = a1 + b1;
    let y = a2 + b2;
    assert forall|i: int| 0 <= i < x.len() implies match #[trigger] x[i] {
        RowSpec::Submenu { title, rows } => y[i] matches RowSpec::Submenu { title: t2, rows: r2 }
            && title == t2 && differ_in_flags(rows, r2),
        _ => without_flag(x[i]) == without_flag(y[i]),
    } by {
        if i < a1.len() {
            assert(x[i] == a1[i] && y[i] == a2[i]);
        } else {
            assert(x[i] == b1[i - a1.len()] && y[i] == b2[i - a1.len()]);
        }
    }
}

proof fn lemma_rows_in_flags(
    items: Seq<(Seq<char>, CustomFeature)>,
    sub: Option<Seq<char>>,
    e1: Map<Seq<char>, bool>,
    e2: Map<Seq<char>, bool>,
)
    ensures
        differ_in_flags(rows_in(items, sub, e1), rows_in(items, sub, e2)),
    decreases items.len(),
{
    if items.len() > 0 {
        let d = items.drop_last();
        lemma_rows_in_flags(d, sub, e1, e2);
        if submenu_of(items.last().1) == sub {
            let r1 = feature_row_spec(items.last().0, items.last().1, e1);
            let r2 = feature_row_spec(items.last().0, items.last().1, e2);
            assert(without_flag(r1) == without_flag(r2));
            assert(!(r1 is Submenu));
            assert(differ_in_flags(seq![r1], seq![r2]));
            lemma_flags_concat(rows_in(d, sub, e1), rows_in(d, sub, e2), seq![r1], seq![r2]);
            assert(rows_in(d, sub, e1) + seq![r1] =~= rows_in(items, sub, e1));
            assert(rows_in(d, sub, e2) + seq![r2] =~= rows_in(items, sub, e2));
        }
    }
}

proof fn lemma_bucket_flags(items: Seq<(Seq<char>, CustomFeature)>, e1: Map<Seq<char>, bool>, e2: Map<Seq<char>, bool>)
    ensures
        differ_in_flags(bucket_spec(items, e1), bucket_spec(items, e2)),
{
    lemma_rows_in_flags(items, None, e1, e2);
    let names = submenu_names(items);
    let s1 = submenu_rows(items, names, e1);
    let s2 = submenu_rows(items, names, e2);
    assert forall|i: int| 0 <= i < s1.len() implies match #[trigger] s1[i] {
        RowSpec::Submenu { title, rows } => s2[i] matches RowSpec::Submenu { title: t2, rows: r2 }
            && title == t2 && differ_in_flags(rows, r2),
        _ => without_flag(s1[i]) == without_flag(s2[i]),
    } by {
        lemma_rows_in_flags(items, Some(names[i]), e1, e2);
    }
    assert(differ_in_flags(s1, s2));
    lemma_flags_concat(rows_in(items, None, e1), rows_in(items, None, e2), s1, s2);
}

proof fn lemma_groups_flags(
    items: Seq<(Seq<char>, CustomFeature)>,
    gs: Seq<Seq<char>>,
    e1: Map<Seq<char>, bool>,
    e2: Map<Seq<char>, bool>,
)
    ensures
        differ_in_flags(groups_rows(items, gs, e1), groups_rows(items, gs, e2)),
    decreases gs.len(),
{
    if gs.len() == 0 {
        assert(differ_in_flags(groups_rows(items, gs, e1), groups_rows(items, gs, e2)));
    } else {
        lemma_groups_flags(items, gs.drop_last(), e1, e2);
        let h = seq![RowSpec::GroupHeader { title: gs.last() }];
        assert(differ_in_flags(h, h));
        lemma_flags_concat(groups_rows(items, gs.drop_last(), e1), groups_rows(items, gs.drop_last(), e2), h, h);
        let g = in_group(items, Some(gs.last()));
        lemma_bucket_flags(g, e1, e2);
        lemma_flags_concat(
            groups_rows(items, gs.drop_last(), e1) + h,
            groups_rows(items, gs.drop_last(), e2) + h,
            bucket_spec(g, e1),
            bucket_spec(g, e2),
        );
    }
}

/// Building the menu under two maps of enabled flags gives two menus that
/// are the same but for the enabled flags of their rows: the flag of the row
/// a feature becomes is the one its key has in the map (enabled when it has
/// none), and every other part of the menu does not depend on the map.
pub proof fn law_menu_flags(
    items: Seq<(Seq<char>, CustomFeature)>,
    shared: Seq<Seq<char>>,
    e1: Map<Seq<char>, bool>,
    e2: Map<Seq<char>, bool>,
)
    ensures
        differ_in_flags(menu_spec(items, shared, e1), menu_spec(items, shared, e2)),
{
    lemma_bucket_flags(in_group(items, None), e1, e2);
    lemma_groups_flags(items, group_names(items), e1, e2);
    lemma_flags_concat(
        bucket_spec(in_group(items, None), e1),
        bucket_spec(in_group(items, None), e2),
        groups_rows(items, group_names(items), e1),
        groups_rows(items, group_names(items), e2),
    );
    let sh = shared_rows(shared);
    assert(differ_in_flags(sh, sh));
    lemma_flags_concat(
        bucket_spec(in_group(items, None), e1) + groups_rows(items, group_names(items), e1),
        bucket_spec(in_group(items, None), e2) + groups_rows(items, group_names(items), e2),
        sh,
        sh,
    );
}

/// The row a feature becomes keeps the feature's texts: its prompt is the
/// feature's prompt; with no choice it is a placeholder (no key, not
/// interactive); otherwise it carries the feature's key and description and
/// lists the feature's choices in file order, as a toggle exactly when there
/// are two of them. Its enabled flag is the one its key has in the
/// overrides, and enabled when it has none.
pub proof fn law_feature_row(key: Seq<char>, f: CustomFeature, en: Map<Seq<char>, bool>)
    ensures
        feature_row_spec(key, f, en).prompt_text() == f.prompt@,
        feature_row_spec(key, f, en).is_enabled() == (if en.contains_key(key) {
            en[key]
        } else {
            true
        }),
        choice_texts(f).len() == 0 ==> feature_row_spec(key, f, en) is Placeholder
            && feature_row_spec(key, f, en).key_text() is None,
        choice_texts(f).len() > 0 ==> feature_row_spec(key, f, en).key_text() == Some(key)
            && feature_row_spec(key, f, en).description_text() == opt_view(f.description),
        (feature_row_spec(key, f, en) is Toggle) <==> choice_texts(f).len() == 2,
        (feature_row_spec(key, f, en) is Choice) <==> (choice_texts(f).len() > 0 && choice_texts(f).len()
            != 2),
        feature_row_spec(key, f, en) matches RowSpec::Toggle { choices, .. } ==> choices == choice_texts(f),
        feature_row_spec(key, f, en) matches RowSpec::Choice { choices, .. } ==> choices == choice_texts(f),
{
}

} // verus!
