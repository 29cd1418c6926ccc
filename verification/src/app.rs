//! The interactive menu's state and how each key press changes it.
use vstd::prelude::*;
use crate::model::{choices_nonempty, keys_within, rows_spec, Row, RowSpec};
use crate::strmap::{has_key, key_index, keys_distinct, lemma_key_index, lemma_pairs_set, pairs_map, pairs_set, StrMap};
use crate::text::str_eq;
use vstd::string::StringExecFns;

verus! {

/// The keys the menu reacts to.
pub enum KeyCode {
    Char(char),
    Up,
    Down,
    Enter,
    Esc,
    Backspace,
    /// Any other key.
    Other,
}

/// One screen of the menu: its title, its rows and the focused row.
pub struct MenuLevel<'a> {
    pub title: String,
    pub rows: &'a [Row],
    pub cursor: usize,
}

/// The choice list of a `Choice` row, opened over the menu.
pub struct Popup<'a> {
    pub prompt: String,
    pub key: String,
    pub choices: &'a [(String, String)],
    pub cursor: usize,
}

/// The exit confirmation dialog, shown when quitting would otherwise
/// discard staged enable/disable changes. `cursor` selects between "save
/// and exit" (0) and "discard and exit" (1). The app never touches the
/// filesystem itself; it only records the choice in `write_requested`.
pub struct ConfirmDialog {
    pub cursor: usize,
}

/// A menu screen, by its title's characters.
pub struct LevelView {
    pub title: Seq<char>,
    pub rows: Seq<Row>,
    pub cursor: int,
}

/// An open choice list, by its texts' characters.
pub struct PopupView {
    pub prompt: Seq<char>,
    pub key: Seq<char>,
    pub choices: Seq<(String, String)>,
    pub cursor: int,
}

/// The whole state of the menu.
pub struct AppView {
    /// The screens, the top-level menu first and the current one last.
    pub stack: Seq<LevelView>,
    pub popup: Option<PopupView>,
    /// The value selected for each keyed row.
    pub selections: Map<Seq<char>, String>,
    /// The live enabled state of each keyed row, in first-insertion order.
    pub enabled: Seq<(Seq<char>, bool)>,
    /// The enabled states at load.
    pub initial: Map<Seq<char>, bool>,
    /// The exit confirmation's cursor, when it is shown.
    pub confirm: Option<int>,
    pub should_quit: bool,
    pub write_requested: bool,
}

/// A menu screen's view.
pub open spec fn level_view(l: MenuLevel) -> LevelView {
    LevelView { title: l.title@, rows: l.rows@, cursor: l.cursor as int }
}

/// A choice list's view.
pub open spec fn popup_view(p: Popup) -> PopupView {
    PopupView { prompt: p.prompt@, key: p.key@, choices: p.choices@, cursor: p.cursor as int }
}

// ---------------------------------------------------------------------------
// Initial state
// ---------------------------------------------------------------------------

/// Each keyed row's default selection (its first choice's value), in
/// depth-first order.
pub open spec fn defaults_of(rows: Seq<Row>) -> Seq<(Seq<char>, String)>
    decreases rows,
{
    if rows.len() == 0 {
        Seq::empty()
    } else {
        defaults_of(rows.subrange(0, rows.len() - 1)) + row_defaults(rows[rows.len() - 1])
    }
}

/// A row's default selections: its own, or those of a submenu's rows.
pub open spec fn row_defaults(r: Row) -> Seq<(Seq<char>, String)>
    decreases r,
{
    match r {
        Row::Toggle { key, choices, .. } => seq![(key@, choices[0].1)],
        Row::Choice { key, choices, .. } => seq![(key@, choices@[0].1)],
        Row::Submenu { rows, .. } => defaults_of(rows@),
        _ => Seq::empty(),
    }
}

/// Each keyed row's baked enabled state, in depth-first order.
pub open spec fn states_of(rows: Seq<Row>) -> Seq<(Seq<char>, bool)>
    decreases rows,
{
    if rows.len() == 0 {
        Seq::empty()
    } else {
        states_of(rows.subrange(0, rows.len() - 1)) + row_states(rows[rows.len() - 1])
    }
}

/// A row's baked enabled states: its own, or those of a submenu's rows.
pub open spec fn row_states(r: Row) -> Seq<(Seq<char>, bool)>
    decreases r,
{
    match r {
        Row::Toggle { key, enabled, .. } => seq![(key@, enabled)],
        Row::Choice { key, enabled, .. } => seq![(key@, enabled)],
        Row::Submenu { rows, .. } => states_of(rows@),
        _ => Seq::empty(),
    }
}

/// A map after inserting each of `s` in turn.
pub open spec fn insert_all<T>(m: Map<Seq<char>, T>, s: Seq<(Seq<char>, T)>) -> Map<Seq<char>, T>
    decreases s.len(),
{
    if s.len() == 0 {
        m
    } else {
        insert_all(m, s.drop_last()).insert(s.last().0, s.last().1)
    }
}

/// Insertion-ordered entries after setting each of `s` in turn.
pub open spec fn set_all<T>(p: Seq<(Seq<char>, T)>, s: Seq<(Seq<char>, T)>) -> Seq<(Seq<char>, T)>
    decreases s.len(),
{
    if s.len() == 0 {
        p
    } else {
        pairs_set(set_all(p, s.drop_last()), s.last().0, s.last().1)
    }
}

/// The state a menu over `root` starts in: the top-level screen focused on
/// its first row, every keyed row's first choice selected, every keyed
/// row's baked enabled state live and remembered as the initial one.
pub open spec fn initial_view(root: Seq<Row>) -> AppView {
    let en = set_all(Seq::empty(), states_of(root));
    AppView {
        stack: seq![LevelView { title: "MENU"@, rows: root, cursor: 0 }],
        popup: None,
        selections: insert_all(Map::empty(), defaults_of(root)),
        enabled: en,
        initial: pairs_map(en),
        confirm: None,
        should_quit: false,
        write_requested: false,
    }
}

// ---------------------------------------------------------------------------
// Transitions
// ---------------------------------------------------------------------------

/// The live enabled state of a key: keys never seen are enabled.
pub open spec fn live_enabled(s: AppView, key: Seq<char>) -> bool {
    if pairs_map(s.enabled).contains_key(key) {
        pairs_map(s.enabled)[key]
    } else {
        true
    }
}

/// Quitting: at once when nothing changed since load, else through the
/// confirmation dialog (focused on "save").
pub open spec fn request_exit_spec(s: AppView) -> AppView {
    if pairs_map(s.enabled) != s.initial {
        AppView { confirm: Some(0), ..s }
    } else {
        AppView { should_quit: true, ..s }
    }
}

/// Space: flips the live enabled state of the focused row when it has a
/// key; no effect on other rows.
pub open spec fn toggle_spec(s: AppView) -> AppView {
    let lv = s.stack.last();
    if 0 <= lv.cursor < lv.rows.len() && lv.rows[lv.cursor].spec_view().key_text() is Some {
        let k = lv.rows[lv.cursor].spec_view().key_text()->0;
        AppView { enabled: pairs_set(s.enabled, k, !live_enabled(s, k)), ..s }
    } else {
        s
    }
}

/// The first position among `cs` whose value is `v`.
pub open spec fn position_of(cs: Seq<(String, String)>, v: Seq<char>) -> Option<int>
    decreases cs.len(),
{
    if cs.len() == 0 {
        None
    } else {
        match position_of(cs.drop_last(), v) {
            Some(i) => Some(i),
            None => if cs.last().1@ == v {
                Some(cs.len() - 1)
            } else {
                None
            },
        }
    }
}

/// Enter on the focused row: a submenu opens as a new screen focused on its
/// first row; a toggle switches between its two values (to the second when
/// the first is selected, else to the first); a choice opens its list
/// focused on the selected value (or the first); other rows do nothing.
pub open spec fn activate_spec(s: AppView) -> AppView {
    let lv = s.stack.last();
    if lv.rows.len() == 0 {
        s
    } else {
        match lv.rows[lv.cursor] {
            Row::Submenu { title, rows } => AppView {
                stack: s.stack.push(LevelView { title: title@, rows: rows@, cursor: 0 }),
                ..s
            },
            Row::Toggle { key, choices, .. } => {
                let next = if s.selections.contains_key(key@) && s.selections[key@]@
                    == choices[0].1@ {
                    choices[1].1
                } else {
                    choices[0].1
                };
                AppView { selections: s.selections.insert(key@, next), ..s }
            },
            Row::Choice { key, prompt, choices, .. } => {
                let cursor = if s.selections.contains_key(key@) {
                    match position_of(choices@, s.selections[key@]@) {
                        Some(i) => i,
                        None => 0,
                    }
                } else {
                    0
                };
                AppView {
                    popup: Some(
                        PopupView { prompt: prompt@, key: key@, choices: choices@, cursor },
                    ),
                    ..s
                }
            },
            _ => s,
        }
    }
}

/// The current screen with its focus moved.
pub open spec fn with_cursor(s: AppView, c: int) -> AppView {
    let lv = s.stack.last();
    AppView {
        stack: s.stack.update(s.stack.len() - 1, LevelView { cursor: c, ..lv }),
        ..s
    }
}

/// How a key press changes the menu. An open choice list takes every key
/// (Up/Down move within it, Enter selects and closes it, Esc closes it);
/// otherwise an open confirmation takes every key (Up/Down move, Enter
/// quits, asking for the write when "save" is focused, Esc cancels);
/// otherwise `q` asks to quit, Space toggles, Up/Down move within the
/// screen, Enter activates, and Esc/Backspace goes back a screen, or asks
/// to quit on the top-level one.
pub open spec fn step(s: AppView, k: KeyCode) -> AppView {
    if s.popup is Some {
        let p = s.popup->0;
        match k {
            KeyCode::Up => if p.cursor > 0 {
                AppView { popup: Some(PopupView { cursor: p.cursor - 1, ..p }), ..s }
            } else {
                s
            },
            KeyCode::Down => if p.cursor + 1 < p.choices.len() {
                AppView { popup: Some(PopupView { cursor: p.cursor + 1, ..p }), ..s }
            } else {
                s
            },
            KeyCode::Enter => AppView {
                selections: s.selections.insert(p.key, p.choices[p.cursor].1),
                popup: None,
                ..s
            },
            KeyCode::Esc => AppView { popup: None, ..s },
            _ => s,
        }
    } else if s.confirm is Some {
        let c = s.confirm->0;
        match k {
            KeyCode::Up => if c > 0 {
                AppView { confirm: Some(c - 1), ..s }
            } else {
                s
            },
            KeyCode::Down => if c + 1 < 2 {
                AppView { confirm: Some(c + 1), ..s }
            } else {
                s
            },
            KeyCode::Enter => AppView {
                write_requested: c == 0,
                confirm: None,
                should_quit: true,
                ..s
            },
            KeyCode::Esc => AppView { confirm: None, ..s },
            _ => s,
        }
    } else {
        let lv = s.stack.last();
        match k {
            KeyCode::Char(c) => if c == 'q' {
                request_exit_spec(s)
            } else if c == ' ' {
                toggle_spec(s)
            } else {
                s
            },
            KeyCode::Up => if lv.cursor > 0 {
                with_cursor(s, lv.cursor - 1)
            } else {
                s
            },
            KeyCode::Down => if lv.cursor + 1 < lv.rows.len() {
                with_cursor(s, lv.cursor + 1)
            } else {
                s
            },
            KeyCode::Enter => activate_spec(s),
            KeyCode::Esc | KeyCode::Backspace => if s.stack.len() > 1 {
                AppView { stack: s.stack.drop_last(), ..s }
            } else {
                request_exit_spec(s)
            },
            KeyCode::Other => s,
        }
    }
}

/// The keys whose live enabled state differs from the one at load, with
/// that state, in first-insertion order.
pub open spec fn diff_of(en: Seq<(Seq<char>, bool)>, initial: Map<Seq<char>, bool>) -> Seq<
    (Seq<char>, bool),
>
    decreases en.len(),
{
    if en.len() == 0 {
        Seq::empty()
    } else {
        let p = diff_of(en.drop_last(), initial);
        let e = en.last();
        if initial.contains_key(e.0) && initial[e.0] == e.1 {
            p
        } else {
            p.push(e)
        }
    }
}

/// The state the menu can be in: a screen is always shown, every focus is
/// on an existing entry (or 0 on an empty screen), keyed rows' keys are
/// distinct in the live state, the keys with a live state are exactly the
/// keys known at load, every keyed row shown has such a key, and every
/// choice row shown has a choice.
pub open spec fn view_wf(s: AppView) -> bool {
    &&& s.stack.len() >= 1
    &&& forall|i: int|
        0 <= i < s.stack.len() ==> {
            let l = #[trigger] s.stack[i];
            &&& (l.cursor == 0 || (0 <= l.cursor < l.rows.len()))
            &&& choices_nonempty(rows_spec(l.rows))
            &&& keys_within(rows_spec(l.rows), s.initial.dom())
        }
    &&& s.popup matches Some(p) ==> 0 <= p.cursor < p.choices.len()
    &&& s.confirm matches Some(c) ==> 0 <= c < 2
    &&& keys_distinct(s.enabled)
    &&& forall|k: Seq<char>| #[trigger] s.initial.contains_key(k) ==> pairs_map(s.enabled).contains_key(k)
    &&& forall|k: Seq<char>| #[trigger] pairs_map(s.enabled).contains_key(k) ==> s.initial.contains_key(k)
}


// ---------------------------------------------------------------------------
// The state
// ---------------------------------------------------------------------------

/// Inserting each of `a` and then each of `b` is inserting each of `a + b`.
pub proof fn lemma_insert_all_concat<T>(m: Map<Seq<char>, T>, a: Seq<(Seq<char>, T)>, b: Seq<(Seq<char>, T)>)
    ensures
        insert_all(m, a + b) == insert_all(insert_all(m, a), b),
    decreases b.len(),
{
    if b.len() == 0 {
        assert(a + b =~= a);
    } else {
        lemma_insert_all_concat(m, a, b.drop_last());
        assert((a + b).drop_last() =~= a + b.drop_last());
        assert((a + b).last() == b.last());
    }
}

/// Setting each of `a` and then each of `b` is setting each of `a + b`.
pub proof fn lemma_set_all_concat<T>(p: Seq<(Seq<char>, T)>, a: Seq<(Seq<char>, T)>, b: Seq<(Seq<char>, T)>)
    ensures
        set_all(p, a + b) == set_all(set_all(p, a), b),
    decreases b.len(),
{
    if b.len() == 0 {
        assert(a + b =~= a);
    } else {
        lemma_set_all_concat(p, a, b.drop_last());
        assert((a + b).drop_last() =~= a + b.drop_last());
        assert((a + b).last() == b.last());
    }
}

/// Setting each of `s` in turn keeps the keys distinct, and leaves every
/// key of `s` with an entry.
proof fn lemma_set_all_keys<T>(p: Seq<(Seq<char>, T)>, s: Seq<(Seq<char>, T)>)
    requires
        keys_distinct(p),
    ensures
        keys_distinct(set_all(p, s)),
        forall|k: Seq<char>| has_key(s, k) ==> #[trigger] pairs_map(set_all(p, s)).contains_key(k),
    decreases s.len(),
{
    if s.len() > 0 {
        let d = s.drop_last();
        lemma_set_all_keys(p, d);
        lemma_pairs_set(set_all(p, d), s.last().0, s.last().1);
        assert forall|k: Seq<char>| has_key(s, k) implies #[trigger] pairs_map(set_all(p, s)).contains_key(k) by {
            let w = choose|w: int| 0 <= w < s.len() && #[trigger] s[w].0 == k;
            if w < d.len() {
                assert(d[w].0 == k);
            }
        }
    }
}

/// Every keyed row of a tree, at any depth, has its key among the keys of
/// the tree's baked states.
proof fn lemma_states_keys(rows: Seq<Row>, ks: Set<Seq<char>>)
    requires
        forall|k: Seq<char>| has_key(states_of(rows), k) ==> #[trigger] ks.contains(k),
    ensures
        keys_within(rows_spec(rows), ks),
    decreases rows,
{
    if rows.len() > 0 {
        let init = rows.subrange(0, rows.len() - 1);
        let last = rows[rows.len() - 1];
        let st = states_of(rows);
        assert(st == states_of(init) + row_states(last));
        assert forall|k: Seq<char>| has_key(states_of(init), k) implies #[trigger] ks.contains(k) by {
            let w = choose|w: int| 0 <= w < states_of(init).len() && #[trigger] states_of(init)[w].0 == k;
            assert(st[w].0 == k);
        }
        lemma_states_keys(init, ks);
        let rs = rows_spec(rows);
        assert(rs == rows_spec(init).push(last.spec_view()));
        let n = states_of(init).len() as int;
        match last {
            Row::Submenu { rows: sub, .. } => {
                assert(row_states(last) == states_of(sub@));
                assert forall|k: Seq<char>| has_key(states_of(sub@), k) implies #[trigger] ks.contains(k) by {
                    let w = choose|w: int| 0 <= w < states_of(sub@).len() && #[trigger] states_of(sub@)[w].0 == k;
                    assert(st[n + w].0 == k);
                }
                assert(decreases_to!(rows => rows[rows.len() - 1]));
                lemma_states_keys(sub@, ks);
            },
            Row::Toggle { key, .. } => {
                assert(st[n].0 == key@);
            },
            Row::Choice { key, .. } => {
                assert(st[n].0 == key@);
            },
            _ => {},
        }
        assert forall|i: int| 0 <= i < rs.len() implies match #[trigger] rs[i] {
            RowSpec::Submenu { rows: sub, .. } => keys_within(sub, ks),
            RowSpec::Toggle { key, .. } => ks.contains(key),
            RowSpec::Choice { key, .. } => ks.contains(key),
            _ => true,
        } by {
            if i < rs.len() - 1 {
                assert(rs[i] == rows_spec(init)[i]);
            }
        }
    }
}

/// Seeds the selections with each keyed row's first choice value, depth
/// first.
fn init_selections(rows: &[Row], selections: &mut StrMap<String>)
    requires
        choices_nonempty(rows_spec(rows@)),
    ensures
        final(selections)@ == insert_all(old(selections)@, defaults_of(rows@)),
    decreases rows@,
{
    proof {
        crate::model::lemma_rows_spec_index(rows@);
    }
    let mut i: usize = 0;
    while i < rows.len()
        invariant
            i <= rows@.len(),
            choices_nonempty(rows_spec(rows@)),
            rows_spec(rows@).len() == rows@.len(),
            forall|j: int| 0 <= j < rows@.len() ==> #[trigger] rows_spec(rows@)[j] == rows@[j].spec_view(),
            selections@ == insert_all(old(selections)@, defaults_of(rows@.take(i as int))),
        decreases rows.len() - i,
    {
        let ghost before = selections@;
        let ghost pre = rows@.take(i as int);
        assert(rows@.take(i + 1).subrange(0, i as int) =~= pre);
        assert(defaults_of(rows@.take(i + 1)) == defaults_of(pre) + row_defaults(rows@[i as int]));
        proof {
            lemma_insert_all_concat(old(selections)@, defaults_of(pre), row_defaults(rows@[i as int]));
        }
        let row = &rows[i];
        assert(rows_spec(rows@)[i as int] == row.spec_view());
        match row {
            Row::Toggle { key, choices, .. } => {
                selections.insert(key.clone(), choices[0].1.clone());
                assert(row_defaults(*row) =~= seq![(key@, choices[0].1)]);
                assert(insert_all(before, seq![(key@, choices[0].1)]) == before.insert(key@, choices[0].1)) by {
                    assert(seq![(key@, choices[0].1)].drop_last() =~= Seq::<(Seq<char>, String)>::empty());
                    assert(insert_all(before, Seq::<(Seq<char>, String)>::empty()) == before);
                }
            },
            Row::Choice { key, choices, .. } => {
                assert(choices@.len() > 0);
                selections.insert(key.clone(), choices[0].1.clone());
                assert(row_defaults(*row) =~= seq![(key@, choices@[0].1)]);
                assert(insert_all(before, seq![(key@, choices@[0].1)]) == before.insert(key@, choices@[0].1)) by {
                    assert(seq![(key@, choices@[0].1)].drop_last() =~= Seq::<(Seq<char>, String)>::empty());
                    assert(insert_all(before, Seq::<(Seq<char>, String)>::empty()) == before);
                }
            },
            Row::Submenu { rows: sub, .. } => {
                assert(decreases_to!(rows@ => rows@[i as int]));
                init_selections(sub.as_slice(), selections);
            },
            Row::GroupHeader { .. } => {},
            Row::Placeholder { .. } => {},
        }
        i = i + 1;
    }
    assert(rows@.take(rows@.len() as int) =~= rows@);
}

/// Seeds the live enabled states with each keyed row's baked state, depth
/// first. Placeholder rows are left out: Space never acts on them.
fn init_enabled(rows: &[Row], enabled: &mut StrMap<bool>)
    ensures
        final(enabled).pairs() == set_all(old(enabled).pairs(), states_of(rows@)),
    decreases rows@,
{
    let mut i: usize = 0;
    while i < rows.len()
        invariant
            i <= rows@.len(),
            enabled.pairs() == set_all(old(enabled).pairs(), states_of(rows@.take(i as int))),
        decreases rows.len() - i,
    {
        let ghost before = enabled.pairs();
        let ghost pre = rows@.take(i as int);
        assert(rows@.take(i + 1).subrange(0, i as int) =~= pre);
        assert(states_of(rows@.take(i + 1)) == states_of(pre) + row_states(rows@[i as int]));
        proof {
            lemma_set_all_concat(old(enabled).pairs(), states_of(pre), row_states(rows@[i as int]));
        }
        let row = &rows[i];
        match row {
            Row::Toggle { key, enabled: initial, .. } => {
                enabled.insert(key.clone(), *initial);
                assert(row_states(*row) =~= seq![(key@, *initial)]);
                assert(set_all(before, seq![(key@, *initial)]) == pairs_set(before, key@, *initial)) by {
                    assert(seq![(key@, *initial)].drop_last() =~= Seq::<(Seq<char>, bool)>::empty());
                    assert(set_all(before, Seq::<(Seq<char>, bool)>::empty()) == before);
                }
            },
            Row::Choice { key, enabled: initial, .. } => {
                enabled.insert(key.clone(), *initial);
                assert(row_states(*row) =~= seq![(key@, *initial)]);
                assert(set_all(before, seq![(key@, *initial)]) == pairs_set(before, key@, *initial)) by {
                    assert(seq![(key@, *initial)].drop_last() =~= Seq::<(Seq<char>, bool)>::empty());
                    assert(set_all(before, Seq::<(Seq<char>, bool)>::empty()) == before);
                }
            },
            Row::Submenu { rows: sub, .. } => {
                assert(decreases_to!(rows@ => rows@[i as int]));
                init_enabled(sub.as_slice(), enabled);
            },
            Row::GroupHeader { .. } => {},
            Row::Placeholder { .. } => {},
        }
        i = i + 1;
    }
    assert(rows@.take(rows@.len() as int) =~= rows@);
}


/// The interactive menu: the stack of screens, an open choice list or
/// confirmation, the selections and the live enabled states.
pub struct App<'a> {
    stack: Vec<MenuLevel<'a>>,
    popup: Option<Popup<'a>>,
    selections: StrMap<String>,
    enabled: StrMap<bool>,
    initial_enabled: StrMap<bool>,
    confirm: Option<ConfirmDialog>,
    pub should_quit: bool,
    write_requested: bool,
}

impl<'a> View for App<'a> {
    type V = AppView;

    closed spec fn view(&self) -> AppView {
        AppView {
            stack: self.stack@.map_values(|l: MenuLevel<'a>| level_view(l)),
            popup: match self.popup {
                Some(p) => Some(popup_view(p)),
                None => None,
            },
            selections: self.selections@,
            enabled: self.enabled.pairs(),
            initial: self.initial_enabled@,
            confirm: match self.confirm {
                Some(c) => Some(c.cursor as int),
                None => None,
            },
            should_quit: self.should_quit,
            write_requested: self.write_requested,
        }
    }
}

impl<'a> App<'a> {
    /// The menu can go on taking keys.
    pub open spec fn wf(&self) -> bool {
        view_wf(self@)
    }

    /// A menu over `root`, in its initial state.
    pub fn new(root: &'a [Row]) -> (app: Self)
        requires
            choices_nonempty(rows_spec(root@)),
        ensures
            app.wf(),
            app@ == initial_view(root@),
    {
        let mut selections: StrMap<String> = StrMap::new();
        init_selections(root, &mut selections);
        let mut enabled: StrMap<bool> = StrMap::new();
        init_enabled(root, &mut enabled);
        let initial_enabled = enabled.copy();
        // The keys of the live states are distinct (from the map's contract).
        let _ = enabled.len();
        proof {
            let st = states_of(root@);
            lemma_set_all_keys(Seq::<(Seq<char>, bool)>::empty(), st);
            lemma_states_keys(root@, initial_enabled@.dom());
        }
        let mut stack: Vec<MenuLevel<'a>> = Vec::new();
        stack.push(MenuLevel { title: String::from_str("MENU"), rows: root, cursor: 0 });
        let app = App {
            stack,
            popup: None,
            selections,
            enabled,
            initial_enabled,
            confirm: None,
            should_quit: false,
            write_requested: false,
        };
        assert(app@.stack =~= initial_view(root@).stack);
        app
    }

    /// The current screen.
    pub fn current_level(&self) -> (r: &MenuLevel<'a>)
        requires
            self.wf(),
        ensures
            level_view(*r) == self@.stack.last(),
    {
        let n = self.stack.len();
        assert(self@.stack.len() == self.stack@.len());
        &self.stack[n - 1]
    }

    /// The open choice list, if any.
    pub fn popup(&self) -> (r: Option<&Popup<'a>>)
        ensures
            r is Some <==> self@.popup is Some,
            r matches Some(p) ==> popup_view(*p) == self@.popup->0,
    {
        match &self.popup {
            Some(p) => Some(p),
            None => None,
        }
    }

    /// The titles of the screens from the top-level one to the current one,
    /// joined by `" > "`.
    pub fn breadcrumb(&self) -> (s: String)
        ensures
            s@ == crate::text::join(
                self@.stack.map_values(|l: LevelView| l.title),
                " > "@,
            ),
    {
        let ghost ts = self@.stack.map_values(|l: LevelView| l.title);
        let sep = " > ";
        let mut s = String::new();
        let mut i: usize = 0;
        while i < self.stack.len()
            invariant
                i <= self.stack@.len(),
                ts == self@.stack.map_values(|l: LevelView| l.title),
                ts.len() == self.stack@.len(),
                s@ == crate::text::join(ts.take(i as int), sep@),
            decreases self.stack.len() - i,
        {
            assert(ts[i as int] == self.stack@[i as int].title@);
            assert(ts.take(i + 1).drop_last() =~= ts.take(i as int));
            if i > 0 {
                s.append(sep);
            } else {
                assert(crate::text::join(ts.take(1), sep@) == ts[0]);
                assert(s@ + ts[0] =~= ts[0]);
            }
            s.append(self.stack[i].title.as_str());
            i = i + 1;
        }
        assert(ts.take(ts.len() as int) =~= ts);
        s
    }

    /// The value selected for `key`, if it is a keyed row's.
    pub fn selection(&self, key: &str) -> (r: Option<&str>)
        ensures
            r is Some <==> self@.selections.contains_key(key@),
            r matches Some(v) ==> v@ == self@.selections[key@]@,
    {
        match self.selections.get(key) {
            Some(v) => Some(v.as_str()),
            None => None,
        }
    }

    /// The live enabled state of a `custom_features` key, reflecting any
    /// toggles made this session; keys never seen are enabled.
    pub fn is_enabled(&self, key: &str) -> (b: bool)
        ensures
            b == live_enabled(self@, key@),
    {
        match self.enabled.get(key) {
            Some(b) => *b,
            None => true,
        }
    }

    /// The exit confirmation, if shown.
    pub fn confirm_dialog(&self) -> (r: Option<&ConfirmDialog>)
        ensures
            r is Some <==> self@.confirm is Some,
            r matches Some(c) ==> c.cursor == self@.confirm->0,
    {
        match &self.confirm {
            Some(c) => Some(c),
            None => None,
        }
    }

    /// Whether the menu has been asked to close.
    pub fn should_quit(&self) -> (b: bool)
        ensures
            b == self@.should_quit,
    {
        self.should_quit
    }

    /// Whether the user chose to save on exit.
    pub fn write_requested(&self) -> (b: bool)
        ensures
            b == self@.write_requested,
    {
        self.write_requested
    }

    /// The keys whose enabled state changed since load, with their new
    /// state, for the caller to apply to the source file.
    pub fn enabled_diff(&self) -> (r: Vec<(String, bool)>)
        ensures
            r@.map_values(|e: (String, bool)| (e.0@, e.1)) == diff_of(self@.enabled, self@.initial),
    {
        let ghost en = self@.enabled;
        let mut r: Vec<(String, bool)> = Vec::new();
        let n = self.enabled.len();
        let mut i: usize = 0;
        while i < n
            invariant
                i <= n == en.len(),
                en == self.enabled.pairs(),
                en == self@.enabled,
                r@.map_values(|e: (String, bool)| (e.0@, e.1)) == diff_of(en.take(i as int), self@.initial),
            decreases n - i,
        {
            assert(en.take(i + 1).drop_last() =~= en.take(i as int));
            assert(en.take(i + 1).last() == en[i as int]);
            let (k, v) = self.enabled.entry_at(i);
            let unchanged = match self.initial_enabled.get(k.as_str()) {
                Some(b) => *b == *v,
                None => false,
            };
            if !unchanged {
                let ghost before = r@;
                r.push((k.clone(), *v));
                assert(r@.map_values(|e: (String, bool)| (e.0@, e.1)) =~= before.map_values(
                    |e: (String, bool)| (e.0@, e.1),
                ).push((k@, *v)));
            }
            i = i + 1;
        }
        assert(en.take(n as int) =~= en);
        r
    }
}


impl<'a> App<'a> {
    /// Reacts to one key press; see `step`.
    pub fn handle_key(&mut self, code: KeyCode)
        requires
            old(self).wf(),
        ensures
            final(self).wf(),
            final(self)@ == step(old(self)@, code),
    {
        if self.popup.is_some() {
            let mut p = self.popup.take().unwrap();
            assert(old(self)@.popup == Some(popup_view(p)));
            assert(p.cursor < p.choices@.len());
            match code {
                KeyCode::Up => {
                    if p.cursor > 0 {
                        p.cursor = p.cursor - 1;
                    }
                    self.popup = Some(p);
                },
                KeyCode::Down => {
                    let len = p.choices.len();
                    if p.cursor + 1 < len {
                        p.cursor = p.cursor + 1;
                    }
                    self.popup = Some(p);
                },
                KeyCode::Enter => {
                    let value = p.choices[p.cursor].1.clone();
                    self.selections.insert(p.key.clone(), value);
                },
                KeyCode::Esc => {},
                _ => {
                    self.popup = Some(p);
                },
            }
            assert(self@.stack =~= old(self)@.stack);
            return;
        }
        if self.confirm.is_some() {
            let mut c = self.confirm.take().unwrap();
            match code {
                KeyCode::Up => {
                    if c.cursor > 0 {
                        c.cursor = c.cursor - 1;
                    }
                    self.confirm = Some(c);
                },
                KeyCode::Down => {
                    if c.cursor + 1 < 2 {
                        c.cursor = c.cursor + 1;
                    }
                    self.confirm = Some(c);
                },
                KeyCode::Enter => {
                    self.write_requested = c.cursor == 0;
                    self.should_quit = true;
                },
                KeyCode::Esc => {
                    // The dialog closes; the pending change stays, unwritten.
                },
                _ => {
                    self.confirm = Some(c);
                },
            }
            assert(self@.stack =~= old(self)@.stack);
            return;
        }
        match code {
            KeyCode::Char(ch) => {
                if ch == 'q' {
                    self.request_exit();
                } else if ch == ' ' {
                    self.toggle_current_row_enabled();
                }
            },
            KeyCode::Up => {
                let mut level = self.stack.pop().unwrap();
                if level.cursor > 0 {
                    level.cursor = level.cursor - 1;
                }
                self.stack.push(level);
                assert(self@.stack =~= if old(self)@.stack.last().cursor > 0 {
                    with_cursor(old(self)@, old(self)@.stack.last().cursor - 1).stack
                } else {
                    old(self)@.stack
                });
            },
            KeyCode::Down => {
                let mut level = self.stack.pop().unwrap();
                assert(old(self)@.stack.last() == level_view(level));
                assert(old(self)@.stack[old(self)@.stack.len() - 1] == level_view(level));
                let len = level.rows.len();
                if level.cursor + 1 < len {
                    level.cursor = level.cursor + 1;
                }
                self.stack.push(level);
                assert(self@.stack =~= if old(self)@.stack.last().cursor + 1 < old(
                    self,
                )@.stack.last().rows.len() {
                    with_cursor(old(self)@, old(self)@.stack.last().cursor + 1).stack
                } else {
                    old(self)@.stack
                });
            },
            KeyCode::Enter => self.activate(),
            KeyCode::Esc | KeyCode::Backspace => {
                if self.stack.len() > 1 {
                    self.stack.pop();
                    assert(self@.stack =~= old(self)@.stack.drop_last());
                } else {
                    self.request_exit();
                }
            },
            KeyCode::Other => {},
        }
    }

    /// Quits at once if nothing has changed; otherwise stages the
    /// confirmation, so that a habitual `q` cannot silently discard edits.
    fn request_exit(&mut self)
        requires
            old(self).wf(),
            old(self)@.popup is None,
            old(self)@.confirm is None,
        ensures
            final(self).wf(),
            final(self)@ == request_exit_spec(old(self)@),
    {
        if !self.enabled.same_as(&self.initial_enabled) {
            self.confirm = Some(ConfirmDialog { cursor: 0 });
        } else {
            self.should_quit = true;
        }
        assert(self@.stack =~= old(self)@.stack);
    }

    /// Space: flips the enabled state of the focused row when it is backed
    /// by a key; a no-op on group headers, submenus and placeholders.
    fn toggle_current_row_enabled(&mut self)
        requires
            old(self).wf(),
        ensures
            final(self).wf(),
            final(self)@ == toggle_spec(old(self)@),
    {
        let n = self.stack.len();
        let rows: &'a [Row] = self.stack[n - 1].rows;
        let cursor = self.stack[n - 1].cursor;
        assert(self@.stack.last() == level_view(self.stack@[n - 1]));
        if cursor < rows.len() {
            match rows[cursor].key() {
                Some(key) => {
                    let current = self.is_enabled(key);
                    proof {
                        lemma_pairs_set(self.enabled.pairs(), key@, !current);
                        crate::model::lemma_rows_spec_index(rows@);
                        let lv = self@.stack[self@.stack.len() - 1];
                        assert(keys_within(rows_spec(lv.rows), self@.initial.dom()));
                        assert(rows_spec(rows@)[cursor as int] == rows@[cursor as int].spec_view());
                        assert(self@.initial.contains_key(key@));
                    }
                    self.enabled.insert(String::from_str(key), !current);
                },
                None => {},
            }
        }
        assert(self@.stack =~= old(self)@.stack);
    }

    /// Enter on the focused row; see `activate_spec`.
    fn activate(&mut self)
        requires
            old(self).wf(),
            old(self)@.popup is None,
        ensures
            final(self).wf(),
            final(self)@ == activate_spec(old(self)@),
    {
        let n = self.stack.len();
        let rows: &'a [Row] = self.stack[n - 1].rows;
        let cursor = self.stack[n - 1].cursor;
        assert(self@.stack.last() == level_view(self.stack@[n - 1]));
        if rows.len() == 0 {
            return;
        }
        let ghost lv = self@.stack.last();
        assert(view_wf(self@));
        assert(lv == self@.stack[self@.stack.len() - 1]);
        assert(0 <= lv.cursor < lv.rows.len());
        proof {
            crate::model::lemma_rows_spec_index(rows@);
        }
        let row: &'a Row = &rows[cursor];
        assert(rows_spec(rows@)[cursor as int] == row.spec_view());
        match row {
            Row::Submenu { title, rows: sub } => {
                self.stack.push(MenuLevel { title: title.clone(), rows: sub.as_slice(), cursor: 0 });
                assert(self@.stack =~= old(self)@.stack.push(
                    LevelView { title: title@, rows: sub@, cursor: 0 },
                ));
            },
            Row::Toggle { key, choices, .. } => {
                let next = match self.selections.get(key.as_str()) {
                    Some(cur) => if str_eq(cur.as_str(), choices[0].1.as_str()) {
                        choices[1].1.clone()
                    } else {
                        choices[0].1.clone()
                    },
                    None => choices[0].1.clone(),
                };
                self.selections.insert(key.clone(), next);
                assert(self@.stack =~= old(self)@.stack);
            },
            Row::Choice { key, prompt, choices, .. } => {
                assert(choices@.len() > 0);
                let pos = match self.selections.get(key.as_str()) {
                    Some(cur) => match position(choices.as_slice(), cur.as_str()) {
                        Some(i) => i,
                        None => 0,
                    },
                    None => 0,
                };
                self.popup = Some(
                    Popup {
                        prompt: prompt.clone(),
                        key: key.clone(),
                        choices: choices.as_slice(),
                        cursor: pos,
                    },
                );
                assert(self@.stack =~= old(self)@.stack);
            },
            Row::GroupHeader { .. } => {},
            Row::Placeholder { .. } => {},
        }
    }
}

/// The first position among `cs` whose value is `v`.
fn position(cs: &[(String, String)], v: &str) -> (r: Option<usize>)
    ensures
        r is Some <==> position_of(cs@, v@) is Some,
        r matches Some(i) ==> i == position_of(cs@, v@)->0 && i < cs@.len(),
{
    let mut i: usize = 0;
    while i < cs.len()
        invariant
            i <= cs@.len(),
            position_of(cs@.take(i as int), v@) is None,
        decreases cs.len() - i,
    {
        assert(cs@.take(i + 1).drop_last() =~= cs@.take(i as int));
        if str_eq(cs[i].1.as_str(), v) {
            assert(position_of(cs@.take(i + 1), v@) == Some(i as int));
            proof {
                lemma_position_prefix(cs@, v@, i as int);
            }
            return Some(i);
        }
        i = i + 1;
    }
    assert(cs@.take(cs@.len() as int) =~= cs@);
    None
}

/// A position found in a prefix is the position in the whole.
proof fn lemma_position_prefix(cs: Seq<(String, String)>, v: Seq<char>, i: int)
    requires
        0 <= i < cs.len(),
        position_of(cs.take(i + 1), v) == Some(i),
    ensures
        position_of(cs, v) == Some(i),
    decreases cs.len(),
{
    if cs.len() > i + 1 {
        assert(cs.drop_last().take(i + 1) =~= cs.take(i + 1));
        lemma_position_prefix(cs.drop_last(), v, i);
    } else {
        assert(cs.take(i + 1) =~= cs);
    }
}

// ---------------------------------------------------------------------------
// Laws
// ---------------------------------------------------------------------------

/// The differing entries are none exactly when every entry has its load
/// state.
proof fn lemma_diff_none(en: Seq<(Seq<char>, bool)>, initial: Map<Seq<char>, bool>)
    ensures
        diff_of(en, initial).len() == 0 <==> forall|i: int|
            0 <= i < en.len() ==> initial.contains_key(#[trigger] en[i].0) && initial[en[i].0]
                == en[i].1,
    decreases en.len(),
{
    if en.len() > 0 {
        lemma_diff_none(en.drop_last(), initial);
        let p = diff_of(en.drop_last(), initial);
        if diff_of(en, initial).len() == 0 {
            assert forall|i: int| 0 <= i < en.len() implies initial.contains_key(#[trigger] en[i].0)
                && initial[en[i].0] == en[i].1 by {
                if i < en.len() - 1 {
                    assert(en.drop_last()[i] == en[i]);
                }
            }
        } else if forall|i: int|
            0 <= i < en.len() ==> initial.contains_key(#[trigger] en[i].0) && initial[en[i].0]
                == en[i].1 {
            assert forall|i: int| 0 <= i < en.drop_last().len() implies initial.contains_key(
                #[trigger] en.drop_last()[i].0,
            ) && initial[en.drop_last()[i].0] == en.drop_last()[i].1 by {
                assert(en.drop_last()[i] == en[i]);
            }
            assert(initial.contains_key(en[en.len() - 1].0));
        }
    }
}

/// There is no pending change (the diff is empty) exactly when the live
/// states are the load states.
pub proof fn lemma_no_pending_change(s: AppView)
    requires
        view_wf(s),
    ensures
        diff_of(s.enabled, s.initial).len() == 0 <==> pairs_map(s.enabled) == s.initial,
{
    let en = s.enabled;
    lemma_diff_none(en, s.initial);
    if pairs_map(en) == s.initial {
        assert forall|i: int| 0 <= i < en.len() implies s.initial.contains_key(#[trigger] en[i].0)
            && s.initial[en[i].0] == en[i].1 by {
            crate::strmap::lemma_key_index(en, i);
        }
    }
    if diff_of(en, s.initial).len() == 0 {
        assert forall|k: Seq<char>| #[trigger] pairs_map(en).contains_key(k) implies s.initial.contains_key(
            k,
        ) && s.initial[k] == pairs_map(en)[k] by {
            let j = crate::strmap::key_index(en, k);
            crate::strmap::lemma_key_index(en, j);
        }
        assert(pairs_map(en) =~= s.initial);
    }
}

/// The differing entries are the live entries that differ from their load
/// state.
proof fn lemma_diff_contains(en: Seq<(Seq<char>, bool)>, initial: Map<Seq<char>, bool>)
    ensures
        forall|e: (Seq<char>, bool)|
            #[trigger] diff_of(en, initial).contains(e) <==> (en.contains(e) && !(initial.contains_key(e.0)
                && initial[e.0] == e.1)),
    decreases en.len(),
{
    if en.len() > 0 {
        let d = en.drop_last();
        lemma_diff_contains(d, initial);
        let p = diff_of(d, initial);
        assert forall|e: (Seq<char>, bool)|
            #[trigger] diff_of(en, initial).contains(e) <==> (en.contains(e) && !(initial.contains_key(e.0)
                && initial[e.0] == e.1)) by {
            if en.contains(e) {
                let i = choose|i: int| 0 <= i < en.len() && en[i] == e;
                if i < d.len() {
                    assert(d[i] == e);
                    assert(d.contains(e));
                }
            }
            if d.contains(e) {
                let i = choose|i: int| 0 <= i < d.len() && d[i] == e;
                assert(en[i] == e);
            }
            if p.contains(e) {
                let i = choose|i: int| 0 <= i < p.len() && p[i] == e;
                if diff_of(en, initial) != p {
                    assert(diff_of(en, initial)[i] == e);
                }
            }
            if diff_of(en, initial) != p {
                assert(diff_of(en, initial) == p.push(en.last()));
                if diff_of(en, initial).contains(e) {
                    let i = choose|i: int| 0 <= i < p.len() + 1 && diff_of(en, initial)[i] == e;
                    if i < p.len() {
                        assert(p[i] == e);
                    }
                }
                if e == en.last() {
                    assert(diff_of(en, initial)[p.len() as int] == e);
                }
            }
            if e == en.last() {
                assert(en[en.len() - 1] == e);
            }
        }
    }
}

/// The differing entries of live entries with distinct keys have distinct
/// keys.
proof fn lemma_diff_distinct(en: Seq<(Seq<char>, bool)>, initial: Map<Seq<char>, bool>)
    requires
        keys_distinct(en),
    ensures
        keys_distinct(diff_of(en, initial)),
    decreases en.len(),
{
    if en.len() > 0 {
        let d = en.drop_last();
        assert forall|i: int, j: int| 0 <= i < d.len() && 0 <= j < d.len() && i != j implies #[trigger] d[i].0
            != #[trigger] d[j].0 by {
            assert(en[i].0 != en[j].0);
        }
        lemma_diff_distinct(d, initial);
        lemma_diff_contains(d, initial);
        let p = diff_of(d, initial);
        let q = diff_of(en, initial);
        if q != p {
            assert forall|i: int, j: int| 0 <= i < q.len() && 0 <= j < q.len() && i != j implies #[trigger] q[i].0
                != #[trigger] q[j].0 by {
                if i < p.len() && j < p.len() {
                    assert(p[i].0 != p[j].0);
                } else {
                    let m = if i < p.len() { i } else { j };
                    assert(p.contains(p[m]));
                    let w = choose|w: int| 0 <= w < d.len() && d[w] == p[m];
                    assert(en[w].0 != en[en.len() - 1].0);
                }
            }
        }
    }
}

/// In every state the menu reaches (from `App::new`, through `handle_key`),
/// the keys with a live enabled state are exactly the keys loaded at start.
pub proof fn law_live_keys_are_loaded_keys(s: AppView)
    requires
        view_wf(s),
    ensures
        pairs_map(s.enabled).dom() == s.initial.dom(),
{
    assert(pairs_map(s.enabled).dom() =~= s.initial.dom());
}

/// The pending changes, as `enabled_diff` lists them: each key whose live
/// enabled state differs from its state at load, with its live state, each
/// key once; there are none exactly when every key is back at its load
/// state.
pub proof fn law_pending_changes(s: AppView)
    requires
        view_wf(s),
    ensures
        keys_distinct(diff_of(s.enabled, s.initial)),
        forall|k: Seq<char>, v: bool|
            #[trigger] diff_of(s.enabled, s.initial).contains((k, v)) <==> (s.initial.contains_key(k)
                && live_enabled(s, k) == v && s.initial[k] != v),
        diff_of(s.enabled, s.initial).len() == 0 <==> forall|k: Seq<char>|
            #[trigger] s.initial.contains_key(k) ==> live_enabled(s, k) == s.initial[k],
{
    let en = s.enabled;
    lemma_diff_distinct(en, s.initial);
    lemma_diff_contains(en, s.initial);
    lemma_no_pending_change(s);
    assert forall|k: Seq<char>, v: bool|
        #[trigger] diff_of(s.enabled, s.initial).contains((k, v)) <==> (s.initial.contains_key(k)
            && live_enabled(s, k) == v && s.initial[k] != v) by {
        if en.contains((k, v)) {
            let i = choose|i: int| 0 <= i < en.len() && en[i] == (k, v);
            lemma_key_index(en, i);
            assert(pairs_map(en).contains_key(k));
            assert(pairs_map(en)[k] == v);
            assert(s.initial.contains_key(k));
            assert(live_enabled(s, k) == v);
        }
        if s.initial.contains_key(k) && live_enabled(s, k) == v {
            assert(pairs_map(en).contains_key(k));
            assert(has_key(en, k));
            let j = key_index(en, k);
            lemma_key_index(en, j);
            assert(pairs_map(en)[k] == en[j].1);
            assert(en[j] == (k, v));
            assert(en.contains((k, v)));
        }
    }
    if forall|k: Seq<char>| #[trigger] s.initial.contains_key(k) ==> live_enabled(s, k) == s.initial[k] {
        assert(pairs_map(en) =~= s.initial);
    }
}

/// Quitting (`q`, or Esc/Backspace on the top-level screen) ends the
/// session at once when there is no pending change, and otherwise opens
/// the confirmation, focused on "save", without quitting.
pub proof fn law_quit_asks_only_with_pending_changes(s: AppView, k: KeyCode)
    requires
        view_wf(s),
        s.popup is None,
        s.confirm is None,
        k == KeyCode::Char('q') || (s.stack.len() == 1 && (k == KeyCode::Esc || k
            == KeyCode::Backspace)),
    ensures
        diff_of(s.enabled, s.initial).len() == 0 ==> step(s, k) == (AppView { should_quit: true, ..s }),
        diff_of(s.enabled, s.initial).len() > 0 ==> step(s, k) == (AppView { confirm: Some(0), ..s }),
{
    lemma_no_pending_change(s);
}

/// Space pressed twice on the same row leaves every key's live enabled
/// state, and everything else, as it was.
pub proof fn law_space_twice_restores(s: AppView, key: Seq<char>)
    requires
        view_wf(s),
        s.popup is None,
        s.confirm is None,
    ensures
        live_enabled(step(step(s, KeyCode::Char(' ')), KeyCode::Char(' ')), key) == live_enabled(
            s,
            key,
        ),
        (AppView { enabled: s.enabled, ..step(step(s, KeyCode::Char(' ')), KeyCode::Char(' ')) }) == s,
{
    let t1 = step(s, KeyCode::Char(' '));
    let t2 = step(t1, KeyCode::Char(' '));
    assert(t1 == toggle_spec(s));
    assert(t2 == toggle_spec(t1));
    let lv = s.stack.last();
    if 0 <= lv.cursor < lv.rows.len() && lv.rows[lv.cursor].spec_view().key_text() is Some {
        let k = lv.rows[lv.cursor].spec_view().key_text()->0;
        lemma_pairs_set(s.enabled, k, !live_enabled(s, k));
        lemma_pairs_set(t1.enabled, k, !live_enabled(t1, k));
    }
}

/// Space on a row without a key (a group header, a submenu, a placeholder)
/// or on an empty screen changes nothing.
pub proof fn law_space_ignores_keyless_rows(s: AppView)
    requires
        s.popup is None,
        s.confirm is None,
        !(0 <= s.stack.last().cursor < s.stack.last().rows.len()) || s.stack.last().rows[s.stack.last().cursor].spec_view().key_text() is None,
    ensures
        step(s, KeyCode::Char(' ')) == s,
{
}

/// While a choice list is open, character keys, Backspace and other keys
/// change nothing: Space does not toggle and `q` does not quit.
pub proof fn law_popup_takes_keys(s: AppView, k: KeyCode)
    requires
        s.popup is Some,
        k is Char || k is Backspace || k is Other,
    ensures
        step(s, k) == s,
{
}

/// Esc or Backspace on a submenu goes back one screen, without asking to
/// confirm even when changes are pending.
pub proof fn law_back_from_submenu(s: AppView, k: KeyCode)
    requires
        s.popup is None,
        s.confirm is None,
        s.stack.len() > 1,
        k is Esc || k is Backspace,
    ensures
        step(s, k) == (AppView { stack: s.stack.drop_last(), ..s }),
{
}

/// Esc on the confirmation closes it and keeps the pending changes.
pub proof fn law_confirm_esc_cancels(s: AppView)
    requires
        s.popup is None,
        s.confirm is Some,
    ensures
        step(s, KeyCode::Esc) == (AppView { confirm: None, ..s }),
{
}

/// Enter on the confirmation ends the session, asking for the write
/// exactly when "save" is focused.
pub proof fn law_confirm_enter_quits(s: AppView)
    requires
        s.popup is None,
        s.confirm is Some,
    ensures
        step(s, KeyCode::Enter) == (AppView {
            confirm: None,
            should_quit: true,
            write_requested: s.confirm->0 == 0,
            ..s
        }),
{
}

/// Opening a submenu and going back leaves the menu as it was.
pub proof fn law_submenu_enter_then_back(s: AppView)
    requires
        view_wf(s),
        s.popup is None,
        s.confirm is None,
        s.stack.last().rows.len() > 0,
        s.stack.last().rows[s.stack.last().cursor] is Submenu,
    ensures
        step(step(s, KeyCode::Enter), KeyCode::Esc) == s,
{
    let t = step(s, KeyCode::Enter);
    assert(t.stack.drop_last() =~= s.stack);
}

/// Opening a choice list and closing it with Esc leaves the menu as it
/// was.
pub proof fn law_choice_open_then_esc(s: AppView)
    requires
        s.popup is None,
        s.confirm is None,
        s.stack.last().rows.len() > 0,
        s.stack.last().rows[s.stack.last().cursor] is Choice,
    ensures
        step(step(s, KeyCode::Enter), KeyCode::Esc) == s,
{
}

/// The position found holds the value sought.
proof fn lemma_position_of(cs: Seq<(String, String)>, v: Seq<char>)
    ensures
        position_of(cs, v) matches Some(i) ==> 0 <= i < cs.len() && cs[i].1@ == v,
    decreases cs.len(),
{
    if cs.len() > 0 {
        lemma_position_of(cs.drop_last(), v);
    }
}

/// Opening a choice list and confirming it at once keeps the value that
/// was selected, when it is one of the row's choices.
pub proof fn law_choice_open_then_enter(s: AppView)
    requires
        s.popup is None,
        s.confirm is None,
        s.stack.last().rows.len() > 0,
        s.stack.last().rows[s.stack.last().cursor] matches Row::Choice { key, choices, .. }
            && s.selections.contains_key(key@) && position_of(choices@, s.selections[key@]@) is Some,
    ensures
        ({
            let t = step(step(s, KeyCode::Enter), KeyCode::Enter);
            let key = s.stack.last().rows[s.stack.last().cursor]->Choice_key@;
            &&& t.selections.dom() == s.selections.dom()
            &&& t.selections[key]@ == s.selections[key]@
            &&& forall|o: Seq<char>| o != key ==> t.selections[o] == #[trigger] s.selections[o]
            &&& (AppView { selections: s.selections, ..t }) == s
        }),
{
    let row = s.stack.last().rows[s.stack.last().cursor];
    let key = row->Choice_key@;
    let choices = row->Choice_choices@;
    lemma_position_of(choices, s.selections[key]@);
    let t = step(step(s, KeyCode::Enter), KeyCode::Enter);
    assert(t.selections.dom() =~= s.selections.dom());
}

/// Enter pressed twice on a toggle whose selection is one of its two
/// (different) values brings that value back.
pub proof fn law_toggle_enter_twice(s: AppView)
    requires
        s.popup is None,
        s.confirm is None,
        s.stack.last().rows.len() > 0,
        s.stack.last().rows[s.stack.last().cursor] matches Row::Toggle { key, choices, .. }
            && choices[0].1@ != choices[1].1@ && s.selections.contains_key(key@) && (
        s.selections[key@]@ == choices[0].1@ || s.selections[key@]@ == choices[1].1@),
    ensures
        ({
            let t = step(step(s, KeyCode::Enter), KeyCode::Enter);
            let key = s.stack.last().rows[s.stack.last().cursor]->Toggle_key@;
            &&& t.selections.dom() == s.selections.dom()
            &&& t.selections[key]@ == s.selections[key]@
            &&& forall|o: Seq<char>| o != key ==> t.selections[o] == #[trigger] s.selections[o]
            &&& (AppView { selections: s.selections, ..t }) == s
        }),
{
    let t = step(step(s, KeyCode::Enter), KeyCode::Enter);
    assert(t.selections.dom() =~= s.selections.dom());
}

/// While a choice list is open, Up and Down move its focus by one within
/// the list (staying put at either end), Enter selects the focused choice's
/// value for the list's key and closes the list, and Esc closes it without
/// selecting; nothing else changes. Down then Up comes back.
pub proof fn law_popup_keys(s: AppView)
    requires
        s.popup is Some,
        0 <= s.popup->0.cursor < s.popup->0.choices.len(),
    ensures
        ({
            let p = s.popup->0;
            &&& p.cursor > 0 ==> step(s, KeyCode::Up) == (AppView {
                popup: Some(PopupView { cursor: p.cursor - 1, ..p }),
                ..s
            })
            &&& p.cursor == 0 ==> step(s, KeyCode::Up) == s
            &&& p.cursor + 1 < p.choices.len() ==> step(s, KeyCode::Down) == (AppView {
                popup: Some(PopupView { cursor: p.cursor + 1, ..p }),
                ..s
            })
            &&& p.cursor + 1 == p.choices.len() ==> step(s, KeyCode::Down) == s
            &&& p.cursor + 1 < p.choices.len() ==> step(step(s, KeyCode::Down), KeyCode::Up) == s
            &&& step(s, KeyCode::Enter) == (AppView {
                selections: s.selections.insert(p.key, p.choices[p.cursor].1),
                popup: None,
                ..s
            })
            &&& step(s, KeyCode::Esc) == (AppView { popup: None, ..s })
        }),
{
}

/// On the confirmation, Up and Down move its focus between "save" (0) and
/// "discard" (1), staying put at either end; nothing else changes.
pub proof fn law_confirm_moves(s: AppView)
    requires
        s.popup is None,
        s.confirm matches Some(c) && 0 <= c < 2,
    ensures
        step(s, KeyCode::Up) == (AppView { confirm: Some(0), ..s }),
        step(s, KeyCode::Down) == (AppView { confirm: Some(1), ..s }),
{
}

/// On a screen, with no choice list or confirmation open, Up and Down move
/// the focus by one row (staying put at either end) and change nothing
/// else; Down then Up comes back.
pub proof fn law_screen_moves(s: AppView)
    requires
        s.popup is None,
        s.confirm is None,
        s.stack.len() >= 1,
    ensures
        ({
            let lv = s.stack.last();
            let at = |c: int|
                AppView {
                    stack: s.stack.update(s.stack.len() - 1, LevelView { cursor: c, ..lv }),
                    ..s
                };
            &&& lv.cursor > 0 ==> step(s, KeyCode::Up) == at(lv.cursor - 1)
            &&& lv.cursor <= 0 ==> step(s, KeyCode::Up) == s
            &&& lv.cursor + 1 < lv.rows.len() ==> step(s, KeyCode::Down) == at(lv.cursor + 1)
            &&& lv.cursor + 1 >= lv.rows.len() ==> step(s, KeyCode::Down) == s
            &&& 0 <= lv.cursor && lv.cursor + 1 < lv.rows.len() ==> step(step(s, KeyCode::Down), KeyCode::Up)
                == s
        }),
{
    let lv = s.stack.last();
    if 0 <= lv.cursor && lv.cursor + 1 < lv.rows.len() {
        let t = step(s, KeyCode::Down);
        assert(t.stack.last().cursor == lv.cursor + 1);
        assert(step(t, KeyCode::Up).stack =~= s.stack);
    }
}

/// Space on a row with a key flips the live enabled state of that key and
/// of no other key, and changes nothing but the live states.
pub proof fn law_space_flips_focused_key(s: AppView, other: Seq<char>)
    requires
        view_wf(s),
        s.popup is None,
        s.confirm is None,
        0 <= s.stack.last().cursor < s.stack.last().rows.len(),
        s.stack.last().rows[s.stack.last().cursor].spec_view().key_text() is Some,
    ensures
        ({
            let k = s.stack.last().rows[s.stack.last().cursor].spec_view().key_text()->0;
            let t = step(s, KeyCode::Char(' '));
            &&& live_enabled(t, k) == !live_enabled(s, k)
            &&& other != k ==> live_enabled(t, other) == live_enabled(s, other)
            &&& (AppView { enabled: s.enabled, ..t }) == s
        }),
{
    let k = s.stack.last().rows[s.stack.last().cursor].spec_view().key_text()->0;
    lemma_pairs_set(s.enabled, k, !live_enabled(s, k));
}

/// Enter on a submenu row opens its rows as a new screen, titled with the
/// submenu's title and focused on its first row, over the current one;
/// nothing else changes.
pub proof fn law_submenu_enter(s: AppView)
    requires
        s.popup is None,
        s.confirm is None,
        0 <= s.stack.last().cursor < s.stack.last().rows.len(),
        s.stack.last().rows[s.stack.last().cursor] is Submenu,
    ensures
        ({
            let r = s.stack.last().rows[s.stack.last().cursor];
            step(s, KeyCode::Enter) == (AppView {
                stack: s.stack.push(LevelView { title: r->Submenu_title@, rows: r->Submenu_rows@, cursor: 0 }),
                ..s
            })
        }),
{
}

/// Enter on a toggle row selects its second value when its first is
/// selected, and its first value otherwise (also when nothing is
/// selected); nothing else changes.
pub proof fn law_toggle_enter(s: AppView)
    requires
        s.popup is None,
        s.confirm is None,
        0 <= s.stack.last().cursor < s.stack.last().rows.len(),
        s.stack.last().rows[s.stack.last().cursor] is Toggle,
    ensures
        ({
            let r = s.stack.last().rows[s.stack.last().cursor];
            let k = r->Toggle_key@;
            let cs = r->Toggle_choices;
            let t = step(s, KeyCode::Enter);
            &&& (s.selections.contains_key(k) && s.selections[k]@ == cs[0].1@) ==> t.selections
                == s.selections.insert(k, cs[1].1)
            &&& !(s.selections.contains_key(k) && s.selections[k]@ == cs[0].1@) ==> t.selections
                == s.selections.insert(k, cs[0].1)
            &&& (AppView { selections: s.selections, ..t }) == s
        }),
{
}

/// Enter on a choice row opens its choice list, with the row's prompt and
/// key, focused on the first choice whose value is the one selected for
/// the key (the first choice when none is); nothing else changes.
pub proof fn law_choice_enter(s: AppView)
    requires
        s.popup is None,
        s.confirm is None,
        0 <= s.stack.last().cursor < s.stack.last().rows.len(),
        s.stack.last().rows[s.stack.last().cursor] is Choice,
    ensures
        ({
            let r = s.stack.last().rows[s.stack.last().cursor];
            let k = r->Choice_key@;
            let cs = r->Choice_choices@;
            let t = step(s, KeyCode::Enter);
            &&& t.popup is Some
            &&& t.popup->0.prompt == r->Choice_prompt@
            &&& t.popup->0.key == k
            &&& t.popup->0.choices == cs
            &&& 0 <= t.popup->0.cursor
            &&& (t.popup->0.cursor < cs.len() || t.popup->0.cursor == 0)
            &&& (s.selections.contains_key(k) && exists|i: int| 0 <= i < cs.len() && #[trigger] cs[i].1@
                == s.selections[k]@) ==> (cs[t.popup->0.cursor].1@ == s.selections[k]@ && forall|i: int|
                0 <= i < t.popup->0.cursor ==> #[trigger] cs[i].1@ != s.selections[k]@)
            &&& !(s.selections.contains_key(k) && exists|i: int| 0 <= i < cs.len() && #[trigger] cs[i].1@
                == s.selections[k]@) ==> t.popup->0.cursor == 0
            &&& (AppView { popup: None, ..t }) == s
        }),
{
    let r = s.stack.last().rows[s.stack.last().cursor];
    let k = r->Choice_key@;
    let cs = r->Choice_choices@;
    if s.selections.contains_key(k) {
        lemma_position_of_first(cs, s.selections[k]@);
    }
}

/// The position found is that of the first choice with the value, and
/// there is one exactly when some choice has it.
proof fn lemma_position_of_first(cs: Seq<(String, String)>, v: Seq<char>)
    ensures
        position_of(cs, v) is Some <==> exists|i: int| 0 <= i < cs.len() && #[trigger] cs[i].1@ == v,
        position_of(cs, v) matches Some(i) ==> 0 <= i < cs.len() && cs[i].1@ == v && forall|j: int|
            0 <= j < i ==> #[trigger] cs[j].1@ != v,
    decreases cs.len(),
{
    if cs.len() > 0 {
        let d = cs.drop_last();
        lemma_position_of_first(d, v);
        if exists|i: int| 0 <= i < cs.len() && #[trigger] cs[i].1@ == v {
            let i = choose|i: int| 0 <= i < cs.len() && #[trigger] cs[i].1@ == v;
            if i < d.len() {
                assert(d[i].1@ == v);
            }
        }
        if exists|i: int| 0 <= i < d.len() && #[trigger] d[i].1@ == v {
            let i = choose|i: int| 0 <= i < d.len() && #[trigger] d[i].1@ == v;
            assert(cs[i].1@ == v);
        }
        match position_of(d, v) {
            Some(i) => {
                assert forall|j: int| 0 <= j < i implies #[trigger] cs[j].1@ != v by {
                    assert(d[j] == cs[j]);
                }
            },
            None => {
                if cs.last().1@ == v {
                    assert(cs[cs.len() - 1].1@ == v);
                    assert forall|j: int| 0 <= j < cs.len() - 1 implies #[trigger] cs[j].1@ != v by {
                        assert(d[j] == cs[j]);
                        if cs[j].1@ == v {
                            assert(d[j].1@ == v);
                        }
                    }
                }
            },
        }
    }
}

/// A menu starts on its top-level screen, titled `MENU`, focused on the
/// first row, with no choice list or confirmation open, not quitting, no
/// write asked for, and no pending change.
pub proof fn law_initial_state(root: Seq<Row>)
    ensures
        initial_view(root).stack == seq![LevelView { title: "MENU"@, rows: root, cursor: 0 }],
        initial_view(root).popup is None,
        initial_view(root).confirm is None,
        !initial_view(root).should_quit,
        !initial_view(root).write_requested,
        diff_of(initial_view(root).enabled, initial_view(root).initial).len() == 0,
{
    let s = initial_view(root);
    lemma_diff_none(s.enabled, s.initial);
    assert forall|i: int| 0 <= i < s.enabled.len() implies s.initial.contains_key(#[trigger] s.enabled[i].0)
        && s.initial[s.enabled[i].0] == s.enabled[i].1 by {
        lemma_set_all_keys(Seq::<(Seq<char>, bool)>::empty(), states_of(root));
        lemma_key_index(s.enabled, i);
    }
}

} // verus!
