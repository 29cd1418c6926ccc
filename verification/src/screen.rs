//! What the interactive screen shows of the menu: each row's line and the
//! focused row's description, as plain text for the terminal front end to
//! paint.
use vstd::prelude::*;
use crate::app::{live_enabled, App, AppView};
use crate::model::{rows_spec, Row, RowSpec};
use crate::text::{chars_of, push_char};
use vstd::string::StringExecFns;

verus! {

/// The width, in characters, that a setting's prompt is padded to.
pub const PROMPT_WIDTH: usize = 40;

/// How a row's line looks.
#[derive(Debug, PartialEq, Eq)]
pub enum RowLine {
    /// A keyed row whose entry is disabled: one flat grey line, the padded
    /// prompt and the selected value in brackets.
    Greyed(String),
    /// A submenu: its title and `>`, in cyan.
    Link(String),
    /// A group header between rules, in bold yellow.
    Header(String),
    /// An active keyed row: the padded prompt and a space, plain, then the
    /// selected value in brackets, in green.
    Setting(String, String),
    /// A placeholder: its label and note, dimmed.
    Note(String),
}

/// A row's line, by the characters of its texts.
pub enum RowLineView {
    Greyed(Seq<char>),
    Link(Seq<char>),
    Header(Seq<char>),
    Setting(Seq<char>, Seq<char>),
    Note(Seq<char>),
}

impl View for RowLine {
    type V = RowLineView;

    open spec fn view(&self) -> RowLineView {
        match self {
            RowLine::Greyed(t) => RowLineView::Greyed(t@),
            RowLine::Link(t) => RowLineView::Link(t@),
            RowLine::Header(t) => RowLineView::Header(t@),
            RowLine::Setting(p, v) => RowLineView::Setting(p@, v@),
            RowLine::Note(t) => RowLineView::Note(t@),
        }
    }
}

/// `p` left-aligned in a field `w` characters wide: padded with spaces on
/// the right when shorter, unchanged otherwise.
pub open spec fn padded(p: Seq<char>, w: nat) -> Seq<char> {
    if p.len() >= w {
        p
    } else {
        p + Seq::new((w - p.len()) as nat, |i: int| ' ')
    }
}

/// The value selected for `key`, or nothing.
pub open spec fn selected_text(s: AppView, key: Seq<char>) -> Seq<char> {
    if s.selections.contains_key(key) {
        s.selections[key]@
    } else {
        Seq::empty()
    }
}

/// `v` in square brackets.
pub open spec fn bracketed(v: Seq<char>) -> Seq<char> {
    seq!['['] + v + seq![']']
}

/// The line a row shows in menu state `s`. A keyed row whose entry is
/// disabled (live) is one grey line whatever its kind; otherwise a submenu
/// shows `"<title> >"`, a group header `"── <title> ──"`, a keyed row its
/// prompt padded to the prompt width and a space, then its selected value
/// bracketed, and a placeholder `"<label> <note>"`.
pub open spec fn row_line_spec(r: RowSpec, s: AppView) -> RowLineView {
    if r.key_text() is Some && !live_enabled(s, r.key_text()->0) {
        RowLineView::Greyed(
            padded(r.prompt_text(), PROMPT_WIDTH as nat) + seq![' '] + bracketed(
                selected_text(s, r.key_text()->0),
            ),
        )
    } else {
        match r {
            RowSpec::Submenu { title, .. } => RowLineView::Link(title + seq![' ', '>']),
            RowSpec::GroupHeader { title } => RowLineView::Header(
                seq!['─', '─', ' '] + title + seq![' ', '─', '─'],
            ),
            RowSpec::Toggle { key, prompt, .. } => RowLineView::Setting(
                padded(prompt, PROMPT_WIDTH as nat) + seq![' '],
                bracketed(selected_text(s, key)),
            ),
            RowSpec::Choice { key, prompt, .. } => RowLineView::Setting(
                padded(prompt, PROMPT_WIDTH as nat) + seq![' '],
                bracketed(selected_text(s, key)),
            ),
            RowSpec::Placeholder { label, note, .. } => RowLineView::Note(label + seq![' '] + note),
        }
    }
}

/// `p` left-aligned in a field `w` characters wide.
fn padded_string(p: &str, w: usize) -> (s: String)
    ensures
        s@ == padded(p@, w as nat),
{
    let cs = chars_of(p);
    let mut s = String::from_str(p);
    let mut n = cs.len();
    while n < w
        invariant
            cs@ == p@,
            p@.len() <= n <= w || (n == p@.len() && n >= w),
            s@ == p@ + Seq::new((n - p@.len()) as nat, |i: int| ' '),
        decreases w - n,
    {
        let ghost before = s@;
        push_char(&mut s, ' ');
        assert(s@ =~= p@ + Seq::new((n + 1 - p@.len()) as nat, |i: int| ' '));
        n = n + 1;
    }
    proof {
        if p@.len() >= w {
            assert(s@ =~= p@);
        }
    }
    s
}

/// `v` in square brackets.
fn bracketed_string(v: &str) -> (s: String)
    ensures
        s@ == bracketed(v@),
{
    let mut s = String::new();
    push_char(&mut s, '[');
    s.append(v);
    push_char(&mut s, ']');
    assert(s@ =~= bracketed(v@));
    s
}

/// The selected value of `key` in `app`, or the empty text.
fn selected_or_empty<'b>(app: &'b App, key: &str) -> (r: &'b str)
    ensures
        r@ == selected_text(app@, key@),
{
    match app.selection(key) {
        Some(v) => v,
        None => {
            let e = "";
            proof {
                reveal_strlit("");
            }
            e
        },
    }
}

/// The line `row` shows in `app`'s current state; see `row_line_spec`.
pub fn row_item(row: &Row, app: &App) -> (r: RowLine)
    ensures
        r@ == row_line_spec(row.spec_view(), app@),
{
    match row.key() {
        Some(key) => {
            if !app.is_enabled(key) {
                let mut t = padded_string(row.prompt(), PROMPT_WIDTH);
                push_char(&mut t, ' ');
                let b = bracketed_string(selected_or_empty(app, key));
                let ghost head = t@;
                t.append(b.as_str());
                assert(t@ =~= head + b@);
                assert(row.spec_view().key_text() == Some(key@));
                assert(!live_enabled(app@, key@));
                assert(t@ == padded(row.spec_view().prompt_text(), PROMPT_WIDTH as nat) + seq![' '] + bracketed(
                    selected_text(app@, key@)));
                assert(row_line_spec(row.spec_view(), app@) == RowLineView::Greyed(t@));
                return RowLine::Greyed(t);
            }
        },
        None => {},
    }
    match row {
        Row::Submenu { title, .. } => {
            let mut t = title.clone();
            push_char(&mut t, ' ');
            push_char(&mut t, '>');
            assert(t@ =~= title@ + seq![' ', '>']);
            RowLine::Link(t)
        },
        Row::GroupHeader { title } => {
            let mut t = String::new();
            push_char(&mut t, '─');
            push_char(&mut t, '─');
            push_char(&mut t, ' ');
            t.append(title.as_str());
            push_char(&mut t, ' ');
            push_char(&mut t, '─');
            push_char(&mut t, '─');
            assert(t@ =~= seq!['─', '─', ' '] + title@ + seq![' ', '─', '─']);
            RowLine::Header(t)
        },
        Row::Toggle { key, prompt, .. } => {
            let mut p = padded_string(prompt.as_str(), PROMPT_WIDTH);
            push_char(&mut p, ' ');
            let v = bracketed_string(selected_or_empty(app, key.as_str()));
            assert(p@ =~= padded(prompt@, PROMPT_WIDTH as nat) + seq![' ']);
            RowLine::Setting(p, v)
        },
        Row::Choice { key, prompt, .. } => {
            let mut p = padded_string(prompt.as_str(), PROMPT_WIDTH);
            push_char(&mut p, ' ');
            let v = bracketed_string(selected_or_empty(app, key.as_str()));
            assert(p@ =~= padded(prompt@, PROMPT_WIDTH as nat) + seq![' ']);
            RowLine::Setting(p, v)
        },
        Row::Placeholder { label, note, .. } => {
            let mut t = label.clone();
            push_char(&mut t, ' ');
            t.append(note);
            assert(t@ =~= label@ + seq![' '] + note@);
            RowLine::Note(t)
        },
    }
}

/// The description of the focused row on the current screen, or the empty
/// text when it has none (or the screen is empty).
pub open spec fn focused_description_spec(s: AppView) -> Seq<char> {
    let lv = s.stack.last();
    if 0 <= lv.cursor < lv.rows.len() && rows_spec(lv.rows)[lv.cursor].description_text() is Some {
        rows_spec(lv.rows)[lv.cursor].description_text()->0
    } else {
        Seq::empty()
    }
}

/// The text of the description panel: the focused row's description.
pub fn focused_description<'b>(app: &'b App) -> (r: &'b str)
    requires
        app.wf(),
    ensures
        r@ == focused_description_spec(app@),
{
    let level = app.current_level();
    proof {
        crate::model::lemma_rows_spec_index(level.rows@);
    }
    let empty = "";
    proof {
        reveal_strlit("");
    }
    if level.cursor < level.rows.len() {
        match level.rows[level.cursor].description() {
            Some(d) => d,
            None => empty,
        }
    } else {
        empty
    }
}

/// A keyed row, toggle or choice alike, shows the value selected for its key
/// in the current state, in brackets (nothing between them when none is
/// selected), after its prompt padded to the prompt width: greyed as one
/// line when its entry is disabled, else as a plain prompt and a separate
/// value. Which choices the row lists does not matter.
pub proof fn law_keyed_row_shows_selection(r: RowSpec, s: AppView)
    requires
        r.key_text() is Some,
    ensures
        ({
            let k = r.key_text()->0;
            let sel = if s.selections.contains_key(k) {
                s.selections[k]@
            } else {
                Seq::<char>::empty()
            };
            let p = padded(r.prompt_text(), PROMPT_WIDTH as nat);
            &&& !live_enabled(s, k) ==> row_line_spec(r, s) == RowLineView::Greyed(
                p + seq![' ', '['] + sel + seq![']'],
            )
            &&& live_enabled(s, k) ==> row_line_spec(r, s) == RowLineView::Setting(
                p + seq![' '],
                seq!['['] + sel + seq![']'],
            )
        }),
{
    let k = r.key_text()->0;
    let sel = selected_text(s, k);
    let p = padded(r.prompt_text(), PROMPT_WIDTH as nat);
    assert(p + seq![' '] + (seq!['['] + sel + seq![']']) =~= p + seq![' ', '['] + sel + seq![']']);
}

/// A prompt padded to a width keeps its characters first, then only spaces,
/// and is as long as the width, or as itself when longer.
pub proof fn law_padded(p: Seq<char>, w: nat)
    ensures
        padded(p, w).len() == if p.len() >= w { p.len() } else { w },
        padded(p, w).take(p.len() as int) == p,
        forall|i: int| p.len() <= i < padded(p, w).len() ==> #[trigger] padded(p, w)[i] == ' ',
{
    assert(padded(p, w).take(p.len() as int) =~= p);
}

/// Rows without a key show their own texts whatever the state: a submenu
/// its title and `" >"`, a group header its title between `"── "` and
/// `" ──"`, a placeholder its label, a space and its note.
pub proof fn law_unkeyed_rows_show_their_texts(r: RowSpec, s: AppView)
    requires
        r.key_text() is None,
    ensures
        r matches RowSpec::Submenu { title, .. } ==> row_line_spec(r, s) == RowLineView::Link(
            title + seq![' ', '>'],
        ),
        r matches RowSpec::GroupHeader { title } ==> row_line_spec(r, s) == RowLineView::Header(
            seq!['─', '─', ' '] + title + seq![' ', '─', '─'],
        ),
        r matches RowSpec::Placeholder { label, note, .. } ==> row_line_spec(r, s) == RowLineView::Note(
            label + seq![' '] + note,
        ),
{
}

} // verus!
