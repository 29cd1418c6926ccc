//! A menu tree as indented text with box-drawing connectors, for
//! non-interactive validation: one line per row, submenus nested below
//! their row, styled with terminal colours.
use vstd::prelude::*;
use crossterm::style::Stylize;
use crate::model::Row;
use crate::text::chars_of;
use vstd::string::StringExecFns;

verus! {

// ---------------------------------------------------------------------------
// Terminal styling (crossterm)
// ---------------------------------------------------------------------------

/// The styles the tree paints its texts with.
pub enum Paint {
    Cyan,
    DarkGrey,
    Green,
    /// Yellow foreground and bold.
    YellowBold,
    Dim,
}

/// What comes before a painted text when colours are on.
pub open spec fn paint_start(p: Paint) -> Seq<char> {
    match p {
        Paint::Cyan => "\u{1b}[38;5;14m"@,
        Paint::DarkGrey => "\u{1b}[38;5;8m"@,
        Paint::Green => "\u{1b}[38;5;10m"@,
        Paint::YellowBold => "\u{1b}[38;5;11m\u{1b}[1m"@,
        Paint::Dim => "\u{1b}[2m"@,
    }
}

/// What comes after a painted text when colours are on.
pub open spec fn paint_end(p: Paint) -> Seq<char> {
    match p {
        Paint::Cyan | Paint::DarkGrey | Paint::Green => "\u{1b}[39m"@,
        Paint::YellowBold | Paint::Dim => "\u{1b}[0m"@,
    }
}

/// What comes before a painted text when colours are switched off
/// (`NO_COLOR` set in the environment): each colour sequence is empty;
/// attributes such as bold and dim stay.
pub open spec fn paint_start_no_color(p: Paint) -> Seq<char> {
    match p {
        Paint::Cyan | Paint::DarkGrey | Paint::Green => "\u{1b}[m"@,
        Paint::YellowBold => "\u{1b}[m\u{1b}[1m"@,
        Paint::Dim => "\u{1b}[2m"@,
    }
}

/// What comes after a painted text when colours are switched off.
pub open spec fn paint_end_no_color(p: Paint) -> Seq<char> {
    match p {
        Paint::Cyan | Paint::DarkGrey | Paint::Green => "\u{1b}[m"@,
        Paint::YellowBold | Paint::Dim => "\u{1b}[0m"@,
    }
}

/// The forms that text `s` painted with `p` takes: framed by the style's
/// sequences with colours on, or with colours off; or nothing at all, where
/// the terminal has no ANSI support and the styling goes through the
/// Windows console instead (on Windows, when there is no console and `TERM`
/// is unset or `dumb`). Which form comes back depends on the machine and the
/// environment.
pub open spec fn painted(p: Paint, out: Seq<char>, s: Seq<char>) -> bool {
    ||| out == paint_start(p) + s + paint_end(p)
    ||| out == paint_start_no_color(p) + s + paint_end_no_color(p)
    ||| out == Seq::<char>::empty()
}

/// `Stylize::cyan` from crossterm, displayed: `s` in the cyan foreground
/// colour, framed by empty colour sequences when colours are switched off,
/// or nothing where crossterm finds no ANSI support on Windows. Which one
/// is not stated: it depends on the machine and the environment.
#[verifier::external_body]
fn paint_cyan(s: &str) -> (r: String)
    ensures
        painted(Paint::Cyan, r@, s@),
{
    format!("{}", s.cyan())
}

/// `Stylize::dark_grey` from crossterm, displayed: `s` in the dark grey
/// foreground colour, framed by empty colour sequences when colours are
/// switched off, or nothing where crossterm finds no ANSI support on
/// Windows.
#[verifier::external_body]
fn paint_dark_grey(s: &str) -> (r: String)
    ensures
        painted(Paint::DarkGrey, r@, s@),
{
    format!("{}", s.dark_grey())
}

/// `Stylize::green` from crossterm, displayed: `s` in the green foreground
/// colour, framed by empty colour sequences when colours are switched off,
/// or nothing where crossterm finds no ANSI support on Windows.
#[verifier::external_body]
fn paint_green(s: &str) -> (r: String)
    ensures
        painted(Paint::Green, r@, s@),
{
    s.green().to_string()
}

/// `Stylize::yellow` then `Stylize::bold` from crossterm, displayed: the
/// yellow foreground (an empty colour sequence with colours off), the bold
/// attribute, `s` and a full reset; or nothing where crossterm finds no
/// ANSI support on Windows.
#[verifier::external_body]
fn paint_yellow_bold(s: &str) -> (r: String)
    ensures
        painted(Paint::YellowBold, r@, s@),
{
    format!("{}", s.yellow().bold())
}

/// `Stylize::dim` from crossterm, displayed: the dim attribute, `s` and a
/// full reset (no colour is involved, so `NO_COLOR` does not matter); or
/// nothing where crossterm finds no ANSI support on Windows.
#[verifier::external_body]
fn paint_dim(s: &str) -> (r: String)
    ensures
        painted(Paint::Dim, r@, s@),
{
    format!("{}", s.dim())
}

// ---------------------------------------------------------------------------
// The text of a tree
// ---------------------------------------------------------------------------

/// The connector before a row: a corner for the last row, a tee otherwise.
pub open spec fn connector(is_last: bool) -> Seq<char> {
    if is_last {
        "└── "@
    } else {
        "├── "@
    }
}

/// What a row's children are indented by, below the row.
pub open spec fn child_indent(is_last: bool) -> Seq<char> {
    if is_last {
        "    "@
    } else {
        "│   "@
    }
}

/// Choice labels joined by `" / "`.
pub open spec fn joined_labels(cs: Seq<(String, String)>) -> Seq<char>
    decreases cs.len(),
{
    if cs.len() == 0 {
        Seq::empty()
    } else if cs.len() == 1 {
        cs[0].0@
    } else {
        joined_labels(cs.drop_last()) + " / "@ + cs.last().0@
    }
}

/// Each label after the first, with `" / "` before it.
pub open spec fn later_labels(cs: Seq<(String, String)>) -> Seq<char>
    decreases cs.len(),
{
    if cs.len() <= 1 {
        Seq::empty()
    } else {
        later_labels(cs.drop_last()) + " / "@ + cs.last().0@
    }
}

/// Whether `out` is a row's choices as the tree writes them: the first
/// label (the default a menu starts with selected) bracketed and painted
/// green, then each other label after `" / "`; nothing when there is none.
pub open spec fn choices_out(cs: Seq<(String, String)>, out: Seq<char>) -> bool {
    if cs.len() == 0 {
        out == Seq::<char>::empty()
    } else {
        exists|g: Seq<char>|
            #[trigger] painted(Paint::Green, g, "["@ + cs[0].0@ + "]"@) && out == g + later_labels(cs)
    }
}

/// Whether `out` is the line of a toggle or choice row: an enabled row
/// shows its prompt, two spaces and its choices with the default bracketed
/// in green; a disabled row is one flat dark grey line of its prompt, two
/// spaces and its labels joined, without the bracket.
pub open spec fn choice_line_out(
    prefix: Seq<char>,
    conn: Seq<char>,
    prompt: Seq<char>,
    cs: Seq<(String, String)>,
    enabled: bool,
    out: Seq<char>,
) -> bool {
    if enabled {
        exists|f: Seq<char>| #[trigger] choices_out(cs, f) && out == prefix + conn + prompt + "  "@ + f + "\n"@
    } else {
        exists|g: Seq<char>|
            #[trigger] painted(Paint::DarkGrey, g, prompt + "  "@ + joined_labels(cs)) && out == prefix
                + conn + g + "\n"@
    }
}

/// Whether `out` is the text of one row after `prefix` and the connector
/// `conn`: a submenu is its title and `" >"` in cyan, then its rows
/// indented by `child`; a group header is its title between rules in bold
/// yellow; a placeholder is its label and note, dimmed; each line ends with
/// `'\n'`.
pub open spec fn row_out(r: Row, prefix: Seq<char>, conn: Seq<char>, child: Seq<char>, out: Seq<char>) -> bool
    decreases r, 0int,
{
    match r {
        Row::Submenu { title, rows } => exists|c: Seq<char>, sub: Seq<char>|
            #![trigger prefix + conn + c + "\n"@ + sub]
            painted(Paint::Cyan, c, title@ + " >"@) && rows_out(
                rows@,
                child,
                rows@.len() as int,
                sub,
            ) && out == prefix + conn + c + "\n"@ + sub,
        Row::GroupHeader { title } => exists|c: Seq<char>|
            #[trigger] painted(Paint::YellowBold, c, "── "@ + title@ + " ──"@) && out == prefix + conn
                + c + "\n"@,
        Row::Toggle { prompt, choices, enabled, .. } => choice_line_out(
            prefix,
            conn,
            prompt@,
            seq![choices[0], choices[1]],
            enabled,
            out,
        ),
        Row::Choice { prompt, choices, enabled, .. } => choice_line_out(
            prefix,
            conn,
            prompt@,
            choices@,
            enabled,
            out,
        ),
        Row::Placeholder { label, note, .. } => exists|c: Seq<char>|
            #[trigger] painted(Paint::Dim, c, label@ + " "@ + note@) && out == prefix + conn + c + "\n"@,
    }
}

/// Whether `out` is the text of the first `k` of `rows` under `prefix`,
/// each row's connector chosen by whether it is the last of all `rows`, and
/// its children indented by the prefix and a continuing line (or spaces
/// below the last row).
pub open spec fn rows_out(rows: Seq<Row>, prefix: Seq<char>, k: int, out: Seq<char>) -> bool
    decreases rows, k,
{
    if k <= 0 || k > rows.len() {
        out == Seq::<char>::empty()
    } else {
        let last = k == rows.len();
        exists|a: Seq<char>, b: Seq<char>|
            #![trigger a + b]
            rows_out(rows, prefix, k - 1, a) && row_out(
                rows[k - 1],
                prefix,
                connector(last),
                prefix + child_indent(last),
                b,
            ) && out == a + b
    }
}

/// The text of `k` rows is that of the first `k - 1` followed by that of
/// row `k`.
proof fn lemma_rows_out_push(rows: Seq<Row>, prefix: Seq<char>, k: int, a: Seq<char>, b: Seq<char>)
    requires
        0 < k <= rows.len(),
        rows_out(rows, prefix, k - 1, a),
        row_out(
            rows[k - 1],
            prefix,
            connector(k == rows.len()),
            prefix + child_indent(k == rows.len()),
            b,
        ),
    ensures
        rows_out(rows, prefix, k, a + b),
{
}

/// Text `s` styled with `p` in a rendering that is styled throughout
/// (`styled`): framed by the style's sequences, with colours on or off; or
/// in a rendering where no styling is shown at all: nothing. Crossterm
/// decides once per process whether it can style (on Windows without
/// ANSI support every styled text comes back empty), so a rendering is
/// one or the other throughout.
pub open spec fn shown(p: Paint, styled: bool, out: Seq<char>, s: Seq<char>) -> bool {
    if styled {
        ||| out == paint_start(p) + s + paint_end(p)
        ||| out == paint_start_no_color(p) + s + paint_end_no_color(p)
    } else {
        out == Seq::<char>::empty()
    }
}

/// `choices_out`, in a rendering styled throughout or not at all.
pub open spec fn choices_shown(cs: Seq<(String, String)>, out: Seq<char>, styled: bool) -> bool {
    if cs.len() == 0 {
        out == Seq::<char>::empty()
    } else {
        exists|g: Seq<char>|
            #[trigger] shown(Paint::Green, styled, g, "["@ + cs[0].0@ + "]"@) && out == g + later_labels(cs)
    }
}

/// `choice_line_out`, in a rendering styled throughout or not at all.
pub open spec fn choice_line_shown(
    prefix: Seq<char>,
    conn: Seq<char>,
    prompt: Seq<char>,
    cs: Seq<(String, String)>,
    enabled: bool,
    out: Seq<char>,
    styled: bool,
) -> bool {
    if enabled {
        exists|f: Seq<char>|
            #[trigger] choices_shown(cs, f, styled) && out == prefix + conn + prompt + "  "@ + f + "\n"@
    } else {
        exists|g: Seq<char>|
            #[trigger] shown(Paint::DarkGrey, styled, g, prompt + "  "@ + joined_labels(cs)) && out == prefix
                + conn + g + "\n"@
    }
}

/// `row_out`, in a rendering styled throughout or not at all.
pub open spec fn row_shown(
    r: Row,
    prefix: Seq<char>,
    conn: Seq<char>,
    child: Seq<char>,
    out: Seq<char>,
    styled: bool,
) -> bool
    decreases r, 0int,
{
    match r {
        Row::Submenu { title, rows } => exists|c: Seq<char>, sub: Seq<char>|
            #![trigger prefix + conn + c + "\n"@ + sub]
            shown(Paint::Cyan, styled, c, title@ + " >"@) && rows_shown(
                rows@,
                child,
                rows@.len() as int,
                sub,
                styled,
            ) && out == prefix + conn + c + "\n"@ + sub,
        Row::GroupHeader { title } => exists|c: Seq<char>|
            #[trigger] shown(Paint::YellowBold, styled, c, "── "@ + title@ + " ──"@) && out == prefix + conn
                + c + "\n"@,
        Row::Toggle { prompt, choices, enabled, .. } => choice_line_shown(
            prefix,
            conn,
            prompt@,
            seq![choices[0], choices[1]],
            enabled,
            out,
            styled,
        ),
        Row::Choice { prompt, choices, enabled, .. } => choice_line_shown(
            prefix,
            conn,
            prompt@,
            choices@,
            enabled,
            out,
            styled,
        ),
        Row::Placeholder { label, note, .. } => exists|c: Seq<char>|
            #[trigger] shown(Paint::Dim, styled, c, label@ + " "@ + note@) && out == prefix + conn + c + "\n"@,
    }
}

/// `rows_out`, in a rendering styled throughout or not at all.
pub open spec fn rows_shown(rows: Seq<Row>, prefix: Seq<char>, k: int, out: Seq<char>, styled: bool) -> bool
    decreases rows, k,
{
    if k <= 0 || k > rows.len() {
        out == Seq::<char>::empty()
    } else {
        let last = k == rows.len();
        exists|a: Seq<char>, b: Seq<char>|
            #![trigger a + b]
            rows_shown(rows, prefix, k - 1, a, styled) && row_shown(
                rows[k - 1],
                prefix,
                connector(last),
                prefix + child_indent(last),
                b,
                styled,
            ) && out == a + b
    }
}

proof fn lemma_rows_shown_push(
    rows: Seq<Row>,
    prefix: Seq<char>,
    k: int,
    a: Seq<char>,
    b: Seq<char>,
    styled: bool,
)
    requires
        0 < k <= rows.len(),
        rows_shown(rows, prefix, k - 1, a, styled),
        row_shown(
            rows[k - 1],
            prefix,
            connector(k == rows.len()),
            prefix + child_indent(k == rows.len()),
            b,
            styled,
        ),
    ensures
        rows_shown(rows, prefix, k, a + b, styled),
{
}

// ---------------------------------------------------------------------------
// Rendering
// ---------------------------------------------------------------------------

/// `s` styled with `p` when `styled`, else nothing; `ok` is false when a
/// styling call came back empty in a styled rendering.
fn style(p: Paint, s: &str, styled: bool) -> (r: (String, bool))
    ensures
        painted(p, r.0@, s@),
        !styled ==> r.1,
        r.1 ==> shown(p, styled, r.0@, s@),
{
    if !styled {
        return (String::new(), true);
    }
    let out = match p {
        Paint::Cyan => paint_cyan(s),
        Paint::DarkGrey => paint_dark_grey(s),
        Paint::Green => paint_green(s),
        Paint::YellowBold => paint_yellow_bold(s),
        Paint::Dim => paint_dim(s),
    };
    let ok = chars_of(out.as_str()).len() > 0;
    (out, ok)
}

/// Joins choice labels with `" / "`, bracketing and greening the first
/// (the default a menu starts with selected).
pub fn format_choices(choices: &[(String, String)]) -> (r: String)
    ensures
        choices_out(choices@, r@),
{
    format_choices_in(choices, true).0
}

/// `format_choices`, in a rendering styled throughout (`styled`) or not at
/// all; `ok` is false when a styling call came back empty in a styled one.
fn format_choices_in(choices: &[(String, String)], styled: bool) -> (r: (String, bool))
    ensures
        choices_out(choices@, r.0@),
        !styled ==> r.1,
        r.1 ==> choices_shown(choices@, r.0@, styled),
{
    let mut out = String::new();
    let mut ok = true;
    let ghost mut g: Seq<char> = Seq::empty();
    let mut i: usize = 0;
    while i < choices.len()
        invariant
            i <= choices@.len(),
            !styled ==> ok,
            i == 0 ==> out@ == Seq::<char>::empty(),
            i > 0 ==> painted(Paint::Green, g, "["@ + choices@[0].0@ + "]"@) && out@ == g + later_labels(
                choices@.take(i as int),
            ),
            i > 0 && ok ==> shown(Paint::Green, styled, g, "["@ + choices@[0].0@ + "]"@),
        decreases choices.len() - i,
    {
        let label = choices[i].0.as_str();
        assert(choices@.take(i + 1).drop_last() =~= choices@.take(i as int));
        assert(choices@.take(i + 1).last() == choices@[i as int]);
        if i == 0 {
            let mut b = String::from_str("[");
            b.append(label);
            b.append("]");
            let (p, good) = style(Paint::Green, b.as_str(), styled);
            ok = good;
            out.append(p.as_str());
            proof {
                g = p@;
                assert(later_labels(choices@.take(1)) =~= Seq::<char>::empty());
                assert(out@ =~= g + later_labels(choices@.take(1)));
            }
        } else {
            let ghost before = out@;
            out.append(" / ");
            out.append(label);
            assert(out@ =~= before + " / "@ + label@);
        }
        i = i + 1;
    }
    assert(choices@.take(choices@.len() as int) =~= choices@);
    if choices.len() > 0 {
        assert(painted(Paint::Green, g, "["@ + choices@[0].0@ + "]"@) && out@ == g + later_labels(choices@));
        if ok {
            assert(shown(Paint::Green, styled, g, "["@ + choices@[0].0@ + "]"@) && out@ == g + later_labels(
                choices@,
            ));
        }
    }
    (out, ok)
}

/// Choice labels joined by `" / "`.
fn join_labels(choices: &[(String, String)]) -> (r: String)
    ensures
        r@ == joined_labels(choices@),
{
    let mut out = String::new();
    let mut i: usize = 0;
    while i < choices.len()
        invariant
            i <= choices@.len(),
            out@ == joined_labels(choices@.take(i as int)),
        decreases choices.len() - i,
    {
        assert(choices@.take(i + 1).drop_last() =~= choices@.take(i as int));
        assert(choices@.take(i + 1).last() == choices@[i as int]);
        if i > 0 {
            out.append(" / ");
        } else {
            assert(out@ + choices@[0].0@ =~= choices@[0].0@);
        }
        out.append(choices[i].0.as_str());
        i = i + 1;
    }
    assert(choices@.take(choices@.len() as int) =~= choices@);
    out
}

/// The line of a toggle or choice row, reflecting the row's own baked
/// enabled state: enabled rows show their choices with the default
/// bracketed in green; a disabled row shows as one flat dark grey line,
/// without the green bracket.
fn render_choice_like_row(
    prefix: &str,
    connector: &str,
    prompt: &str,
    choices: &[(String, String)],
    enabled: bool,
    styled: bool,
) -> (r: (String, bool))
    ensures
        choice_line_out(prefix@, connector@, prompt@, choices@, enabled, r.0@),
        !styled ==> r.1,
        r.1 ==> choice_line_shown(prefix@, connector@, prompt@, choices@, enabled, r.0@, styled),
{
    let mut out = String::from_str(prefix);
    out.append(connector);
    if enabled {
        out.append(prompt);
        out.append("  ");
        let (f, ok) = format_choices_in(choices, styled);
        out.append(f.as_str());
        out.append("\n");
        assert(choices_out(choices@, f@) && out@ =~= prefix@ + connector@ + prompt@ + "  "@ + f@
            + "\n"@);
        if ok {
            assert(choices_shown(choices@, f@, styled) && out@ == prefix@ + connector@ + prompt@ + "  "@
                + f@ + "\n"@);
        }
        (out, ok)
    } else {
        let mut text = String::from_str(prompt);
        text.append("  ");
        let joined = join_labels(choices);
        text.append(joined.as_str());
        let (g, ok) = style(Paint::DarkGrey, text.as_str(), styled);
        out.append(g.as_str());
        out.append("\n");
        assert(painted(Paint::DarkGrey, g@, prompt@ + "  "@ + joined_labels(choices@)) && out@
            =~= prefix@ + connector@ + g@ + "\n"@);
        if ok {
            assert(shown(Paint::DarkGrey, styled, g@, prompt@ + "  "@ + joined_labels(choices@)) && out@
                == prefix@ + connector@ + g@ + "\n"@);
        }
        (out, ok)
    }
}

/// The text of rows under `prefix`, each with its connector: a tee, or a
/// corner for the last row, whose children are then indented by spaces
/// rather than a continuing line. The whole text is styled throughout, or
/// (where the terminal cannot be styled) shows no styled text at all.
pub fn render_rows(rows: &[Row], prefix: &str) -> (r: String)
    ensures
        rows_out(rows@, prefix@, rows@.len() as int, r@),
        rows_shown(rows@, prefix@, rows@.len() as int, r@, true) || rows_shown(
            rows@,
            prefix@,
            rows@.len() as int,
            r@,
            false,
        ),
{
    let (r, ok) = render_rows_in(rows, prefix, true);
    if ok {
        r
    } else {
        render_rows_in(rows, prefix, false).0
    }
}

/// `render_rows`, styled throughout (`styled`) or not at all; `ok` is
/// false when a styling call came back empty in a styled rendering.
fn render_rows_in(rows: &[Row], prefix: &str, styled: bool) -> (r: (String, bool))
    ensures
        rows_out(rows@, prefix@, rows@.len() as int, r.0@),
        !styled ==> r.1,
        r.1 ==> rows_shown(rows@, prefix@, rows@.len() as int, r.0@, styled),
    decreases rows@, 1int,
{
    let mut out = String::new();
    let mut ok = true;
    let n = rows.len();
    let last_idx = if n > 0 {
        n - 1
    } else {
        0
    };
    let mut i: usize = 0;
    while i < n
        invariant
            i <= n == rows@.len(),
            last_idx == if n > 0 { n - 1 } else { 0 },
            !styled ==> ok,
            rows_out(rows@, prefix@, i as int, out@),
            ok ==> rows_shown(rows@, prefix@, i as int, out@, styled),
        decreases n - i,
    {
        let is_last = i == last_idx;
        let conn = if is_last {
            "└── "
        } else {
            "├── "
        };
        let mut child_prefix = String::from_str(prefix);
        child_prefix.append(
            if is_last {
                "    "
            } else {
                "│   "
            },
        );
        assert(decreases_to!(rows@ => rows@[i as int]));
        let (piece, good) = render_row(&rows[i], prefix, conn, child_prefix.as_str(), styled);
        let ghost before = out@;
        let ghost was_ok = ok;
        out.append(piece.as_str());
        ok = ok && good;
        proof {
            assert(conn@ == connector(i + 1 == rows@.len()));
            assert(child_prefix@ == prefix@ + child_indent(i + 1 == rows@.len()));
            lemma_rows_out_push(rows@, prefix@, i + 1, before, piece@);
            if ok {
                lemma_rows_shown_push(rows@, prefix@, i + 1, before, piece@, styled);
            }
        }
        i = i + 1;
    }
    if n == 0 {
        assert(rows_out(rows@, prefix@, 0, out@));
        assert(rows_shown(rows@, prefix@, 0, out@, styled));
    }
    (out, ok)
}

/// The text of one row after `prefix` and `connector`, with a submenu's
/// rows below it under `child_prefix`, styled throughout (`styled`) or not
/// at all; `ok` is false when a styling call came back empty in a styled
/// rendering.
fn render_row(row: &Row, prefix: &str, connector: &str, child_prefix: &str, styled: bool) -> (r: (
    String,
    bool,
))
    ensures
        row_out(*row, prefix@, connector@, child_prefix@, r.0@),
        !styled ==> r.1,
        r.1 ==> row_shown(*row, prefix@, connector@, child_prefix@, r.0@, styled),
    decreases *row, 0int,
{
    match row {
        Row::Submenu { title, rows } => {
            let mut out = String::from_str(prefix);
            out.append(connector);
            let mut t = title.clone();
            t.append(" >");
            let (c, ok1) = style(Paint::Cyan, t.as_str(), styled);
            out.append(c.as_str());
            out.append("\n");
            let (sub, ok2) = render_rows_in(rows.as_slice(), child_prefix, styled);
            out.append(sub.as_str());
            assert(painted(Paint::Cyan, c@, title@ + " >"@) && rows_out(
                rows@,
                child_prefix@,
                rows@.len() as int,
                sub@,
            ) && out@ =~= prefix@ + connector@ + c@ + "\n"@ + sub@);
            if ok1 && ok2 {
                assert(shown(Paint::Cyan, styled, c@, title@ + " >"@) && rows_shown(
                    rows@,
                    child_prefix@,
                    rows@.len() as int,
                    sub@,
                    styled,
                ) && out@ == prefix@ + connector@ + c@ + "\n"@ + sub@);
            }
            (out, ok1 && ok2)
        },
        Row::GroupHeader { title } => {
            let mut out = String::from_str(prefix);
            out.append(connector);
            let mut t = String::from_str("── ");
            t.append(title.as_str());
            t.append(" ──");
            let (c, ok) = style(Paint::YellowBold, t.as_str(), styled);
            out.append(c.as_str());
            out.append("\n");
            assert(painted(Paint::YellowBold, c@, "── "@ + title@ + " ──"@) && out@ =~= prefix@
                + connector@ + c@ + "\n"@);
            if ok {
                assert(shown(Paint::YellowBold, styled, c@, "── "@ + title@ + " ──"@) && out@ == prefix@
                    + connector@ + c@ + "\n"@);
            }
            (out, ok)
        },
        Row::Toggle { prompt, choices, enabled, .. } => {
            let cs = choices.as_slice();
            assert(cs@ =~= seq![choices[0], choices[1]]);
            render_choice_like_row(prefix, connector, prompt.as_str(), cs, *enabled, styled)
        },
        Row::Choice { prompt, choices, enabled, .. } => {
            render_choice_like_row(prefix, connector, prompt.as_str(), choices.as_slice(), *enabled, styled)
        },
        Row::Placeholder { label, note, .. } => {
            let mut out = String::from_str(prefix);
            out.append(connector);
            let mut t = label.clone();
            t.append(" ");
            t.append(note);
            let (c, ok) = style(Paint::Dim, t.as_str(), styled);
            out.append(c.as_str());
            out.append("\n");
            assert(painted(Paint::Dim, c@, label@ + " "@ + note@) && out@ =~= prefix@ + connector@
                + c@ + "\n"@);
            if ok {
                assert(shown(Paint::Dim, styled, c@, label@ + " "@ + note@) && out@ == prefix@ + connector@
                    + c@ + "\n"@);
            }
            (out, ok)
        },
    }
}

/// A disabled toggle or choice row's line, at any depth of a tree: in a
/// rendering styled throughout it holds the row's prompt, two spaces and
/// all its labels joined by `" / "`, framed by the dark grey sequences with
/// colours on or off, and nothing else between the connector and the line
/// end; in a rendering that shows no styling at all it is the prefix and
/// connector alone.
pub proof fn law_disabled_line(
    prefix: Seq<char>,
    conn: Seq<char>,
    prompt: Seq<char>,
    cs: Seq<(String, String)>,
    out: Seq<char>,
    styled: bool,
)
    requires
        choice_line_shown(prefix, conn, prompt, cs, false, out, styled),
    ensures
        styled ==> (out == prefix + conn + "\u{1b}[38;5;8m"@ + prompt + "  "@ + joined_labels(cs)
            + "\u{1b}[39m"@ + "\n"@ || out == prefix + conn + "\u{1b}[m"@ + prompt + "  "@ + joined_labels(
            cs,
        ) + "\u{1b}[m"@ + "\n"@),
        !styled ==> out == prefix + conn + "\n"@,
{
    let g = choose|g: Seq<char>|
        #[trigger] shown(Paint::DarkGrey, styled, g, prompt + "  "@ + joined_labels(cs)) && out == prefix
            + conn + g + "\n"@;
    if styled {
        let t = prompt + "  "@ + joined_labels(cs);
        assert(prefix + conn + ("\u{1b}[38;5;8m"@ + t + "\u{1b}[39m"@) + "\n"@ =~= prefix + conn
            + "\u{1b}[38;5;8m"@ + prompt + "  "@ + joined_labels(cs) + "\u{1b}[39m"@ + "\n"@);
        assert(prefix + conn + ("\u{1b}[m"@ + t + "\u{1b}[m"@) + "\n"@ =~= prefix + conn + "\u{1b}[m"@
            + prompt + "  "@ + joined_labels(cs) + "\u{1b}[m"@ + "\n"@);
    } else {
        assert(prefix + conn + Seq::<char>::empty() + "\n"@ =~= prefix + conn + "\n"@);
    }
}

/// An enabled toggle or choice row's line: in a rendering styled
/// throughout, the prompt, two spaces, the default label bracketed in green
/// (colours on or off) and each other label after `" / "`; in one that
/// shows no styling, the default label and its brackets are gone.
pub proof fn law_enabled_line(
    prefix: Seq<char>,
    conn: Seq<char>,
    prompt: Seq<char>,
    cs: Seq<(String, String)>,
    out: Seq<char>,
    styled: bool,
)
    requires
        choice_line_shown(prefix, conn, prompt, cs, true, out, styled),
        cs.len() > 0,
    ensures
        styled ==> (out == prefix + conn + prompt + "  "@ + "\u{1b}[38;5;10m"@ + "["@ + cs[0].0@ + "]"@
            + "\u{1b}[39m"@ + later_labels(cs) + "\n"@ || out == prefix + conn + prompt + "  "@ + "\u{1b}[m"@
            + "["@ + cs[0].0@ + "]"@ + "\u{1b}[m"@ + later_labels(cs) + "\n"@),
        !styled ==> out == prefix + conn + prompt + "  "@ + later_labels(cs) + "\n"@,
{
    let f = choose|f: Seq<char>|
        #[trigger] choices_shown(cs, f, styled) && out == prefix + conn + prompt + "  "@ + f + "\n"@;
    let g = choose|g: Seq<char>|
        #[trigger] shown(Paint::Green, styled, g, "["@ + cs[0].0@ + "]"@) && f == g + later_labels(cs);
    let b = "["@ + cs[0].0@ + "]"@;
    let h = prefix + conn + prompt + "  "@;
    if styled {
        assert(h + ("\u{1b}[38;5;10m"@ + b + "\u{1b}[39m"@ + later_labels(cs)) + "\n"@ =~= prefix + conn
            + prompt + "  "@ + "\u{1b}[38;5;10m"@ + "["@ + cs[0].0@ + "]"@ + "\u{1b}[39m"@ + later_labels(cs)
            + "\n"@);
        assert(h + ("\u{1b}[m"@ + b + "\u{1b}[m"@ + later_labels(cs)) + "\n"@ =~= prefix + conn + prompt
            + "  "@ + "\u{1b}[m"@ + "["@ + cs[0].0@ + "]"@ + "\u{1b}[m"@ + later_labels(cs) + "\n"@);
    } else {
        assert(h + (Seq::<char>::empty() + later_labels(cs)) + "\n"@ =~= h + later_labels(cs) + "\n"@);
    }
}

} // verus!
