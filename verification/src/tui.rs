//! Interactive menus: key handling, the path editor, and the lines the menus
//! draw. Terminal input and output stay with the caller.
use vstd::prelude::*;
use crate::text::{
    chars_of, clamp_usize, column_count, columns_of, owned, push_char, push_chars, push_text,
    string_of, str_columns, str_width, texts,
};
use crate::theme::{painted, Theme};
use crate::types::{BranchCandidate, BranchSelection, Worktree, WorktreeModel, opt_text};

verus! {

/// A key as the menus read it.
#[derive(Debug, Clone, Copy, PartialEq, Eq, Structural)]
pub enum KeyCode {
    Enter,
    Esc,
    Left,
    Right,
    Up,
    Down,
    Home,
    End,
    Backspace,
    Char(char),
    /// Any other key.
    Other,
}

/// The modifier keys that the menus look at: whether Control is held.
#[allow(non_camel_case_types)]
#[derive(Debug, Clone, Copy, PartialEq, Eq, Structural)]
pub enum KeyModifiers {
    /// Control not held.
    NONE,
    /// Control held.
    CONTROL,
}

impl KeyModifiers {
    /// Whether Control is held.
    pub open spec fn control(self) -> bool {
        self == KeyModifiers::CONTROL
    }

    fn has_control(&self) -> (r: bool)
        ensures
            r == self.control(),
    {
        match self {
            KeyModifiers::CONTROL => true,
            KeyModifiers::NONE => false,
        }
    }
}

/// What a key means in a menu.
#[derive(Debug, Clone, Copy, PartialEq, Eq, Structural)]
pub enum Key {
    Up,
    Down,
    Select,
    Cancel,
    Unknown,
}

/// The menu meaning of a key: Ctrl-C, Esc and `q` cancel, Enter selects,
/// arrows and `j`/`k` move.
pub open spec fn key_meaning(code: KeyCode, control: bool) -> Key {
    if control && code == KeyCode::Char('c') {
        Key::Cancel
    } else {
        match code {
            KeyCode::Enter => Key::Select,
            KeyCode::Down | KeyCode::Char('j') => Key::Down,
            KeyCode::Up | KeyCode::Char('k') => Key::Up,
            KeyCode::Esc | KeyCode::Char('q') => Key::Cancel,
            _ => Key::Unknown,
        }
    }
}

/// Reads a key as a menu command.
pub fn parse_key(code: KeyCode, mods: KeyModifiers) -> (k: Key)
    ensures
        k == key_meaning(code, mods.control()),
        mods.control() && code == KeyCode::Char('c') ==> k == Key::Cancel,
{
    if mods.has_control() && code == KeyCode::Char('c') {
        return Key::Cancel;
    }
    match code {
        KeyCode::Enter => Key::Select,
        KeyCode::Down | KeyCode::Char('j') => Key::Down,
        KeyCode::Up | KeyCode::Char('k') => Key::Up,
        KeyCode::Esc | KeyCode::Char('q') => Key::Cancel,
        _ => Key::Unknown,
    }
}

/// An answer to a yes/no question.
#[derive(Debug, Clone, Copy, PartialEq, Eq, Structural)]
pub enum ConfirmKey {
    Yes,
    No,
    Unknown,
}

/// The answer a key gives: only `y`/`Y` says yes; Enter, Esc, `n`, `N`, `q`
/// and Ctrl-C say no.
pub open spec fn confirm_meaning(code: KeyCode, control: bool) -> ConfirmKey {
    if control && code == KeyCode::Char('c') {
        ConfirmKey::No
    } else {
        match code {
            KeyCode::Char('y') | KeyCode::Char('Y') => ConfirmKey::Yes,
            KeyCode::Enter | KeyCode::Esc | KeyCode::Char('n') | KeyCode::Char('N') | KeyCode::Char(
                'q',
            ) => ConfirmKey::No,
            _ => ConfirmKey::Unknown,
        }
    }
}

/// Reads a key as an answer to a yes/no question.
pub fn parse_confirm_key(code: KeyCode, modifiers: KeyModifiers) -> (k: ConfirmKey)
    ensures
        k == confirm_meaning(code, modifiers.control()),
        k == ConfirmKey::Yes ==> (code == KeyCode::Char('y') || code == KeyCode::Char('Y')),
{
    if modifiers.has_control() && code == KeyCode::Char('c') {
        return ConfirmKey::No;
    }
    match code {
        KeyCode::Char('y') | KeyCode::Char('Y') => ConfirmKey::Yes,
        KeyCode::Enter | KeyCode::Esc | KeyCode::Char('n') | KeyCode::Char('N') | KeyCode::Char(
            'q',
        ) => ConfirmKey::No,
        _ => ConfirmKey::Unknown,
    }
}

/// What a key does to a path being edited: the new text, the new cursor (a
/// character index) and whether editing ended (`Some(true)` submit,
/// `Some(false)` cancel). Enter only submits a non-empty path.
pub open spec fn edit_step(v: Seq<char>, c: usize, code: KeyCode, control: bool) -> (Seq<char>, int, Option<bool>) {
    let n = v.len();
    if control && code == KeyCode::Char('c') {
        (v, c as int, Some(false))
    } else {
        match code {
            KeyCode::Esc => (v, c as int, Some(false)),
            KeyCode::Enter => (v, c as int, if n > 0 { Some(true) } else { None }),
            KeyCode::Left => (v, if c > 0 { c - 1 } else { 0 }, None),
            KeyCode::Right => (v, if c + 1 < n { c + 1 } else { n as int }, None),
            KeyCode::Home => (v, 0, None),
            KeyCode::End => (v, n as int, None),
            KeyCode::Backspace => if c > 0 {
                (if c - 1 < n { v.take(c - 1) + v.skip(c as int) } else { v }, c - 1, None)
            } else {
                (v, c as int, None)
            },
            KeyCode::Char(ch) => if !control {
                let at = if c < n { c as int } else { n as int };
                (v.take(at) + seq![ch] + v.skip(at), c + 1, None)
            } else {
                (v, c as int, None)
            },
            _ => (v, c as int, None),
        }
    }
}

/// A one-line text editor with a cursor counted in characters.
#[derive(Debug, PartialEq, Eq)]
pub struct PathEditor {
    pub value: String,
    pub cursor: usize,
}

impl Clone for PathEditor {
    fn clone(&self) -> (r: Self)
        ensures
            r.value@ == self.value@,
            r.cursor == self.cursor,
    {
        PathEditor { value: self.value.clone(), cursor: self.cursor }
    }
}

/// A cursor never passes the end of the text: every key keeps that so.
pub proof fn lemma_edit_keeps_cursor_in_text(v: Seq<char>, c: usize, code: KeyCode, control: bool)
    requires
        c <= v.len(),
    ensures
        edit_step(v, c, code, control).1 <= edit_step(v, c, code, control).0.len(),
        0 <= edit_step(v, c, code, control).1,
{
}

/// How editing ends: Ctrl-C and Esc cancel and leave the text and cursor as
/// they were; Enter leaves them too and submits exactly when the text is not
/// empty; no other key ends editing; the movement keys change only the
/// cursor.
pub proof fn lemma_edit_outcome(v: Seq<char>, c: usize, code: KeyCode, control: bool)
    ensures
        ((control && code == KeyCode::Char('c')) || code == KeyCode::Esc) ==> edit_step(
            v,
            c,
            code,
            control,
        ) == (v, c as int, Some(false)),
        code == KeyCode::Enter ==> {
            let (v1, c1, d1) = edit_step(v, c, code, control);
            &&& v1 == v && c1 == c
            &&& (d1 == Some(true) <==> v.len() > 0)
            &&& (v.len() == 0 ==> d1 is None)
        },
        edit_step(v, c, code, control).2 is Some ==> (code == KeyCode::Esc || code == KeyCode::Enter
            || (control && code == KeyCode::Char('c'))),
        (code == KeyCode::Left || code == KeyCode::Right || code == KeyCode::Home || code
            == KeyCode::End) ==> edit_step(v, c, code, control).0 == v,
{
}

/// The cursor keys move only the cursor, over characters: Right one
/// character on unless already at the end, Left one back unless already at
/// the start, Home to the start and End to the end; none of them ends
/// editing, with or without Ctrl.
pub proof fn lemma_cursor_keys(v: Seq<char>, c: usize, control: bool)
    requires
        c <= v.len(),
    ensures
        edit_step(v, c, KeyCode::Right, control) == (v, if c + 1 <= v.len() { c + 1 } else {
            v.len() as int
        }, None::<bool>),
        edit_step(v, c, KeyCode::Left, control) == (v, if c >= 1 { c - 1 } else { 0 }, None::<bool>),
        edit_step(v, c, KeyCode::Home, control) == (v, 0int, None::<bool>),
        edit_step(v, c, KeyCode::End, control) == (v, v.len() as int, None::<bool>),
{
}

/// Where `j` single steps of `dir` (up or down) from `start` land in a menu
/// of `count` entries that wraps around.
pub open spec fn steps_from(start: int, dir: int, j: int, count: int) -> int {
    (start + (if dir > 0 { j } else { -j })) % count
}

proof fn lemma_seek_path(bs: Seq<BranchCandidate>, next: int, dir: int, k: nat)
    requires
        dir == 1 || dir == -1,
    ensures
        seek(bs, next, dir, k) matches Some(n) ==> exists|m: int|
            1 <= m <= k && #[trigger] steps_from(next, dir, m, bs.len() + 1int) == n && forall|j: int|
                1 <= j < m ==> !selectable(bs, #[trigger] steps_from(next, dir, j, bs.len() + 1int)),
    decreases k,
{
    let c = bs.len() + 1int;
    if k > 0 {
        let n1 = wrapped(next, dir, c);
        assert(n1 == steps_from(next, dir, 1, c));
        if !selectable(bs, n1) {
            lemma_seek_path(bs, n1, dir, (k - 1) as nat);
            if let Some(n) = seek(bs, n1, dir, (k - 1) as nat) {
                let m = choose|m: int|
                    1 <= m <= k - 1 && #[trigger] steps_from(n1, dir, m, c) == n && forall|j: int|
                        1 <= j < m ==> !selectable(bs, #[trigger] steps_from(n1, dir, j, c));
                assert forall|j: int| 1 <= j <= m implies #[trigger] steps_from(n1, dir, j, c) == steps_from(
                    next,
                    dir,
                    j + 1,
                    c,
                ) by {
                    let d = if dir > 0 { j } else { -j };
                    vstd::arithmetic::div_mod::lemma_add_mod_noop_right(d, next + dir, c);
                    assert(d + (next + dir) == next + (if dir > 0 { j + 1 } else { -(j + 1) }));
                }
                assert(steps_from(next, dir, m + 1, c) == n);
                assert forall|j: int| 1 <= j < m + 1 implies !selectable(bs, #[trigger] steps_from(next, dir, j, c)) by {
                    if j > 1 {
                        assert(steps_from(n1, dir, j - 1, c) == steps_from(next, dir, j, c));
                    }
                }
            }
        }
    }
}

/// Moving up or down in the branch menu goes to the first entry that can be
/// chosen when stepping one entry at a time in that direction, wrapping
/// around: it lands within one full turn, on a free branch or the create
/// entry, and every entry passed over on the way is a branch checked out in
/// some worktree.
pub proof fn lemma_move_passes_only_branches_in_use(bs: Seq<BranchCandidate>, selected: int, dir: int)
    requires
        0 <= selected <= bs.len(),
        dir == 1 || dir == -1,
    ensures
        ({
            let count = bs.len() + 1int;
            let r = moved(bs, selected, dir);
            &&& r == bs.len() || (0 <= r < bs.len() && bs[r].occupied_by is None)
            &&& exists|k: int|
                1 <= k <= count && #[trigger] steps_from(selected, dir, k, count) == r && forall|j: int|
                    1 <= j < k ==> {
                        let p = #[trigger] steps_from(selected, dir, j, count);
                        0 <= p < bs.len() && bs[p].occupied_by is Some
                    }
        }),
{
    let count = bs.len() + 1int;
    lemma_move_lands_on_choosable(bs, selected, dir);
    if dir == 1 {
        lemma_seek_up(bs, selected, count as nat);
    } else {
        lemma_seek_down(bs, selected, count as nat);
    }
    lemma_seek_path(bs, selected, dir, count as nat);
    let r = moved(bs, selected, dir);
    let k = choose|m: int|
        1 <= m <= count && #[trigger] steps_from(selected, dir, m, count) == r && forall|j: int|
            1 <= j < m ==> !selectable(bs, #[trigger] steps_from(selected, dir, j, count));
    assert forall|j: int| 1 <= j < k implies {
        let p = #[trigger] steps_from(selected, dir, j, count);
        0 <= p < bs.len() && bs[p].occupied_by is Some
    } by {
        let p = steps_from(selected, dir, j, count);
        assert(!selectable(bs, p));
        assert(0 <= p < count);
    }
}

/// Typing a character and then deleting it with Backspace gives back the
/// text and the cursor.
pub proof fn lemma_backspace_undoes_typing(v: Seq<char>, c: usize, ch: char)
    requires
        c <= v.len(),
        c < usize::MAX,
    ensures
        ({
            let (v1, c1, d1) = edit_step(v, c, KeyCode::Char(ch), false);
            let (v2, c2, d2) = edit_step(v1, c1 as usize, KeyCode::Backspace, false);
            &&& d1 is None && d2 is None
            &&& v2 == v && c2 == c
        }),
{
    let v1 = v.take(c as int) + seq![ch] + v.skip(c as int);
    assert(v1.take(c as int) =~= v.take(c as int));
    assert(v1.skip(c + 1) =~= v.skip(c as int));
    assert(v.take(c as int) + v.skip(c as int) =~= v);
}

impl PathEditor {
    /// An editor holding `value`, with the cursor at its end.
    pub fn new(value: String) -> (e: Self)
        ensures
            e.value@ == value@,
            e.cursor == value@.len(),
    {
        let cursor = chars_of(value.as_str()).len();
        PathEditor { value, cursor }
    }

    /// Applies one key; returns `Some(true)` to submit, `Some(false)` to
    /// cancel, `None` to keep editing.
    pub fn apply(&mut self, code: KeyCode, modifiers: KeyModifiers) -> (r: Option<bool>)
        requires
            (code == KeyCode::Right || code is Char) ==> old(self).cursor < usize::MAX,
        ensures
            ({
                let (v, c, done) = edit_step(old(self).value@, old(self).cursor, code, modifiers.control());
                &&& final(self).value@ == v
                &&& final(self).cursor == c
                &&& r == done
            }),
    {
        let control = modifiers.has_control();
        if control && code == KeyCode::Char('c') {
            return Some(false);
        }
        let cs = chars_of(self.value.as_str());
        let n = cs.len();
        match code {
            KeyCode::Esc => Some(false),
            KeyCode::Enter => if n > 0 {
                Some(true)
            } else {
                None
            },
            KeyCode::Left => {
                self.cursor = if self.cursor > 0 { self.cursor - 1 } else { 0 };
                None
            },
            KeyCode::Right => {
                self.cursor = if self.cursor + 1 < n { self.cursor + 1 } else { n };
                None
            },
            KeyCode::Home => {
                self.cursor = 0;
                None
            },
            KeyCode::End => {
                self.cursor = n;
                None
            },
            KeyCode::Backspace => {
                if self.cursor > 0 {
                    let c = self.cursor;
                    if c - 1 < n {
                        let mut v = string_of(&cs.as_slice()[0..c - 1]);
                        push_chars(&mut v, &cs.as_slice()[c..n]);
                        assert(cs@.subrange(c as int, n as int) =~= cs@.skip(c as int));
                        self.value = v;
                    }
                    self.cursor = c - 1;
                }
                None
            },
            KeyCode::Char(ch) => {
                if !control {
                    let at = if self.cursor < n { self.cursor } else { n };
                    let mut v = string_of(&cs.as_slice()[0..at]);
                    push_char(&mut v, ch);
                    push_chars(&mut v, &cs.as_slice()[at..n]);
                    assert(cs@.subrange(at as int, n as int) =~= cs@.skip(at as int));
                    assert(cs@.subrange(0, at as int) =~= cs@.take(at as int));
                    self.value = v;
                    self.cursor = self.cursor + 1;
                }
                None
            },
            _ => None,
        }
    }
}

/// Where the terminal cursor goes: the width of the prompt plus the width of
/// the text before the cursor, capped at `u16::MAX`.
pub fn cursor_column(prompt: &str, editor: &PathEditor) -> (col: u16)
    ensures
        ({
            let v = editor.value@;
            let k = if editor.cursor < v.len() { editor.cursor as int } else { v.len() as int };
            let sum = str_columns(prompt@) + str_columns(v.take(k));
            col == (if sum < 65535 { sum } else { 65535 })
        }),
{
    let cs = chars_of(editor.value.as_str());
    let k = if editor.cursor < cs.len() { editor.cursor } else { cs.len() };
    let before = string_of(&cs.as_slice()[0..k]);
    assert(cs@.subrange(0, k as int) =~= cs@.take(k as int));
    let a = str_width(prompt);
    let b = str_width(before.as_str());
    if a >= 65535 || b >= 65535 - a {
        65535
    } else {
        (a + b) as u16
    }
}

/// `s` with every `/` replaced by `_`.
pub open spec fn slashes_to_underscores(s: Seq<char>) -> Seq<char> {
    s.map_values(|c: char| if c == '/' { '_' } else { c })
}

/// The suggested path for a new worktree: `../<project>_<branch>`, with the
/// branch's slashes turned into underscores.
pub fn default_worktree_path(project_name: &str, branch_name: &str) -> (p: String)
    ensures
        p@ == "../"@ + project_name@ + "_"@ + slashes_to_underscores(branch_name@),
{
    let mut p = owned("../");
    push_text(&mut p, project_name);
    push_text(&mut p, "_");
    let cs = chars_of(branch_name);
    let ghost start = p@;
    let mut i: usize = 0;
    while i < cs.len()
        invariant
            0 <= i <= cs.len(),
            p@ == start + slashes_to_underscores(cs@.take(i as int)),
        decreases cs.len() - i,
    {
        let c = cs[i];
        push_char(&mut p, if c == '/' { '_' } else { c });
        i += 1;
        assert(slashes_to_underscores(cs@.take(i as int)) =~= slashes_to_underscores(cs@.take(i - 1)).push(
            if c == '/' { '_' } else { c },
        ));
    }
    assert(cs@.take(cs@.len() as int) =~= cs@);
    p
}

/// Whether `c` ends an ANSI control sequence (`@` through `~`).
pub open spec fn is_final(c: char) -> bool {
    0x40 <= (c as u32) && (c as u32) <= 0x7e
}

/// Whether `s` begins with an ANSI control sequence introducer (ESC `[`).
pub open spec fn csi_start(s: Seq<char>) -> bool {
    s.len() >= 2 && s[0] == '\x1b' && s[1] == '['
}

/// Characters up to and including the first final character of `t` (all of
/// `t` when there is none).
pub open spec fn final_len(t: Seq<char>) -> nat
    decreases t.len(),
{
    if t.len() == 0 {
        0
    } else if is_final(t[0]) {
        1
    } else {
        1 + final_len(t.drop_first())
    }
}

/// Length of the control sequence at the start of `s`.
pub open spec fn csi_len(s: Seq<char>) -> nat {
    2 + final_len(s.skip(2))
}

/// Display width of text that may hold ANSI control sequences: the sequences
/// take no room, other characters their width.
pub open spec fn visible(s: Seq<char>) -> nat
    decreases s.len(),
{
    if s.len() == 0 {
        0
    } else if csi_start(s) {
        proof {
            lemma_final_len(s.skip(2));
        }
        visible(s.skip(csi_len(s) as int))
    } else {
        columns_of(s[0]) + visible(s.drop_first())
    }
}

pub proof fn lemma_final_len(t: Seq<char>)
    ensures
        final_len(t) <= t.len(),
        t.len() > 0 ==> final_len(t) >= 1,
    decreases t.len(),
{
    if t.len() > 0 {
        lemma_final_len(t.drop_first());
    }
}

/// Skips the control sequence that starts at `i`; returns where it ends.
fn skip_csi(cs: &Vec<char>, i: usize) -> (j: usize)
    requires
        i + 2 <= cs.len(),
        csi_start(cs@.skip(i as int)),
    ensures
        j == i + csi_len(cs@.skip(i as int)),
        j <= cs.len(),
{
    let mut j: usize = i + 2;
    proof {
        assert(cs@.skip(i as int).skip(2) =~= cs@.skip(i + 2));
    }
    while j < cs.len()
        invariant
            i + 2 <= j <= cs.len(),
            cs@.skip(i as int).skip(2) =~= cs@.skip(i + 2),
            final_len(cs@.skip(i + 2)) == (j - (i + 2)) + final_len(cs@.skip(j as int)),
            forall|k: int| i + 2 <= k < j ==> !is_final(cs@[k]),
        decreases cs.len() - j,
    {
        let c = cs[j];
        assert(cs@.skip(j as int)[0] == c);
        assert(cs@.skip(j as int).drop_first() =~= cs@.skip(j + 1));
        j += 1;
        if 0x40 <= (c as u32) && (c as u32) <= 0x7e {
            return j;
        }
    }
    assert(cs@.skip(j as int) =~= Seq::<char>::empty());
    j
}

/// Display width of text that may hold ANSI control sequences.
pub fn display_width(value: &str) -> (w: usize)
    ensures
        w == clamp_usize(visible(value@)),
{
    let cs = chars_of(value);
    let mut i: usize = 0;
    let mut width: usize = 0;
    assert(cs@.skip(0) =~= cs@);
    while i < cs.len()
        invariant
            0 <= i <= cs.len(),
            cs@ == value@,
            clamp_usize(visible(value@)) == clamp_usize((width + visible(cs@.skip(i as int))) as nat),
        decreases cs.len() - i,
    {
        if cs[i] == '\x1b' && i + 1 < cs.len() && cs[i + 1] == '[' {
            assert(csi_start(cs@.skip(i as int)));
            let j = skip_csi(&cs, i);
            assert(cs@.skip(i as int).skip(csi_len(cs@.skip(i as int)) as int) =~= cs@.skip(j as int));
            i = j;
        } else {
            let w = column_count(cs[i]);
            assert(cs@.skip(i as int)[0] == cs@[i as int]);
            assert(cs@.skip(i as int).drop_first() =~= cs@.skip(i + 1));
            width = if width > usize::MAX - w { usize::MAX } else { width + w };
            i += 1;
        }
    }
    assert(visible(cs@.skip(i as int)) == 0);
    width
}

/// The longest prefix of `s` whose visible characters fit in `budget`
/// columns; control sequences are kept whole and take no room.
pub open spec fn styled_clip(s: Seq<char>, budget: nat) -> Seq<char>
    decreases s.len(),
{
    if s.len() == 0 {
        s
    } else if csi_start(s) {
        proof {
            lemma_final_len(s.skip(2));
        }
        s.take(csi_len(s) as int) + styled_clip(s.skip(csi_len(s) as int), budget)
    } else if columns_of(s[0]) > budget {
        Seq::empty()
    } else {
        seq![s[0]] + styled_clip(s.drop_first(), (budget - columns_of(s[0])) as nat)
    }
}

/// Whether `s` holds an escape character.
pub open spec fn has_escape(s: Seq<char>) -> bool {
    exists|i: int| 0 <= i < s.len() && s[i] == '\x1b'
}

/// Styled text cut to `max` visible columns: unchanged when it fits,
/// otherwise the longest fitting prefix of `max - 1` columns, an ellipsis,
/// and a colour reset when the text holds escape sequences.
pub open spec fn truncated_styled(v: Seq<char>, max: usize) -> Seq<char> {
    if clamp_usize(visible(v)) <= max {
        v
    } else if max == 0 {
        Seq::empty()
    } else {
        styled_clip(v, (max - 1) as nat).push('\u{2026}') + (if has_escape(v) {
            "\x1b[0m"@
        } else {
            Seq::empty()
        })
    }
}

fn holds_escape(cs: &Vec<char>) -> (r: bool)
    ensures
        r == has_escape(cs@),
{
    let mut i: usize = 0;
    while i < cs.len()
        invariant
            0 <= i <= cs.len(),
            forall|k: int| 0 <= k < i ==> cs@[k] != '\x1b',
        decreases cs.len() - i,
    {
        if cs[i] == '\x1b' {
            return true;
        }
        i += 1;
    }
    false
}

/// Cuts styled text to `max_width` visible columns.
pub fn truncate_styled(value: &str, max_width: usize) -> (r: String)
    ensures
        r@ == truncated_styled(value@, max_width),
{
    if display_width(value) <= max_width {
        return owned(value);
    }
    if max_width == 0 {
        return String::new();
    }
    let target: usize = max_width - 1;
    let cs = chars_of(value);
    let mut out = String::new();
    let mut i: usize = 0;
    let mut width: usize = 0;
    assert(cs@.skip(0) =~= cs@);
    assert(out@ + styled_clip(cs@, target as nat) =~= styled_clip(cs@, target as nat));
    while i < cs.len()
        invariant_except_break
            0 <= i <= cs.len(),
            width <= target,
            out@ + styled_clip(cs@.skip(i as int), (target - width) as nat) == styled_clip(cs@, target as nat),
        ensures
            out@ == styled_clip(cs@, target as nat),
        decreases cs.len() - i,
    {
        let ghost rest = cs@.skip(i as int);
        if cs[i] == '\x1b' && i + 1 < cs.len() && cs[i + 1] == '[' {
            assert(csi_start(rest));
            let j = skip_csi(&cs, i);
            proof {
                lemma_final_len(rest.skip(2));
            }
            assert(rest.skip(csi_len(rest) as int) =~= cs@.skip(j as int));
            assert(rest.take(csi_len(rest) as int) =~= cs@.subrange(i as int, j as int));
            let ghost before = out@;
            push_chars(&mut out, &cs.as_slice()[i..j]);
            assert(out@ + styled_clip(cs@.skip(j as int), (target - width) as nat) =~= before + (rest.take(csi_len(rest) as int) + styled_clip(rest.skip(csi_len(rest) as int), (target - width) as nat)));
            i = j;
        } else {
            let c = cs[i];
            let w = column_count(c);
            assert(rest[0] == c);
            if w > target - width {
                assert(styled_clip(rest, (target - width) as nat) =~= Seq::<char>::empty());
                assert(out@ + Seq::<char>::empty() =~= out@);
                break;
            }
            assert(rest.drop_first() =~= cs@.skip(i + 1));
            assert(out@.push(c) + styled_clip(cs@.skip(i + 1), (target - width - w) as nat) =~= out@ + (seq![c] + styled_clip(cs@.skip(i + 1), (target - width - w) as nat)));
            push_char(&mut out, c);
            width = width + w;
            i += 1;
        }
    }
    if i == cs.len() {
        assert(cs@.skip(i as int) =~= Seq::<char>::empty());
        assert(out@ + Seq::<char>::empty() =~= out@);
    }
    push_char(&mut out, '\u{2026}');
    if holds_escape(&cs) {
        push_text(&mut out, "\x1b[0m");
    } else {
        assert(out@ + Seq::<char>::empty() =~= out@);
    }
    out
}

/// Whether a final character occurs in `t`.
pub open spec fn ends_csi(t: Seq<char>) -> bool
    decreases t.len(),
{
    t.len() > 0 && (is_final(t[0]) || ends_csi(t.drop_first()))
}

/// Styled text whose escape characters all open complete control sequences.
pub open spec fn tidy(s: Seq<char>) -> bool
    decreases s.len(),
{
    if s.len() == 0 {
        true
    } else if csi_start(s) {
        proof {
            lemma_final_len(s.skip(2));
        }
        ends_csi(s.skip(2)) && tidy(s.skip(csi_len(s) as int))
    } else {
        s[0] != '\x1b' && tidy(s.drop_first())
    }
}

pub(crate) proof fn lemma_final_len_concat(t: Seq<char>, u: Seq<char>)
    requires
        ends_csi(t),
    ensures
        final_len(t + u) == final_len(t),
        1 <= final_len(t) <= t.len(),
        ends_csi(t + u),
    decreases t.len(),
{
    lemma_final_len(t);
    assert((t + u)[0] == t[0]);
    if !is_final(t[0]) {
        assert((t + u).drop_first() =~= t.drop_first() + u);
        lemma_final_len_concat(t.drop_first(), u);
    }
}

pub(crate) proof fn lemma_visible_concat(x: Seq<char>, y: Seq<char>)
    requires
        tidy(x),
    ensures
        visible(x + y) == visible(x) + visible(y),
    decreases x.len(),
{
    if x.len() == 0 {
        assert(x + y =~= y);
    } else if csi_start(x) {
        lemma_final_len_concat(x.skip(2), y);
        assert((x + y).skip(2) =~= x.skip(2) + y);
        assert(csi_start(x + y));
        let l = csi_len(x) as int;
        assert(csi_len(x + y) == l);
        assert((x + y).skip(l) =~= x.skip(l) + y);
        lemma_visible_concat(x.skip(l), y);
    } else {
        assert((x + y)[0] == x[0]);
        assert(!csi_start(x + y));
        assert((x + y).drop_first() =~= x.drop_first() + y);
        lemma_visible_concat(x.drop_first(), y);
    }
}

proof fn lemma_styled_clip_fits(v: Seq<char>, b: nat)
    requires
        tidy(v),
    ensures
        tidy(styled_clip(v, b)),
        visible(styled_clip(v, b)) <= b,
    decreases v.len(),
{
    if v.len() == 0 {
    } else if csi_start(v) {
        lemma_final_len_concat(v.skip(2), Seq::empty());
        let l = csi_len(v) as int;
        let z = styled_clip(v.skip(l), b);
        lemma_styled_clip_fits(v.skip(l), b);
        let w = v.take(l) + z;
        assert(csi_start(w));
        assert(v.take(l).skip(2) =~= v.skip(2).take(l - 2));
        lemma_final_len_prefix(v.skip(2), l - 2);
        lemma_final_len_concat(v.take(l).skip(2), z);
        assert(w.skip(2) =~= v.take(l).skip(2) + z);
        assert(csi_len(w) == l);
        assert(w.skip(l) =~= z);
        assert(ends_csi(w.skip(2)));
        assert(styled_clip(v, b) == w);
        assert(tidy(w));
    } else if columns_of(v[0]) > b {
    } else {
        let z = styled_clip(v.drop_first(), (b - columns_of(v[0])) as nat);
        lemma_styled_clip_fits(v.drop_first(), (b - columns_of(v[0])) as nat);
        let w = seq![v[0]] + z;
        assert(w[0] == v[0]);
        assert(!csi_start(w));
        assert(w.drop_first() =~= z);
    }
}

proof fn lemma_final_len_prefix(t: Seq<char>, n: int)
    requires
        ends_csi(t),
        final_len(t) <= n <= t.len(),
    ensures
        ends_csi(t.take(n)),
        final_len(t.take(n)) == final_len(t),
    decreases t.len(),
{
    lemma_final_len(t);
    assert(t.take(n)[0] == t[0]);
    if !is_final(t[0]) {
        assert(t.take(n).drop_first() =~= t.drop_first().take(n - 1));
        lemma_final_len_prefix(t.drop_first(), n - 1);
    }
}

/// Cutting tidy styled text to `max` columns: either it already fit and is
/// unchanged, or what remains shows at most `max - 1` columns of the text
/// plus the ellipsis; the closing colour reset shows nothing.
pub proof fn lemma_truncated_styled_fits(v: Seq<char>, max: usize)
    requires
        tidy(v),
    ensures
        (truncated_styled(v, max) == v && clamp_usize(visible(v)) <= max) || (max == 0
            && truncated_styled(v, max).len() == 0) || visible(truncated_styled(v, max)) <= max - 1
            + columns_of('\u{2026}'),
{
    if clamp_usize(visible(v)) > max && max > 0 {
        let b = (max - 1) as nat;
        let c = styled_clip(v, b);
        lemma_styled_clip_fits(v, b);
        let reset: Seq<char> = if has_escape(v) { "\x1b[0m"@ } else { Seq::empty() };
        let tail = seq!['\u{2026}'] + reset;
        assert(c.push('\u{2026}') + reset =~= c + tail);
        lemma_visible_concat(c, tail);
        assert(tail[0] == '\u{2026}');
        assert(!csi_start(tail));
        assert(tail.drop_first() =~= reset);
        if has_escape(v) {
            reveal_strlit("\x1b[0m");
            assert(csi_start(reset));
            assert(reset.skip(2)[0] == '0');
            assert(reset.skip(2).drop_first()[0] == 'm');
            assert(reset.skip(2).drop_first().drop_first().len() == 0);
            assert(final_len(reset.skip(2).drop_first()) == 1);
            assert(final_len(reset.skip(2)) == 2);
            assert(reset.skip(4).len() == 0);
            assert(visible(reset) == visible(reset.skip(4)));
        }
        assert(visible(reset) == 0);
        assert(visible(tail) == columns_of('\u{2026}') + visible(reset));
        assert(truncated_styled(v, max) == c.push('\u{2026}') + reset);
    }
}

/// Every line cut so that it leaves the terminal's last column free.
pub open spec fn fitted_lines(lines: Seq<Seq<char>>, terminal_width: usize) -> Seq<Seq<char>> {
    lines.map_values(|l: Seq<char>| truncated_styled(l, if terminal_width > 0 { (terminal_width - 1) as usize } else { 0 }))
}

/// Fitted tidy lines leave the terminal's last column free: each is either
/// unchanged and at most `terminal_width - 1` columns wide, or shows at most
/// `terminal_width - 2` columns of text and the ellipsis.
pub proof fn lemma_fitted_lines_leave_last_column(lines: Seq<Seq<char>>, terminal_width: usize)
    requires
        terminal_width >= 1,
        forall|k: int| 0 <= k < lines.len() ==> tidy(#[trigger] lines[k]),
    ensures
        forall|k: int| 0 <= k < lines.len() ==> {
            let f = #[trigger] fitted_lines(lines, terminal_width)[k];
            (f == lines[k] && clamp_usize(visible(f)) <= terminal_width - 1) || (terminal_width == 1
                && f.len() == 0) || visible(f) <= terminal_width - 2 + columns_of('\u{2026}')
        },
{
    assert forall|k: int| 0 <= k < lines.len() implies {
        let f = #[trigger] fitted_lines(lines, terminal_width)[k];
        (f == lines[k] && clamp_usize(visible(f)) <= terminal_width - 1) || (terminal_width == 1
            && f.len() == 0) || visible(f) <= terminal_width - 2 + columns_of('\u{2026}')
    } by {
        lemma_truncated_styled_fits(lines[k], (terminal_width - 1) as usize);
    }
}

/// Cuts every line to one column less than the terminal width, so that no
/// line reaches the last column.
pub fn fit_lines_to_terminal(lines: Vec<String>, terminal_width: usize) -> (r: Vec<String>)
    ensures
        texts(r@) == fitted_lines(texts(lines@), terminal_width),
{
    let safe_width = if terminal_width > 0 { terminal_width - 1 } else { 0 };
    let mut r: Vec<String> = Vec::new();
    let mut i: usize = 0;
    while i < lines.len()
        invariant
            0 <= i <= lines.len(),
            safe_width == (if terminal_width > 0 { (terminal_width - 1) as usize } else { 0 }),
            r@.len() == i,
            forall|k: int| 0 <= k < i ==> #[trigger] texts(r@)[k] == truncated_styled(lines@[k]@, safe_width),
        decreases lines.len() - i,
    {
        let t = truncate_styled(lines[i].as_str(), safe_width);
        let ghost prev = r@;
        r.push(t);
        assert forall|k: int| 0 <= k < i + 1 implies #[trigger] texts(r@)[k] == truncated_styled(lines@[k]@, safe_width) by {
            if k < i {
                assert(texts(prev)[k] == texts(r@)[k]);
            }
        }
        i += 1;
    }
    assert(texts(r@) =~= fitted_lines(texts(lines@), terminal_width));
    r
}

/// The key help shown under a menu, naming what Enter does.
pub open spec fn key_help(color: bool, action: Seq<char>) -> Seq<char> {
    painted(color, "1"@, "↑/↓"@) + painted(color, "2"@, " or "@) + painted(color, "1"@, "j/k"@)
        + painted(color, "2"@, " move • "@) + painted(color, "1"@, "Enter"@) + painted(
        color,
        "2"@,
        " "@ + action + " • "@,
    ) + painted(color, "1"@, "q"@) + painted(color, "2"@, " cancel"@)
}

fn help_line(theme: &Theme, action: &str) -> (r: String)
    ensures
        r@ == key_help(theme.color, action@),
{
    let mut r = theme.key("↑/↓");
    push_text(&mut r, theme.hint(" or ").as_str());
    push_text(&mut r, theme.key("j/k").as_str());
    push_text(&mut r, theme.hint(" move • ").as_str());
    push_text(&mut r, theme.key("Enter").as_str());
    let mut label = owned(" ");
    push_text(&mut label, action);
    push_text(&mut label, " • ");
    push_text(&mut r, theme.hint(label.as_str()).as_str());
    push_text(&mut r, theme.key("q").as_str());
    push_text(&mut r, theme.hint(" cancel").as_str());
    r
}

/// The marker in front of table line `i`: a highlighted arrow on the
/// selected worktree's line (line 0 is the header).
pub open spec fn row_marker(color: bool, i: int, selected: usize) -> Seq<char> {
    if i > 0 && i - 1 == selected {
        painted(color, "1;36"@, "> "@)
    } else {
        "  "@
    }
}

/// The lines of the worktree menu: an optional title, the table with the
/// selection marked, and the key help, each fitted to the terminal.
pub open spec fn worktree_menu_lines(
    ws: Seq<WorktreeModel>,
    selected: usize,
    terminal_width: usize,
    color: bool,
    title: Option<Seq<char>>,
    action: Seq<char>,
) -> Seq<Seq<char>> {
    let table = crate::table::rendered(
        ws,
        if terminal_width >= 3 { terminal_width - 3 } else { 0 },
        color,
        Some(selected),
    );
    let titled = match title {
        Some(t) => seq![painted(color, "2"@, t)],
        None => Seq::empty(),
    };
    fitted_lines(
        titled + Seq::new(table.len(), |i: int| row_marker(color, i, selected) + table[i]) + seq![
            key_help(color, action),
        ],
        terminal_width,
    )
}

/// The text of an optional string slice.
pub open spec fn opt_str(o: Option<&str>) -> Option<Seq<char>> {
    match o {
        Some(s) => Some(s@),
        None => None,
    }
}

/// Draws the worktree menu with `selected` highlighted.
pub fn render_worktree_lines(
    worktrees: &[Worktree],
    selected: usize,
    terminal_width: usize,
    color: bool,
    title: Option<&str>,
    action: &str,
) -> (lines: Vec<String>)
    ensures
        texts(lines@) == worktree_menu_lines(
            crate::table::models(worktrees@),
            selected,
            terminal_width,
            color,
            opt_str(title),
            action@,
        ),
{
    let theme = Theme { color };
    let tw = if terminal_width >= 3 { terminal_width - 3 } else { 0 };
    let table_lines = crate::table::render(worktrees, tw, color, Some(selected));
    let ghost table = crate::table::rendered(crate::table::models(worktrees@), tw as int, color, Some(selected));
    let mut lines: Vec<String> = Vec::new();
    match title {
        Some(t) => {
            lines.push(theme.hint(t));
        },
        None => {},
    }
    let ghost titled = texts(lines@);
    let mut i: usize = 0;
    while i < table_lines.len()
        invariant
            0 <= i <= table_lines.len(),
            texts(table_lines@) == table,
            theme.color == color,
            lines@.len() == titled.len() + i,
            forall|k: int| 0 <= k < titled.len() ==> #[trigger] texts(lines@)[k] == titled[k],
            forall|k: int| 0 <= k < i ==> #[trigger] texts(lines@)[titled.len() + k] == row_marker(color, k, selected) + table[k],
        decreases table_lines.len() - i,
    {
        let mut line = if i > 0 && i - 1 == selected {
            theme.selected("> ")
        } else {
            owned("  ")
        };
        push_text(&mut line, table_lines[i].as_str());
        let ghost prev = lines@;
        lines.push(line);
        assert forall|k: int| 0 <= k < titled.len() implies #[trigger] texts(lines@)[k] == titled[k] by {
            assert(texts(prev)[k] == texts(lines@)[k]);
        }
        assert forall|k: int| 0 <= k < i + 1 implies #[trigger] texts(lines@)[titled.len() + k] == row_marker(color, k, selected) + table[k] by {
            if k < i {
                assert(texts(prev)[titled.len() + k] == texts(lines@)[titled.len() + k]);
            }
        }
        i += 1;
    }
    let ghost prev = lines@;
    lines.push(help_line(&theme, action));
    let ghost expected = (match opt_str(title) {
        Some(t) => seq![painted(color, "2"@, t)],
        None => Seq::<Seq<char>>::empty(),
    }) + Seq::new(table.len(), |i: int| row_marker(color, i, selected) + table[i]) + seq![key_help(color, action@)];
    assert(titled =~= (match opt_str(title) {
        Some(t) => seq![painted(color, "2"@, t)],
        None => Seq::<Seq<char>>::empty(),
    }));
    assert forall|k: int| 0 <= k < expected.len() implies #[trigger] texts(lines@)[k] == expected[k] by {
        if k < prev.len() {
            assert(texts(prev)[k] == texts(lines@)[k]);
            if k >= titled.len() {
                assert(texts(lines@)[titled.len() + (k - titled.len())] == row_marker(color, k - titled.len(), selected) + table[k - titled.len()]);
            }
        }
    }
    assert(texts(lines@) =~= expected);
    fit_lines_to_terminal(lines, terminal_width)
}

/// Whether menu entry `i` can be chosen: a free branch, or the final
/// "Create new branch..." entry at index `len`.
pub open spec fn selectable(bs: Seq<BranchCandidate>, i: int) -> bool {
    i == bs.len() || (0 <= i < bs.len() && bs[i].is_free())
}

/// The first choosable entry: the first free branch, or the create entry.
pub open spec fn first_free(bs: Seq<BranchCandidate>) -> nat
    decreases bs.len(),
{
    if bs.len() == 0 {
        0
    } else if bs[0].is_free() {
        0
    } else {
        1 + first_free(bs.drop_first())
    }
}

proof fn lemma_first_free(bs: Seq<BranchCandidate>)
    ensures
        first_free(bs) <= bs.len(),
        selectable(bs, first_free(bs) as int),
        forall|k: int| 0 <= k < first_free(bs) ==> !bs[k].is_free(),
    decreases bs.len(),
{
    if bs.len() > 0 && !bs[0].is_free() {
        lemma_first_free(bs.drop_first());
        assert forall|k: int| 0 <= k < first_free(bs) implies !bs[k].is_free() by {
            if k > 0 {
                assert(bs[k] == bs.drop_first()[k - 1]);
            }
        }
    }
}

/// The entry the branch menu starts on: the first free branch, or the create
/// entry when every branch is checked out somewhere.
pub fn first_available(branches: &[BranchCandidate]) -> (i: usize)
    ensures
        i == first_free(branches@),
        selectable(branches@, i as int),
{
    proof {
        lemma_first_free(branches@);
    }
    let mut i: usize = 0;
    assert(branches@.skip(0) =~= branches@);
    while i < branches.len()
        invariant
            0 <= i <= branches.len(),
            first_free(branches@) == i + first_free(branches@.skip(i as int)),
        decreases branches.len() - i,
    {
        assert(branches@.skip(i as int)[0] == branches@[i as int]);
        if branches[i].available() {
            return i;
        }
        assert(branches@.skip(i as int).drop_first() =~= branches@.skip(i + 1));
        i += 1;
    }
    assert(branches@.skip(i as int).len() == 0);
    i
}

/// Moving `dir` entries from `next` in a menu of `count` entries, wrapping.
pub open spec fn wrapped(next: int, dir: int, count: int) -> int {
    (next + dir) % count
}

/// The first choosable entry reached by stepping `dir` from `next`, trying
/// at most `k` steps.
pub open spec fn seek(bs: Seq<BranchCandidate>, next: int, dir: int, k: nat) -> Option<int>
    decreases k,
{
    if k == 0 {
        None
    } else {
        let n = wrapped(next, dir, bs.len() + 1int);
        if selectable(bs, n) {
            Some(n)
        } else {
            seek(bs, n, dir, (k - 1) as nat)
        }
    }
}

/// Where the branch menu's selection lands after moving `dir` from
/// `selected`, skipping branches checked out elsewhere and wrapping around.
pub open spec fn moved(bs: Seq<BranchCandidate>, selected: int, dir: int) -> int {
    match seek(bs, selected, dir, (bs.len() + 1) as nat) {
        Some(n) => n,
        None => selected,
    }
}

fn wrap_step(next: usize, direction: isize, count: usize) -> (n: usize)
    requires
        count > 0,
        next <= isize::MAX,
    ensures
        n == wrapped(next as int, direction as int, count as int),
        n < count,
{
    if direction >= 0 {
        let d = direction as usize;
        (next + d) % count
    } else {
        let e: usize = ((0 - (direction + 1)) as usize) + 1;
        assert(e == -(direction as int));
        if next >= e {
            (next - e) % count
        } else {
            let y: usize = e - next;
            let r = y % count;
            proof {
                let q = (y as int) / (count as int);
                vstd::arithmetic::div_mod::lemma_fundamental_div_mod(y as int, count as int);
                assert(r as int == (y as int) % (count as int));
                assert(y as int == q * count + r) by (nonlinear_arith)
                    requires y as int == (count as int) * q + (y as int) % (count as int), r as int == (y as int) % (count as int);
                if r == 0 {
                    assert(-(y as int) == (-q) * count + 0) by (nonlinear_arith)
                        requires y as int == q * count + r, r == 0;
                    vstd::arithmetic::div_mod::lemma_fundamental_div_mod_converse(-(y as int), count as int, -q, 0);
                } else {
                    assert(-(y as int) == (-q - 1) * count + (count - r)) by (nonlinear_arith)
                        requires y as int == q * count + r;
                    vstd::arithmetic::div_mod::lemma_fundamental_div_mod_converse(-(y as int), count as int, -q - 1, count - r);
                }
            }
            if r == 0 {
                0
            } else {
                count - r
            }
        }
    }
}

/// Moves the branch-menu selection by `direction`, skipping branches that
/// are checked out elsewhere; the create entry after the branches is always
/// choosable. Stays put when nothing can be reached.
pub fn move_branch_selection(branches: &[BranchCandidate], selected: usize, direction: isize) -> (r: usize)
    requires
        branches@.len() + 1 <= isize::MAX,
        selected <= isize::MAX,
        selected + direction <= isize::MAX,
        branches@.len() + 1 + direction <= isize::MAX,
    ensures
        r == moved(branches@, selected as int, direction as int),
{
    let count = branches.len() + 1;
    let mut next = selected;
    let mut k: usize = 0;
    while k < count
        invariant
            count == branches@.len() + 1,
            count <= isize::MAX,
            0 <= k <= count,
            next <= isize::MAX,
            k > 0 ==> next < count,
            seek(branches@, selected as int, direction as int, count as nat) == seek(branches@, next as int, direction as int, (count - k) as nat),
        decreases count - k,
    {
        next = wrap_step(next, direction, count);
        if next == branches.len() || branches[next].available() {
            return next;
        }
        k += 1;
    }
    selected
}

/// The marker in front of branch-menu entry `i`.
pub open spec fn entry_marker(color: bool, selected: Option<usize>, i: int) -> Seq<char> {
    if selected == Some(i as usize) {
        painted(color, "1;36"@, "> "@)
    } else {
        "  "@
    }
}

/// The text of one branch entry cut to `width` columns: a branch checked out
/// elsewhere shows that worktree's path, with the name in yellow and the
/// note dimmed (all yellow when the name itself was cut).
pub open spec fn branch_row(name: Seq<char>, occupied_by: Option<Seq<char>>, width: usize, color: bool) -> Seq<char> {
    match occupied_by {
        Some(path) => {
            let row = crate::table::truncated(name + "  in use: "@ + path, width as nat);
            if name.len() <= row.len() && row.take(name.len() as int) == name {
                painted(color, "33"@, name) + painted(color, "2"@, row.skip(name.len() as int))
            } else {
                painted(color, "33"@, row)
            }
        },
        None => crate::table::truncated(name, width as nat),
    }
}

/// The lines of the branch menu: one per branch, then the create entry.
pub open spec fn branch_menu_lines(
    bs: Seq<BranchCandidate>,
    selected: Option<usize>,
    terminal_width: usize,
    color: bool,
) -> Seq<Seq<char>> {
    let width = if terminal_width >= 2 { (terminal_width - 2) as usize } else { 0usize };
    Seq::new(
        bs.len(),
        |i: int| entry_marker(color, selected, i) + branch_row(bs[i].name@, opt_text(bs[i].occupied_by), width, color),
    ) + seq![
        entry_marker(color, selected, bs.len() as int) + painted(
            color,
            "36"@,
            crate::table::truncated("Create new branch..."@, width as nat),
        ),
    ]
}

fn entry_mark(theme: &Theme, selected: Option<usize>, i: usize) -> (r: String)
    ensures
        r@ == entry_marker(theme.color, selected, i as int),
{
    let on = match selected {
        Some(k) => k == i,
        None => false,
    };
    if on {
        theme.selected("> ")
    } else {
        owned("  ")
    }
}

fn branch_text(theme: &Theme, branch: &BranchCandidate, width: usize) -> (r: String)
    ensures
        r@ == branch_row(branch.name@, opt_text(branch.occupied_by), width, theme.color),
{
    match &branch.occupied_by {
        Some(path) => {
            let mut full = branch.name.clone();
            push_text(&mut full, "  in use: ");
            push_text(&mut full, path.as_str());
            let row = crate::table::truncate(full.as_str(), width);
            let rc = chars_of(row.as_str());
            let nc = chars_of(branch.name.as_str());
            if crate::text::starts_with_chars(rc.as_slice(), nc.as_slice()) {
                let mut r = theme.occupied_branch(branch.name.as_str());
                let rest = string_of(&rc.as_slice()[nc.len()..rc.len()]);
                assert(rc@.subrange(nc@.len() as int, rc@.len() as int) =~= rc@.skip(nc@.len() as int));
                push_text(&mut r, theme.hint(rest.as_str()).as_str());
                r
            } else {
                theme.occupied_branch(row.as_str())
            }
        },
        None => crate::table::truncate(branch.name.as_str(), width),
    }
}

/// Draws the branch menu.
pub fn render_branch_lines(
    branches: &[BranchCandidate],
    selected: Option<usize>,
    terminal_width: usize,
    color: bool,
) -> (lines: Vec<String>)
    ensures
        texts(lines@) == branch_menu_lines(branches@, selected, terminal_width, color),
{
    let theme = Theme { color };
    let width = if terminal_width >= 2 { terminal_width - 2 } else { 0 };
    let mut lines: Vec<String> = Vec::new();
    let mut i: usize = 0;
    while i < branches.len()
        invariant
            0 <= i <= branches.len(),
            theme.color == color,
            width == (if terminal_width >= 2 { (terminal_width - 2) as usize } else { 0usize }),
            lines@.len() == i,
            forall|k: int| 0 <= k < i ==> #[trigger] texts(lines@)[k] == entry_marker(color, selected, k)
                + branch_row(branches@[k].name@, opt_text(branches@[k].occupied_by), width, color),
        decreases branches.len() - i,
    {
        let mut line = entry_mark(&theme, selected, i);
        push_text(&mut line, branch_text(&theme, &branches[i], width).as_str());
        let ghost prev = lines@;
        lines.push(line);
        assert forall|k: int| 0 <= k < i + 1 implies #[trigger] texts(lines@)[k] == entry_marker(color, selected, k)
            + branch_row(branches@[k].name@, opt_text(branches@[k].occupied_by), width, color) by {
            if k < i {
                assert(texts(prev)[k] == texts(lines@)[k]);
            }
        }
        i += 1;
    }
    let mut last = entry_mark(&theme, selected, branches.len());
    let create = crate::table::truncate("Create new branch...", width);
    push_text(&mut last, theme.branch(create.as_str()).as_str());
    let ghost prev = lines@;
    lines.push(last);
    assert forall|k: int| 0 <= k < prev.len() implies #[trigger] texts(lines@)[k] == texts(prev)[k] by {}
    assert(texts(lines@) =~= branch_menu_lines(branches@, selected, terminal_width, color));
    lines
}

/// In the worktree menu, Down undoes Up.
pub proof fn lemma_down_undoes_up(selected: usize, count: usize)
    requires
        selected < count,
    ensures
        worktree_step(selected, count, Key::Up) matches MenuStep::Stay(up) && worktree_step(
            up,
            count,
            Key::Down,
        ) == MenuStep::Stay(selected),
{
    if selected == 0 {
        vstd::arithmetic::div_mod::lemma_fundamental_div_mod_converse(selected + count - 1, count as int, 0, count - 1);
        vstd::arithmetic::div_mod::lemma_fundamental_div_mod_converse(count as int, count as int, 1, 0);
    } else {
        vstd::arithmetic::div_mod::lemma_fundamental_div_mod_converse(selected + count - 1, count as int, 1, selected - 1);
        vstd::arithmetic::div_mod::lemma_fundamental_div_mod_converse(selected as int, count as int, 0, selected as int);
    }
}

proof fn lemma_seek_selectable(bs: Seq<BranchCandidate>, next: int, dir: int, k: nat)
    ensures
        seek(bs, next, dir, k) matches Some(n) ==> selectable(bs, n),
    decreases k,
{
    if k > 0 {
        lemma_seek_selectable(bs, wrapped(next, dir, bs.len() + 1int), dir, (k - 1) as nat);
    }
}

proof fn lemma_seek_up(bs: Seq<BranchCandidate>, next: int, k: nat)
    requires
        0 <= next <= bs.len(),
        k >= (if next < bs.len() { bs.len() - next } else { bs.len() + 1int }),
    ensures
        seek(bs, next, 1, k) is Some,
    decreases k,
{
    let count = bs.len() + 1int;
    if next < bs.len() {
        vstd::arithmetic::div_mod::lemma_fundamental_div_mod_converse(next + 1, count, 0, next + 1);
        if !selectable(bs, next + 1) {
            lemma_seek_up(bs, next + 1, (k - 1) as nat);
        }
    } else {
        vstd::arithmetic::div_mod::lemma_fundamental_div_mod_converse(next + 1, count, 1, 0);
        if !selectable(bs, 0) {
            lemma_seek_up(bs, 0, (k - 1) as nat);
        }
    }
}

proof fn lemma_seek_down(bs: Seq<BranchCandidate>, next: int, k: nat)
    requires
        0 <= next <= bs.len(),
        k >= next + 1,
    ensures
        seek(bs, next, -1, k) is Some,
    decreases k,
{
    let count = bs.len() + 1int;
    if next > 0 {
        vstd::arithmetic::div_mod::lemma_fundamental_div_mod_converse(next - 1, count, 0, next - 1);
        if !selectable(bs, next - 1) {
            lemma_seek_down(bs, next - 1, (k - 1) as nat);
        }
    } else {
        vstd::arithmetic::div_mod::lemma_fundamental_div_mod_converse(-1, count, -1, bs.len() as int);
    }
}

/// Moving one step up or down in the branch menu always lands on an entry
/// that can be chosen: a branch that no worktree has checked out, or the
/// create entry. Branches in use elsewhere are never selected.
pub proof fn lemma_move_lands_on_choosable(bs: Seq<BranchCandidate>, selected: int, dir: int)
    requires
        0 <= selected <= bs.len(),
        dir == 1 || dir == -1,
    ensures
        selectable(bs, moved(bs, selected, dir)),
{
    if dir == 1 {
        lemma_seek_up(bs, selected, (bs.len() + 1) as nat);
    } else {
        lemma_seek_down(bs, selected, (bs.len() + 1) as nat);
    }
    lemma_seek_selectable(bs, selected, dir, (bs.len() + 1) as nat);
}

/// What one key press does to a menu.
#[derive(Debug, Clone, Copy, PartialEq, Eq, Structural)]
pub enum MenuStep {
    /// Keep the menu open with this entry selected.
    Stay(usize),
    /// Close the menu without a choice.
    Cancel,
    /// Close the menu choosing this entry.
    Choose(usize),
}

/// The worktree menu starts on the worktree holding the current directory,
/// or on the first one.
pub open spec fn current_position(ws: Seq<WorktreeModel>) -> nat
    decreases ws.len(),
{
    if ws.len() == 0 || ws[0].current {
        0
    } else {
        1 + current_position(ws.drop_first())
    }
}

/// The entry the worktree menu starts on.
pub fn initial_selection(worktrees: &[Worktree]) -> (i: usize)
    ensures
        i == (if current_position(crate::table::models(worktrees@)) < worktrees@.len() {
            current_position(crate::table::models(worktrees@))
        } else {
            0
        }),
{
    let ghost ws = crate::table::models(worktrees@);
    let mut i: usize = 0;
    assert(ws.skip(0) =~= ws);
    while i < worktrees.len()
        invariant
            ws == crate::table::models(worktrees@),
            0 <= i <= worktrees.len(),
            current_position(ws) == i + current_position(ws.skip(i as int)),
        decreases worktrees.len() - i,
    {
        assert(ws.skip(i as int)[0] == worktrees@[i as int]@);
        if worktrees[i].current {
            return i;
        }
        assert(ws.skip(i as int).drop_first() =~= ws.skip(i + 1));
        i += 1;
    }
    assert(ws.skip(i as int).len() == 0);
    0
}

/// The worktree menu's response to a key: Up and Down move with wrap-around.
pub open spec fn worktree_step(selected: usize, count: usize, key: Key) -> MenuStep {
    match key {
        Key::Cancel => MenuStep::Cancel,
        Key::Select => MenuStep::Choose(selected),
        Key::Up => MenuStep::Stay(((selected + count - 1) % (count as int)) as usize),
        Key::Down => MenuStep::Stay(((selected + 1) % (count as int)) as usize),
        Key::Unknown => MenuStep::Stay(selected),
    }
}

/// Handles one key in the worktree menu of `count` entries.
pub fn worktree_menu_step(selected: usize, count: usize, key: Key) -> (step: MenuStep)
    requires
        selected < count,
    ensures
        step == worktree_step(selected, count, key),
{
    match key {
        Key::Cancel => MenuStep::Cancel,
        Key::Select => MenuStep::Choose(selected),
        Key::Up => {
            let up = if selected == 0 { count - 1 } else { selected - 1 };
            proof {
                if selected == 0 {
                    vstd::arithmetic::div_mod::lemma_fundamental_div_mod_converse(selected + count - 1, count as int, 0, count - 1);
                } else {
                    vstd::arithmetic::div_mod::lemma_fundamental_div_mod_converse(selected + count - 1, count as int, 1, selected - 1);
                }
            }
            MenuStep::Stay(up)
        },
        Key::Down => {
            let down = if selected + 1 == count { 0 } else { selected + 1 };
            proof {
                if selected + 1 == count {
                    vstd::arithmetic::div_mod::lemma_fundamental_div_mod_converse(selected + 1, count as int, 1, 0);
                } else {
                    vstd::arithmetic::div_mod::lemma_fundamental_div_mod_converse(selected + 1, count as int, 0, selected + 1);
                }
            }
            MenuStep::Stay(down)
        },
        Key::Unknown => MenuStep::Stay(selected),
    }
}

/// The branch menu's response to a key: Up and Down skip branches that are
/// checked out elsewhere.
pub open spec fn branch_step(bs: Seq<BranchCandidate>, selected: usize, key: Key) -> MenuStep {
    match key {
        Key::Cancel => MenuStep::Cancel,
        Key::Select => MenuStep::Choose(selected),
        Key::Up => MenuStep::Stay(moved(bs, selected as int, -1) as usize),
        Key::Down => MenuStep::Stay(moved(bs, selected as int, 1) as usize),
        Key::Unknown => MenuStep::Stay(selected),
    }
}

proof fn lemma_seek_bounded(bs: Seq<BranchCandidate>, next: int, dir: int, k: nat)
    ensures
        seek(bs, next, dir, k) matches Some(n) ==> 0 <= n <= bs.len(),
    decreases k,
{
    if k > 0 {
        lemma_seek_bounded(bs, wrapped(next, dir, bs.len() + 1int), dir, (k - 1) as nat);
    }
}

/// Handles one key in the branch menu.
pub fn branch_menu_step(branches: &[BranchCandidate], selected: usize, key: Key) -> (step: MenuStep)
    requires
        branches@.len() + 2 <= isize::MAX,
        selected <= branches@.len(),
    ensures
        step == branch_step(branches@, selected, key),
        step matches MenuStep::Stay(n) ==> n <= branches@.len(),
{
    proof {
        lemma_seek_bounded(branches@, selected as int, -1, (branches@.len() + 1) as nat);
        lemma_seek_bounded(branches@, selected as int, 1, (branches@.len() + 1) as nat);
    }
    match key {
        Key::Cancel => MenuStep::Cancel,
        Key::Select => MenuStep::Choose(selected),
        Key::Up => MenuStep::Stay(move_branch_selection(branches, selected, -1)),
        Key::Down => MenuStep::Stay(move_branch_selection(branches, selected, 1)),
        Key::Unknown => MenuStep::Stay(selected),
    }
}

/// The choice behind entry `selected` of the branch menu: a branch, or
/// creating a new one for the entry after the branches.
pub fn branch_choice(branches: &[BranchCandidate], selected: usize) -> (choice: BranchSelection)
    requires
        selected <= branches@.len(),
    ensures
        selected == branches@.len() ==> choice == BranchSelection::CreateNew,
        selected < branches@.len() ==> (choice matches BranchSelection::Existing(b) && b.name@
            == branches@[selected as int].name@ && opt_text(b.occupied_by) == opt_text(
            branches@[selected as int].occupied_by,
        )),
{
    if selected == branches.len() {
        BranchSelection::CreateNew
    } else {
        BranchSelection::Existing(branches[selected].clone())
    }
}

/// The whole branch-menu frame: a title, the branch entries with
/// `selected` marked, and the key help, each fitted to the terminal.
pub open spec fn branch_frame_lines(
    bs: Seq<BranchCandidate>,
    selected: usize,
    terminal_width: usize,
    color: bool,
) -> Seq<Seq<char>> {
    fitted_lines(
        seq![painted(color, "2"@, "Select a local branch or create one:"@)] + branch_menu_lines(
            bs,
            Some(selected),
            if terminal_width >= 1 { (terminal_width - 1) as usize } else { 0usize },
            color,
        ) + seq![key_help(color, "select"@)],
        terminal_width,
    )
}

/// Draws the branch menu frame.
pub fn render_branch_frame(
    branches: &[BranchCandidate],
    selected: usize,
    terminal_width: usize,
    color: bool,
) -> (lines: Vec<String>)
    ensures
        texts(lines@) == branch_frame_lines(branches@, selected, terminal_width, color),
{
    let theme = Theme { color };
    let mut lines: Vec<String> = Vec::new();
    lines.push(theme.hint("Select a local branch or create one:"));
    let entries = render_branch_lines(
        branches,
        Some(selected),
        if terminal_width >= 1 { terminal_width - 1 } else { 0 },
        color,
    );
    let ghost head = texts(lines@);
    let mut i: usize = 0;
    while i < entries.len()
        invariant
            0 <= i <= entries.len(),
            head.len() == 1,
            lines@.len() == 1 + i,
            texts(lines@)[0] == head[0],
            forall|k: int| 0 <= k < i ==> #[trigger] texts(lines@)[1 + k] == texts(entries@)[k],
        decreases entries.len() - i,
    {
        let e = entries[i].clone();
        let ghost prev = lines@;
        lines.push(e);
        assert(texts(lines@)[0] == texts(prev)[0]);
        assert forall|k: int| 0 <= k < i + 1 implies #[trigger] texts(lines@)[1 + k] == texts(entries@)[k] by {
            if k < i {
                assert(texts(prev)[1 + k] == texts(lines@)[1 + k]);
            }
        }
        i += 1;
    }
    let ghost prev = lines@;
    lines.push(help_line(&theme, "select"));
    let ghost expected = head + texts(entries@) + seq![key_help(color, "select"@)];
    assert forall|k: int| 0 <= k < expected.len() implies #[trigger] texts(lines@)[k] == expected[k] by {
        if k < prev.len() {
            assert(texts(prev)[k] == texts(lines@)[k]);
            if k >= 1 {
                assert(texts(lines@)[1 + (k - 1)] == texts(entries@)[k - 1]);
            }
        }
    }
    assert(texts(lines@) =~= expected);
    fit_lines_to_terminal(lines, terminal_width)
}

} // verus!
