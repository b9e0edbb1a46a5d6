//! What colouring does to text: the escape sequences that `Theme` adds take
//! no room and carry no text.
use vstd::prelude::*;
use crate::status::{count_item, item_texts, locked_item, status_items, status_text, Item};
use crate::text::{decimal, joined};
use crate::theme::{painted, painted_items, themed_status};
use crate::tui::{
    csi_len, csi_start, ends_csi, final_len, has_escape, is_final, lemma_final_len,
    lemma_final_len_concat, lemma_visible_concat, tidy, visible,
};
use crate::types::{Availability, WorktreeModel};

verus! {

/// `s` with its control sequences removed: the text a terminal shows.
pub open spec fn stripped(s: Seq<char>) -> Seq<char>
    decreases s.len(),
{
    if s.len() == 0 {
        s
    } else if csi_start(s) {
        proof {
            lemma_final_len(s.skip(2));
        }
        stripped(s.skip(csi_len(s) as int))
    } else {
        seq![s[0]] + stripped(s.drop_first())
    }
}

/// A colour code: no escape and no character that would end the sequence.
pub open spec fn color_code(code: Seq<char>) -> bool {
    forall|i: int| 0 <= i < code.len() ==> !is_final(#[trigger] code[i]) && code[i] != '\x1b'
}

proof fn lemma_stripped_concat(x: Seq<char>, y: Seq<char>)
    requires
        tidy(x),
    ensures
        stripped(x + y) == stripped(x) + stripped(y),
    decreases x.len(),
{
    if x.len() == 0 {
        assert(x + y =~= y);
    } else if csi_start(x) {
        lemma_final_len_concat(x.skip(2), y);
        assert((x + y).skip(2) =~= x.skip(2) + y);
        assert(csi_start(x + y));
        let l = csi_len(x) as int;
        assert((x + y).skip(l) =~= x.skip(l) + y);
        lemma_stripped_concat(x.skip(l), y);
    } else {
        assert((x + y)[0] == x[0]);
        assert(!csi_start(x + y));
        assert((x + y).drop_first() =~= x.drop_first() + y);
        lemma_stripped_concat(x.drop_first(), y);
        assert(seq![x[0]] + (stripped(x.drop_first()) + stripped(y)) =~= (seq![x[0]] + stripped(
            x.drop_first(),
        )) + stripped(y));
    }
}

proof fn lemma_tidy_concat(x: Seq<char>, y: Seq<char>)
    requires
        tidy(x),
        tidy(y),
    ensures
        tidy(x + y),
    decreases x.len(),
{
    if x.len() == 0 {
        assert(x + y =~= y);
    } else if csi_start(x) {
        lemma_final_len_concat(x.skip(2), y);
        assert((x + y).skip(2) =~= x.skip(2) + y);
        let l = csi_len(x) as int;
        assert((x + y).skip(l) =~= x.skip(l) + y);
        lemma_tidy_concat(x.skip(l), y);
    } else {
        assert((x + y)[0] == x[0]);
        assert((x + y).drop_first() =~= x.drop_first() + y);
        lemma_tidy_concat(x.drop_first(), y);
    }
}

proof fn lemma_escape_free(t: Seq<char>)
    requires
        !has_escape(t),
    ensures
        tidy(t),
        stripped(t) == t,
    decreases t.len(),
{
    if t.len() > 0 {
        assert(t[0] != '\x1b');
        assert(!has_escape(t.drop_first())) by {
            if has_escape(t.drop_first()) {
                let i = choose|i: int| 0 <= i < t.drop_first().len() && t.drop_first()[i] == '\x1b';
                assert(t[i + 1] == '\x1b');
            }
        }
        lemma_escape_free(t.drop_first());
        assert(seq![t[0]] + t.drop_first() =~= t);
    }
}

proof fn lemma_final_after_code(code: Seq<char>, rest: Seq<char>)
    requires
        color_code(code),
        rest.len() > 0,
        is_final(rest[0]),
    ensures
        final_len(code + rest) == code.len() + 1,
        ends_csi(code + rest),
    decreases code.len(),
{
    if code.len() == 0 {
        assert(code + rest =~= rest);
    } else {
        assert((code + rest)[0] == code[0]);
        assert((code + rest).drop_first() =~= code.drop_first() + rest);
        lemma_final_after_code(code.drop_first(), rest);
    }
}

proof fn lemma_reset()
    ensures
        tidy("\x1b[0m"@),
        stripped("\x1b[0m"@) == Seq::<char>::empty(),
        visible("\x1b[0m"@) == 0,
{
    reveal_strlit("\x1b[0m");
    let r = "\x1b[0m"@;
    let m = seq!['m'];
    let t = seq!['0', 'm'];
    assert(('0' as u32) == 48u32);
    assert(('m' as u32) == 109u32);
    assert(!is_final('0'));
    assert(is_final('m'));
    assert(m[0] == 'm');
    assert(ends_csi(m));
    assert(final_len(m) == 1);
    assert(t[0] == '0');
    assert(t.drop_first() =~= m);
    assert(ends_csi(t));
    assert(final_len(t) == 2);
    assert(csi_start(r));
    assert(r.skip(2) =~= t);
    assert(csi_len(r) == 4);
    let e = Seq::<char>::empty();
    assert(r.skip(4) =~= e);
    assert(tidy(e));
    assert(stripped(e) == e);
    assert(ends_csi(r.skip(2)));
    assert(tidy(r.skip(csi_len(r) as int)));
    assert(stripped(r.skip(csi_len(r) as int)) == e);
    assert(visible(e) == 0);
    assert(visible(r.skip(csi_len(r) as int)) == 0);
}

/// Painting escape-free text with a colour code gives tidy text that shows
/// exactly the text painted and takes exactly its room.
pub proof fn lemma_painted_shows_text(code: Seq<char>, t: Seq<char>)
    requires
        color_code(code),
        !has_escape(t),
    ensures
        tidy(painted(true, code, t)),
        stripped(painted(true, code, t)) == t,
        visible(painted(true, code, t)) == visible(t),
{
    reveal_strlit("\x1b[");
    reveal_strlit("m");
    let p = painted(true, code, t);
    let reset = "\x1b[0m"@;
    lemma_reset();
    lemma_escape_free(t);
    let body = seq!['m'] + t + reset;
    assert(p =~= seq!['\x1b', '['] + code + body);
    assert(csi_start(p));
    assert(p.skip(2) =~= code + body);
    assert(body[0] == 'm');
    lemma_final_after_code(code, body);
    let l = csi_len(p) as int;
    assert(l == code.len() + 3);
    assert(p.skip(l) =~= t + reset);
    lemma_tidy_concat(t, reset);
    lemma_stripped_concat(t, reset);
    lemma_visible_concat(t, reset);
    assert(t + Seq::<char>::empty() =~= t);
}

proof fn lemma_decimal_escape_free(n: nat)
    ensures
        !has_escape(decimal(n)),
    decreases n,
{
    if n >= 10 {
        lemma_decimal_escape_free(n / 10);
        let d = decimal(n / 10);
        assert forall|i: int| 0 <= i < decimal(n).len() implies decimal(n)[i] != '\x1b' by {
            if i < d.len() {
                assert(decimal(n)[i] == d[i]);
            }
        }
    }
}

proof fn lemma_concat_escape_free(a: Seq<char>, b: Seq<char>)
    requires
        !has_escape(a),
        !has_escape(b),
    ensures
        !has_escape(a + b),
{
    assert forall|i: int| 0 <= i < (a + b).len() implies (a + b)[i] != '\x1b' by {
        if i < a.len() {
            assert((a + b)[i] == a[i]);
        } else {
            assert((a + b)[i] == b[i - a.len()]);
        }
    }
}

/// The pieces of a status, each escape-free with a colour code.
pub open spec fn clean_items(items: Seq<Item>) -> bool {
    forall|k: int| 0 <= k < items.len() ==> color_code(#[trigger] items[k].0) && !has_escape(items[k].1)
}

proof fn lemma_joined_strips(items: Seq<Item>)
    requires
        clean_items(items),
    ensures
        tidy(joined(painted_items(items), ", "@)),
        stripped(joined(painted_items(items), ", "@)) == joined(item_texts(items), ", "@),
    decreases items.len(),
{
    reveal_strlit(", ");
    let sep = ", "@;
    assert(!has_escape(sep));
    lemma_escape_free(sep);
    if items.len() == 1 {
        lemma_painted_shows_text(items[0].0, items[0].1);
    } else if items.len() > 1 {
        let front = items.drop_last();
        assert(clean_items(front)) by {
            assert forall|k: int| 0 <= k < front.len() implies color_code(#[trigger] front[k].0)
                && !has_escape(front[k].1) by {
                assert(front[k] == items[k]);
            }
        }
        lemma_joined_strips(front);
        assert(painted_items(items).drop_last() =~= painted_items(front));
        assert(item_texts(items).drop_last() =~= item_texts(front));
        let last = items.last();
        assert(clean_items(items) ==> color_code(items[items.len() - 1].0));
        lemma_painted_shows_text(last.0, last.1);
        let a = joined(painted_items(front), sep);
        let pl = painted(true, last.0, last.1);
        lemma_tidy_concat(a, sep);
        lemma_tidy_concat(a + sep, pl);
        lemma_stripped_concat(a, sep);
        lemma_stripped_concat(a + sep, pl);
    }
}

proof fn lemma_literal_code(code: Seq<char>)
    requires
        code == "31"@ || code == "33"@ || code == "94"@ || code == "32"@,
    ensures
        color_code(code),
{
    reveal_strlit("31");
    reveal_strlit("33");
    reveal_strlit("94");
    reveal_strlit("32");
}

/// The colour codes that `Theme` paints with.
pub open spec fn theme_code(code: Seq<char>) -> bool {
    ||| code == "1;37"@
    ||| code == "1;32"@
    ||| code == "36"@
    ||| code == "33"@
    ||| code == "2"@
    ||| code == "1;36"@
    ||| code == "1"@
    ||| code == "31"@
    ||| code == "32"@
    ||| code == "94"@
}

/// Whatever `Theme` wraps around escape-free text, with colour on or off,
/// the text shown and the room it takes stay those of the text itself.
pub proof fn lemma_theme_keeps_text(color: bool, code: Seq<char>, t: Seq<char>)
    requires
        theme_code(code),
        !has_escape(t),
    ensures
        tidy(painted(color, code, t)),
        stripped(painted(color, code, t)) == t,
        visible(painted(color, code, t)) == visible(t),
{
    reveal_strlit("1;37");
    reveal_strlit("1;32");
    reveal_strlit("36");
    reveal_strlit("33");
    reveal_strlit("2");
    reveal_strlit("1;36");
    reveal_strlit("1");
    reveal_strlit("31");
    reveal_strlit("32");
    reveal_strlit("94");
    assert(('1' as u32) == 49u32);
    assert((';' as u32) == 59u32);
    assert(('2' as u32) == 50u32);
    assert(('3' as u32) == 51u32);
    assert(('4' as u32) == 52u32);
    assert(('6' as u32) == 54u32);
    assert(('7' as u32) == 55u32);
    assert(('9' as u32) == 57u32);
    assert(color_code(code));
    if color {
        lemma_painted_shows_text(code, t);
    } else {
        lemma_escape_free(t);
    }
}

proof fn lemma_items_clean(c: crate::types::StatusCounts, locked: Option<Seq<char>>)
    requires
        locked matches Some(r) ==> !has_escape(r),
    ensures
        clean_items(status_items(c, locked)),
{
    reveal_strlit(" conflicted");
    reveal_strlit(" staged");
    reveal_strlit(" modified");
    reveal_strlit(" untracked");
    reveal_strlit("locked");
    reveal_strlit("locked: ");
    lemma_literal_code("31"@);
    lemma_literal_code("33"@);
    lemma_literal_code("94"@);
    lemma_decimal_escape_free(c.conflicted as nat);
    lemma_decimal_escape_free(c.staged as nat);
    lemma_decimal_escape_free(c.modified as nat);
    lemma_decimal_escape_free(c.untracked as nat);
    lemma_concat_escape_free(decimal(c.conflicted as nat), " conflicted"@);
    lemma_concat_escape_free(decimal(c.staged as nat), " staged"@);
    lemma_concat_escape_free(decimal(c.modified as nat), " modified"@);
    lemma_concat_escape_free(decimal(c.untracked as nat), " untracked"@);
    if let Some(r) = locked {
        lemma_concat_escape_free("locked: "@, r);
    }
    let items = status_items(c, locked);
    let a = count_item(c.conflicted, "31"@, " conflicted"@);
    let b = count_item(c.staged, "33"@, " staged"@);
    let m = count_item(c.modified, "94"@, " modified"@);
    let u = count_item(c.untracked, "31"@, " untracked"@);
    let l = locked_item(locked);
    assert forall|k: int| 0 <= k < items.len() implies color_code(#[trigger] items[k].0) && !has_escape(items[k].1) by {
        let n1 = a.len() as int;
        let n2 = n1 + b.len();
        let n3 = n2 + m.len();
        let n4 = n3 + u.len();
        if k < n1 {
            assert(items[k] == a[k]);
        } else if k < n2 {
            assert(items[k] == b[k - n1]);
        } else if k < n3 {
            assert(items[k] == m[k - n2]);
        } else if k < n4 {
            assert(items[k] == u[k - n3]);
        } else {
            assert(items[k] == l[k - n4]);
        }
    }
}

/// Colouring the status of a worktree only adds escape sequences: with them
/// removed, the coloured summary is exactly the plain one, given a lock
/// reason in which no control sequence starts (a lone escape character is
/// fine). When the reason holds no escape character at all, the coloured
/// summary is also tidy: every escape opens a complete sequence.
pub proof fn lemma_colored_status_shows_plain_status(w: WorktreeModel)
    requires
        w.locked matches Some(r) ==> no_csi_start(r),
    ensures
        stripped(themed_status(true, w)) == status_text(w),
        (w.locked matches Some(r) ==> !has_escape(r)) ==> tidy(themed_status(true, w)),
{
    reveal_strlit("unavailable");
    reveal_strlit("prunable");
    reveal_strlit("bare");
    reveal_strlit("clean");
    lemma_literal_code("31"@);
    lemma_literal_code("33"@);
    lemma_literal_code("32"@);
    match w.availability {
        Availability::Unavailable | Availability::Prunable => {
            lemma_painted_shows_text("31"@, status_text(w));
        },
        Availability::Bare => {
            lemma_painted_shows_text("33"@, "bare"@);
        },
        Availability::Available => match w.status {
            None => {
                lemma_painted_shows_text("31"@, "unavailable"@);
            },
            Some(c) => {
                let items = status_items(c, w.locked);
                if items.len() == 0 {
                    lemma_painted_shows_text("32"@, "clean"@);
                } else {
                    if w.locked matches Some(r) ==> !has_escape(r) {
                        lemma_items_clean(c, w.locked);
                        lemma_joined_strips(items);
                    } else {
                        lemma_items_clean_but_last(c, w.locked);
                        lemma_joined_strips_loose(items);
                    }
                }
            },
        },
    }
}

/// No control sequence starts in `t`: no escape character is followed by `[`.
pub open spec fn no_csi_start(t: Seq<char>) -> bool {
    forall|i: int| #![trigger t[i]] 0 <= i && i + 1 < t.len() ==> !(t[i] == '\x1b' && t[i + 1] == '[')
}

proof fn lemma_escape_free_no_csi(a: Seq<char>, b: Seq<char>)
    requires
        !has_escape(a),
        no_csi_start(b),
    ensures
        no_csi_start(a + b),
{
    let t = a + b;
    assert forall|i: int| 0 <= i && i + 1 < t.len() implies !(#[trigger] t[i] == '\x1b' && t[i + 1] == '[') by {
        if i < a.len() {
            assert(t[i] == a[i]);
        } else {
            assert(t[i] == b[i - a.len()]);
            assert(t[i + 1] == b[i + 1 - a.len()]);
        }
    }
}

proof fn lemma_stripped_plain_prefix(t: Seq<char>, y: Seq<char>)
    requires
        no_csi_start(t),
        y.len() == 0 || y[0] != '[',
    ensures
        stripped(t + y) == t + stripped(y),
    decreases t.len(),
{
    let s = t + y;
    if t.len() == 0 {
        assert(s =~= y);
        assert(t + stripped(y) =~= stripped(y));
    } else {
        assert(s[0] == t[0]);
        if t.len() >= 2 {
            assert(s[1] == t[1]);
            assert(!(t[0] == '\x1b' && t[1] == '['));
        } else if y.len() > 0 {
            assert(s[1] == y[0]);
        }
        assert(!csi_start(s));
        let rest = t.drop_first();
        assert(s.drop_first() =~= rest + y);
        assert(no_csi_start(rest)) by {
            assert forall|i: int| 0 <= i && i + 1 < rest.len() implies !(#[trigger] rest[i] == '\x1b' && rest[i
                + 1] == '[') by {
                assert(rest[i] == t[i + 1]);
                assert(rest[i + 1] == t[i + 2]);
            }
        }
        lemma_stripped_plain_prefix(rest, y);
        assert(seq![t[0]] + (rest + stripped(y)) =~= t + stripped(y));
    }
}

/// Painting text in which no control sequence starts: with the escape
/// sequences removed, exactly the text painted is left.
pub proof fn lemma_painted_strips(code: Seq<char>, t: Seq<char>)
    requires
        color_code(code),
        no_csi_start(t),
    ensures
        stripped(painted(true, code, t)) == t,
{
    reveal_strlit("\x1b[");
    reveal_strlit("m");
    reveal_strlit("\x1b[0m");
    let p = painted(true, code, t);
    let reset = "\x1b[0m"@;
    lemma_reset();
    let body = seq!['m'] + t + reset;
    assert(p =~= seq!['\x1b', '['] + code + body);
    assert(csi_start(p));
    assert(p.skip(2) =~= code + body);
    assert(body[0] == 'm');
    lemma_final_after_code(code, body);
    let l = csi_len(p) as int;
    assert(l == code.len() + 3);
    assert(p.skip(l) =~= t + reset);
    assert(reset[0] == '\x1b');
    lemma_stripped_plain_prefix(t, reset);
    assert(t + Seq::<char>::empty() =~= t);
}

/// Status pieces with colour codes, all escape-free but the last, in which
/// no control sequence starts.
pub open spec fn clean_but_last(items: Seq<Item>) -> bool {
    items.len() > 0 ==> {
        &&& clean_items(items.drop_last())
        &&& color_code(items.last().0)
        &&& no_csi_start(items.last().1)
    }
}

proof fn lemma_joined_strips_loose(items: Seq<Item>)
    requires
        clean_but_last(items),
    ensures
        stripped(joined(painted_items(items), ", "@)) == joined(item_texts(items), ", "@),
{
    reveal_strlit(", ");
    let sep = ", "@;
    assert(!has_escape(sep));
    lemma_escape_free(sep);
    if items.len() == 1 {
        assert(items.last() == items[0]);
        lemma_painted_strips(items[0].0, items[0].1);
    } else if items.len() > 1 {
        let front = items.drop_last();
        lemma_joined_strips(front);
        assert(painted_items(items).drop_last() =~= painted_items(front));
        assert(item_texts(items).drop_last() =~= item_texts(front));
        let last = items.last();
        lemma_painted_strips(last.0, last.1);
        let a = joined(painted_items(front), sep);
        let pl = painted(true, last.0, last.1);
        lemma_tidy_concat(a, sep);
        lemma_stripped_concat(a, sep);
        lemma_stripped_concat(a + sep, pl);
    }
}

proof fn lemma_items_clean_but_last(c: crate::types::StatusCounts, locked: Option<Seq<char>>)
    requires
        locked matches Some(r) ==> no_csi_start(r),
    ensures
        clean_but_last(status_items(c, locked)),
{
    match locked {
        None => {
            lemma_items_clean(c, locked);
            let items = status_items(c, locked);
            if items.len() > 0 {
                assert(items.last() == items[items.len() - 1]);
                assert(clean_items(items.drop_last())) by {
                    assert forall|k: int| 0 <= k < items.drop_last().len() implies color_code(
                        #[trigger] items.drop_last()[k].0,
                    ) && !has_escape(items.drop_last()[k].1) by {
                        assert(items.drop_last()[k] == items[k]);
                        assert(color_code(items[k].0) && !has_escape(items[k].1));
                    }
                }
                assert(color_code(items[items.len() - 1].0) && !has_escape(items[items.len() - 1].1));
                lemma_escape_free_no_csi(items.last().1, Seq::<char>::empty());
                assert(items.last().1 + Seq::<char>::empty() =~= items.last().1);
            }
        },
        Some(r) => {
            reveal_strlit("locked");
            reveal_strlit("locked: ");
            lemma_items_clean(c, None);
            let counts = status_items(c, None);
            let items = status_items(c, locked);
            assert(items =~= counts + locked_item(locked));
            assert(items.drop_last() =~= counts);
            lemma_literal_code("33"@);
            let text = if r.len() == 0 { "locked"@ } else { "locked: "@ + r };
            assert(items.last() == ("33"@, text));
            if r.len() == 0 {
                lemma_escape_free_no_csi("locked"@, Seq::<char>::empty());
                assert("locked"@ + Seq::<char>::empty() =~= "locked"@);
            } else {
                lemma_escape_free_no_csi("locked: "@, r);
            }
        },
    }
}

} // verus!
