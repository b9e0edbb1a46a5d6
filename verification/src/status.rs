//! The one-line status summary of a worktree.
use vstd::prelude::*;
use crate::text::{decimal, joined, texts, owned, push_decimal, push_text, join};
use crate::types::{Availability, StatusCounts, Worktree, WorktreeModel, opt_text};

verus! {

/// A colour code paired with a piece of status text.
pub type Item = (Seq<char>, Seq<char>);

/// The piece for `n` files in one state, if there are any.
pub open spec fn count_item(n: usize, code: Seq<char>, label: Seq<char>) -> Seq<Item> {
    if n > 0 {
        seq![(code, decimal(n as nat) + label)]
    } else {
        seq![]
    }
}

/// The piece that reports a lock, with its reason when there is one.
pub open spec fn locked_item(locked: Option<Seq<char>>) -> Seq<Item> {
    match locked {
        Some(r) => seq![("33"@, if r.len() == 0 { "locked"@ } else { "locked: "@ + r })],
        None => seq![],
    }
}

/// The pieces of the status of an available worktree, in display order.
pub open spec fn status_items(c: StatusCounts, locked: Option<Seq<char>>) -> Seq<Item> {
    count_item(c.conflicted, "31"@, " conflicted"@) + count_item(c.staged, "33"@, " staged"@)
        + count_item(c.modified, "94"@, " modified"@) + count_item(
        c.untracked,
        "31"@,
        " untracked"@,
    ) + locked_item(locked)
}

/// The texts of the pieces.
pub open spec fn item_texts(items: Seq<Item>) -> Seq<Seq<char>> {
    items.map_values(|p: Item| p.1)
}

/// The status summary of a worktree.
pub open spec fn status_text(w: WorktreeModel) -> Seq<char> {
    match w.availability {
        Availability::Prunable => "prunable"@,
        Availability::Bare => "bare"@,
        Availability::Unavailable => "unavailable"@,
        Availability::Available => match w.status {
            None => "unavailable"@,
            Some(c) => {
                let items = status_items(c, w.locked);
                if items.len() == 0 {
                    "clean"@
                } else {
                    joined(item_texts(items), ", "@)
                }
            },
        },
    }
}

/// The views of computed pieces.
pub open spec fn item_views(v: Seq<(&'static str, String)>) -> Seq<Item> {
    v.map_values(|p: (&'static str, String)| (p.0@, p.1@))
}

fn push_count(items: &mut Vec<(&'static str, String)>, n: usize, code: &'static str, label: &str)
    ensures
        item_views(final(items)@) =~= item_views(old(items)@) + count_item(n, code@, label@),
{
    if n > 0 {
        let mut s = String::new();
        push_decimal(&mut s, n);
        push_text(&mut s, label);
        items.push((code, s));
        assert(item_views(items@) =~= item_views(old(items)@) + count_item(n, code@, label@));
    } else {
        assert(item_views(items@) =~= item_views(old(items)@) + count_item(n, code@, label@));
    }
}

/// The pieces of the status of an available worktree with counts `c`.
pub(crate) fn items_for(c: &StatusCounts, locked: &Option<String>) -> (items: Vec<(&'static str, String)>)
    ensures
        item_views(items@) == status_items(*c, opt_text(*locked)),
{
    let mut items: Vec<(&'static str, String)> = Vec::new();
    assert(item_views(items@) =~= Seq::<Item>::empty());
    push_count(&mut items, c.conflicted, "31", " conflicted");
    push_count(&mut items, c.staged, "33", " staged");
    push_count(&mut items, c.modified, "94", " modified");
    push_count(&mut items, c.untracked, "31", " untracked");
    let ghost before = item_views(items@);
    match locked {
        Some(reason) => {
            let label = if reason.as_str().is_empty() {
                owned("locked")
            } else {
                let mut s = owned("locked: ");
                push_text(&mut s, reason.as_str());
                s
            };
            items.push(("33", label));
        },
        None => {},
    }
    assert(item_views(items@) =~= before + locked_item(opt_text(*locked)));
    items
}

/// The texts of computed pieces, in order.
pub(crate) fn texts_of(items: &Vec<(&'static str, String)>) -> (v: Vec<String>)
    ensures
        texts(v@) == item_texts(item_views(items@)),
{
    let mut v: Vec<String> = Vec::new();
    let mut i: usize = 0;
    while i < items.len()
        invariant
            0 <= i <= items.len(),
            v@.len() == i,
            texts(v@) =~= item_texts(item_views(items@)).take(i as int),
        decreases items.len() - i,
    {
        let t = items[i].1.clone();
        assert(t@ == item_views(items@)[i as int].1);
        let ghost prev = v@;
        v.push(t);
        assert(v@ == prev.push(t));
        i += 1;
        assert forall|j: int| 0 <= j < i implies texts(v@)[j] == item_texts(item_views(items@))[j] by {
            if j < i - 1 {
                assert(texts(prev)[j] == item_texts(item_views(items@)).take(i - 1)[j]);
            }
        }
        assert(texts(v@) =~= item_texts(item_views(items@)).take(i as int));
    }
    assert(item_texts(item_views(items@)).take(i as int) =~= item_texts(item_views(items@)));
    v
}

/// The status summary of a worktree: its availability when it cannot be
/// inspected, otherwise its non-zero file counts and lock, or `clean`.
pub fn format(worktree: &Worktree) -> (s: String)
    ensures
        s@ == status_text(worktree@),
{
    match worktree.availability {
        Availability::Prunable => return owned("prunable"),
        Availability::Bare => return owned("bare"),
        Availability::Unavailable => return owned("unavailable"),
        Availability::Available => {},
    }
    let c = match &worktree.status {
        Some(c) => c,
        None => return owned("unavailable"),
    };
    let items = items_for(c, &worktree.locked);
    if items.len() == 0 {
        owned("clean")
    } else {
        join(&texts_of(&items), ", ")
    }
}

proof fn lemma_decimal_starts_with_digit(n: nat)
    ensures
        decimal(n).len() > 0,
        48 <= (decimal(n)[0] as u32) <= 57,
    decreases n,
{
    if n >= 10 {
        lemma_decimal_starts_with_digit(n / 10);
    }
}

proof fn lemma_joined_first(parts: Seq<Seq<char>>, sep: Seq<char>)
    requires
        parts.len() > 0,
        parts[0].len() > 0,
    ensures
        joined(parts, sep).len() > 0,
        joined(parts, sep)[0] == parts[0][0],
    decreases parts.len(),
{
    if parts.len() > 1 {
        lemma_joined_first(parts.drop_last(), sep);
    }
}

/// A worktree reads `clean` exactly when it is available, its status was
/// read, no file is in any state, and it is not locked.
pub proof fn lemma_clean_exactly_when_untouched(w: WorktreeModel)
    ensures
        status_text(w) == "clean"@ <==> (w.availability == Availability::Available && (w.status matches Some(c)
            && c.conflicted == 0 && c.staged == 0 && c.modified == 0 && c.untracked == 0)
            && w.locked is None),
{
    reveal_strlit("clean");
    reveal_strlit("prunable");
    reveal_strlit("bare");
    reveal_strlit("unavailable");
    reveal_strlit("locked");
    reveal_strlit("locked: ");
    if w.availability == Availability::Available {
        if let Some(c) = w.status {
            let items = status_items(c, w.locked);
            if items.len() > 0 {
                let first = items[0];
                assert(first.1.len() > 0 && first.1[0] != 'c') by {
                    if c.conflicted > 0 {
                        lemma_decimal_starts_with_digit(c.conflicted as nat);
                    } else if c.staged > 0 {
                        lemma_decimal_starts_with_digit(c.staged as nat);
                    } else if c.modified > 0 {
                        lemma_decimal_starts_with_digit(c.modified as nat);
                    } else if c.untracked > 0 {
                        lemma_decimal_starts_with_digit(c.untracked as nat);
                    }
                }
                assert(item_texts(items)[0] == first.1);
                lemma_joined_first(item_texts(items), ", "@);
                assert(status_text(w)[0] != "clean"@[0]);
            } else {
                assert(count_item(c.conflicted, "31"@, " conflicted"@).len() == 0);
                assert(count_item(c.staged, "33"@, " staged"@).len() == 0);
                assert(count_item(c.modified, "94"@, " modified"@).len() == 0);
                assert(count_item(c.untracked, "31"@, " untracked"@).len() == 0);
                assert(locked_item(w.locked).len() == 0);
            }
        } else {
            assert("unavailable"@.len() != "clean"@.len());
        }
    } else {
        assert("unavailable"@.len() != "clean"@.len());
        assert("prunable"@.len() != "clean"@.len());
        assert("bare"@.len() != "clean"@.len());
    }
}

} // verus!
