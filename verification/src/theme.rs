//! ANSI colouring of table cells and hints.
use vstd::prelude::*;
use crate::status::{item_views, items_for, status_items, status_text, Item};
use crate::text::{joined, owned, push_text, texts};
use crate::types::{Availability, Worktree, WorktreeModel};

verus! {

/// `s` wrapped in the escape sequence for `code` and a reset, when colour is on.
pub open spec fn painted(color: bool, code: Seq<char>, s: Seq<char>) -> Seq<char> {
    if color {
        "\x1b["@ + code + "m"@ + s + "\x1b[0m"@
    } else {
        s
    }
}

/// Every piece of a status, painted in its own colour.
pub open spec fn painted_items(items: Seq<Item>) -> Seq<Seq<char>> {
    items.map_values(|p: Item| painted(true, p.0, p.1))
}

/// The status summary of a worktree as the theme shows it.
pub open spec fn themed_status(color: bool, w: WorktreeModel) -> Seq<char> {
    if !color {
        status_text(w)
    } else {
        match w.availability {
            Availability::Unavailable | Availability::Prunable => painted(
                true,
                "31"@,
                status_text(w),
            ),
            Availability::Bare => painted(true, "33"@, "bare"@),
            Availability::Available => match w.status {
                None => painted(true, "31"@, "unavailable"@),
                Some(c) => {
                    let items = status_items(c, w.locked);
                    if items.len() == 0 {
                        painted(true, "32"@, "clean"@)
                    } else {
                        joined(painted_items(items), ", "@)
                    }
                },
            },
        }
    }
}

/// Whether output is coloured.
pub struct Theme {
    pub color: bool,
}

impl Theme {
    fn wrap(&self, code: &str, s: &str) -> (r: String)
        ensures
            r@ == painted(self.color, code@, s@),
    {
        if self.color {
            let mut r = owned("\x1b[");
            push_text(&mut r, code);
            push_text(&mut r, "m");
            push_text(&mut r, s);
            push_text(&mut r, "\x1b[0m");
            r
        } else {
            owned(s)
        }
    }

    /// Bold white, for column headers.
    pub fn header(&self, s: &str) -> (r: String)
        ensures
            r@ == painted(self.color, "1;37"@, s@),
    {
        self.wrap("1;37", s)
    }

    /// Bold green, for the current-worktree marker.
    pub fn current(&self, s: &str) -> (r: String)
        ensures
            r@ == painted(self.color, "1;32"@, s@),
    {
        self.wrap("1;32", s)
    }

    /// Cyan, for branch names.
    pub fn branch(&self, s: &str) -> (r: String)
        ensures
            r@ == painted(self.color, "36"@, s@),
    {
        self.wrap("36", s)
    }

    /// Yellow, for branches checked out elsewhere.
    pub fn occupied_branch(&self, s: &str) -> (r: String)
        ensures
            r@ == painted(self.color, "33"@, s@),
    {
        self.wrap("33", s)
    }

    /// Yellow, for a detached HEAD.
    pub fn detached(&self, s: &str) -> (r: String)
        ensures
            r@ == painted(self.color, "33"@, s@),
    {
        self.wrap("33", s)
    }

    /// Dim, for commit ids.
    pub fn commit(&self, s: &str) -> (r: String)
        ensures
            r@ == painted(self.color, "2"@, s@),
    {
        self.wrap("2", s)
    }

    /// Bold cyan, for the selected row.
    pub fn selected(&self, s: &str) -> (r: String)
        ensures
            r@ == painted(self.color, "1;36"@, s@),
    {
        self.wrap("1;36", s)
    }

    /// Dim, for hints.
    pub fn hint(&self, s: &str) -> (r: String)
        ensures
            r@ == painted(self.color, "2"@, s@),
    {
        self.wrap("2", s)
    }

    /// Bold, for key names.
    pub fn key(&self, s: &str) -> (r: String)
        ensures
            r@ == painted(self.color, "1"@, s@),
    {
        self.wrap("1", s)
    }

    /// Bold, for the path of the selected row.
    pub fn wrap_selected_path(&self, s: &str) -> (r: String)
        ensures
            r@ == painted(self.color, "1"@, s@),
    {
        self.wrap("1", s)
    }

    /// The status summary, each piece in its colour; without colour exactly
    /// the plain summary.
    pub fn status(&self, w: &Worktree) -> (r: String)
        ensures
            r@ == themed_status(self.color, w@),
            !self.color ==> r@ == status_text(w@),
    {
        if !self.color {
            return crate::status::format(w);
        }
        match w.availability {
            Availability::Unavailable | Availability::Prunable => {
                let plain = crate::status::format(w);
                return self.wrap("31", plain.as_str());
            },
            Availability::Bare => return self.wrap("33", "bare"),
            Availability::Available => {},
        }
        let c = match &w.status {
            Some(c) => c,
            None => return self.wrap("31", "unavailable"),
        };
        let items = items_for(c, &w.locked);
        if items.len() == 0 {
            return self.wrap("32", "clean");
        }
        let mut parts: Vec<String> = Vec::new();
        let mut i: usize = 0;
        while i < items.len()
            invariant
                self.color,
                0 <= i <= items.len(),
                parts@.len() == i,
                texts(parts@) =~= painted_items(item_views(items@)).take(i as int),
            decreases items.len() - i,
        {
            let p = self.wrap(items[i].0, items[i].1.as_str());
            let ghost prev = parts@;
            parts.push(p);
            i += 1;
            assert forall|j: int| 0 <= j < i implies texts(parts@)[j] == painted_items(
                item_views(items@),
            )[j] by {
                if j < i - 1 {
                    assert(texts(prev)[j] == painted_items(item_views(items@)).take(i - 1)[j]);
                }
            }
            assert(texts(parts@) =~= painted_items(item_views(items@)).take(i as int));
        }
        assert(painted_items(item_views(items@)).take(i as int) =~= painted_items(
            item_views(items@),
        ));
        crate::text::join(&parts, ", ")
    }
}

} // verus!
